//! Lap records and the parsing of one beacon frame into a record.
//!
//! A frame's text carries three whitespace-delimited tokens: a sequence
//! number (possibly padded with NUL characters), a channel code, and an
//! opaque timestamp. The channel code is mapped leniently: any token other
//! than `B` or `C` is read as channel `A`, the hardware's default channel.

use vstd::prelude::*;

verus! {

/// One of the three measurement channels a beacon message can report.
#[derive(Clone, Copy, Debug, PartialEq, Eq, Structural)]
pub enum Channel {
    A,
    B,
    C,
}

/// Why a frame's text could not be read as a lap record.
#[derive(Clone, Copy, Debug, PartialEq, Eq, Structural)]
pub enum ParseError {
    /// The frame holds no token at all where the sequence number belongs.
    MissingSequence,
    /// The first token is not an unsigned decimal number that fits the machine.
    InvalidSequence,
    /// The frame ends before a channel token.
    MissingChannel,
    /// The frame ends before a timestamp token.
    MissingTime,
}

/// Whitespace, as the tokenizer understands it: the Unicode White_Space
/// set (tab through carriage return, space, next line, no-break space,
/// ogham space mark, the en-quad..hair-space run, the line and paragraph
/// separators, narrow no-break space, medium mathematical space, and
/// ideographic space).
pub open spec fn is_space(c: char) -> bool {
    let u = c as u32;
    (9 <= u && u <= 13) || u == 32 || u == 0x85 || u == 0xA0 || u == 0x1680 || (0x2000 <= u && u
        <= 0x200A) || u == 0x2028 || u == 0x2029 || u == 0x202F || u == 0x205F || u == 0x3000
}

/// The NUL padding some hardware emits around the sequence number.
pub open spec fn is_nul(c: char) -> bool {
    c == '\0'
}

/// An ASCII decimal digit.
pub open spec fn is_digit(c: char) -> bool {
    48 <= c as u32 && c as u32 <= 57
}

/// Numeric value of a decimal digit.
pub open spec fn digit_val(c: char) -> nat {
    (c as u32 - 48) as nat
}

/// Length of the longest prefix of `s` made of whitespace.
pub open spec fn count_spaces(s: Seq<char>) -> nat
    decreases s.len(),
{
    if s.len() == 0 || !is_space(s[0]) {
        0
    } else {
        1 + count_spaces(s.drop_first())
    }
}

/// Length of the longest prefix of `s` made of non-whitespace.
pub open spec fn count_token(s: Seq<char>) -> nat
    decreases s.len(),
{
    if s.len() == 0 || is_space(s[0]) {
        0
    } else {
        1 + count_token(s.drop_first())
    }
}

/// Length of the longest prefix of `s` made of NUL characters.
pub open spec fn count_nuls(s: Seq<char>) -> nat
    decreases s.len(),
{
    if s.len() == 0 || !is_nul(s[0]) {
        0
    } else {
        1 + count_nuls(s.drop_first())
    }
}

/// Length of the longest suffix of `s` made of NUL characters.
pub open spec fn count_nuls_rev(s: Seq<char>) -> nat
    decreases s.len(),
{
    if s.len() == 0 || !is_nul(s.last()) {
        0
    } else {
        1 + count_nuls_rev(s.drop_last())
    }
}

/// A prefix of whitespace of length `k`, ended by the sequence's end or by a
/// non-whitespace character, is the longest one.
pub proof fn lemma_count_spaces_is(s: Seq<char>, k: int)
    requires
        0 <= k <= s.len(),
        forall|j: int| 0 <= j < k ==> is_space(s[j]),
        k < s.len() ==> !is_space(s[k]),
    ensures
        count_spaces(s) == k,
    decreases s.len(),
{
    if k == 0 {
    } else {
        assert(is_space(s[0]));
        assert forall|j: int| 0 <= j < k - 1 implies is_space(s.drop_first()[j]) by {
            assert(s.drop_first()[j] == s[j + 1]);
        }
        if k - 1 < s.drop_first().len() {
            assert(s.drop_first()[k - 1] == s[k]);
        }
        lemma_count_spaces_is(s.drop_first(), k - 1);
    }
}

/// A prefix of non-whitespace of length `k`, ended by the sequence's end or by
/// a whitespace character, is the longest one.
pub proof fn lemma_count_token_is(s: Seq<char>, k: int)
    requires
        0 <= k <= s.len(),
        forall|j: int| 0 <= j < k ==> !is_space(s[j]),
        k < s.len() ==> is_space(s[k]),
    ensures
        count_token(s) == k,
    decreases s.len(),
{
    if k == 0 {
    } else {
        assert(!is_space(s[0]));
        assert forall|j: int| 0 <= j < k - 1 implies !is_space(s.drop_first()[j]) by {
            assert(s.drop_first()[j] == s[j + 1]);
        }
        if k - 1 < s.drop_first().len() {
            assert(s.drop_first()[k - 1] == s[k]);
        }
        lemma_count_token_is(s.drop_first(), k - 1);
    }
}

/// A prefix of NULs of length `k`, ended by the sequence's end or by a
/// non-NUL character, is the longest one.
pub proof fn lemma_count_nuls_is(s: Seq<char>, k: int)
    requires
        0 <= k <= s.len(),
        forall|j: int| 0 <= j < k ==> is_nul(s[j]),
        k < s.len() ==> !is_nul(s[k]),
    ensures
        count_nuls(s) == k,
    decreases s.len(),
{
    if k == 0 {
    } else {
        assert(is_nul(s[0]));
        assert forall|j: int| 0 <= j < k - 1 implies is_nul(s.drop_first()[j]) by {
            assert(s.drop_first()[j] == s[j + 1]);
        }
        if k - 1 < s.drop_first().len() {
            assert(s.drop_first()[k - 1] == s[k]);
        }
        lemma_count_nuls_is(s.drop_first(), k - 1);
    }
}

/// A suffix of NULs of length `k`, preceded by the sequence's start or by a
/// non-NUL character, is the longest one.
pub proof fn lemma_count_nuls_rev_is(s: Seq<char>, k: int)
    requires
        0 <= k <= s.len(),
        forall|j: int| s.len() - k <= j < s.len() ==> is_nul(s[j]),
        k < s.len() ==> !is_nul(s[s.len() - k - 1]),
    ensures
        count_nuls_rev(s) == k,
    decreases s.len(),
{
    if k == 0 {
    } else {
        assert(is_nul(s.last()));
        let t = s.drop_last();
        assert forall|j: int| t.len() - (k - 1) <= j < t.len() implies is_nul(t[j]) by {
            assert(t[j] == s[j]);
        }
        if k - 1 < t.len() {
            assert(t[t.len() - (k - 1) - 1] == s[s.len() - k - 1]);
        }
        lemma_count_nuls_rev_is(t, k - 1);
    }
}

/// The first token with its leading and trailing NUL padding removed.
pub open spec fn trim_nuls(t: Seq<char>) -> Seq<char> {
    let u = t.skip(count_nuls(t) as int);
    u.take((u.len() - count_nuls_rev(u)) as int)
}

/// The digits of an unsigned decimal token, allowing one leading plus sign.
pub open spec fn digits_of(t: Seq<char>) -> Seq<char> {
    if t.len() > 0 && t[0] == '+' {
        t.drop_first()
    } else {
        t
    }
}

/// Whether `t` is one or more decimal digits.
pub open spec fn is_dec_digits(t: Seq<char>) -> bool {
    t.len() > 0 && forall|i: int| 0 <= i < t.len() ==> is_digit(#[trigger] t[i])
}

/// The value of a string of decimal digits, most significant first.
pub open spec fn dec_val(t: Seq<char>) -> nat
    decreases t.len(),
{
    if t.len() == 0 {
        0
    } else {
        dec_val(t.drop_last()) * 10 + digit_val(t.last())
    }
}

/// What parsing the sequence-number token yields: the number it denotes, if
/// it is an unsigned decimal (with optional leading `+`) whose value fits.
pub open spec fn spec_parse_seq_number(t: Seq<char>) -> Option<nat> {
    let d = digits_of(t);
    if is_dec_digits(d) && dec_val(d) <= usize::MAX {
        Some(dec_val(d))
    } else {
        None
    }
}

/// The value of a digit string never shrinks as digits are appended.
pub proof fn lemma_dec_val_prefix(t: Seq<char>, i: int)
    requires
        0 <= i <= t.len(),
    ensures
        dec_val(t.take(i)) <= dec_val(t),
    decreases t.len() - i,
{
    if i == t.len() {
        assert(t.take(i) =~= t);
    } else {
        lemma_dec_val_prefix(t, i + 1);
        assert(t.take(i + 1).drop_last() =~= t.take(i));
        assert(dec_val(t.take(i + 1)) == dec_val(t.take(i)) * 10 + digit_val(t.take(i + 1).last()));
        assert(dec_val(t.take(i)) <= dec_val(t.take(i)) * 10);
    }
}

/// The lenient reading of a channel token: `B` and `C` name their channels,
/// anything else is read as channel `A`.
pub open spec fn spec_channel_of_code(t: Seq<char>) -> Channel {
    if t == seq!['B'] {
        Channel::B
    } else if t == seq!['C'] {
        Channel::C
    } else {
        Channel::A
    }
}

/// The strict reading of a channel token: only `A`, `B` and `C` are accepted.
pub open spec fn spec_channel_strict(t: Seq<char>) -> Option<Channel> {
    if t == seq!['A'] {
        Some(Channel::A)
    } else if t == seq!['B'] {
        Some(Channel::B)
    } else if t == seq!['C'] {
        Some(Channel::C)
    } else {
        None
    }
}

impl Channel {
    /// The single-letter code of this channel, as spelled in a beacon message.
    pub open spec fn code_spec(self) -> Seq<char> {
        match self {
            Channel::A => seq!['A'],
            Channel::B => seq!['B'],
            Channel::C => seq!['C'],
        }
    }

    /// The single-letter code of this channel, as spelled in a beacon message.
    pub fn code(&self) -> (r: &'static str)
        ensures
            r@ == self.code_spec(),
    {
        match self {
            Channel::A => {
                let s = "A";
                proof {
                    reveal_strlit("A");
                    assert(s@ =~= self.code_spec());
                }
                s
            },
            Channel::B => {
                let s = "B";
                proof {
                    reveal_strlit("B");
                    assert(s@ =~= self.code_spec());
                }
                s
            },
            Channel::C => {
                let s = "C";
                proof {
                    reveal_strlit("C");
                    assert(s@ =~= self.code_spec());
                }
                s
            },
        }
    }

    /// Lenient mapping from a channel token, defaulting to channel `A` for
    /// any unrecognized token.
    pub fn from_code(t: &str) -> (r: Channel)
        ensures
            r == spec_channel_of_code(t@),
    {
        if t.unicode_len() == 1 {
            let c = t.get_char(0);
            proof {
                assert(t@ =~= seq![t@[0]]);
            }
            if c == 'B' {
                Channel::B
            } else if c == 'C' {
                Channel::C
            } else {
                Channel::A
            }
        } else {
            Channel::A
        }
    }

    /// Strict mapping from a channel token: `None` for any token that is not
    /// exactly one of the three channel codes.
    pub fn parse(t: &str) -> (r: Option<Channel>)
        ensures
            r == spec_channel_strict(t@),
    {
        if t.unicode_len() == 1 {
            let c = t.get_char(0);
            proof {
                assert(t@ =~= seq![t@[0]]);
            }
            if c == 'A' {
                Some(Channel::A)
            } else if c == 'B' {
                Some(Channel::B)
            } else if c == 'C' {
                Some(Channel::C)
            } else {
                None
            }
        } else {
            None
        }
    }
}

/// Whitespace test on one character.
fn char_is_space(c: char) -> (b: bool)
    ensures
        b == is_space(c),
{
    let u = c as u32;
    (9 <= u && u <= 13) || u == 32 || u == 0x85 || u == 0xA0 || u == 0x1680 || (0x2000 <= u && u
        <= 0x200A) || u == 0x2028 || u == 0x2029 || u == 0x202F || u == 0x205F || u == 0x3000
}

/// First position at or after `from` that does not hold whitespace.
fn scan_spaces(s: &str, from: usize) -> (r: usize)
    requires
        from <= s@.len(),
    ensures
        from <= r <= s@.len(),
        r - from == count_spaces(s@.skip(from as int)),
        r < s@.len() ==> !is_space(s@[r as int]),
{
    let len = s.unicode_len();
    let mut i = from;
    while i < len
        invariant
            from <= i <= len,
            len == s@.len(),
            forall|j: int| from <= j < i ==> is_space(#[trigger] s@[j]),
        ensures
            from <= i <= len,
            forall|j: int| from <= j < i ==> is_space(#[trigger] s@[j]),
            i == len || !is_space(s@[i as int]),
        decreases len - i,
    {
        if !char_is_space(s.get_char(i)) {
            break;
        }
        i += 1;
    }
    proof {
        let t = s@.skip(from as int);
        assert forall|j: int| 0 <= j < i - from implies is_space(#[trigger] t[j]) by {
            assert(t[j] == s@[from + j]);
        }
        if i - from < t.len() {
            assert(t[i - from] == s@[i as int]);
        }
        lemma_count_spaces_is(t, i - from);
    }
    i
}

/// First position at or after `from` that holds whitespace, or the end.
fn scan_token(s: &str, from: usize) -> (r: usize)
    requires
        from <= s@.len(),
    ensures
        from <= r <= s@.len(),
        r - from == count_token(s@.skip(from as int)),
        r < s@.len() ==> is_space(s@[r as int]),
{
    let len = s.unicode_len();
    let mut i = from;
    while i < len
        invariant
            from <= i <= len,
            len == s@.len(),
            forall|j: int| from <= j < i ==> !is_space(#[trigger] s@[j]),
        ensures
            from <= i <= len,
            forall|j: int| from <= j < i ==> !is_space(#[trigger] s@[j]),
            i == len || is_space(s@[i as int]),
        decreases len - i,
    {
        if char_is_space(s.get_char(i)) {
            break;
        }
        i += 1;
    }
    proof {
        let t = s@.skip(from as int);
        assert forall|j: int| 0 <= j < i - from implies !is_space(#[trigger] t[j]) by {
            assert(t[j] == s@[from + j]);
        }
        if i - from < t.len() {
            assert(t[i - from] == s@[i as int]);
        }
        lemma_count_token_is(t, i - from);
    }
    i
}

/// Number of leading NUL characters of `s`.
fn scan_nuls(s: &str) -> (r: usize)
    ensures
        r == count_nuls(s@),
        r <= s@.len(),
        forall|j: int| 0 <= j < r ==> is_nul(#[trigger] s@[j]),
        r < s@.len() ==> !is_nul(s@[r as int]),
{
    let len = s.unicode_len();
    let mut i: usize = 0;
    while i < len
        invariant
            0 <= i <= len,
            len == s@.len(),
            forall|j: int| 0 <= j < i ==> is_nul(#[trigger] s@[j]),
        ensures
            0 <= i <= len,
            forall|j: int| 0 <= j < i ==> is_nul(#[trigger] s@[j]),
            i == len || !is_nul(s@[i as int]),
        decreases len - i,
    {
        if s.get_char(i) != '\0' {
            break;
        }
        i += 1;
    }
    proof {
        lemma_count_nuls_is(s@, i as int);
    }
    i
}

/// Number of trailing NUL characters of `s`.
fn scan_nuls_rev(s: &str) -> (r: usize)
    ensures
        r == count_nuls_rev(s@),
        r <= s@.len(),
        forall|k: int| s@.len() - r <= k < s@.len() ==> is_nul(#[trigger] s@[k]),
        r < s@.len() ==> !is_nul(s@[s@.len() - r - 1]),
{
    let len = s.unicode_len();
    let mut j = len;
    while j > 0
        invariant
            0 <= j <= len,
            len == s@.len(),
            forall|k: int| j <= k < len ==> is_nul(#[trigger] s@[k]),
        ensures
            0 <= j <= len,
            forall|k: int| j <= k < len ==> is_nul(#[trigger] s@[k]),
            j == 0 || !is_nul(s@[j - 1]),
        decreases j,
    {
        if s.get_char(j - 1) != '\0' {
            break;
        }
        j -= 1;
    }
    proof {
        lemma_count_nuls_rev_is(s@, len - j);
    }
    len - j
}

/// Parse an unsigned decimal token (optionally led by `+`), rejecting any
/// token whose value does not fit the machine's word.
fn parse_seq_number(t: &str) -> (r: Option<usize>)
    ensures
        match r {
            Some(v) => spec_parse_seq_number(t@) == Some(v as nat),
            None => spec_parse_seq_number(t@) is None,
        },
{
    let len = t.unicode_len();
    if len == 0 {
        return None;
    }
    let start: usize = if t.get_char(0) == '+' {
        1
    } else {
        0
    };
    let ghost d = digits_of(t@);
    proof {
        if start == 1 {
            assert(d =~= t@.skip(1));
        } else {
            assert(d =~= t@.skip(0));
        }
    }
    if start == len {
        return None;
    }
    let mut val: usize = 0;
    let mut i = start;
    while i < len
        invariant
            start <= i <= len,
            len == t@.len(),
            d == t@.skip(start as int),
            d == digits_of(t@),
            forall|j: int| 0 <= j < i - start ==> is_digit(#[trigger] d[j]),
            val == dec_val(d.take(i - start)),
        decreases len - i,
    {
        let c = t.get_char(i);
        let u = c as u32;
        proof {
            assert(d[i - start] == t@[i as int]);
        }
        if u < 48 || u > 57 {
            return None;
        }
        let dv = (u - 48) as usize;
        proof {
            assert(d.take(i - start + 1).drop_last() =~= d.take(i - start));
            assert(d.take(i - start + 1).last() == d[i - start]);
        }
        if val > (usize::MAX - dv) / 10 {
            proof {
                assert(dec_val(d.take(i - start + 1)) == val * 10 + dv);
                assert(dec_val(d.take(i - start + 1)) > usize::MAX);
                lemma_dec_val_prefix(d, i - start + 1);
            }
            return None;
        }
        val = val * 10 + dv;
        i += 1;
    }
    proof {
        assert(d.take(len - start) =~= d);
    }
    Some(val)
}

/// The decimal digit character for a value below ten.
pub open spec fn char_of_digit(d: nat) -> char {
    if d == 0 {
        '0'
    } else if d == 1 {
        '1'
    } else if d == 2 {
        '2'
    } else if d == 3 {
        '3'
    } else if d == 4 {
        '4'
    } else if d == 5 {
        '5'
    } else if d == 6 {
        '6'
    } else if d == 7 {
        '7'
    } else if d == 8 {
        '8'
    } else {
        '9'
    }
}

/// The canonical decimal spelling of a number: one or more digits, most
/// significant first, no leading zero.
pub open spec fn spec_decimal(n: nat) -> Seq<char>
    decreases n,
{
    if n < 10 {
        seq![char_of_digit(n)]
    } else {
        spec_decimal(n / 10).push(char_of_digit(n % 10))
    }
}

/// The decimal spelling denotes the number it was made from: all digits,
/// no leading zero (unless it is the single digit zero), and its value
/// under `dec_val` — the same reading the parser gives digits — is `n`.
pub proof fn lemma_decimal_roundtrip(n: nat)
    ensures
        spec_decimal(n).len() >= 1,
        is_dec_digits(spec_decimal(n)),
        dec_val(spec_decimal(n)) == n,
        n > 0 ==> digit_val(spec_decimal(n)[0]) > 0,
    decreases n,
{
    if n < 10 {
        let s = seq![char_of_digit(n)];
        assert(s.drop_last() =~= Seq::<char>::empty());
        assert(dec_val(Seq::<char>::empty()) == 0);
        assert(s.last() == char_of_digit(n));
        assert(dec_val(s) == digit_val(char_of_digit(n)));
    } else {
        lemma_decimal_roundtrip(n / 10);
        let prev = spec_decimal(n / 10);
        let s = prev.push(char_of_digit(n % 10));
        assert(s.drop_last() =~= prev);
        assert(s.last() == char_of_digit(n % 10));
        assert(dec_val(s) == dec_val(prev) * 10 + digit_val(char_of_digit(n % 10)));
        assert((n / 10) * 10 + n % 10 == n);
        assert forall|i: int| 0 <= i < s.len() implies is_digit(#[trigger] s[i]) by {
            if i < prev.len() {
                assert(s[i] == prev[i]);
            }
        }
        assert(s[0] == prev[0]);
    }
}

/// The decimal digit character for `d`.
fn digit_str(d: usize) -> (r: &'static str)
    requires
        d < 10,
    ensures
        r@ == seq![char_of_digit(d as nat)],
{
    let r = if d == 0 {
        let s = "0";
        proof {
            reveal_strlit("0");
        }
        s
    } else if d == 1 {
        let s = "1";
        proof {
            reveal_strlit("1");
        }
        s
    } else if d == 2 {
        let s = "2";
        proof {
            reveal_strlit("2");
        }
        s
    } else if d == 3 {
        let s = "3";
        proof {
            reveal_strlit("3");
        }
        s
    } else if d == 4 {
        let s = "4";
        proof {
            reveal_strlit("4");
        }
        s
    } else if d == 5 {
        let s = "5";
        proof {
            reveal_strlit("5");
        }
        s
    } else if d == 6 {
        let s = "6";
        proof {
            reveal_strlit("6");
        }
        s
    } else if d == 7 {
        let s = "7";
        proof {
            reveal_strlit("7");
        }
        s
    } else if d == 8 {
        let s = "8";
        proof {
            reveal_strlit("8");
        }
        s
    } else {
        let s = "9";
        proof {
            reveal_strlit("9");
        }
        s
    };
    proof {
        assert(r@ =~= seq![char_of_digit(d as nat)]);
    }
    r
}

/// Render a number in decimal, as [`spec_decimal`] spells it.
pub fn decimal_string(n: usize) -> (r: String)
    ensures
        r@ == spec_decimal(n as nat),
    decreases n,
{
    if n < 10 {
        digit_str(n).to_owned()
    } else {
        let mut s = decimal_string(n / 10);
        s.append(digit_str(n % 10));
        proof {
            assert(s@ =~= spec_decimal(n as nat));
        }
        s
    }
}

/// What one completed frame denotes: either the three fields of a lap
/// record, or the first format error the tokens show, reading left to right.
pub open spec fn spec_parse_record(s: Seq<char>) -> Result<(nat, Channel, Seq<char>), ParseError> {
    let s1 = s.skip(count_spaces(s) as int);
    if s1.len() == 0 {
        Err(ParseError::MissingSequence)
    } else {
        let n1 = count_token(s1) as int;
        let rest1 = s1.skip(n1);
        match spec_parse_seq_number(trim_nuls(s1.take(n1))) {
            None => Err(ParseError::InvalidSequence),
            Some(num) => {
                let s2 = rest1.skip(count_spaces(rest1) as int);
                if s2.len() == 0 {
                    Err(ParseError::MissingChannel)
                } else {
                    let n2 = count_token(s2) as int;
                    let ch = spec_channel_of_code(s2.take(n2));
                    let rest2 = s2.skip(n2);
                    let s3 = rest2.skip(count_spaces(rest2) as int);
                    if s3.len() == 0 {
                        Err(ParseError::MissingTime)
                    } else {
                        Ok((num, ch, s3.take(count_token(s3) as int)))
                    }
                }
            },
        }
    }
}

/// The mathematical content of a lap record.
pub ghost struct LapTimeV {
    pub seq_number: nat,
    pub channel: Channel,
    pub time: Seq<char>,
}

/// The structured result of parsing one frame: a sequence number, a
/// measurement channel, and the opaque timestamp text.
#[derive(Debug, PartialEq, Eq)]
pub struct LapTime {
    pub seq_number: usize,
    pub channel: Channel,
    pub time: String,
}

impl View for LapTime {
    type V = LapTimeV;

    open spec fn view(&self) -> LapTimeV {
        LapTimeV {
            seq_number: self.seq_number as nat,
            channel: self.channel,
            time: self.time@,
        }
    }
}

impl Clone for LapTime {
    /// A clone carries the same record.
    fn clone(&self) -> (r: Self)
        ensures
            r@ == self@,
    {
        LapTime {
            seq_number: self.seq_number,
            channel: self.channel,
            time: self.time.clone(),
        }
    }
}

impl LapTime {
    /// Parse one completed frame into a lap record.
    ///
    /// The result is exactly what the frame's text denotes: the parsed
    /// fields when the text carries a sequence number, a channel code and a
    /// timestamp, and the first format error otherwise. A record's
    /// timestamp is never empty.
    #[verifier::rlimit(100)]
    #[verifier::spinoff_prover]
    pub fn parse(s: &str) -> (r: Result<LapTime, ParseError>)
        ensures
            match r {
                Ok(lap) => spec_parse_record(s@) == Ok::<_, ParseError>(
                    (lap@.seq_number, lap@.channel, lap@.time),
                ),
                Err(e) => spec_parse_record(s@) == Err::<(nat, Channel, Seq<char>), _>(e),
            },
            r matches Ok(lap) ==> lap@.time.len() > 0,
    {
        let len = s.unicode_len();
        let a1 = scan_spaces(s, 0);
        proof {
            assert(s@.skip(0) =~= s@);
        }
        let ghost s1 = s@.skip(a1 as int);
        if a1 == len {
            return Err(ParseError::MissingSequence);
        }
        let e1 = scan_token(s, a1);
        proof {
            assert(s@.skip(a1 as int).take(e1 - a1) =~= s@.subrange(a1 as int, e1 as int));
        }
        let tok1 = s.substring_char(a1, e1);
        let nl = scan_nuls(tok1);
        let nr = scan_nuls_rev(tok1);
        let trimmed = if nl == e1 - a1 {
            proof {
                let u = tok1@.skip(nl as int);
                assert(u =~= Seq::<char>::empty());
                assert(s@.subrange(e1 as int, e1 as int) =~= trim_nuls(tok1@));
            }
            s.substring_char(e1, e1)
        } else {
            proof {
                let len1 = tok1@.len();
                assert(!is_nul(tok1@[nl as int]));
                assert(nl + nr <= len1) by {
                    if nl + nr > len1 {
                        assert(is_nul(tok1@[nl as int]));
                    }
                }
                let u = tok1@.skip(nl as int);
                assert(count_nuls_rev(u) == nr) by {
                    assert forall|k: int| u.len() - nr <= k < u.len() implies is_nul(
                        #[trigger] u[k],
                    ) by {
                        assert(u[k] == tok1@[nl + k]);
                    }
                    if nr < u.len() {
                        assert(u[u.len() - nr - 1] == tok1@[len1 - nr - 1]);
                        assert(!is_nul(u[u.len() - nr - 1]));
                    }
                    lemma_count_nuls_rev_is(u, nr as int);
                }
                assert(u.take((u.len() - nr) as int) =~= s@.subrange(
                    a1 + nl,
                    e1 - nr,
                ));
            }
            s.substring_char(a1 + nl, e1 - nr)
        };
        proof {
            assert(trimmed@ == trim_nuls(tok1@));
        }
        let num = match parse_seq_number(trimmed) {
            Some(v) => v,
            None => {
                return Err(ParseError::InvalidSequence);
            },
        };
        let a2 = scan_spaces(s, e1);
        proof {
            let rest1 = s1.skip(count_token(s1) as int);
            assert(rest1 =~= s@.skip(e1 as int));
            assert(rest1.skip(count_spaces(rest1) as int) =~= s@.skip(a2 as int));
        }
        if a2 == len {
            return Err(ParseError::MissingChannel);
        }
        let e2 = scan_token(s, a2);
        proof {
            assert(s@.skip(a2 as int).take(e2 - a2) =~= s@.subrange(a2 as int, e2 as int));
        }
        let tok2 = s.substring_char(a2, e2);
        let channel = Channel::from_code(tok2);
        let a3 = scan_spaces(s, e2);
        proof {
            let s2 = s@.skip(a2 as int);
            let rest2 = s2.skip(count_token(s2) as int);
            assert(rest2 =~= s@.skip(e2 as int));
            assert(rest2.skip(count_spaces(rest2) as int) =~= s@.skip(a3 as int));
        }
        if a3 == len {
            return Err(ParseError::MissingTime);
        }
        let e3 = scan_token(s, a3);
        proof {
            assert(s@.skip(a3 as int).take(e3 - a3) =~= s@.subrange(a3 as int, e3 as int));
        }
        let tok3 = s.substring_char(a3, e3);
        let time = tok3.to_owned();
        Ok(LapTime { seq_number: num, channel, time })
    }
}

} // verus!
