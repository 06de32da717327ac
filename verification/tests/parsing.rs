use frontrunner::timer::{Channel, LapTime, ParseError};

#[test]
fn parses_plain_record() {
    let lap = LapTime::parse("123 A 10:15:30.250").unwrap();
    assert_eq!(lap.seq_number, 123);
    assert_eq!(lap.channel, Channel::A);
    assert_eq!(lap.time, "10:15:30.250");
}

#[test]
fn unknown_channel_defaults_to_a() {
    let lap = LapTime::parse("7 X 00:00:01.000").unwrap();
    assert_eq!(lap.seq_number, 7);
    assert_eq!(lap.channel, Channel::A);
    assert_eq!(lap.time, "00:00:01.000");
}

#[test]
fn channels_b_and_c_are_kept() {
    let lap = LapTime::parse("8 B 00:00:02.000").unwrap();
    assert_eq!(lap.channel, Channel::B);
    let lap = LapTime::parse("9 C 00:00:03.000").unwrap();
    assert_eq!(lap.channel, Channel::C);
}

#[test]
fn nul_padding_around_sequence_is_stripped() {
    let lap = LapTime::parse("\0\00042\0 B 10:15:30.250").unwrap();
    assert_eq!(lap.seq_number, 42);
    assert_eq!(lap.channel, Channel::B);
}

#[test]
fn leading_whitespace_and_plus_sign_are_accepted() {
    let lap = LapTime::parse("  +17 C 00:59:59.999 ").unwrap();
    assert_eq!(lap.seq_number, 17);
    assert_eq!(lap.channel, Channel::C);
    assert_eq!(lap.time, "00:59:59.999");
}

#[test]
fn any_unicode_whitespace_separates_tokens() {
    // Vertical tab, form feed, no-break space and ideographic space are
    // all token separators, as char::is_whitespace has them.
    let lap = LapTime::parse("1\u{000B}A B").unwrap();
    assert_eq!(lap.seq_number, 1);
    assert_eq!(lap.channel, Channel::A);
    assert_eq!(lap.time, "B");
    let lap = LapTime::parse("\u{00A0}12\u{000C}C\u{3000}00:00:05.000").unwrap();
    assert_eq!(lap.seq_number, 12);
    assert_eq!(lap.channel, Channel::C);
    assert_eq!(lap.time, "00:00:05.000");
    // Matches the standard library's notion exactly on these inputs.
    assert!('\u{000B}'.is_whitespace() && '\u{2028}'.is_whitespace());
}

#[test]
fn empty_frame_is_missing_sequence() {
    assert_eq!(LapTime::parse(""), Err(ParseError::MissingSequence));
    assert_eq!(LapTime::parse("   "), Err(ParseError::MissingSequence));
}

#[test]
fn non_numeric_sequence_is_invalid() {
    assert_eq!(LapTime::parse("abc A 10:15:30.250"), Err(ParseError::InvalidSequence));
    assert_eq!(LapTime::parse("\0\0 A 10:15:30.250"), Err(ParseError::InvalidSequence));
    assert_eq!(LapTime::parse("+ A 10:15:30.250"), Err(ParseError::InvalidSequence));
    assert_eq!(LapTime::parse("-3 A 10:15:30.250"), Err(ParseError::InvalidSequence));
}

#[test]
fn overflowing_sequence_is_invalid() {
    assert_eq!(
        LapTime::parse("99999999999999999999999999 A 10:15:30.250"),
        Err(ParseError::InvalidSequence)
    );
}

#[test]
fn missing_channel_and_time_are_reported() {
    assert_eq!(LapTime::parse("123"), Err(ParseError::MissingChannel));
    assert_eq!(LapTime::parse("123 A"), Err(ParseError::MissingTime));
    assert_eq!(LapTime::parse("123 A   "), Err(ParseError::MissingTime));
}

#[test]
fn strict_channel_parse_rejects_unknown_codes() {
    assert_eq!(Channel::parse("A"), Some(Channel::A));
    assert_eq!(Channel::parse("B"), Some(Channel::B));
    assert_eq!(Channel::parse("C"), Some(Channel::C));
    assert_eq!(Channel::parse("X"), None);
    assert_eq!(Channel::parse(""), None);
    assert_eq!(Channel::parse("AB"), None);
}

#[test]
fn lenient_channel_mapping_defaults_to_a() {
    assert_eq!(Channel::from_code("B"), Channel::B);
    assert_eq!(Channel::from_code("C"), Channel::C);
    assert_eq!(Channel::from_code("A"), Channel::A);
    assert_eq!(Channel::from_code("Z"), Channel::A);
    assert_eq!(Channel::from_code("BB"), Channel::A);
}

#[test]
fn channel_codes_spell_their_letter() {
    assert_eq!(Channel::A.code(), "A");
    assert_eq!(Channel::B.code(), "B");
    assert_eq!(Channel::C.code(), "C");
}
