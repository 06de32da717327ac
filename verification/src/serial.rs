//! Reassembly of fixed-length frames from an arbitrarily chunked byte
//! stream.
//!
//! The hardware delivers text in chunks of no guaranteed size. A
//! [`FrameAccumulator`] appends each decoded chunk to a buffer and hands a
//! completed frame out exactly when the buffer's length reaches the fixed
//! message length; the buffer is then cleared, so no frame is acted on
//! twice and no partial frame ever leaves the accumulator. The
//! length check is an exact match, as the hardware emits frames
//! back-to-back: a chunk that pushed the buffer past the exact length
//! would never be flushed.

use vstd::prelude::*;

verus! {

/// The fixed length of one complete beacon message.
pub const MESSAGE_LENGTH: usize = 23;

/// One accumulation step: append the chunk, and flush the buffer as a
/// completed frame exactly when its length equals the message length.
pub open spec fn accum_step(buf: Seq<char>, chunk: Seq<char>) -> (Seq<char>, Option<Seq<char>>) {
    let b = buf + chunk;
    if b.len() == MESSAGE_LENGTH {
        (Seq::<char>::empty(), Some(b))
    } else {
        (b, None)
    }
}

/// The frames flushed while feeding `chunks`, in order, starting from
/// buffer contents `buf`.
pub open spec fn frames_out(buf: Seq<char>, chunks: Seq<Seq<char>>) -> Seq<Seq<char>>
    decreases chunks.len(),
{
    if chunks.len() == 0 {
        Seq::<Seq<char>>::empty()
    } else {
        let step = accum_step(buf, chunks[0]);
        match step.1 {
            Some(f) => seq![f] + frames_out(step.0, chunks.drop_first()),
            None => frames_out(step.0, chunks.drop_first()),
        }
    }
}

/// The buffer contents left after feeding `chunks`, starting from `buf`.
pub open spec fn buf_after(buf: Seq<char>, chunks: Seq<Seq<char>>) -> Seq<char>
    decreases chunks.len(),
{
    if chunks.len() == 0 {
        buf
    } else {
        buf_after(accum_step(buf, chunks[0]).0, chunks.drop_first())
    }
}

/// The concatenation of a sequence of chunks.
pub open spec fn concat_chunks(chunks: Seq<Seq<char>>) -> Seq<char>
    decreases chunks.len(),
{
    if chunks.len() == 0 {
        Seq::<char>::empty()
    } else {
        chunks[0] + concat_chunks(chunks.drop_first())
    }
}

/// Whether no chunk straddles a frame boundary: starting from a buffer of
/// `buflen` characters, each chunk lands inside or exactly at the end of
/// the frame being accumulated.
pub open spec fn chunks_aligned(buflen: nat, chunks: Seq<Seq<char>>) -> bool
    decreases chunks.len(),
{
    if chunks.len() == 0 {
        true
    } else {
        let b = buflen + chunks[0].len();
        b <= MESSAGE_LENGTH && chunks_aligned(
            if b == MESSAGE_LENGTH {
                0nat
            } else {
                b as nat
            },
            chunks.drop_first(),
        )
    }
}

/// Accumulates decoded text until a complete frame of [`MESSAGE_LENGTH`]
/// characters is ready.
pub struct FrameAccumulator {
    buf: String,
}

impl View for FrameAccumulator {
    type V = Seq<char>;

    closed spec fn view(&self) -> Seq<char> {
        self.buf@
    }
}

impl FrameAccumulator {
    /// A fresh accumulator with an empty buffer.
    pub fn new() -> (r: Self)
        ensures
            r@ == Seq::<char>::empty(),
    {
        FrameAccumulator { buf: String::new() }
    }

    /// Feed one decoded chunk. Returns the completed frame exactly when the
    /// buffer's length reaches [`MESSAGE_LENGTH`]; the buffer is cleared in
    /// the same step.
    pub fn push_chunk(&mut self, chunk: &str) -> (r: Option<String>)
        ensures
            final(self)@ == accum_step(old(self)@, chunk@).0,
            match r {
                Some(f) => accum_step(old(self)@, chunk@).1 == Some(f@),
                None => accum_step(old(self)@, chunk@).1 is None,
            },
    {
        self.buf.append(chunk);
        if self.buf.as_str().unicode_len() == MESSAGE_LENGTH {
            let f = self.buf.clone();
            self.buf = String::new();
            Some(f)
        } else {
            None
        }
    }
}

/// Reassembly correctness, generalized over the starting buffer: if no
/// chunk straddles a frame boundary and the stream ends exactly at one,
/// every character ends up in exactly one flushed frame, each flushed frame
/// has the fixed length, their concatenation in order is exactly the input
/// stream, and nothing is left behind.
pub proof fn lemma_reassembly_general(buf: Seq<char>, chunks: Seq<Seq<char>>)
    requires
        buf.len() < MESSAGE_LENGTH,
        chunks_aligned(buf.len(), chunks),
        (buf.len() + concat_chunks(chunks).len()) % (MESSAGE_LENGTH as nat) == 0,
    ensures
        concat_chunks(frames_out(buf, chunks)) == buf + concat_chunks(chunks),
        forall|i: int|
            0 <= i < frames_out(buf, chunks).len() ==> #[trigger] frames_out(buf, chunks)[i].len()
                == MESSAGE_LENGTH,
        frames_out(buf, chunks).len() * MESSAGE_LENGTH == buf.len() + concat_chunks(chunks).len(),
        buf_after(buf, chunks) == Seq::<char>::empty(),
    decreases chunks.len(),
{
    if chunks.len() == 0 {
        assert(buf.len() == 0);
        assert(buf =~= Seq::<char>::empty());
        assert(concat_chunks(frames_out(buf, chunks)) =~= buf + concat_chunks(chunks));
    } else {
        let c0 = chunks[0];
        let rest = chunks.drop_first();
        let b = buf + c0;
        if b.len() == MESSAGE_LENGTH {
            assert(((MESSAGE_LENGTH as nat) + concat_chunks(rest).len()) % (MESSAGE_LENGTH as nat)
                == concat_chunks(rest).len() % (MESSAGE_LENGTH as nat));
            lemma_reassembly_general(Seq::<char>::empty(), rest);
            let femp = frames_out(Seq::<char>::empty(), rest);
            assert(frames_out(buf, chunks) == seq![b] + femp);
            assert((seq![b] + femp).drop_first() =~= femp);
            assert((seq![b] + femp)[0] == b);
            assert(concat_chunks(seq![b] + femp) == b + concat_chunks((seq![b] + femp).drop_first()));
            assert(concat_chunks(frames_out(buf, chunks)) =~= buf + concat_chunks(chunks));
            assert forall|i: int| 0 <= i < frames_out(buf, chunks).len() implies #[trigger] frames_out(
                buf,
                chunks,
            )[i].len() == MESSAGE_LENGTH by {
                if i > 0 {
                    assert(frames_out(buf, chunks)[i] == frames_out(
                        Seq::<char>::empty(),
                        rest,
                    )[i - 1]);
                }
            }
        } else {
            lemma_reassembly_general(b, rest);
            assert(concat_chunks(frames_out(buf, chunks)) =~= buf + concat_chunks(chunks));
        }
    }
}

/// Reassembly correctness: for any sequence of chunks whose concatenation
/// holds complete frames back-to-back with no slack, and in which no chunk
/// straddles a frame boundary, the accumulator flushes exactly one frame
/// per message length of input, each frame correct and in stream order,
/// and ends empty.
pub proof fn lemma_reassembly_correct(chunks: Seq<Seq<char>>)
    requires
        chunks_aligned(0, chunks),
        concat_chunks(chunks).len() % (MESSAGE_LENGTH as nat) == 0,
    ensures
        concat_chunks(frames_out(Seq::<char>::empty(), chunks)) == concat_chunks(chunks),
        forall|i: int|
            0 <= i < frames_out(Seq::<char>::empty(), chunks).len() ==> #[trigger] frames_out(
                Seq::<char>::empty(),
                chunks,
            )[i].len() == MESSAGE_LENGTH,
        frames_out(Seq::<char>::empty(), chunks).len() * MESSAGE_LENGTH == concat_chunks(
            chunks,
        ).len(),
        buf_after(Seq::<char>::empty(), chunks) == Seq::<char>::empty(),
{
    lemma_reassembly_general(Seq::<char>::empty(), chunks);
    assert(Seq::<char>::empty() + concat_chunks(chunks) =~= concat_chunks(chunks));
}

} // verus!
