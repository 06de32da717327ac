use frontrunner::serial::{FrameAccumulator, MESSAGE_LENGTH};

const FRAME_ONE: &str = "0000123 A 10:15:30.250\n";
const FRAME_TWO: &str = "0000124 B 10:16:02.125\n";

#[test]
fn frames_have_the_fixed_length() {
    assert_eq!(FRAME_ONE.len(), MESSAGE_LENGTH);
    assert_eq!(FRAME_TWO.len(), MESSAGE_LENGTH);
}

#[test]
fn one_whole_chunk_completes_one_frame() {
    let mut acc = FrameAccumulator::new();
    let got = acc.push_chunk(FRAME_ONE);
    assert_eq!(got.as_deref(), Some(FRAME_ONE));
}

#[test]
fn one_byte_at_a_time_still_completes_the_frame() {
    let mut acc = FrameAccumulator::new();
    let mut frames: Vec<String> = Vec::new();
    for i in 0..FRAME_ONE.len() {
        if let Some(f) = acc.push_chunk(&FRAME_ONE[i..i + 1]) {
            frames.push(f);
        }
    }
    assert_eq!(frames, vec![FRAME_ONE.to_string()]);
}

#[test]
fn two_back_to_back_frames_come_out_in_order() {
    let stream = format!("{}{}", FRAME_ONE, FRAME_TWO);
    // Chunk boundaries fall inside both frames but never straddle one.
    let cuts = [0usize, 5, 14, 23, 30, 41, 46];
    let mut acc = FrameAccumulator::new();
    let mut frames: Vec<String> = Vec::new();
    for w in cuts.windows(2) {
        if let Some(f) = acc.push_chunk(&stream[w[0]..w[1]]) {
            frames.push(f);
        }
    }
    assert_eq!(frames, vec![FRAME_ONE.to_string(), FRAME_TWO.to_string()]);
}

#[test]
fn a_partial_frame_is_never_handed_out() {
    let mut acc = FrameAccumulator::new();
    assert_eq!(acc.push_chunk(&FRAME_ONE[..10]), None);
    assert_eq!(acc.push_chunk(&FRAME_ONE[10..22]), None);
    let got = acc.push_chunk(&FRAME_ONE[22..]);
    assert_eq!(got.as_deref(), Some(FRAME_ONE));
}

#[test]
fn a_chunk_that_overruns_the_exact_length_is_not_flushed() {
    // The exact-match framing: a chunk straddling the frame boundary
    // pushes the buffer past the fixed length, and nothing comes out.
    let stream = format!("{}{}", FRAME_ONE, FRAME_TWO);
    let mut acc = FrameAccumulator::new();
    assert_eq!(acc.push_chunk(&stream[..30]), None);
    assert_eq!(acc.push_chunk(&stream[30..]), None);
}
