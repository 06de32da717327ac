use frontrunner::commands::run::{create_connection_string, invoke};
use frontrunner::db::{PersistOutcome, SlotStore};
use frontrunner::queue::RecordQueue;
use frontrunner::timer::{Channel, LapTime, ParseError};

const FRAME_ONE: &str = "0000123 A 10:15:30.250\n";
const FRAME_TWO: &str = "0000124 B 10:16:02.125\n";
const FRAME_BAD: &str = "junkjun A 10:17:00.000\n";

fn record(seq: usize, channel: Channel, time: &str) -> LapTime {
    LapTime { seq_number: seq, channel, time: time.to_string() }
}

#[test]
fn queue_preserves_order() {
    let mut q = RecordQueue::new();
    let r1 = record(1, Channel::A, "00:00:01.000");
    let r2 = record(2, Channel::B, "00:00:02.000");
    let r3 = record(3, Channel::C, "00:00:03.000");
    q.send(r1.clone());
    q.send(r2.clone());
    q.send(r3.clone());
    assert_eq!(q.len(), 3);
    assert_eq!(q.recv(), Some(r1));
    assert_eq!(q.recv(), Some(r2));
    assert_eq!(q.recv(), Some(r3));
    assert_eq!(q.recv(), None);
}

#[test]
fn queue_drain_returns_everything_in_order() {
    let mut q = RecordQueue::new();
    for i in 1..=5usize {
        q.send(record(i, Channel::A, "00:00:01.000"));
    }
    let all = q.drain();
    let seqs: Vec<usize> = all.iter().map(|l| l.seq_number).collect();
    assert_eq!(seqs, vec![1, 2, 3, 4, 5]);
    assert_eq!(q.len(), 0);
}

#[test]
fn pipeline_updates_then_inserts() {
    let stream = format!("{}{}", FRAME_ONE, FRAME_TWO);
    // Split the stream at boundaries that never straddle a frame.
    let cuts = [0usize, 7, 23, 29, 46];
    let mut chunks: Vec<String> = Vec::new();
    for w in cuts.windows(2) {
        chunks.push(stream[w[0]..w[1]].to_string());
    }
    let mut store = SlotStore::new();
    store.add_pending_slot(5);
    let (outcomes, err) = invoke(&chunks, &mut store);
    assert_eq!(err, None);
    assert_eq!(outcomes, vec![PersistOutcome::Updated(5), PersistOutcome::Inserted]);
    let rows = store.slots();
    assert_eq!(rows.len(), 2);
    assert_eq!(rows[0].id, 5);
    assert_eq!(rows[0].seq_number, Some(123));
    assert_eq!(rows[0].channel, Some(Channel::A));
    assert_eq!(rows[0].time.as_deref(), Some("10:15:30.250"));
    assert_eq!(rows[1].seq_number, Some(124));
    assert_eq!(rows[1].channel, Some(Channel::B));
    assert_eq!(rows[1].time.as_deref(), Some("10:16:02.125"));
}

#[test]
fn pipeline_stops_reading_at_the_first_malformed_frame() {
    let stream = format!("{}{}{}", FRAME_ONE, FRAME_BAD, FRAME_TWO);
    let chunks: Vec<String> =
        vec![stream[..23].to_string(), stream[23..46].to_string(), stream[46..].to_string()];
    let mut store = SlotStore::new();
    let (outcomes, err) = invoke(&chunks, &mut store);
    // The record before the malformed frame is still persisted.
    assert_eq!(outcomes, vec![PersistOutcome::Inserted]);
    assert_eq!(err, Some(ParseError::InvalidSequence));
    assert_eq!(store.slots().len(), 1);
}

#[test]
fn pipeline_with_no_complete_frame_persists_nothing() {
    let chunks: Vec<String> = vec!["0000123 A".to_string()];
    let mut store = SlotStore::new();
    let (outcomes, err) = invoke(&chunks, &mut store);
    assert_eq!(outcomes, Vec::new());
    assert_eq!(err, None);
    assert_eq!(store.slots().len(), 0);
}

#[test]
fn connection_string_embeds_the_path() {
    let s = create_connection_string("C:\\data\\times.accdb".to_string());
    assert_eq!(
        s,
        "Driver={Microsoft Access Driver (*.mdb, *.accdb)};Dbq=C:\\data\\times.accdb;Uid=Admin;"
    );
}
