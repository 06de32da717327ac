//! The listener pipeline: reassemble frames from the captured chunks,
//! parse each completed frame into a lap record, carry the records in
//! order through the handoff queue, and reconcile each one against the
//! store.
//!
//! A malformed frame is fatal to the reading side, which stops there;
//! records parsed before it are still persisted.

use vstd::prelude::*;

use crate::db::{persist_lap, spec_persist, PersistOutcome, SlotStore, SlotStoreV};
use crate::queue::RecordQueue;
use crate::serial::{accum_step, frames_out, FrameAccumulator};
use crate::timer::{spec_parse_record, LapTime, LapTimeV, ParseError};

verus! {

/// The records denoted by the longest prefix of `frames` that parses, and
/// the error of the first frame that does not, if any.
pub open spec fn spec_parsed_prefix(frames: Seq<Seq<char>>) -> (Seq<LapTimeV>, Option<ParseError>)
    decreases frames.len(),
{
    if frames.len() == 0 {
        (Seq::<LapTimeV>::empty(), None)
    } else {
        match spec_parse_record(frames[0]) {
            Err(e) => (Seq::<LapTimeV>::empty(), Some(e)),
            Ok((n, c, t)) => {
                let rest = spec_parsed_prefix(frames.drop_first());
                (seq![LapTimeV { seq_number: n, channel: c, time: t }] + rest.0, rest.1)
            },
        }
    }
}

/// Reconciling a sequence of records in order: the store each one sees is
/// the store the previous one left.
pub open spec fn spec_persist_all(s: SlotStoreV, recs: Seq<LapTimeV>) -> (
    SlotStoreV,
    Seq<PersistOutcome>,
)
    decreases recs.len(),
{
    if recs.len() == 0 {
        (s, Seq::<PersistOutcome>::empty())
    } else {
        let step = spec_persist(s, recs[0]);
        let rest = spec_persist_all(step.0, recs.drop_first());
        (rest.0, seq![step.1] + rest.1)
    }
}

/// Parsing distributes over concatenation as long as the first part is
/// free of format errors.
pub proof fn lemma_parsed_prefix_append(a: Seq<Seq<char>>, b: Seq<Seq<char>>)
    requires
        spec_parsed_prefix(a).1 is None,
    ensures
        spec_parsed_prefix(a + b).0 == spec_parsed_prefix(a).0 + spec_parsed_prefix(b).0,
        spec_parsed_prefix(a + b).1 == spec_parsed_prefix(b).1,
    decreases a.len(),
{
    if a.len() == 0 {
        assert(a + b =~= b);
        assert(spec_parsed_prefix(a).0 + spec_parsed_prefix(b).0 =~= spec_parsed_prefix(b).0);
    } else {
        assert((a + b).len() > 0);
        assert((a + b)[0] == a[0]);
        assert((a + b).drop_first() =~= a.drop_first() + b);
        lemma_parsed_prefix_append(a.drop_first(), b);
        match spec_parse_record(a[0]) {
            Err(_) => {},
            Ok((n, c, t)) => {
                let rec = LapTimeV { seq_number: n, channel: c, time: t };
                assert(seq![rec] + (spec_parsed_prefix(a.drop_first()).0 + spec_parsed_prefix(
                    b,
                ).0) =~= (seq![rec] + spec_parsed_prefix(a.drop_first()).0) + spec_parsed_prefix(
                    b,
                ).0);
            },
        }
    }
}

/// Run the listener pipeline over a captured sequence of decoded chunks:
/// reassemble complete frames, parse them in order until the first
/// malformed frame, pass the records through the handoff queue, and
/// reconcile each one against `store` in order. Returns the outcome of
/// each reconciliation and the format error that stopped the reader, if
/// one did.
#[verifier::rlimit(60)]
pub fn invoke(chunks: &Vec<String>, store: &mut SlotStore) -> (r: (
    Vec<PersistOutcome>,
    Option<ParseError>,
))
    ensures
        ({
            let chv = chunks@.map_values(|c: String| c@);
            let frames = frames_out(Seq::<char>::empty(), chv);
            let parsed = spec_parsed_prefix(frames);
            let done = spec_persist_all(old(store)@, parsed.0);
            &&& final(store)@ == done.0
            &&& r.0@ == done.1
            &&& r.1 == parsed.1
        }),
{
    let ghost chv = chunks@.map_values(|c: String| c@);
    let ghost ftotal = frames_out(Seq::<char>::empty(), chv);
    let mut acc = FrameAccumulator::new();
    let mut q = RecordQueue::new();
    let mut err: Option<ParseError> = None;
    let ghost mut emitted = Seq::<Seq<char>>::empty();
    let n = chunks.len();
    let mut i: usize = 0;
    proof {
        assert(chv.skip(0) =~= chv);
        assert(emitted + frames_out(acc@, chv.skip(0)) =~= ftotal);
        assert(q@.map_values(|l: LapTime| l@) =~= spec_parsed_prefix(emitted).0);
    }
    while i < n
        invariant
            0 <= i <= n,
            n == chunks@.len(),
            chv == chunks@.map_values(|c: String| c@),
            ftotal == frames_out(Seq::<char>::empty(), chv),
            match err {
                None => {
                    &&& ftotal == emitted + frames_out(acc@, chv.skip(i as int))
                    &&& spec_parsed_prefix(emitted).1 is None
                    &&& q@.map_values(|l: LapTime| l@) == spec_parsed_prefix(emitted).0
                },
                Some(e) => {
                    &&& spec_parsed_prefix(ftotal).1 == Some(e)
                    &&& q@.map_values(|l: LapTime| l@) == spec_parsed_prefix(ftotal).0
                },
            },
        decreases n - i,
    {
        if err.is_none() {
            let ghost b = acc@;
            proof {
                assert(chv.skip(i as int)[0] == chv[i as int]);
                assert(chv[i as int] == chunks@[i as int]@);
                assert(chv.skip(i as int).drop_first() =~= chv.skip(i + 1));
            }
            let flushed = acc.push_chunk(chunks[i].as_str());
            match flushed {
                Some(frame) => {
                    proof {
                        assert(accum_step(b, chv[i as int]).1 == Some(frame@));
                        assert(frames_out(b, chv.skip(i as int)) == seq![frame@] + frames_out(
                            acc@,
                            chv.skip(i + 1),
                        ));
                    }
                    match LapTime::parse(frame.as_str()) {
                        Ok(lap) => {
                            proof {
                                let rest = frames_out(acc@, chv.skip(i + 1));
                                assert(emitted + (seq![frame@] + rest) =~= emitted.push(frame@)
                                    + rest);
                                assert(emitted.push(frame@) =~= emitted + seq![frame@]);
                                lemma_parsed_prefix_append(emitted, seq![frame@]);
                                assert(seq![frame@][0] == frame@);
                                assert(seq![frame@].drop_first() =~= Seq::<Seq<char>>::empty());
                                assert(spec_parsed_prefix(Seq::<Seq<char>>::empty()) == (
                                    Seq::<LapTimeV>::empty(),
                                    None::<ParseError>,
                                ));
                                assert(spec_parsed_prefix(seq![frame@]).1 is None);
                                let rec = LapTimeV {
                                    seq_number: lap@.seq_number,
                                    channel: lap@.channel,
                                    time: lap@.time,
                                };
                                assert(spec_parsed_prefix(seq![frame@]).0 =~= seq![rec]);
                                assert(spec_parsed_prefix(emitted + seq![frame@]).0
                                    == spec_parsed_prefix(emitted).0 + seq![rec]);
                            }
                            let ghost qv = q@;
                            q.send(lap);
                            proof {
                                emitted = emitted.push(frame@);
                                assert(q@.map_values(|l: LapTime| l@) =~= qv.map_values(
                                    |l: LapTime| l@,
                                ).push(lap@));
                                assert(spec_parsed_prefix(emitted).0 =~= q@.map_values(
                                    |l: LapTime| l@,
                                ));
                            }
                        },
                        Err(e) => {
                            proof {
                                let tail = seq![frame@] + frames_out(acc@, chv.skip(i + 1));
                                lemma_parsed_prefix_append(emitted, tail);
                                assert(tail[0] == frame@);
                                assert(spec_parsed_prefix(tail).1 == Some(e));
                                assert(spec_parsed_prefix(tail).0 =~= Seq::<LapTimeV>::empty());
                                assert(ftotal =~= emitted + tail);
                                assert(spec_parsed_prefix(ftotal).0 =~= spec_parsed_prefix(
                                    emitted,
                                ).0);
                            }
                            err = Some(e);
                        },
                    }
                },
                None => {
                    proof {
                        assert(accum_step(b, chv[i as int]).1 is None);
                        assert(frames_out(b, chv.skip(i as int)) == frames_out(
                            acc@,
                            chv.skip(i + 1),
                        ));
                    }
                },
            }
        }
        i += 1;
    }
    proof {
        if err is None {
            assert(chv.skip(n as int) =~= Seq::<Seq<char>>::empty());
            assert(frames_out(acc@, chv.skip(n as int)) =~= Seq::<Seq<char>>::empty());
            assert(ftotal =~= emitted);
        }
    }
    let recs = q.drain();
    let ghost s0 = store@;
    let ghost recv = recs@.map_values(|l: LapTime| l@);
    let ghost target = spec_persist_all(s0, recv);
    let mut outs: Vec<PersistOutcome> = Vec::new();
    let m = recs.len();
    let mut j: usize = 0;
    proof {
        assert(recv.skip(0) =~= recv);
        assert(outs@ + spec_persist_all(store@, recv.skip(0)).1 =~= target.1);
    }
    while j < m
        invariant
            0 <= j <= m,
            m == recs@.len(),
            recv == recs@.map_values(|l: LapTime| l@),
            target == spec_persist_all(s0, recv),
            spec_persist_all(store@, recv.skip(j as int)).0 == target.0,
            outs@ + spec_persist_all(store@, recv.skip(j as int)).1 == target.1,
        decreases m - j,
    {
        proof {
            assert(recv.skip(j as int)[0] == recv[j as int]);
            assert(recv[j as int] == recs@[j as int]@);
            assert(recv.skip(j as int).drop_first() =~= recv.skip(j + 1));
        }
        let lap = recs[j].clone();
        let ghost sb = store@;
        let outcome = persist_lap(store, lap);
        proof {
            assert(spec_persist_all(sb, recv.skip(j as int)) == (
                spec_persist_all(store@, recv.skip(j + 1)).0,
                seq![outcome] + spec_persist_all(store@, recv.skip(j + 1)).1,
            ));
            assert(outs@.push(outcome) + spec_persist_all(store@, recv.skip(j + 1)).1 =~= outs@
                + (seq![outcome] + spec_persist_all(store@, recv.skip(j + 1)).1));
        }
        outs.push(outcome);
        j += 1;
    }
    proof {
        assert(recv.skip(m as int) =~= Seq::<LapTimeV>::empty());
        assert(outs@ + Seq::<PersistOutcome>::empty() =~= outs@);
        assert(recv == spec_parsed_prefix(ftotal).0);
    }
    (outs, err)
}

/// The connection string the store is opened with: the fixed driver
/// clause, the store's file path, and the fixed user clause.
pub fn create_connection_string(path: String) -> (r: String)
    ensures
        r@ == "Driver={Microsoft Access Driver (*.mdb, *.accdb)};Dbq="@ + path@ + ";Uid=Admin;"@,
{
    let mut s = "Driver={Microsoft Access Driver (*.mdb, *.accdb)};Dbq=".to_owned();
    s.append(path.as_str());
    s.append(";Uid=Admin;");
    s
}

} // verus!
