//! The ordered handoff conduit between the frame-reading side and the
//! persistence side.
//!
//! In the running program the two sides are separate threads joined by an
//! unbounded channel; sending never blocks, and the consumer sees records
//! in exactly the order they were sent. The queue verified here carries
//! that ordering guarantee: records leave in the order they entered, none
//! duplicated, none reordered.

use std::collections::VecDeque;
use vstd::prelude::*;

use crate::timer::LapTime;

verus! {

/// An unbounded first-in-first-out queue of parsed lap records.
pub struct RecordQueue {
    items: VecDeque<LapTime>,
}

impl View for RecordQueue {
    type V = Seq<LapTime>;

    closed spec fn view(&self) -> Seq<LapTime> {
        self.items@
    }
}

impl RecordQueue {
    /// A fresh, empty queue.
    pub fn new() -> (r: Self)
        ensures
            r@ == Seq::<LapTime>::empty(),
    {
        RecordQueue { items: VecDeque::new() }
    }

    /// How many records are waiting.
    pub fn len(&self) -> (r: usize)
        ensures
            r == self@.len(),
    {
        self.items.len()
    }

    /// Enqueue one record behind all records already waiting. Never blocks
    /// and never drops or reorders what is already queued.
    pub fn send(&mut self, rec: LapTime)
        ensures
            final(self)@ == old(self)@.push(rec),
    {
        self.items.push_back(rec);
    }

    /// Dequeue the oldest waiting record, or `None` when the queue is
    /// empty. The records behind it keep their order.
    pub fn recv(&mut self) -> (r: Option<LapTime>)
        ensures
            match r {
                Some(rec) => old(self)@.len() > 0 && rec == old(self)@[0] && final(self)@ == old(
                    self,
                )@.drop_first(),
                None => old(self)@.len() == 0 && final(self)@ == old(self)@,
            },
    {
        let r = self.items.pop_front();
        proof {
            if old(self)@.len() > 0 {
                assert(old(self)@.subrange(1, old(self)@.len() as int) =~= old(
                    self,
                )@.drop_first());
            }
        }
        r
    }

    /// Dequeue every waiting record. The result holds exactly the records
    /// that were waiting, in the order they were sent: what went through
    /// the queue comes out unchanged and unreordered.
    pub fn drain(&mut self) -> (r: Vec<LapTime>)
        ensures
            r@ == old(self)@,
            final(self)@ == Seq::<LapTime>::empty(),
    {
        let mut out: Vec<LapTime> = Vec::new();
        proof {
            assert(out@ + self@ =~= self@);
        }
        loop
            invariant
                out@ + self@ == old(self)@,
            ensures
                out@ == old(self)@,
                self@ == Seq::<LapTime>::empty(),
            decreases self@.len(),
        {
            match self.recv() {
                Some(rec) => {
                    out.push(rec);
                    proof {
                        assert(out@ + self@ =~= old(self)@);
                    }
                },
                None => {
                    proof {
                        assert(out@ + self@ =~= out@);
                    }
                    break;
                },
            }
        }
        out
    }
}

} // verus!
