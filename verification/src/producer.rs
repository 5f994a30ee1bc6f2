//! The producer of the work: an unbounded sequence of ranges of prime
//! indices, each as long as the one before and starting where that ended.
use vstd::prelude::*;

verus! {

/// A half-open range `[start, stop)` of prime indices: the work of one
/// worker at a time, and the content of one file.
#[derive(Clone, Copy, Debug, PartialEq, Eq, Structural)]
pub struct Range {
    /// The first index of the range.
    pub start: u64,
    /// The index after the last one of the range.
    pub stop: u64,
}

impl Range {
    /// Whether the index `i` is in the range.
    pub open spec fn contains(self, i: nat) -> bool {
        self.start <= i < self.stop
    }
}

/// The state of the producer: where the next range starts, and how long
/// each range is.
#[derive(Clone, Copy, Debug, PartialEq, Eq, Structural)]
pub struct Producer {
    /// The start of the next range.
    pub cursor: u64,
    /// The length of every range.
    pub increment: u64,
}

impl Producer {
    /// The bounds of the range that the call of number `k` from now,
    /// counting from 0, will give.
    pub open spec fn upcoming(self, k: nat) -> (nat, nat) {
        ((self.cursor + k * self.increment) as nat, (self.cursor + (k + 1) * self.increment) as nat)
    }

    /// A producer whose first range starts at `start`, with ranges of
    /// length `increment`.
    pub fn new(start: u64, increment: u64) -> (producer: Producer)
        ensures
            producer.cursor == start,
            producer.increment == increment,
    {
        Producer { cursor: start, increment }
    }

    /// The next range, `[cursor, cursor + increment)`, after which the
    /// cursor stands at its end, so that what was upcoming as number
    /// `k + 1` is upcoming as number `k`. There is none once the end would
    /// pass the last `u64`; the state then stays as it is.
    pub fn next_range(&mut self) -> (range: Option<Range>)
        ensures
            final(self).increment == old(self).increment,
            match range {
                Some(r) => r.start == old(self).cursor && r.stop == old(self).cursor + old(
                    self,
                ).increment && final(self).cursor == r.stop && (r.start as nat, r.stop as nat)
                    == old(self).upcoming(0) && forall|k: nat| #[trigger]
                    final(self).upcoming(k) == old(self).upcoming(k + 1),
                None => old(self).cursor + old(self).increment > u64::MAX && *final(self) == *old(
                    self,
                ),
            },
    {
        match self.cursor.checked_add(self.increment) {
            Some(stop) => {
                let range = Range { start: self.cursor, stop };
                let ghost before = *self;
                self.cursor = stop;
                proof {
                    let inc = before.increment as int;
                    assert(0 * inc == 0 && (0 + 1) * inc == inc) by (nonlinear_arith);
                    assert forall|k: nat| #[trigger] self.upcoming(k) == before.upcoming(
                        k + 1,
                    ) by {
                        assert((k + 1) * inc == inc + k * inc) by (nonlinear_arith);
                        assert((k + 1 + 1) * inc == inc + (k + 1) * inc) by (nonlinear_arith);
                    }
                }
                Some(range)
            },
            None => None,
        }
    }
}

/// The upcoming ranges follow each other without gap or overlap, each as
/// long as the increment. With a positive increment they come in strictly
/// ascending order, so that an index lies in one of them at most.
pub proof fn lemma_ranges_ascend(producer: Producer, j: nat, k: nat)
    requires
        j < k,
    ensures
        producer.upcoming(j + 1).0 == producer.upcoming(j).1,
        producer.upcoming(j).1 == producer.upcoming(j).0 + producer.increment,
        producer.upcoming(j).1 <= producer.upcoming(k).0,
        producer.increment > 0 ==> producer.upcoming(j).0 < producer.upcoming(k).0,
{
    let inc = producer.increment as int;
    assert((j + 1) * inc == j * inc + inc) by (nonlinear_arith);
    assert((j + 1) * inc <= k * inc) by (nonlinear_arith)
        requires
            j + 1 <= k,
            inc >= 0,
    ;
    assert(j * inc >= 0 && k * inc >= 0) by (nonlinear_arith)
        requires
            inc >= 0,
            j >= 0,
            k >= 0,
    ;
}

} // verus!
