//! Recording strategies for per-document frequencies and position deltas.
//!
//! A recorder receives a stream of `u32` values.  The *full* strategy
//! ([`VecRecorder`]) stores them; the *oblivious* strategy
//! ([`ObliviousRecorder`]) discards them in O(1) space, answering every read
//! with zero and every slice with the empty sequence.  Both keep the whole
//! stream as their ghost history `recorded()`, so that contracts can speak of
//! what was recorded even when nothing is stored.

use vstd::prelude::*;

verus! {

/// A strategy for recording a stream of `u32` values.
///
/// `recorded()` is the full history of values handed to `record`, whether or
/// not the strategy stores them; `retains()` says whether reads give that
/// history back (`VecRecorder`) or constant empty answers
/// (`ObliviousRecorder`).
pub trait U32sRecorder: Sized {
    /// Every value recorded so far, in order.
    spec fn recorded(&self) -> Seq<u32>;

    /// Whether reads reflect the recorded history.
    spec fn retains() -> bool;

    /// An empty recorder.
    fn new() -> (r: Self)
        ensures
            r.recorded() == Seq::<u32>::empty(),
    ;

    /// Appends one value to the recorded history.
    fn record(&mut self, val: u32)
        ensures
            final(self).recorded() == old(self).recorded().push(val),
    ;

    /// The `idx`-th recorded value, or 0 under the oblivious strategy.
    fn get(&self, idx: usize) -> (r: u32)
        requires
            Self::retains() ==> idx < self.recorded().len(),
        ensures
            r == (if Self::retains() {
                self.recorded()[idx as int]
            } else {
                0u32
            }),
    ;

    /// The recorded values in `[start, stop)`, or the empty sequence under
    /// the oblivious strategy.
    fn slice(&self, start: usize, stop: usize) -> (r: Vec<u32>)
        requires
            Self::retains() ==> start <= stop <= self.recorded().len(),
        ensures
            r@ == (if Self::retains() {
                self.recorded().subrange(start as int, stop as int)
            } else {
                Seq::<u32>::empty()
            }),
    ;
}

/// The full strategy: stores every recorded value.
pub struct VecRecorder {
    vals: Vec<u32>,
}

impl U32sRecorder for VecRecorder {
    closed spec fn recorded(&self) -> Seq<u32> {
        self.vals@
    }

    open spec fn retains() -> bool {
        true
    }

    fn new() -> (r: VecRecorder) {
        VecRecorder { vals: Vec::new() }
    }

    fn record(&mut self, val: u32) {
        self.vals.push(val);
    }

    fn get(&self, idx: usize) -> u32 {
        self.vals[idx]
    }

    fn slice(&self, start: usize, stop: usize) -> (r: Vec<u32>) {
        let mut out: Vec<u32> = Vec::new();
        let mut i: usize = start;
        while i < stop
            invariant
                start <= i <= stop <= self.vals@.len(),
                out@ == self.vals@.subrange(start as int, i as int),
            decreases stop - i,
        {
            out.push(self.vals[i]);
            proof {
                assert(self.vals@.subrange(start as int, i + 1) =~= self.vals@.subrange(
                    start as int,
                    i as int,
                ).push(self.vals@[i as int]));
            }
            i += 1;
        }
        out
    }
}

/// The oblivious strategy: keeps no data, answers zero and empty.
pub struct ObliviousRecorder {
    history: Ghost<Seq<u32>>,
}

impl U32sRecorder for ObliviousRecorder {
    closed spec fn recorded(&self) -> Seq<u32> {
        self.history@
    }

    open spec fn retains() -> bool {
        false
    }

    fn new() -> (r: ObliviousRecorder) {
        ObliviousRecorder { history: Ghost(Seq::empty()) }
    }

    fn record(&mut self, val: u32) {
        proof {
            self.history@ = self.history@.push(val);
        }
    }

    fn get(&self, _idx: usize) -> u32 {
        0u32
    }

    fn slice(&self, _start: usize, _stop: usize) -> (r: Vec<u32>) {
        Vec::new()
    }
}

} // verus!
