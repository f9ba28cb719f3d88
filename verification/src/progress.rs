//! Progress reporting. The codec reports progress as a pair
//! `(done, total)` after each unit of work; an observer implements
//! `ProgressSink` and receives the pairs in order. The history of reported
//! pairs is part of each codec function's contract, which is how the
//! monotonicity and count laws are stated and proved.

use vstd::prelude::*;

verus! {

/// An observer of progress reports. `history` is the sequence of pairs
/// reported so far; `report` appends exactly one pair.
pub trait ProgressSink: Sized {
    spec fn history(&self) -> Seq<(usize, usize)>;

    fn report(&mut self, done: usize, total: usize)
        ensures
            final(self).history() == old(self).history().push((done, total)),
    ;
}

/// An observer that discards the reports, keeping them only in ghost state.
pub struct NoProgress {
    pub reported: Ghost<Seq<(usize, usize)>>,
}

impl NoProgress {
    pub fn new() -> (r: NoProgress)
        ensures
            r.history() == Seq::<(usize, usize)>::empty(),
    {
        NoProgress { reported: Ghost(Seq::empty()) }
    }
}

impl ProgressSink for NoProgress {
    open spec fn history(&self) -> Seq<(usize, usize)> {
        self.reported@
    }

    fn report(&mut self, done: usize, total: usize) {
        self.reported = Ghost(self.reported@.push((done, total)));
    }
}

/// An observer that records every report, for callers that display or
/// examine them.
pub struct ProgressLog {
    pub entries: Vec<(usize, usize)>,
}

impl ProgressLog {
    pub fn new() -> (r: ProgressLog)
        ensures
            r.history() == Seq::<(usize, usize)>::empty(),
    {
        ProgressLog { entries: Vec::new() }
    }
}

impl ProgressSink for ProgressLog {
    open spec fn history(&self) -> Seq<(usize, usize)> {
        self.entries@
    }

    fn report(&mut self, done: usize, total: usize) {
        self.entries.push((done, total));
    }
}

/// The reports one pass over `len` work units produces: `(i, len)` for each
/// `i` in order.
pub open spec fn progress_trace(len: nat) -> Seq<(usize, usize)> {
    Seq::new(len, |i: int| (i as usize, len as usize))
}

/// Progress values are monotonically non-decreasing within a pass, and each
/// stays within the whole, so the reported fractions lie in [0, 1].
pub proof fn lemma_progress_trace_monotone(len: nat)
    requires
        len <= usize::MAX,
    ensures
        forall|i: int, j: int|
            0 <= i <= j < len ==> (#[trigger] progress_trace(len)[i]).0 <= (
            #[trigger] progress_trace(len)[j]).0,
        forall|i: int|
            0 <= i < len ==> (#[trigger] progress_trace(len)[i]).0 <= progress_trace(len)[i].1,
{
}

/// One pass over `len` work units reports progress exactly `len` times.
pub proof fn lemma_progress_trace_count(len: nat)
    ensures
        progress_trace(len).len() == len,
{
}

} // verus!
