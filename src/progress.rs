use crate::range::{ByteRange, canonical, covers, in_range, merge, total, total_of};
use vstd::prelude::*;

verus! {

/// Index of a worker of an engine.
pub type WorkerId = usize;

/// What an engine reports while it runs.
#[derive(Clone, Debug)]
pub enum Event {
    Pulling(WorkerId),
    PullError(WorkerId, String),
    PullProgress(WorkerId, ByteRange),
    PullTimeout(WorkerId),
    PushProgress(WorkerId, ByteRange),
    PushError(WorkerId, String),
    FlushError(String),
    Finished(WorkerId),
}

/// The canonical set of bytes written so far for a file of known size,
/// fed by the events of an engine.
pub struct ProgressTracker {
    progress: Vec<ByteRange>,
    total_size: u64,
}

impl ProgressTracker {
    pub closed spec fn ranges(&self) -> Seq<ByteRange> {
        self.progress@
    }

    pub closed spec fn size(&self) -> u64 {
        self.total_size
    }

    pub open spec fn wf(&self) -> bool {
        canonical(self.ranges())
    }

    /// Starts from the bytes a previous run wrote.
    pub fn new(progress: Vec<ByteRange>, total_size: u64) -> (r: ProgressTracker)
        requires
            canonical(progress@),
        ensures
            r.wf(),
            r.ranges() == progress@,
            r.size() == total_size,
    {
        ProgressTracker { progress, total_size }
    }

    /// Folds one event in. A written range starting at byte zero means the
    /// source restarted from scratch: what was recorded before is dropped.
    /// Returns whether such a restart happened; other events change nothing.
    pub fn apply(&mut self, e: &Event) -> (restarted: bool)
        requires
            old(self).wf(),
        ensures
            final(self).wf(),
            final(self).size() == old(self).size(),
            match *e {
                Event::PushProgress(_, r) => {
                    &&& restarted == (r.start == 0)
                    &&& forall|p: int|
                        (#[trigger] covers(final(self).ranges(), p)) <==> (in_range(r, p) || (r.start
                            != 0 && covers(old(self).ranges(), p)))
                },
                _ => !restarted && final(self).ranges() == old(self).ranges(),
            },
    {
        match e {
            Event::PushProgress(_, r) => {
                let restarted = r.start == 0;
                if restarted {
                    self.progress = Vec::new();
                }
                let ghost before = self.progress@;
                proof {
                    if restarted {
                        assert forall|p: int| !covers(before, p) by {
                            crate::range::lemma_covers_empty(p);
                            assert(before =~= Seq::<ByteRange>::empty());
                        }
                    }
                }
                merge(&mut self.progress, *r);
                proof {
                    assert forall|p: int|
                        (#[trigger] covers(self.progress@, p)) <==> (in_range(*r, p) || (r.start != 0
                            && covers(old(self).ranges(), p))) by {
                        assert(covers(self.progress@, p) <==> (covers(before, p) || in_range(*r, p)));
                    }
                }
                restarted
            },
            _ => false,
        }
    }

    /// The recorded ranges.
    pub fn progress(&self) -> (r: &Vec<ByteRange>)
        ensures
            r@ == self.ranges(),
    {
        &self.progress
    }

    /// Bytes written so far.
    pub fn downloaded(&self) -> (r: u64)
        ensures
            total_of(self.ranges()) <= u64::MAX ==> r == total_of(self.ranges()),
    {
        total(&self.progress)
    }

    /// Bytes still to write; zero once the recorded bytes reach the size.
    pub fn remaining(&self) -> (r: u64)
        ensures
            total_of(self.ranges()) <= self.size() ==> r == self.size() - total_of(self.ranges()),
            total_of(self.ranges()) >= self.size() ==> r == 0,
    {
        let d = total(&self.progress);
        self.total_size.saturating_sub(d)
    }
}

/// Per-worker ranges as `(start, end)` pairs.
pub fn fmt_progress(progress: &Vec<Vec<ByteRange>>) -> (r: Vec<Vec<(u64, u64)>>)
    ensures
        r@.len() == progress@.len(),
        forall|i: int|
            0 <= i < r@.len() ==> (#[trigger] r@[i])@.len() == progress@[i]@.len() && forall|j: int|
                0 <= j < r@[i]@.len() ==> (#[trigger] r@[i]@[j]) == (
                    progress@[i]@[j].start,
                    progress@[i]@[j].end,
                ),
{
    let mut r: Vec<Vec<(u64, u64)>> = Vec::new();
    let mut i: usize = 0;
    while i < progress.len()
        invariant
            i <= progress@.len(),
            r@.len() == i,
            forall|a: int|
                0 <= a < i ==> (#[trigger] r@[a])@.len() == progress@[a]@.len() && forall|j: int|
                    0 <= j < r@[a]@.len() ==> (#[trigger] r@[a]@[j]) == (
                        progress@[a]@[j].start,
                        progress@[a]@[j].end,
                    ),
        decreases progress.len() - i,
    {
        let v = &progress[i];
        let mut row: Vec<(u64, u64)> = Vec::new();
        let mut j: usize = 0;
        while j < v.len()
            invariant
                j <= v@.len(),
                row@.len() == j,
                forall|b: int| 0 <= b < j ==> (#[trigger] row@[b]) == (v@[b].start, v@[b].end),
            decreases v.len() - j,
        {
            row.push((v[j].start, v[j].end));
            j += 1;
        }
        r.push(row);
        i += 1;
    }
    r
}

} // verus!
