use crate::range::{
    ByteRange, covers, in_range, lemma_covers_concat, lemma_covers_single,
    lemma_covers_push,
};
use vstd::prelude::*;

verus! {

/// The range a worker is fetching: the next byte it expects and the end.
#[derive(Clone, Copy, Debug, PartialEq, Eq, Structural)]
pub struct Chunk {
    pub pos: u64,
    pub end: u64,
}

/// Unfetched bytes of a chunk.
pub open spec fn left(c: Chunk) -> int {
    c.end - c.pos
}

/// Worker `w` took the back half of the unfetched tail of worker `v`, the
/// largest tail in flight and wider than twice `min_chunk`; `v` keeps the
/// front half.
pub open spec fn stolen(
    s0: Seq<Option<Chunk>>,
    min_chunk: u64,
    v: int,
    w: int,
    r: Option<ByteRange>,
    s1: Seq<Option<Chunk>>,
) -> bool {
    &&& 0 <= v < s0.len()
    &&& s0[v] is Some
    &&& {
        let c = s0[v]->0;
        let mid = c.pos + left(c) / 2;
        &&& left(c) > 2 * min_chunk
        &&& forall|u: int|
            0 <= u < s0.len() ==> (#[trigger] s0[u] matches Some(d) ==> left(d) <= left(c))
        &&& r == Some(ByteRange { start: mid as u64, end: c.end })
        &&& s1 == s0.update(v, Some(Chunk { pos: c.pos, end: mid as u64 })).update(
            w,
            Some(Chunk { pos: mid as u64, end: c.end }),
        )
    }
}

/// Whether byte `p` is left to fetch in the chunk `o`.
pub open spec fn chunk_has(o: Option<Chunk>, p: int) -> bool {
    o matches Some(c) && c.pos <= p < c.end
}

/// Whether some worker has byte `p` left to fetch.
#[verifier::opaque]
pub open spec fn in_flight(s: Seq<Option<Chunk>>, p: int) -> bool {
    exists|i: int| 0 <= i < s.len() && #[trigger] chunk_has(s[i], p)
}

/// Whether some worker other than `w` has byte `p` left to fetch.
#[verifier::opaque]
pub open spec fn in_flight_except(s: Seq<Option<Chunk>>, w: int, p: int) -> bool {
    exists|i: int| 0 <= i < s.len() && i != w && #[trigger] chunk_has(s[i], p)
}

proof fn lemma_in_flight_split(s: Seq<Option<Chunk>>, w: int, p: int)
    requires
        0 <= w < s.len(),
    ensures
        in_flight(s, p) <==> (in_flight_except(s, w, p) || chunk_has(s[w], p)),
{
    reveal(in_flight);
    reveal(in_flight_except);
    if in_flight(s, p) {
        let i = choose|i: int| 0 <= i < s.len() && #[trigger] chunk_has(s[i], p);
        if i != w {
            assert(in_flight_except(s, w, p));
        }
    }
    if in_flight_except(s, w, p) {
        let i = choose|i: int| 0 <= i < s.len() && i != w && #[trigger] chunk_has(s[i], p);
        assert(in_flight(s, p));
    }
    if chunk_has(s[w], p) {
        assert(in_flight(s, p));
    }
}

proof fn lemma_in_flight_update(s: Seq<Option<Chunk>>, w: int, x: Option<Chunk>, p: int)
    requires
        0 <= w < s.len(),
    ensures
        in_flight(s.update(w, x), p) <==> (in_flight_except(s, w, p) || chunk_has(x, p)),
{
    let t = s.update(w, x);
    lemma_in_flight_split(t, w, p);
    reveal(in_flight_except);
    if in_flight_except(t, w, p) {
        let i = choose|i: int| 0 <= i < t.len() && i != w && #[trigger] chunk_has(t[i], p);
        assert(t[i] == s[i]);
        assert(in_flight_except(s, w, p));
    }
    if in_flight_except(s, w, p) {
        let i = choose|i: int| 0 <= i < s.len() && i != w && #[trigger] chunk_has(s[i], p);
        assert(t[i] == s[i]);
        assert(in_flight_except(t, w, p));
    }
}

proof fn lemma_nothing_in_flight(n: nat, p: int)
    ensures
        !in_flight(Seq::new(n, |i: int| None::<Chunk>), p),
{
    reveal(in_flight);
    let s = Seq::new(n, |i: int| None::<Chunk>);
    if in_flight(s, p) {
        let i = choose|i: int| 0 <= i < s.len() && #[trigger] chunk_has(s[i], p);
        assert(s[i] is None);
    }
}

/// Work distribution of the parallel engine: a FIFO queue of ranges still
/// to fetch and, per worker, the chunk it is fetching. An idle worker that
/// finds the queue empty takes over the back half of the largest unfetched
/// tail, provided that tail is wider than twice the minimum chunk size.
pub struct Scheduler {
    queue: Vec<ByteRange>,
    slots: Vec<Option<Chunk>>,
    min_chunk: u64,
}

impl Scheduler {
    pub closed spec fn queue_view(&self) -> Seq<ByteRange> {
        self.queue@
    }

    pub closed spec fn slots_view(&self) -> Seq<Option<Chunk>> {
        self.slots@
    }

    pub closed spec fn min_chunk_view(&self) -> u64 {
        self.min_chunk
    }

    /// Whether byte `p` is still to fetch: queued, or left in a worker's
    /// chunk.
    pub open spec fn pending(&self, p: int) -> bool {
        covers(self.queue_view(), p) || in_flight(self.slots_view(), p)
    }

    /// Every chunk in flight has `pos <= end`.
    pub open spec fn wf(&self) -> bool {
        forall|i: int|
            0 <= i < self.slots_view().len() ==> (#[trigger] self.slots_view()[i] matches Some(c)
                ==> c.pos <= c.end)
    }

    /// `workers` idle workers and the ranges `chunks` to fetch, in order.
    pub fn new(chunks: Vec<ByteRange>, workers: usize, min_chunk: u64) -> (r: Scheduler)
        ensures
            r.wf(),
            r.queue_view() == chunks@,
            r.slots_view() == Seq::new(workers as nat, |i: int| None::<Chunk>),
            r.min_chunk_view() == min_chunk,
            forall|p: int| #[trigger] r.pending(p) <==> covers(chunks@, p),
    {
        let mut slots: Vec<Option<Chunk>> = Vec::new();
        let mut i: usize = 0;
        while i < workers
            invariant
                i <= workers,
                slots@ == Seq::new(i as nat, |k: int| None::<Chunk>),
            decreases workers - i,
        {
            slots.push(None);
            i += 1;
            proof {
                assert(slots@ =~= Seq::new(i as nat, |k: int| None::<Chunk>));
            }
        }
        let r = Scheduler { queue: chunks, slots, min_chunk };
        proof {
            assert forall|p: int| #[trigger] r.pending(p) <==> covers(chunks@, p) by {
                lemma_nothing_in_flight(workers as nat, p);
            }
        }
        r
    }

    /// Number of workers.
    pub fn workers(&self) -> (r: usize)
        ensures
            r == self.slots_view().len(),
    {
        self.slots.len()
    }

    /// Whether nothing is left to fetch and no worker is busy.
    pub fn all_done(&self) -> (r: bool)
        ensures
            r == (self.queue_view().len() == 0 && forall|i: int|
                0 <= i < self.slots_view().len() ==> #[trigger] self.slots_view()[i] is None),
    {
        if self.queue.len() > 0 {
            return false;
        }
        let mut i: usize = 0;
        while i < self.slots.len()
            invariant
                i <= self.slots@.len(),
                forall|k: int| 0 <= k < i ==> #[trigger] self.slots@[k] is None,
            decreases self.slots.len() - i,
        {
            if self.slots[i].is_some() {
                return false;
            }
            i += 1;
        }
        true
    }

    /// The busy worker with the most unfetched bytes, first among equals.
    fn largest_tail(&self) -> (r: Option<usize>)
        requires
            self.wf(),
        ensures
            match r {
                Some(v) => v < self.slots_view().len() && self.slots_view()[v as int] is Some
                    && forall|u: int|
                    0 <= u < self.slots_view().len() ==> (#[trigger] self.slots_view()[u] matches Some(
                        c,
                    ) ==> left(c) <= left(self.slots_view()[v as int]->0)),
                None => forall|u: int|
                    0 <= u < self.slots_view().len() ==> #[trigger] self.slots_view()[u] is None,
            },
    {
        let mut best: Option<usize> = None;
        let mut best_left: u64 = 0;
        let mut i: usize = 0;
        while i < self.slots.len()
            invariant
                self.wf(),
                i <= self.slots@.len(),
                match best {
                    Some(v) => v < i && self.slots@[v as int] is Some && best_left == left(
                        self.slots@[v as int]->0,
                    ) && forall|u: int|
                        0 <= u < i ==> (#[trigger] self.slots@[u] matches Some(c) ==> left(c)
                            <= best_left),
                    None => forall|u: int| 0 <= u < i ==> #[trigger] self.slots@[u] is None,
                },
            decreases self.slots.len() - i,
        {
            if let Some(c) = self.slots[i] {
                proof {
                    assert(self.slots_view()[i as int] matches Some(c2) ==> c2.pos <= c2.end);
                }
                let l = c.end - c.pos;
                match best {
                    Some(_) => {
                        if l > best_left {
                            best = Some(i);
                            best_left = l;
                        }
                    },
                    None => {
                        best = Some(i);
                        best_left = l;
                    },
                }
            }
            i += 1;
        }
        best
    }

    /// Hands idle worker `w` its next range: the front of the queue if any;
    /// otherwise the back half of the largest unfetched tail when that tail
    /// is wider than twice the minimum chunk size (the busy worker keeps the
    /// front half); otherwise nothing.
    pub fn assign(&mut self, w: usize) -> (r: Option<ByteRange>)
        requires
            old(self).wf(),
            w < old(self).slots_view().len(),
            old(self).slots_view()[w as int] is None,
        ensures
            final(self).wf(),
            final(self).min_chunk_view() == old(self).min_chunk_view(),
            final(self).slots_view().len() == old(self).slots_view().len(),
            old(self).queue_view().len() > 0 ==> {
                let g = old(self).queue_view()[0];
                &&& r == Some(g)
                &&& final(self).queue_view() == old(self).queue_view().drop_first()
                &&& final(self).slots_view() == old(self).slots_view().update(
                    w as int,
                    if g.start <= g.end { Some(Chunk { pos: g.start, end: g.end }) } else { Some(Chunk { pos: g.start, end: g.start }) },
                )
            },
            old(self).queue_view().len() == 0 ==> final(self).queue_view().len() == 0,
            forall|p: int| #[trigger] final(self).pending(p) <==> old(self).pending(p),
            old(self).queue_view().len() == 0 && r is Some ==> exists|v: int|
                stolen(
                    old(self).slots_view(),
                    old(self).min_chunk_view(),
                    v,
                    w as int,
                    r,
                    final(self).slots_view(),
                ),
            old(self).queue_view().len() == 0 && r is None ==> {
                &&& final(self).slots_view() == old(self).slots_view()
                &&& forall|u: int|
                    0 <= u < old(self).slots_view().len() ==> (#[trigger] old(self).slots_view()[u] matches Some(d) ==> left(d) <= 2 * old(self).min_chunk_view())
            },
    {
        let ghost s0 = self.slots@;
        if self.queue.len() > 0 {
            let g = self.queue.remove(0);
            let c = if g.start <= g.end {
                Chunk { pos: g.start, end: g.end }
            } else {
                Chunk { pos: g.start, end: g.start }
            };
            let ghost q0 = old(self).queue_view();
            self.slots.set(w, Some(c));
            proof {
                assert forall|p: int| #[trigger] self.pending(p) <==> old(self).pending(p) by {
                    assert(q0 =~= seq![g] + q0.drop_first());
                    lemma_covers_concat(seq![g], q0.drop_first(), p);
                    lemma_covers_single(g, p);
                    lemma_in_flight_update(s0, w as int, Some(c), p);
                    lemma_in_flight_split(s0, w as int, p);
                }
                assert forall|i: int| 0 <= i < self.slots_view().len() implies (#[trigger] self.slots_view()[i] matches Some(c) ==> c.pos <= c.end) by {
                    if i != w {
                        assert(self.slots_view()[i] == s0[i]);
                    }
                }
            }
            return Some(g);
        }
        match self.largest_tail() {
            Some(v) => {
                let c = self.slots[v].unwrap();
                let l = c.end - c.pos;
                if self.min_chunk <= u64::MAX / 2 && l > 2 * self.min_chunk {
                    let mid = c.pos + l / 2;
                    self.slots.set(v, Some(Chunk { pos: c.pos, end: mid }));
                    self.slots.set(w, Some(Chunk { pos: mid, end: c.end }));
                    proof {
                        assert(v != w);
                        let xv = Some(Chunk { pos: c.pos, end: mid });
                        let xw = Some(Chunk { pos: mid, end: c.end });
                        let t1 = s0.update(v as int, xv);
                        assert(self.slots@ == t1.update(w as int, xw));
                        assert forall|p: int| #[trigger] self.pending(p) <==> old(self).pending(p) by {
                            lemma_in_flight_update(t1, w as int, xw, p);
                            lemma_in_flight_split(t1, w as int, p);
                            assert(t1[w as int] == s0[w as int]);
                            lemma_in_flight_update(s0, v as int, xv, p);
                            lemma_in_flight_split(s0, v as int, p);
                        }
                        assert forall|i: int| 0 <= i < self.slots_view().len() implies (#[trigger] self.slots_view()[i] matches Some(c) ==> c.pos <= c.end) by {
                            if i != w && i != v {
                                assert(self.slots_view()[i] == s0[i]);
                            }
                        }
                        assert(self.slots@ =~= s0.update(v as int, Some(Chunk { pos: c.pos, end: mid })).update(
                            w as int,
                            Some(Chunk { pos: mid, end: c.end }),
                        ));
                        assert(stolen(s0, self.min_chunk, v as int, w as int, Some(ByteRange { start: mid, end: c.end }), self.slots@));
                        assert(stolen(
                            old(self).slots_view(),
                            old(self).min_chunk_view(),
                            v as int,
                            w as int,
                            Some(ByteRange { start: mid, end: c.end }),
                            self.slots_view(),
                        ));
                    }
                    Some(ByteRange { start: mid, end: c.end })
                } else {
                    proof {
                        if self.min_chunk > u64::MAX / 2 {
                            assert forall|u: int| 0 <= u < s0.len() implies (#[trigger] s0[u] matches Some(d) ==> left(d) <= 2 * self.min_chunk) by {
                                if let Some(d) = s0[u] {
                                    assert(d.pos <= d.end);
                                }
                            }
                        }
                    }
                    None
                }
            },
            None => None,
        }
    }

    /// Records that `len` bytes arrived for worker `w` and returns the
    /// range they fill; bytes past the chunk's end (after a split shortened
    /// it) are cut off.
    pub fn advance(&mut self, w: usize, len: u64) -> (r: ByteRange)
        requires
            old(self).wf(),
            w < old(self).slots_view().len(),
            old(self).slots_view()[w as int] is Some,
        ensures
            final(self).wf(),
            final(self).queue_view() == old(self).queue_view(),
            final(self).min_chunk_view() == old(self).min_chunk_view(),
            ({
                let c = old(self).slots_view()[w as int]->0;
                let n = if len < left(c) { len as int } else { left(c) };
                &&& r == ByteRange { start: c.pos, end: (c.pos + n) as u64 }
                &&& final(self).slots_view() == old(self).slots_view().update(
                    w as int,
                    Some(Chunk { pos: r.end, end: c.end }),
                )
            }),
            forall|p: int| #[trigger] old(self).pending(p) <==> (final(self).pending(p) || in_range(r, p)),
            forall|p: int| in_range(r, p) ==> #[trigger] old(self).pending(p),
    {
        let ghost s0 = self.slots@;
        let c = self.slots[w].unwrap();
        proof {
            assert(s0[w as int] matches Some(c2) ==> c2.pos <= c2.end);
        }
        let n = if len < c.end - c.pos { len } else { c.end - c.pos };
        let r = ByteRange { start: c.pos, end: c.pos + n };
        self.slots.set(w, Some(Chunk { pos: r.end, end: c.end }));
        proof {
            assert forall|p: int| #[trigger] old(self).pending(p) <==> (self.pending(p) || in_range(r, p)) by {
                lemma_in_flight_update(s0, w as int, Some(Chunk { pos: r.end, end: c.end }), p);
                lemma_in_flight_split(s0, w as int, p);
            }
            assert forall|i: int| 0 <= i < self.slots_view().len() implies (#[trigger] self.slots_view()[i] matches Some(c) ==> c.pos <= c.end) by {
                if i != w {
                    assert(self.slots_view()[i] == s0[i]);
                }
            }
        }
        r
    }

    /// Whether worker `w` has no chunk.
    pub fn is_worker_idle(&self, w: usize) -> (r: bool)
        requires
            w < self.slots_view().len(),
        ensures
            r == self.slots_view()[w as int] is None,
    {
        self.slots[w].is_none()
    }

    /// Whether worker `w` has fetched its whole chunk.
    pub fn is_finished(&self, w: usize) -> (r: bool)
        requires
            w < self.slots_view().len(),
        ensures
            r == (self.slots_view()[w as int] matches Some(c) && c.pos >= c.end),
    {
        match self.slots[w] {
            Some(c) => c.pos >= c.end,
            None => false,
        }
    }

    /// Worker `w` is done with its chunk, complete or not: an unfetched
    /// tail goes to the back of the queue, and the worker becomes idle.
    pub fn release(&mut self, w: usize) -> (requeued: Option<ByteRange>)
        requires
            old(self).wf(),
            w < old(self).slots_view().len(),
        ensures
            final(self).wf(),
            final(self).min_chunk_view() == old(self).min_chunk_view(),
            final(self).slots_view() == old(self).slots_view().update(w as int, None),
            match old(self).slots_view()[w as int] {
                Some(c) => if c.pos < c.end {
                    &&& requeued == Some(ByteRange { start: c.pos, end: c.end })
                    &&& final(self).queue_view() == old(self).queue_view().push(ByteRange { start: c.pos, end: c.end })
                } else {
                    requeued is None && final(self).queue_view() == old(self).queue_view()
                },
                None => requeued is None && final(self).queue_view() == old(self).queue_view(),
            },
            forall|p: int| #[trigger] final(self).pending(p) <==> old(self).pending(p),
    {
        let ghost s0 = self.slots@;
        let ghost q0 = self.queue@;
        let slot = self.slots[w];
        self.slots.set(w, None);
        proof {
            assert forall|i: int| 0 <= i < self.slots_view().len() implies (#[trigger] self.slots_view()[i] matches Some(c) ==> c.pos <= c.end) by {
                if i != w {
                    assert(self.slots_view()[i] == s0[i]);
                }
            }
        }
        let r = match slot {
            Some(c) => {
                if c.pos < c.end {
                    let g = ByteRange { start: c.pos, end: c.end };
                    self.queue.push(g);
                    Some(g)
                } else {
                    None
                }
            },
            None => None,
        };
        proof {
            assert forall|p: int| #[trigger] self.pending(p) <==> old(self).pending(p) by {
                lemma_in_flight_update(s0, w as int, None, p);
                lemma_in_flight_split(s0, w as int, p);
                if let Some(g) = r {
                    lemma_covers_push(q0, g, p);
                }
            }
        }
        r
    }
}

} // verus!
