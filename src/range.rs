use vstd::prelude::*;

verus! {

/// A half-open byte interval `[start, end)`.
#[derive(Clone, Copy, Debug, PartialEq, Eq, Structural)]
pub struct ByteRange {
    pub start: u64,
    pub end: u64,
}

/// Whether byte `p` lies in the range `r`.
pub open spec fn in_range(r: ByteRange, p: int) -> bool {
    r.start <= p < r.end
}

/// Whether byte `p` lies in some range of `s`.
#[verifier::opaque]
pub open spec fn covers(s: Seq<ByteRange>, p: int) -> bool {
    exists|i: int| 0 <= i < s.len() && #[trigger] in_range(s[i], p)
}

/// A range set in canonical form: every range non-empty, ranges sorted,
/// with a gap of at least one byte between consecutive ranges.
pub open spec fn canonical(s: Seq<ByteRange>) -> bool {
    &&& forall|i: int| 0 <= i < s.len() ==> (#[trigger] s[i]).start < s[i].end
    &&& forall|i: int, j: int|
        0 <= i && j == i + 1 && j < s.len() ==> (#[trigger] s[i]).end < (#[trigger] s[j]).start
}

/// Width of a range, zero when `end <= start`.
pub open spec fn width(r: ByteRange) -> nat {
    if r.start <= r.end { (r.end - r.start) as nat } else { 0 }
}

/// Sum of the widths of the ranges of `s`.
pub open spec fn total_of(s: Seq<ByteRange>) -> nat
    decreases s.len(),
{
    if s.len() == 0 { 0 } else { total_of(s.drop_last()) + width(s.last()) }
}

impl ByteRange {
    pub fn new(start: u64, end: u64) -> (r: ByteRange)
        ensures
            r.start == start,
            r.end == end,
    {
        ByteRange { start, end }
    }

    /// Number of bytes in the range.
    pub fn total(&self) -> (w: u64)
        ensures
            w == width(*self),
    {
        if self.start <= self.end {
            self.end - self.start
        } else {
            0
        }
    }
}

/// Sum of widths, saturating at `u64::MAX`.
pub fn total(s: &Vec<ByteRange>) -> (t: u64)
    ensures
        total_of(s@) <= u64::MAX ==> t == total_of(s@),
        total_of(s@) > u64::MAX ==> t == u64::MAX,
{
    let mut acc: u64 = 0;
    let mut i: usize = 0;
    while i < s.len()
        invariant
            i <= s.len(),
            total_of(s@.subrange(0, i as int)) <= u64::MAX ==> acc == total_of(
                s@.subrange(0, i as int),
            ),
            total_of(s@.subrange(0, i as int)) > u64::MAX ==> acc == u64::MAX,
        decreases s.len() - i,
    {
        proof {
            let next = s@.subrange(0, i + 1);
            assert(next.drop_last() =~= s@.subrange(0, i as int));
        }
        let w = s[i].total();
        acc = acc.saturating_add(w);
        i += 1;
    }
    proof {
        assert(s@.subrange(0, s.len() as int) =~= s@);
    }
    acc
}

/// The empty sequence covers nothing.
pub proof fn lemma_covers_empty(p: int)
    ensures
        !covers(Seq::<ByteRange>::empty(), p),
{
    reveal(covers);
}

/// Appending a range adds exactly its bytes to the covered set.
pub proof fn lemma_covers_push(s: Seq<ByteRange>, x: ByteRange, p: int)
    ensures
        covers(s.push(x), p) <==> (covers(s, p) || in_range(x, p)),
{
    reveal(covers);
    let t = s.push(x);
    if covers(s, p) {
        let i = choose|i: int| 0 <= i < s.len() && #[trigger] in_range(s[i], p);
        assert(t[i] == s[i]);
    }
    if in_range(x, p) {
        assert(t[s.len() as int] == x);
    }
    if covers(t, p) {
        let i = choose|i: int| 0 <= i < t.len() && #[trigger] in_range(t[i], p);
        if i < s.len() {
            assert(t[i] == s[i]);
        }
    }
}

/// Appending a non-empty range that starts past the last one keeps the form.
pub proof fn lemma_canonical_push(s: Seq<ByteRange>, x: ByteRange)
    requires
        canonical(s),
        x.start < x.end,
        s.len() > 0 ==> s.last().end < x.start,
    ensures
        canonical(s.push(x)),
{
    let t = s.push(x);
    assert forall|i: int, j: int| 0 <= i && j == i + 1 && j < t.len() implies (#[trigger] t[i]).end
        < (#[trigger] t[j]).start by {
        if j < s.len() {
            assert(t[i] == s[i] && t[j] == s[j]);
        }
    }
}

/// Coverage of `out` together with the pending interval `[lo, hi)` equals
/// coverage of `done` together with `r`.
pub open spec fn pending_matches(
    out: Seq<ByteRange>,
    lo: int,
    hi: int,
    done: Seq<ByteRange>,
    r: ByteRange,
) -> bool {
    forall|p: int|
        ((#[trigger] covers(out, p)) || lo <= p < hi) <==> (covers(done, p) || in_range(r, p))
}

/// Coverage of `out` equals coverage of `done` together with `r`.
pub open spec fn placed_matches(out: Seq<ByteRange>, done: Seq<ByteRange>, r: ByteRange) -> bool {
    forall|p: int| (#[trigger] covers(out, p)) <==> (covers(done, p) || in_range(r, p))
}

proof fn lemma_step_copy_placed(out: Seq<ByteRange>, done: Seq<ByteRange>, x: ByteRange, r: ByteRange)
    requires
        placed_matches(out, done, r),
    ensures
        placed_matches(out.push(x), done.push(x), r),
{
    assert forall|p: int| (#[trigger] covers(out.push(x), p)) <==> (covers(done.push(x), p) || in_range(r, p)) by {
        lemma_covers_push(out, x, p);
        lemma_covers_push(done, x, p);
    }
}

proof fn lemma_step_copy_pending(
    out: Seq<ByteRange>,
    lo: int,
    hi: int,
    done: Seq<ByteRange>,
    x: ByteRange,
    r: ByteRange,
)
    requires
        pending_matches(out, lo, hi, done, r),
    ensures
        pending_matches(out.push(x), lo, hi, done.push(x), r),
{
    assert forall|p: int|
        ((#[trigger] covers(out.push(x), p)) || lo <= p < hi) <==> (covers(done.push(x), p) || in_range(
            r,
            p,
        )) by {
        lemma_covers_push(out, x, p);
        lemma_covers_push(done, x, p);
    }
}

proof fn lemma_step_place(
    out: Seq<ByteRange>,
    m: ByteRange,
    done: Seq<ByteRange>,
    x: ByteRange,
    r: ByteRange,
)
    requires
        pending_matches(out, m.start as int, m.end as int, done, r),
    ensures
        placed_matches(out.push(m).push(x), done.push(x), r),
{
    assert forall|p: int|
        (#[trigger] covers(out.push(m).push(x), p)) <==> (covers(done.push(x), p) || in_range(r, p)) by {
        lemma_covers_push(out, m, p);
        lemma_covers_push(out.push(m), x, p);
        lemma_covers_push(done, x, p);
    }
}

proof fn lemma_step_fold(
    out: Seq<ByteRange>,
    cur_lo: int,
    cur_hi: int,
    new_lo: int,
    new_hi: int,
    done: Seq<ByteRange>,
    x: ByteRange,
    r: ByteRange,
)
    requires
        pending_matches(out, cur_lo, cur_hi, done, r),
        x.start <= cur_hi,
        cur_lo <= x.end,
        new_lo == if x.start < cur_lo { x.start as int } else { cur_lo },
        new_hi == if x.end > cur_hi { x.end as int } else { cur_hi },
    ensures
        pending_matches(out, new_lo, new_hi, done.push(x), r),
{
    assert forall|p: int|
        ((#[trigger] covers(out, p)) || new_lo <= p < new_hi) <==> (covers(done.push(x), p) || in_range(r, p)) by {
        lemma_covers_push(done, x, p);
        assert((covers(out, p) || cur_lo <= p < cur_hi) <==> (covers(done, p) || in_range(r, p)));
        assert((new_lo <= p < new_hi) <==> (cur_lo <= p < cur_hi || in_range(x, p)));
    }
    assert(forall|p: int|
        (covers(out, p) || new_lo <= p < new_hi) <==> (covers(done.push(x), p) || in_range(r, p)));
}

proof fn lemma_place_last(out: Seq<ByteRange>, m: ByteRange, done: Seq<ByteRange>, r: ByteRange)
    requires
        pending_matches(out, m.start as int, m.end as int, done, r),
    ensures
        placed_matches(out.push(m), done, r),
{
    assert forall|p: int| (#[trigger] covers(out.push(m), p)) <==> (covers(done, p) || in_range(r, p)) by {
        lemma_covers_push(out, m, p);
    }
}

/// The canonical set covering what `v` covers together with the bytes of `r`.
fn merged(v: &Vec<ByteRange>, r: ByteRange) -> (out: Vec<ByteRange>)
    requires
        canonical(v@),
        r.start < r.end,
    ensures
        canonical(out@),
        placed_matches(out@, v@, r),
{
    let mut out: Vec<ByteRange> = Vec::new();
    let mut lo: u64 = r.start;
    let mut hi: u64 = r.end;
    let mut placed = false;
    let mut k: usize = 0;
    proof {
        assert(v@.subrange(0, 0) =~= Seq::<ByteRange>::empty());
        assert forall|p: int| !covers(out@, p) && !covers(v@.subrange(0, 0), p) by {
            lemma_covers_empty(p);
        }
    }
    while k < v.len()
        invariant
            k <= v.len(),
            canonical(v@),
            canonical(out@),
            lo < hi,
            !placed ==> (out@.len() > 0 ==> out@.last().end < lo),
            !placed ==> (out@.len() > 0 ==> k > 0 && out@.last().end <= v@[k - 1].end),
            !placed ==> pending_matches(out@, lo as int, hi as int, v@.subrange(0, k as int), r),
            placed ==> k > 0 && out@.len() > 0 && out@.last() == v@[k - 1],
            placed ==> placed_matches(out@, v@.subrange(0, k as int), r),
        decreases v.len() - k,
    {
        let x = v[k];
        let ghost done = v@.subrange(0, k as int);
        let ghost old_out = out@;
        proof {
            assert(v@.subrange(0, k + 1) =~= done.push(x));
            assert(x.start < x.end);
            if k > 0 {
                assert(v@[k - 1].end < x.start);
            }
        }
        if placed {
            proof {
                lemma_canonical_push(out@, x);
                lemma_step_copy_placed(out@, done, x, r);
            }
            out.push(x);
        } else if x.end < lo {
            proof {
                lemma_canonical_push(out@, x);
                lemma_step_copy_pending(out@, lo as int, hi as int, done, x, r);
            }
            out.push(x);
        } else if x.start > hi {
            let m = ByteRange { start: lo, end: hi };
            proof {
                lemma_canonical_push(out@, m);
                lemma_canonical_push(out@.push(m), x);
                lemma_step_place(out@, m, done, x, r);
            }
            out.push(m);
            out.push(x);
            placed = true;
        } else {
            let lo2 = if x.start < lo { x.start } else { lo };
            let hi2 = if x.end > hi { x.end } else { hi };
            proof {
                lemma_step_fold(out@, lo as int, hi as int, lo2 as int, hi2 as int, done, x, r);
            }
            lo = lo2;
            hi = hi2;
        }
        k += 1;
    }
    proof {
        assert(v@.subrange(0, v.len() as int) =~= v@);
    }
    if !placed {
        let m = ByteRange { start: lo, end: hi };
        proof {
            lemma_canonical_push(out@, m);
            lemma_place_last(out@, m, v@, r);
        }
        out.push(m);
    }
    out
}

/// Folds the range `r` into the canonical set `s`: afterwards `s` is
/// canonical and covers exactly what it covered before plus the bytes of `r`.
pub fn merge(s: &mut Vec<ByteRange>, r: ByteRange)
    requires
        canonical(old(s)@),
    ensures
        canonical(final(s)@),
        forall|p: int|
            (#[trigger] covers(final(s)@, p)) <==> (covers(old(s)@, p) || in_range(r, p)),
{
    if r.start < r.end {
        let out = merged(s, r);
        *s = out;
    }
}

/// The stretches of `[cursor, n)` that no range of `s` covers, in order,
/// for `s` sorted by position.
pub open spec fn gaps_from(s: Seq<ByteRange>, cursor: int, n: int) -> Seq<ByteRange>
    decreases s.len(),
{
    if s.len() == 0 {
        if cursor < n {
            seq![ByteRange { start: cursor as u64, end: n as u64 }]
        } else {
            seq![]
        }
    } else {
        let r = s[0];
        let stop = if r.start < n { r.start as int } else { n };
        let before = if cursor < stop {
            seq![ByteRange { start: cursor as u64, end: stop as u64 }]
        } else {
            seq![]
        };
        let next = if cursor < r.end { r.end as int } else { cursor };
        before + gaps_from(s.drop_first(), next, n)
    }
}

/// Walks the gaps `gs` in order, extending a pending segment over each gap
/// until it is at least `c` bytes wide; a segment still pending at the end
/// is emitted as it is.
pub open spec fn coalesce(gs: Seq<ByteRange>, pending: Option<ByteRange>, c: int) -> Seq<
    ByteRange,
>
    decreases gs.len(),
{
    if gs.len() == 0 {
        match pending {
            Some(q) => seq![q],
            None => seq![],
        }
    } else {
        let g = gs[0];
        let q = match pending {
            Some(q) => ByteRange { start: q.start, end: g.end },
            None => g,
        };
        if width(q) >= c {
            seq![q] + coalesce(gs.drop_first(), None, c)
        } else {
            coalesce(gs.drop_first(), Some(q), c)
        }
    }
}

/// What remains to fetch of a file of `n` bytes of which `s` is done,
/// as segments of at least `c` bytes but the last.
pub open spec fn invert_spec(s: Seq<ByteRange>, n: int, c: int) -> Seq<ByteRange> {
    coalesce(gaps_from(s, 0, n), None, c)
}

fn gaps(s: &Vec<ByteRange>, n: u64) -> (out: Vec<ByteRange>)
    ensures
        out@ == gaps_from(s@, 0, n as int),
{
    let mut out: Vec<ByteRange> = Vec::new();
    let mut cursor: u64 = 0;
    let mut k: usize = 0;
    proof {
        assert(s@.subrange(0, s.len() as int) =~= s@);
        assert(out@ + gaps_from(s@, 0, n as int) =~= gaps_from(s@, 0, n as int));
    }
    while k < s.len()
        invariant
            k <= s.len(),
            out@ + gaps_from(s@.subrange(k as int, s.len() as int), cursor as int, n as int)
                == gaps_from(s@, 0, n as int),
        decreases s.len() - k,
    {
        let r = s[k];
        let ghost rest = s@.subrange(k as int, s.len() as int);
        proof {
            assert(rest.drop_first() =~= s@.subrange(k + 1, s.len() as int));
            assert(rest[0] == r);
        }
        let stop = if r.start < n { r.start } else { n };
        let ghost out0 = out@;
        if cursor < stop {
            out.push(ByteRange { start: cursor, end: stop });
        }
        let next = if cursor < r.end { r.end } else { cursor };
        proof {
            let before = if cursor < stop {
                seq![ByteRange { start: cursor, end: stop }]
            } else {
                seq![]
            };
            assert(out@ =~= out0 + before);
            assert(out0 + (before + gaps_from(rest.drop_first(), next as int, n as int)) =~= out@
                + gaps_from(rest.drop_first(), next as int, n as int));
        }
        cursor = next;
        k += 1;
    }
    let ghost out0 = out@;
    if cursor < n {
        out.push(ByteRange { start: cursor, end: n });
    }
    proof {
        assert(s@.subrange(s.len() as int, s.len() as int) =~= Seq::<ByteRange>::empty());
        assert(out@ =~= out0 + gaps_from(Seq::<ByteRange>::empty(), cursor as int, n as int));
    }
    out
}

fn coalesced(gs: &Vec<ByteRange>, c: u64) -> (out: Vec<ByteRange>)
    ensures
        out@ == coalesce(gs@, None, c as int),
{
    let mut out: Vec<ByteRange> = Vec::new();
    let mut pending: Option<ByteRange> = None;
    let mut k: usize = 0;
    proof {
        assert(gs@.subrange(0, gs.len() as int) =~= gs@);
        assert(out@ + coalesce(gs@, None, c as int) =~= coalesce(gs@, None, c as int));
    }
    while k < gs.len()
        invariant
            k <= gs.len(),
            out@ + coalesce(gs@.subrange(k as int, gs.len() as int), pending, c as int) == coalesce(
                gs@,
                None,
                c as int,
            ),
        decreases gs.len() - k,
    {
        let g = gs[k];
        let ghost rest = gs@.subrange(k as int, gs.len() as int);
        proof {
            assert(rest.drop_first() =~= gs@.subrange(k + 1, gs.len() as int));
            assert(rest[0] == g);
        }
        let q = match pending {
            Some(q) => ByteRange { start: q.start, end: g.end },
            None => g,
        };
        let ghost out0 = out@;
        if q.total() >= c {
            out.push(q);
            pending = None;
            proof {
                assert(out0 + (seq![q] + coalesce(rest.drop_first(), None, c as int)) =~= out@
                    + coalesce(rest.drop_first(), None, c as int));
            }
        } else {
            pending = Some(q);
        }
        k += 1;
    }
    let ghost out0 = out@;
    if let Some(q) = pending {
        out.push(q);
    }
    proof {
        assert(gs@.subrange(gs.len() as int, gs.len() as int) =~= Seq::<ByteRange>::empty());
        assert(out@ =~= out0 + coalesce(Seq::<ByteRange>::empty(), pending, c as int));
    }
    out
}

/// The outstanding work of a file of `total_size` bytes of which `progress`
/// is done: the gaps of `[0, total_size)`, where a gap narrower than
/// `min_chunk` is extended over the done bytes after it up to the end of the
/// next gap, until the segment is wide enough.
pub fn invert(progress: &Vec<ByteRange>, total_size: u64, min_chunk: u64) -> (out: Vec<
    ByteRange,
>)
    requires
        canonical(progress@),
    ensures
        out@ == invert_spec(progress@, total_size as int, min_chunk as int),
        canonical(out@),
{
    let gs = gaps(progress, total_size);
    proof {
        lemma_invert_canonical(progress@, total_size, min_chunk);
    }
    coalesced(&gs, min_chunk)
}

/// Coverage of a concatenation is the union of the coverages.
pub proof fn lemma_covers_concat(a: Seq<ByteRange>, b: Seq<ByteRange>, p: int)
    ensures
        covers(a + b, p) <==> (covers(a, p) || covers(b, p)),
{
    reveal(covers);
    let t = a + b;
    if covers(a, p) {
        let i = choose|i: int| 0 <= i < a.len() && #[trigger] in_range(a[i], p);
        assert(t[i] == a[i]);
    }
    if covers(b, p) {
        let i = choose|i: int| 0 <= i < b.len() && #[trigger] in_range(b[i], p);
        assert(t[a.len() + i] == b[i]);
    }
    if covers(t, p) {
        let i = choose|i: int| 0 <= i < t.len() && #[trigger] in_range(t[i], p);
        if i < a.len() {
            assert(t[i] == a[i]);
        } else {
            assert(t[i] == b[i - a.len()]);
        }
    }
}

/// A one-range sequence covers exactly that range.
pub proof fn lemma_covers_single(x: ByteRange, p: int)
    ensures
        covers(seq![x], p) <==> in_range(x, p),
{
    reveal(covers);
    if in_range(x, p) {
        assert(seq![x][0] == x);
    }
}

/// In a canonical set every range ends before any later range starts.
pub proof fn lemma_sorted(s: Seq<ByteRange>, i: int, j: int)
    requires
        canonical(s),
        0 <= i < j < s.len(),
    ensures
        s[i].end < s[j].start,
    decreases j - i,
{
    if j > i + 1 {
        lemma_sorted(s, i, j - 1);
        assert(s[j - 1].end < s[j].start);
        assert(s[j - 1].start < s[j - 1].end);
    }
}

/// Canonical sets concatenate when the first ends before the second starts.
pub proof fn lemma_canonical_concat(a: Seq<ByteRange>, b: Seq<ByteRange>)
    requires
        canonical(a),
        canonical(b),
        a.len() > 0 && b.len() > 0 ==> a.last().end < b[0].start,
    ensures
        canonical(a + b),
{
    let t = a + b;
    assert forall|i: int| 0 <= i < t.len() implies (#[trigger] t[i]).start < t[i].end by {
        if i < a.len() {
            assert(t[i] == a[i]);
        } else {
            let k = i - a.len();
            assert(t[i] == b[k]);
            assert(b[k].start < b[k].end);
        }
    }
    assert forall|i: int, j: int| 0 <= i && j == i + 1 && j < t.len() implies (#[trigger] t[i]).end
        < (#[trigger] t[j]).start by {
        if j < a.len() {
            assert(t[i] == a[i] && t[j] == a[j]);
        } else if j == a.len() {
            assert(t[i] == a.last() && t[j] == b[0]);
        } else {
            let k = i - a.len();
            assert(t[i] == b[k] && t[j] == b[k + 1]);
        }
    }
}

/// Every range of `s` lies within `[lo, hi]`.
pub open spec fn within(s: Seq<ByteRange>, lo: int, hi: int) -> bool {
    forall|i: int| 0 <= i < s.len() ==> lo <= (#[trigger] s[i]).start && s[i].end <= hi
}

proof fn lemma_within_covers(s: Seq<ByteRange>, lo: int, hi: int, p: int)
    requires
        within(s, lo, hi),
        covers(s, p),
    ensures
        lo <= p < hi,
{
    reveal(covers);
    let i = choose|i: int| 0 <= i < s.len() && #[trigger] in_range(s[i], p);
    assert(lo <= s[i].start && s[i].end <= hi);
}

/// The gaps are canonical, lie within `[cursor, n]`, and cover exactly the
/// bytes of `[cursor, n)` that `s` does not.
pub proof fn lemma_gaps(s: Seq<ByteRange>, cursor: int, n: int)
    requires
        canonical(s),
        0 <= cursor <= u64::MAX,
        0 <= n <= u64::MAX,
    ensures
        canonical(gaps_from(s, cursor, n)),
        within(gaps_from(s, cursor, n), cursor, n),
        forall|p: int|
            #![trigger covers(gaps_from(s, cursor, n), p)]
            covers(gaps_from(s, cursor, n), p) <==> (cursor <= p < n && !covers(s, p)),
    decreases s.len(),
{
    let g = gaps_from(s, cursor, n);
    if s.len() == 0 {
        assert forall|p: int| covers(g, p) <==> (cursor <= p < n && !covers(s, p)) by {
            lemma_covers_empty(p);
            assert(s =~= Seq::<ByteRange>::empty());
            if cursor < n {
                lemma_covers_single(ByteRange { start: cursor as u64, end: n as u64 }, p);
            } else {
                lemma_covers_empty(p);
                assert(g =~= Seq::<ByteRange>::empty());
            }
        }
    } else {
        let r = s[0];
        let rest = s.drop_first();
        let stop = if r.start < n { r.start as int } else { n };
        let before = if cursor < stop {
            seq![ByteRange { start: cursor as u64, end: stop as u64 }]
        } else {
            seq![]
        };
        let next = if cursor < r.end { r.end as int } else { cursor };
        assert(canonical(rest)) by {
            assert forall|i: int, j: int| 0 <= i && j == i + 1 && j < rest.len() implies (
            #[trigger] rest[i]).end < (#[trigger] rest[j]).start by {
                assert(rest[i] == s[i + 1] && rest[j] == s[j + 1]);
            }
        }
        lemma_gaps(rest, next, n);
        let tail = gaps_from(rest, next, n);
        assert(g == before + tail);
        if tail.len() > 0 {
            assert(next <= tail[0].start && tail[0].start < tail[0].end && tail[0].end <= n);
        }
        lemma_canonical_concat(before, tail);
        assert forall|i: int| 0 <= i < g.len() implies cursor <= (#[trigger] g[i]).start
            && g[i].end <= n by {
            if i < before.len() {
                assert(g[i] == before[i]);
            } else {
                assert(g[i] == tail[i - before.len()]);
            }
        }
        assert forall|p: int| covers(g, p) <==> (cursor <= p < n && !covers(s, p)) by {
            lemma_covers_concat(before, tail, p);
            lemma_covers_empty(p);
            if cursor < stop {
                lemma_covers_single(ByteRange { start: cursor as u64, end: stop as u64 }, p);
            } else {
                assert(before =~= Seq::<ByteRange>::empty());
            }
            assert(s =~= seq![r] + rest);
            lemma_covers_concat(seq![r], rest, p);
            lemma_covers_single(r, p);
            if p < r.start && covers(rest, p) {
                reveal(covers);
                let j = choose|j: int| 0 <= j < rest.len() && #[trigger] in_range(rest[j], p);
                lemma_sorted(s, 0, j + 1);
                assert(rest[j] == s[j + 1]);
            }
        }
    }
}

/// The segments of a coalesced walk lie within the bounds of the gaps and
/// the pending segment.
proof fn lemma_coalesce_within(gs: Seq<ByteRange>, pending: Option<ByteRange>, c: int, lo: int, hi: int)
    requires
        within(gs, lo, hi),
        pending matches Some(q) ==> lo <= q.start && q.end <= hi,
    ensures
        within(coalesce(gs, pending, c), lo, hi),
    decreases gs.len(),
{
    if gs.len() > 0 {
        let g = gs[0];
        let q = match pending {
            Some(q) => ByteRange { start: q.start, end: g.end },
            None => g,
        };
        let rest = gs.drop_first();
        assert(within(rest, lo, hi)) by {
            assert forall|i: int| 0 <= i < rest.len() implies lo <= (#[trigger] rest[i]).start
                && rest[i].end <= hi by {
                assert(rest[i] == gs[i + 1]);
            }
        }
        assert(lo <= g.start && g.end <= hi);
        if width(q) >= c {
            lemma_coalesce_within(rest, None, c, lo, hi);
            let t = coalesce(rest, None, c);
            assert forall|i: int| 0 <= i < 1 + t.len() implies lo <= (#[trigger] (seq![q]
                + t)[i]).start && (seq![q] + t)[i].end <= hi by {
                if i > 0 {
                    assert((seq![q] + t)[i] == t[i - 1]);
                }
            }
        } else {
            lemma_coalesce_within(rest, Some(q), c, lo, hi);
        }
    }
}

/// Every byte of the gaps and of the pending segment is covered by the
/// coalesced walk.
proof fn lemma_coalesce_covers(gs: Seq<ByteRange>, pending: Option<ByteRange>, c: int, p: int)
    requires
        canonical(gs),
        pending matches Some(q) ==> q.start <= q.end && (gs.len() > 0 ==> q.end <= gs[0].start),
        covers(gs, p) || (pending matches Some(q) && in_range(q, p)),
    ensures
        covers(coalesce(gs, pending, c), p),
    decreases gs.len(),
{
    if gs.len() == 0 {
        lemma_covers_empty(p);
        assert(gs =~= Seq::<ByteRange>::empty());
        if let Some(q) = pending {
            lemma_covers_single(q, p);
        }
    } else {
        let g = gs[0];
        let q = match pending {
            Some(q) => ByteRange { start: q.start, end: g.end },
            None => g,
        };
        let rest = gs.drop_first();
        assert(gs =~= seq![g] + rest);
        lemma_covers_concat(seq![g], rest, p);
        lemma_covers_single(g, p);
        assert(canonical(rest)) by {
            assert forall|i: int, j: int| 0 <= i && j == i + 1 && j < rest.len() implies (
            #[trigger] rest[i]).end < (#[trigger] rest[j]).start by {
                assert(rest[i] == gs[i + 1] && rest[j] == gs[j + 1]);
            }
        }
        if rest.len() > 0 {
            assert(g.end < rest[0].start);
        }
        if width(q) >= c {
            let t = coalesce(rest, None, c);
            assert(coalesce(gs, pending, c) == seq![q] + t);
            lemma_covers_concat(seq![q], t, p);
            lemma_covers_single(q, p);
            if covers(rest, p) {
                lemma_coalesce_covers(rest, None, c, p);
            }
        } else {
            assert(coalesce(gs, pending, c) == coalesce(rest, Some(q), c));
            lemma_coalesce_covers(rest, Some(q), c, p);
        }
    }
}

/// Every segment of a coalesced walk but the last is at least `c` wide.
proof fn lemma_coalesce_widths(gs: Seq<ByteRange>, pending: Option<ByteRange>, c: int)
    ensures
        forall|i: int|
            0 <= i < coalesce(gs, pending, c).len() - 1 ==> width(
                #[trigger] coalesce(gs, pending, c)[i],
            ) >= c,
    decreases gs.len(),
{
    if gs.len() > 0 {
        let g = gs[0];
        let q = match pending {
            Some(q) => ByteRange { start: q.start, end: g.end },
            None => g,
        };
        let rest = gs.drop_first();
        if width(q) >= c {
            lemma_coalesce_widths(rest, None, c);
            let t = coalesce(rest, None, c);
            assert(coalesce(gs, pending, c) == seq![q] + t);
            assert forall|i: int| 0 <= i < t.len() implies width(#[trigger] (seq![q] + t)[i])
                >= c by {
                if i > 0 {
                    assert((seq![q] + t)[i] == t[i - 1]);
                }
            }
        } else {
            assert(coalesce(gs, pending, c) == coalesce(rest, Some(q), c));
            lemma_coalesce_widths(rest, Some(q), c);
        }
    }
}

/// What `invert` returns together with what is done is exactly `[0, n)`
/// when every done range ends by `n`; every returned segment but the last
/// is at least `min_chunk` bytes wide.
pub proof fn lemma_invert_complements(progress: Seq<ByteRange>, total_size: u64, min_chunk: u64)
    requires
        canonical(progress),
        within(progress, 0, total_size as int),
    ensures
        forall|p: int|
            (covers(progress, p) || covers(invert_spec(progress, total_size as int, min_chunk as int), p))
                <==> 0 <= p < total_size,
        forall|i: int|
            0 <= i < invert_spec(progress, total_size as int, min_chunk as int).len() - 1 ==> width(
                #[trigger] invert_spec(progress, total_size as int, min_chunk as int)[i],
            ) >= min_chunk,
{
    let n = total_size as int;
    let c = min_chunk as int;
    let gs = gaps_from(progress, 0, n);
    let out = invert_spec(progress, n, c);
    lemma_gaps(progress, 0, n);
    lemma_coalesce_within(gs, None, c, 0, n);
    lemma_coalesce_widths(gs, None, c);
    assert forall|p: int| (covers(progress, p) || covers(out, p)) <==> 0 <= p < total_size by {
        if covers(out, p) {
            lemma_within_covers(out, 0, n, p);
        }
        if covers(progress, p) {
            lemma_within_covers(progress, 0, n, p);
        }
        if 0 <= p < n && !covers(progress, p) {
            lemma_coalesce_covers(gs, None, c, p);
        }
    }
}

/// Folds every range of `xs` into an empty set: the canonical set covering
/// exactly the union of `xs`.
pub fn merge_all(xs: &Vec<ByteRange>) -> (out: Vec<ByteRange>)
    ensures
        canonical(out@),
        forall|p: int| (#[trigger] covers(out@, p)) <==> covers(xs@, p),
{
    let mut out: Vec<ByteRange> = Vec::new();
    let mut i: usize = 0;
    proof {
        assert(xs@.subrange(0, 0) =~= Seq::<ByteRange>::empty());
        assert forall|p: int| !covers(out@, p) && !covers(xs@.subrange(0, 0), p) by {
            lemma_covers_empty(p);
        }
    }
    while i < xs.len()
        invariant
            i <= xs.len(),
            canonical(out@),
            forall|p: int| (#[trigger] covers(out@, p)) <==> covers(xs@.subrange(0, i as int), p),
        decreases xs.len() - i,
    {
        let ghost before = out@;
        merge(&mut out, xs[i]);
        proof {
            assert(xs@.subrange(0, i + 1) =~= xs@.subrange(0, i as int).push(xs@[i as int]));
            assert forall|p: int| (#[trigger] covers(out@, p)) <==> covers(xs@.subrange(0, i + 1), p) by {
                lemma_covers_push(xs@.subrange(0, i as int), xs@[i as int], p);
                assert(covers(before, p) <==> covers(xs@.subrange(0, i as int), p));
                assert(covers(out@, p) <==> (covers(before, p) || in_range(xs@[i as int], p)));
            }
        }
        i += 1;
    }
    proof {
        assert(xs@.subrange(0, xs.len() as int) =~= xs@);
    }
    out
}

/// Number of bytes in `[0, n)` that `s` covers.
pub open spec fn count_covered(s: Seq<ByteRange>, n: nat) -> nat
    decreases n,
{
    if n == 0 {
        0
    } else {
        count_covered(s, (n - 1) as nat) + if covers(s, n - 1) { 1nat } else { 0nat }
    }
}

proof fn lemma_count_split(s: Seq<ByteRange>, init: Seq<ByteRange>, a: int, b: int, n: nat)
    requires
        0 <= a <= b,
        forall|p: int| (#[trigger] covers(s, p)) <==> (covers(init, p) || a <= p < b),
        forall|p: int| a <= p < b ==> !#[trigger] covers(init, p),
    ensures
        count_covered(s, n) == count_covered(init, n) + if n <= a {
            0
        } else if n >= b {
            b - a
        } else {
            n - a
        },
    decreases n,
{
    if n > 0 {
        lemma_count_split(s, init, a, b, (n - 1) as nat);
        assert(covers(s, n - 1) <==> (covers(init, n - 1) || a <= n - 1 < b));
    }
}

/// The total of a canonical set is the number of bytes it covers.
pub proof fn lemma_total_is_measure(s: Seq<ByteRange>, n: nat)
    requires
        canonical(s),
        within(s, 0, n as int),
    ensures
        total_of(s) == count_covered(s, n),
    decreases s.len(),
{
    if s.len() == 0 {
        assert forall|m: nat| count_covered(s, m) == 0 by {
            lemma_count_zero(s, m);
        }
    } else {
        let init = s.drop_last();
        let last = s.last();
        assert(canonical(init)) by {
            assert forall|i: int, j: int| 0 <= i && j == i + 1 && j < init.len() implies (
            #[trigger] init[i]).end < (#[trigger] init[j]).start by {
                assert(init[i] == s[i] && init[j] == s[j]);
            }
        }
        assert(within(init, 0, n as int)) by {
            assert forall|i: int| 0 <= i < init.len() implies 0 <= (#[trigger] init[i]).start
                && init[i].end <= n by {
                assert(init[i] == s[i]);
            }
        }
        lemma_total_is_measure(init, n);
        assert(s =~= init.push(last));
        assert(last.start < last.end && last.end <= n);
        assert forall|p: int| (#[trigger] covers(s, p)) <==> (covers(init, p) || last.start <= p
            < last.end) by {
            lemma_covers_push(init, last, p);
        }
        assert forall|p: int| last.start <= p < last.end implies !#[trigger] covers(init, p) by {
            if covers(init, p) {
                reveal(covers);
                let i = choose|i: int| 0 <= i < init.len() && #[trigger] in_range(init[i], p);
                lemma_sorted(s, i, s.len() - 1);
                assert(init[i] == s[i]);
            }
        }
        lemma_count_split(s, init, last.start as int, last.end as int, n);
    }
}

proof fn lemma_count_zero(s: Seq<ByteRange>, n: nat)
    requires
        s.len() == 0,
    ensures
        count_covered(s, n) == 0,
    decreases n,
{
    if n > 0 {
        lemma_count_zero(s, (n - 1) as nat);
        assert(s =~= Seq::<ByteRange>::empty());
        lemma_covers_empty(n - 1);
    }
}

proof fn lemma_count_same(s: Seq<ByteRange>, t: Seq<ByteRange>, n: nat)
    requires
        forall|p: int| (#[trigger] covers(s, p)) <==> covers(t, p),
    ensures
        count_covered(s, n) == count_covered(t, n),
    decreases n,
{
    if n > 0 {
        lemma_count_same(s, t, (n - 1) as nat);
        assert(covers(s, n - 1) <==> covers(t, n - 1));
    }
}

/// Whatever ranges are folded together, the total of the resulting
/// canonical set is the number of distinct bytes in their union.
pub proof fn lemma_merge_total(xs: Seq<ByteRange>, merged: Seq<ByteRange>, n: nat)
    requires
        within(xs, 0, n as int),
        canonical(merged),
        forall|p: int| (#[trigger] covers(merged, p)) <==> covers(xs, p),
    ensures
        total_of(merged) == count_covered(xs, n),
{
    assert forall|i: int| 0 <= i < merged.len() implies 0 <= (#[trigger] merged[i]).start
        && merged[i].end <= n by {
        let r = merged[i];
        assert(r.start < r.end);
        assert(covers(merged, r.start as int) && covers(merged, r.end - 1)) by {
            reveal(covers);
            assert(in_range(merged[i], r.start as int));
            assert(in_range(merged[i], r.end - 1));
        }
        lemma_within_covers(xs, 0, n as int, r.end - 1);
    }
    lemma_total_is_measure(merged, n);
    lemma_count_same(merged, xs, n);
}

/// A coalesced walk starts where its pending segment, or else its first
/// gap, starts.
proof fn lemma_coalesce_first(gs: Seq<ByteRange>, pending: Option<ByteRange>, c: int)
    requires
        coalesce(gs, pending, c).len() > 0,
    ensures
        coalesce(gs, pending, c)[0].start == match pending {
            Some(q) => q.start,
            None => gs[0].start,
        },
    decreases gs.len(),
{
    if gs.len() > 0 {
        let g = gs[0];
        let q = match pending {
            Some(q) => ByteRange { start: q.start, end: g.end },
            None => g,
        };
        let rest = gs.drop_first();
        if width(q) >= c {
            assert(coalesce(gs, pending, c) == seq![q] + coalesce(rest, None, c));
            assert(coalesce(gs, pending, c)[0] == q);
        } else {
            assert(coalesce(gs, pending, c) == coalesce(rest, Some(q), c));
            lemma_coalesce_first(rest, Some(q), c);
        }
    }
}

/// Coalescing canonical gaps gives a canonical set.
proof fn lemma_coalesce_canonical(gs: Seq<ByteRange>, pending: Option<ByteRange>, c: int)
    requires
        canonical(gs),
        pending matches Some(q) ==> q.start < q.end && (gs.len() > 0 ==> q.end < gs[0].start),
    ensures
        canonical(coalesce(gs, pending, c)),
    decreases gs.len(),
{
    if gs.len() == 0 {
        if let Some(q) = pending {
            lemma_canonical_push(Seq::<ByteRange>::empty(), q);
            assert(Seq::<ByteRange>::empty().push(q) =~= seq![q]);
        }
    } else {
        let g = gs[0];
        let q = match pending {
            Some(q) => ByteRange { start: q.start, end: g.end },
            None => g,
        };
        let rest = gs.drop_first();
        assert(canonical(rest)) by {
            assert forall|i: int, j: int| 0 <= i && j == i + 1 && j < rest.len() implies (
            #[trigger] rest[i]).end < (#[trigger] rest[j]).start by {
                assert(rest[i] == gs[i + 1] && rest[j] == gs[j + 1]);
            }
        }
        assert(g.start < g.end);
        if rest.len() > 0 {
            assert(g.end < rest[0].start);
        }
        if width(q) >= c {
            let t = coalesce(rest, None, c);
            lemma_coalesce_canonical(rest, None, c);
            if t.len() > 0 {
                lemma_coalesce_first(rest, None, c);
            }
            lemma_canonical_push(Seq::<ByteRange>::empty(), q);
            assert(Seq::<ByteRange>::empty().push(q) =~= seq![q]);
            lemma_canonical_concat(seq![q], t);
            assert(coalesce(gs, pending, c) == seq![q] + t);
        } else {
            assert(coalesce(gs, pending, c) == coalesce(rest, Some(q), c));
            lemma_coalesce_canonical(rest, Some(q), c);
        }
    }
}

/// What `invert` returns is itself canonical: sorted, non-empty, and
/// disjoint ranges, so no byte is fetched by two of them.
pub proof fn lemma_invert_canonical(progress: Seq<ByteRange>, total_size: u64, min_chunk: u64)
    requires
        canonical(progress),
    ensures
        canonical(invert_spec(progress, total_size as int, min_chunk as int)),
{
    lemma_gaps(progress, 0, total_size as int);
    lemma_coalesce_canonical(gaps_from(progress, 0, total_size as int), None, min_chunk as int);
}

/// Whether `s` is in canonical form.
pub fn is_canonical(s: &Vec<ByteRange>) -> (r: bool)
    ensures
        r == canonical(s@),
{
    let mut i: usize = 0;
    while i < s.len()
        invariant
            i <= s@.len(),
            forall|k: int| 0 <= k < i ==> (#[trigger] s@[k]).start < s@[k].end,
            forall|a: int, b: int|
                0 <= a && b == a + 1 && b < i ==> (#[trigger] s@[a]).end < (#[trigger] s@[b]).start,
        decreases s.len() - i,
    {
        if s[i].start >= s[i].end {
            return false;
        }
        if i > 0 && s[i - 1].end >= s[i].start {
            return false;
        }
        i += 1;
    }
    true
}

} // verus!
