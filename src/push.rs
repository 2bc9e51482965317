use crate::range::ByteRange;
use vstd::prelude::*;

verus! {

/// `buf` with `bytes` laid over it from `offset` on.
pub open spec fn written(buf: Seq<u8>, offset: int, bytes: Seq<u8>) -> Seq<u8> {
    Seq::new(
        buf.len(),
        |i: int|
            if offset <= i < offset + bytes.len() {
                bytes[i - offset]
            } else {
                buf[i]
            },
    )
}

/// Copies `bytes` into `buf` at `offset`, as a mapped file takes a pushed
/// range.
pub fn write_at(buf: &mut Vec<u8>, offset: usize, bytes: &[u8])
    requires
        offset + bytes@.len() <= old(buf)@.len(),
    ensures
        final(buf)@ == written(old(buf)@, offset as int, bytes@),
{
    let size: usize = buf.len();
    let mut i: usize = 0;
    while i < bytes.len()
        invariant
            offset + bytes@.len() <= buf@.len(),
            buf@.len() == size,
            i <= bytes@.len(),
            buf@.len() == old(buf)@.len(),
            forall|k: int|
                0 <= k < buf@.len() ==> #[trigger] buf@[k] == if offset <= k < offset + i {
                    bytes@[k - offset]
                } else {
                    old(buf)@[k]
                },
        decreases bytes.len() - i,
    {
        buf.set(offset + i, bytes[i]);
        i += 1;
    }
    proof {
        assert(buf@ =~= written(old(buf)@, offset as int, bytes@));
    }
}

/// Pushing the same bytes to the same range twice leaves the same content
/// as pushing them once: a range fetched twice by speculative duplication
/// is harmless.
pub proof fn lemma_push_idempotent(buf: Seq<u8>, offset: int, bytes: Seq<u8>)
    ensures
        written(written(buf, offset, bytes), offset, bytes) == written(buf, offset, bytes),
{
    assert(written(written(buf, offset, bytes), offset, bytes) =~= written(buf, offset, bytes));
}

/// Pushes to disjoint ranges commute, so the order in which workers'
/// ranges arrive does not change the file.
pub proof fn lemma_push_commutes(buf: Seq<u8>, o1: int, b1: Seq<u8>, o2: int, b2: Seq<u8>)
    requires
        o1 + b1.len() <= o2 || o2 + b2.len() <= o1,
    ensures
        written(written(buf, o1, b1), o2, b2) == written(written(buf, o2, b2), o1, b1),
{
    assert(written(written(buf, o1, b1), o2, b2) =~= written(written(buf, o2, b2), o1, b1));
}

/// Write position of a sequential sink, which accepts only the range that
/// continues exactly where the previous one ended.
pub struct SeqCursor {
    pub written: u64,
}

impl SeqCursor {
    pub fn new() -> (r: SeqCursor)
        ensures
            r.written == 0,
    {
        SeqCursor { written: 0 }
    }

    /// Accepts `r` when it starts at the write position, moving the
    /// position to its end; refuses any other range and stays put.
    pub fn accept(&mut self, r: ByteRange) -> (ok: bool)
        ensures
            ok == (r.start == old(self).written && r.start <= r.end),
            ok ==> final(self).written == r.end,
            !ok ==> final(self).written == old(self).written,
    {
        if r.start == self.written && r.start <= r.end {
            self.written = r.end;
            true
        } else {
            false
        }
    }
}

} // verus!
