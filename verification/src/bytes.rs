//! Big-endian reads and comparison of byte slices.
use vstd::prelude::*;

verus! {

/// The big-endian value of the two bytes at `at`.
pub open spec fn be16(b: Seq<u8>, at: int) -> int {
    b[at] * 256 + b[at + 1]
}

/// The big-endian value of the four bytes at `at`.
pub open spec fn be32(b: Seq<u8>, at: int) -> int {
    be16(b, at) * 65536 + be16(b, at + 2)
}

pub fn read_be16(b: &[u8], at: usize) -> (v: usize)
    requires
        at + 2 <= b@.len(),
    ensures
        v == be16(b@, at as int),
        v < 65536,
{
    (b[at] as usize) * 256 + b[at + 1] as usize
}

pub fn read_be32(b: &[u8], at: usize) -> (v: u64)
    requires
        at + 4 <= b@.len(),
    ensures
        v == be32(b@, at as int),
        v < 0x1_0000_0000,
{
    ((b[at] as u64) * 256 + b[at + 1] as u64) * 65536 + (b[at + 2] as u64) * 256 + b[at + 3] as u64
}

/// Whether two slices hold the same bytes.
pub fn same_bytes(a: &[u8], b: &[u8]) -> (same: bool)
    ensures
        same == (a@ == b@),
{
    if a.len() != b.len() {
        return false;
    }
    let mut i: usize = 0;
    while i < a.len()
        invariant
            i <= a@.len(),
            a@.len() == b@.len(),
            forall|j: int| 0 <= j < i ==> a@[j] == b@[j],
        decreases a@.len() - i,
    {
        if a[i] != b[i] {
            return false;
        }
        i = i + 1;
    }
    assert(a@ =~= b@);
    true
}

/// The part of `b` from `from` up to `to`, copied out.
pub fn copy_range(b: &[u8], from: usize, to: usize) -> (out: Vec<u8>)
    requires
        from <= to <= b@.len(),
    ensures
        out@ == b@.subrange(from as int, to as int),
{
    let mut out: Vec<u8> = Vec::new();
    let mut i: usize = from;
    while i < to
        invariant
            from <= i <= to <= b@.len(),
            out@ == b@.subrange(from as int, i as int),
        decreases to - i,
    {
        out.push(b[i]);
        i = i + 1;
        assert(out@ =~= b@.subrange(from as int, i as int));
    }
    out
}

/// The number that bytes write, most significant first.
pub open spec fn be_value(bytes: Seq<u8>) -> nat
    decreases bytes.len(),
{
    if bytes.len() == 0 {
        0
    } else {
        be_value(bytes.drop_last()) * 256 + bytes.last() as nat
    }
}

proof fn lemma_prefix_decides(a: Seq<u8>, b: Seq<u8>, k: int)
    requires
        a.len() == b.len(),
        0 <= k <= a.len(),
        be_value(a.take(k)) < be_value(b.take(k)),
    ensures
        be_value(a) < be_value(b),
    decreases a.len() - k,
{
    if k == a.len() {
        assert(a.take(k) =~= a);
        assert(b.take(k) =~= b);
    } else {
        assert(a.take(k + 1).drop_last() =~= a.take(k));
        assert(b.take(k + 1).drop_last() =~= b.take(k));
        lemma_prefix_decides(a, b, k + 1);
    }
}

/// Whether one byte string comes before another of the same length.
pub fn is_below(a: &[u8], b: &[u8]) -> (below: bool)
    requires
        a@.len() == b@.len(),
    ensures
        below == (be_value(a@) < be_value(b@)),
{
    let mut i: usize = 0;
    assert(a@.take(0) =~= b@.take(0));
    while i < a.len()
        invariant
            i <= a@.len(),
            a@.len() == b@.len(),
            a@.take(i as int) == b@.take(i as int),
        decreases a@.len() - i,
    {
        assert(a@.take(i + 1).drop_last() =~= a@.take(i as int));
        assert(b@.take(i + 1).drop_last() =~= b@.take(i as int));
        if a[i] < b[i] {
            proof {
                lemma_prefix_decides(a@, b@, i + 1);
            }
            return true;
        }
        if b[i] < a[i] {
            proof {
                lemma_prefix_decides(b@, a@, i + 1);
            }
            return false;
        }
        i = i + 1;
        assert(a@.take(i as int) =~= b@.take(i as int));
    }
    assert(a@.take(i as int) =~= a@);
    assert(b@.take(i as int) =~= b@);
    false
}

} // verus!
