//! Byte-buffer helpers and the fixed-size source walker.

use vstd::prelude::*;

verus! {

/// Copies a byte slice into a fresh vector.
pub fn copy_bytes(s: &[u8]) -> (r: Vec<u8>)
    ensures
        r@ == s@,
{
    let mut r: Vec<u8> = Vec::new();
    push_all(&mut r, s);
    r
}

/// Appends every byte of `s` to `out`.
pub fn push_all(out: &mut Vec<u8>, s: &[u8])
    ensures
        final(out)@ == old(out)@ + s@,
{
    let mut i: usize = 0;
    while i < s.len()
        invariant
            i <= s@.len(),
            out@ == old(out)@ + s@.take(i as int),
        decreases s@.len() - i,
    {
        out.push(s[i]);
        proof {
            assert(s@.take(i + 1) =~= s@.take(i as int) + seq![s@[i as int]]);
            assert(old(out)@ + s@.take(i as int) + seq![s@[i as int]] =~= old(out)@ + s@.take(
                i + 1,
            ));
        }
        i += 1;
    }
    proof {
        assert(s@.take(i as int) =~= s@);
    }
}

/// Splits `[0, size)` into consecutive ranges of `chunk_size` bytes (the
/// last one possibly shorter), each paired with a flag that is true exactly
/// on the final range. An empty source yields no ranges at all.
pub fn chunk_ranges(size: u64, chunk_size: u64) -> (r: Vec<(u64, u64, bool)>)
    requires
        chunk_size > 0,
    ensures
        r@.len() == 0 <==> size == 0,
        forall|i: int| 0 <= i < r@.len() ==> (#[trigger] r@[i]).0 < r@[i].1 <= size,
        r@.len() > 0 ==> r@[0].0 == 0 && r@[r@.len() - 1].1 == size,
        forall|i: int| 0 <= i < r@.len() - 1 ==> (#[trigger] r@[i]).1 == r@[i + 1].0,
        forall|i: int| 0 <= i < r@.len() ==> ((#[trigger] r@[i]).2 <==> i == r@.len() - 1),
        forall|i: int|
            0 <= i < r@.len() ==> (#[trigger] r@[i]).1 - r@[i].0 <= chunk_size
                && (i < r@.len() - 1 ==> r@[i].1 - r@[i].0 == chunk_size),
{
    let mut r: Vec<(u64, u64, bool)> = Vec::new();
    let mut start: u64 = 0;
    while start < size
        invariant
            start <= size,
            start == 0 || start < size,
            chunk_size > 0,
            r@.len() == 0 <==> start == 0,
            forall|i: int| 0 <= i < r@.len() ==> (#[trigger] r@[i]).0 < r@[i].1 <= start,
            r@.len() > 0 ==> r@[0].0 == 0 && r@[r@.len() - 1].1 == start,
            forall|i: int| 0 <= i < r@.len() - 1 ==> (#[trigger] r@[i]).1 == r@[i + 1].0,
            forall|i: int| 0 <= i < r@.len() ==> !(#[trigger] r@[i]).2,
            forall|i: int|
                0 <= i < r@.len() ==> (#[trigger] r@[i]).1 - r@[i].0 == chunk_size,
        decreases size - start,
    {
        let end = if size - start < chunk_size {
            size
        } else {
            start + chunk_size
        };
        if end == size {
            r.push((start, end, true));
            return r;
        }
        r.push((start, end, false));
        start = end;
    }
    r
}

} // verus!
