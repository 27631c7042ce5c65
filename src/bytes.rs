//! Copying bytes between buffers.

use vstd::prelude::*;

verus! {

/// Copies `src` onto the end of `out`.
pub(crate) fn copy_bytes(out: &mut Vec<u8>, src: &[u8])
    ensures
        final(out)@ == old(out)@ + src@,
{
    copy_range(out, src, 0, src.len());
    assert(src@.subrange(0, src@.len() as int) =~= src@);
}

/// Copies `src[from..to]` onto the end of `out`.
pub(crate) fn copy_range(out: &mut Vec<u8>, src: &[u8], from: usize, to: usize)
    requires
        from <= to <= src@.len(),
    ensures
        final(out)@ == old(out)@ + src@.subrange(from as int, to as int),
{
    let mut i: usize = from;
    while i < to
        invariant
            from <= i <= to <= src@.len(),
            out@ == old(out)@ + src@.subrange(from as int, i as int),
        decreases to - i,
    {
        out.push(src[i]);
        proof {
            assert(src@.subrange(from as int, i as int + 1) =~= src@.subrange(from as int, i as int).push(src@[i as int]));
        }
        i += 1;
    }
}

} // verus!
