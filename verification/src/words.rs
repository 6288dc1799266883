//! Arrays of words: the specifications and the small operations that the
//! buffers of the sorter share.

use vstd::prelude::*;

verus! {

/// The three words of entry `i` of an array of positions or scales.
pub open spec fn triple(buffer: Seq<u32>, i: int) -> Seq<u32> {
    buffer.subrange(3 * i, 3 * i + 3)
}

/// The four words of entry `i` of an array of rotations or colors.
pub open spec fn quad(buffer: Seq<u32>, i: int) -> Seq<u32> {
    buffer.subrange(4 * i, 4 * i + 4)
}

/// `len` zero words.
pub open spec fn zeros(len: nat) -> Seq<u32> {
    Seq::new(len, |i: int| 0u32)
}

/// `buffer` cut or padded with zeros to exactly `len` words.
pub open spec fn resized_to(buffer: Seq<u32>, len: nat) -> Seq<u32> {
    if len <= buffer.len() {
        buffer.subrange(0, len as int)
    } else {
        buffer + zeros((len - buffer.len()) as nat)
    }
}

/// `buffer`, padded with zeros to `len` words where it is shorter.
pub open spec fn grown(buffer: Seq<u32>, len: nat) -> Seq<u32> {
    if buffer.len() >= len {
        buffer
    } else {
        resized_to(buffer, len)
    }
}

/// `base` with its leading words replaced by `prefix`.
pub open spec fn overwritten(base: Seq<u32>, prefix: Seq<u32>) -> Seq<u32>
    recommends
        prefix.len() <= base.len(),
{
    prefix + base.skip(prefix.len() as int)
}

/// Cuts or pads `buffer` with zeros to exactly `len` words.
pub(crate) fn resize_words(buffer: &mut Vec<u32>, len: usize)
    ensures
        final(buffer)@ == resized_to(old(buffer)@, len as nat),
{
    buffer.resize(len, 0u32);
    assert(buffer@ =~= resized_to(old(buffer)@, len as nat));
}

/// Pads `buffer` with zeros to `len` words where it is shorter.
pub(crate) fn grow_words(buffer: &mut Vec<u32>, len: usize)
    ensures
        final(buffer)@ == grown(old(buffer)@, len as nat),
{
    if buffer.len() < len {
        resize_words(buffer, len);
    }
}

/// Writes `src` over `dst[at..at + src.len()]`.
pub(crate) fn write_words(dst: &mut Vec<u32>, at: usize, src: &Vec<u32>)
    requires
        at + src.len() <= old(dst).len(),
    ensures
        final(dst)@.len() == old(dst)@.len(),
        final(dst)@.subrange(at as int, at + src.len()) == src@,
        forall|k: int|
            0 <= k < at || at + src.len() <= k < old(dst)@.len() ==> final(dst)@[k] == old(dst)@[k],
{
    let mut t: usize = 0;
    while t < src.len()
        invariant
            t <= src.len(),
            at + src.len() <= dst.len(),
            dst@.len() == old(dst)@.len(),
            forall|k: int| 0 <= k < t ==> dst@[at + k] == src@[k],
            forall|k: int|
                0 <= k < at || at + t <= k < old(dst)@.len() ==> dst@[k] == old(dst)@[k],
        decreases src.len() - t,
    {
        dst[at + t] = src[t];
        t = t + 1;
    }
    assert(dst@.subrange(at as int, at + src.len()) =~= src@);
}

/// Copies the triple of entry `from` of `src` to entry `to` of `dst`.
pub(crate) fn copy_triple(dst: &mut Vec<u32>, to: usize, src: &Vec<u32>, from: usize)
    requires
        3 * to + 3 <= old(dst).len(),
        3 * from + 3 <= src.len(),
    ensures
        final(dst)@.len() == old(dst)@.len(),
        triple(final(dst)@, to as int) == triple(src@, from as int),
        forall|k: int|
            0 <= k < 3 * to || 3 * to + 3 <= k < old(dst)@.len() ==> final(dst)@[k] == old(dst)@[k],
{
    dst[3 * to] = src[3 * from];
    dst[3 * to + 1] = src[3 * from + 1];
    dst[3 * to + 2] = src[3 * from + 2];
    assert(triple(dst@, to as int) =~= triple(src@, from as int));
}

/// Copies the quadruple of entry `from` of `src` to entry `to` of `dst`.
pub(crate) fn copy_quad(dst: &mut Vec<u32>, to: usize, src: &Vec<u32>, from: usize)
    requires
        4 * to + 4 <= old(dst).len(),
        4 * from + 4 <= src.len(),
    ensures
        final(dst)@.len() == old(dst)@.len(),
        quad(final(dst)@, to as int) == quad(src@, from as int),
        forall|k: int|
            0 <= k < 4 * to || 4 * to + 4 <= k < old(dst)@.len() ==> final(dst)@[k] == old(dst)@[k],
{
    dst[4 * to] = src[4 * from];
    dst[4 * to + 1] = src[4 * from + 1];
    dst[4 * to + 2] = src[4 * from + 2];
    dst[4 * to + 3] = src[4 * from + 3];
    assert(quad(dst@, to as int) =~= quad(src@, from as int));
}

} // verus!
