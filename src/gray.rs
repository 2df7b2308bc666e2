//! Grayscale reduction: BT.601 luma of each RGBA pixel, alpha ignored.
use vstd::prelude::*;

verus! {

/// BT.601 luma `0.299 R + 0.587 G + 0.114 B`, in thousandths, truncated.
pub open spec fn luma(r: int, g: int, b: int) -> int {
    (299 * r + 587 * g + 114 * b) / 1000
}

/// The luminance buffer of an interleaved RGBA buffer: one sample per
/// complete group of four bytes.
pub open spec fn gray_of(rgba: Seq<u8>) -> Seq<u8> {
    Seq::new(
        rgba.len() / 4,
        |i: int| luma(rgba[4 * i] as int, rgba[4 * i + 1] as int, rgba[4 * i + 2] as int) as u8,
    )
}

/// Reduces an RGBA buffer to one luma sample per pixel.
pub fn to_luma(rgba: &[u8]) -> (r: Vec<u8>)
    ensures
        r@ == gray_of(rgba@),
        r@.len() == rgba@.len() / 4,
        forall|i: int|
            0 <= i < r@.len() ==> r@[i] as int == luma(
                rgba@[4 * i] as int,
                rgba@[4 * i + 1] as int,
                rgba@[4 * i + 2] as int,
            ),
{
    let len: usize = rgba.len();
    let n: usize = len / 4;
    let mut out: Vec<u8> = Vec::with_capacity(n);
    for i in 0..n
        invariant
            len == rgba@.len(),
            n == len / 4,
            out@.len() == i,
            forall|j: int| 0 <= j < i ==> out@[j] == gray_of(rgba@)[j],
    {
        assert(4 * i + 3 < rgba@.len());
        let r: u32 = rgba[4 * i] as u32;
        let g: u32 = rgba[4 * i + 1] as u32;
        let b: u32 = rgba[4 * i + 2] as u32;
        let y: u32 = (299 * r + 587 * g + 114 * b) / 1000;
        out.push(y as u8);
    }
    assert(out@ =~= gray_of(rgba@));
    out
}

} // verus!
