//! Mask packing: edge pixels become opaque white, all others opaque black.
use vstd::prelude::*;

verus! {

/// Byte `k` of the RGBA mask of an edge map: the alpha byte is always 255,
/// colour bytes are 255 on an edge pixel and 0 elsewhere.
pub open spec fn mask_byte(edges: Seq<bool>, k: int) -> u8 {
    if k % 4 == 3 || edges[k / 4] {
        255
    } else {
        0
    }
}

/// The RGBA mask of an edge map.
pub open spec fn mask_of(edges: Seq<bool>) -> Seq<u8> {
    Seq::new(4 * edges.len(), |k: int| mask_byte(edges, k))
}

/// Whether pixel `i` of an RGBA buffer is opaque white.
pub open spec fn is_white(rgba: Seq<u8>, i: int) -> bool {
    rgba[4 * i] == 255 && rgba[4 * i + 1] == 255 && rgba[4 * i + 2] == 255 && rgba[4 * i + 3] == 255
}

/// Whether pixel `i` of an RGBA buffer is opaque black.
pub open spec fn is_black(rgba: Seq<u8>, i: int) -> bool {
    rgba[4 * i] == 0 && rgba[4 * i + 1] == 0 && rgba[4 * i + 2] == 0 && rgba[4 * i + 3] == 255
}

/// Renders an edge map as RGBA: white where `edges` holds, black elsewhere.
pub fn pack_mask(edges: &Vec<bool>) -> (r: Vec<u8>)
    requires
        4 * edges@.len() <= usize::MAX,
    ensures
        r@ == mask_of(edges@),
        r@.len() == 4 * edges@.len(),
        forall|i: int| 0 <= i < edges@.len() ==> (if edges@[i] { is_white(r@, i) } else { is_black(r@, i) }),
{
    let n: usize = edges.len();
    let mut out: Vec<u8> = Vec::with_capacity(4 * n);
    for i in 0..n
        invariant
            n == edges@.len(),
            4 * n <= usize::MAX,
            out@.len() == 4 * i,
            forall|k: int| 0 <= k < 4 * i ==> out@[k] == mask_byte(edges@, k),
    {
        let c: u8 = if edges[i] { 255 } else { 0 };
        out.push(c);
        out.push(c);
        out.push(c);
        out.push(255);
    }
    assert(out@ =~= mask_of(edges@));
    assert forall|i: int| 0 <= i < n implies (if edges@[i] { is_white(out@, i) } else { is_black(out@, i) }) by {
        assert(mask_byte(edges@, 4 * i) == out@[4 * i]);
        assert(mask_byte(edges@, 4 * i + 1) == out@[4 * i + 1]);
        assert(mask_byte(edges@, 4 * i + 2) == out@[4 * i + 2]);
        assert(mask_byte(edges@, 4 * i + 3) == out@[4 * i + 3]);
    }
    out
}

} // verus!
