//! Properties of the detector that relate several inputs, several calls or
//! whole classes of images.
use crate::gradient::{gradient_of, gx_at, gy_at};
use crate::gray::gray_of;
use crate::grid::{clamp, idx, in_frame, lemma_coords, lemma_idx};
use crate::tracer::{edges_of, is_candidate, is_chain, is_edge, is_strong, value_at};
use crate::mask::{is_black, mask_byte, mask_of};
use crate::pipeline::{edge_map, edge_mask};
use crate::smooth::{col_blur_at, luma_at, row_at, row_blur_at, row_blur_of, smooth_of};
use crate::suppress::{mag_at, on_border, suppress_of};
use vstd::prelude::*;

verus! {

/// Number of pixels of `field` classified Strong under threshold `high`.
pub open spec fn strong_count(field: Seq<u32>, high: u64) -> nat
    decreases field.len(),
{
    if field.len() == 0 {
        0
    } else {
        strong_count(field.drop_last(), high) + if is_strong(field.last(), high) {
            1nat
        } else {
            0nat
        }
    }
}

/// Number of pixels of `field` that reach the low threshold `low`
/// (those eligible to be Weak or Strong).
pub open spec fn candidate_count(field: Seq<u32>, low: u64) -> nat
    decreases field.len(),
{
    if field.len() == 0 {
        0
    } else {
        candidate_count(field.drop_last(), low) + if is_candidate(field.last(), low) {
            1nat
        } else {
            0nat
        }
    }
}

/// Raising a threshold never adds pixels above it: with `t1 <= t2`, at most as
/// many pixels are Strong under `t2` as under `t1`, and at most as many reach
/// the low threshold `t2` as reach `t1`.
pub proof fn lemma_threshold_monotone(field: Seq<u32>, t1: u64, t2: u64)
    requires
        t1 <= t2,
    ensures
        strong_count(field, t2) <= strong_count(field, t1),
        candidate_count(field, t2) <= candidate_count(field, t1),
    decreases field.len(),
{
    if field.len() > 0 {
        lemma_threshold_monotone(field.drop_last(), t1, t2);
    }
}

/// Raising the high threshold, the low one held, never makes a pixel an edge:
/// every edge under `high2` is an edge under any `high1 <= high2`.
pub proof fn lemma_edges_shrink_with_high(field: Seq<u32>, w: int, h: int, low: u64, high1: u64, high2: u64)
    requires
        high1 <= high2,
    ensures
        forall|i: int|
            0 <= i < w * h && #[trigger] edges_of(field, w, h, low, high2)[i] ==> edges_of(
                field,
                w,
                h,
                low,
                high1,
            )[i],
{
    assert forall|i: int| 0 <= i < w * h && #[trigger] edges_of(field, w, h, low, high2)[i] implies edges_of(
        field,
        w,
        h,
        low,
        high1,
    )[i] by {
        let t = choose|t: Seq<(int, int)>|
            #[trigger] is_chain(field, w, h, low, t) && is_strong(value_at(field, w, t[0]), high2) && t.last() == (
            i % w,
            i / w,
        );
        assert(is_strong(value_at(field, w, t[0]), high1));
    }
}

/// A pixel that carries magnitude zero is no edge.
pub proof fn lemma_zero_is_no_edge(field: Seq<u32>, w: int, h: int, low: u64, high: u64, x: int, y: int)
    requires
        in_frame(w, h, x, y),
        field[idx(w, x, y)] == 0,
    ensures
        !is_edge(field, w, h, low, high, x, y),
{
    if is_edge(field, w, h, low, high, x, y) {
        let t = choose|t: Seq<(int, int)>|
            #[trigger] is_chain(field, w, h, low, t) && is_strong(value_at(field, w, t[0]), high) && t.last() == (
            x,
            y,
        );
        let k = t.len() - 1;
        assert(is_candidate(value_at(field, w, t[k]), low));
    }
}

/// Black pixels of a mask read as black.
proof fn lemma_mask_black(edges: Seq<bool>, i: int)
    requires
        0 <= i < edges.len(),
        !edges[i],
    ensures
        is_black(mask_of(edges), i),
{
    let m = mask_of(edges);
    assert(m[4 * i] == mask_byte(edges, 4 * i));
    assert(m[4 * i + 1] == mask_byte(edges, 4 * i + 1));
    assert(m[4 * i + 2] == mask_byte(edges, 4 * i + 2));
    assert(m[4 * i + 3] == mask_byte(edges, 4 * i + 3));
}

/// Pixels on the border of the frame are always black: suppression clears
/// them whatever the image and the thresholds.
pub proof fn lemma_border_is_black(input: Seq<u8>, w: int, h: int, low: u32, high: u32)
    requires
        w > 0,
        h > 0,
    ensures
        forall|x: int, y: int|
            in_frame(w, h, x, y) && on_border(w, h, x, y) ==> is_black(
                #[trigger] edge_mask(input, w, h, low, high),
                idx(w, x, y),
            ),
{
    let ridges = suppress_of(gradient_of(smooth_of(gray_of(input), w, h), w, h), w, h);
    assert forall|x: int, y: int| in_frame(w, h, x, y) && on_border(w, h, x, y) implies is_black(
        #[trigger] edge_mask(input, w, h, low, high),
        idx(w, x, y),
    ) by {
        lemma_idx(w, h, x, y);
        lemma_zero_is_no_edge(ridges, w, h, (low * low) as u64, (high * high) as u64, x, y);
        lemma_mask_black(edge_map(input, w, h, low, high), idx(w, x, y));
    }
}

/// Pixels `i` and `j` of an RGBA buffer have the same red, green and blue.
pub open spec fn same_colour(rgba: Seq<u8>, i: int, j: int) -> bool {
    rgba[4 * i] == rgba[4 * j] && rgba[4 * i + 1] == rgba[4 * j + 1] && rgba[4 * i + 2] == rgba[4 * j + 2]
}

proof fn lemma_clamped_in_frame(w: int, h: int, x: int, y: int)
    requires
        w > 0,
        h > 0,
    ensures
        0 <= idx(w, clamp(x, w), clamp(y, h)) < w * h,
{
    lemma_idx(w, h, clamp(x, w), clamp(y, h));
}

/// An image whose pixels all share one colour has no edge: its mask is all
/// black, whatever the thresholds.
pub proof fn lemma_uniform_is_black(input: Seq<u8>, w: int, h: int, low: u32, high: u32)
    requires
        w > 0,
        h > 0,
        input.len() == 4 * w * h,
        forall|i: int| 0 <= i < w * h ==> #[trigger] same_colour(input, i, 0),
    ensures
        forall|i: int| 0 <= i < w * h ==> is_black(#[trigger] edge_mask(input, w, h, low, high), i),
{
    assert(4 * w * h == 4 * (w * h)) by (nonlinear_arith);
    let g = gray_of(input);
    assert(g.len() == w * h);
    let c = g[0] as int;
    assert forall|i: int| 0 <= i < w * h implies #[trigger] g[i] == g[0] by {
        assert(same_colour(input, i, 0));
    }
    assert forall|x: int, y: int| #[trigger] luma_at(g, w, h, x, y) == c by {
        lemma_clamped_in_frame(w, h, x, y);
    }
    let r = row_blur_of(g, w, h);
    assert forall|i: int| 0 <= i < w * h implies #[trigger] r[i] == 64 * c by {
        lemma_coords(w, h, i);
        assert(row_blur_at(g, w, h, i % w, i / w) == 64 * c);
    }
    assert forall|x: int, y: int| #[trigger] row_at(r, w, h, x, y) == 64 * c by {
        lemma_clamped_in_frame(w, h, x, y);
    }
    let s = smooth_of(g, w, h);
    assert forall|i: int| 0 <= i < w * h implies #[trigger] s[i] == c by {
        lemma_coords(w, h, i);
        assert(col_blur_at(r, w, h, i % w, i / w) == (4096 * c + 2048) / 4096);
        vstd::arithmetic::div_mod::lemma_fundamental_div_mod_converse(4096 * c + 2048, 4096, c, 2048);
    }
    assert forall|x: int, y: int| #[trigger] luma_at(s, w, h, x, y) == c by {
        lemma_clamped_in_frame(w, h, x, y);
    }
    let gr = gradient_of(s, w, h);
    assert forall|i: int| 0 <= i < w * h implies #[trigger] gr[i].magnitude_sq == 0 by {
        lemma_coords(w, h, i);
        assert(gx_at(s, w, h, i % w, i / w) == 0);
        assert(gy_at(s, w, h, i % w, i / w) == 0);
    }
    let ridges = suppress_of(gr, w, h);
    assert forall|i: int| 0 <= i < w * h implies is_black(#[trigger] edge_mask(input, w, h, low, high), i) by {
        lemma_coords(w, h, i);
        assert(mag_at(gr, w, i % w, i / w) == 0);
        assert(ridges[i] == 0);
        lemma_zero_is_no_edge(ridges, w, h, (low * low) as u64, (high * high) as u64, i % w, i / w);
        lemma_mask_black(edge_map(input, w, h, low, high), i);
    }
}

/// The detector is a function of its arguments: two runs on the same image,
/// size and thresholds yield the same mask.
pub proof fn lemma_deterministic(
    input: Seq<u8>,
    w: int,
    h: int,
    low: u32,
    high: u32,
    first: Seq<u8>,
    second: Seq<u8>,
)
    requires
        first == edge_mask(input, w, h, low, high),
        second == edge_mask(input, w, h, low, high),
    ensures
        first == second,
{
}

} // verus!
