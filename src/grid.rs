//! Row-major frame geometry shared by every stage: pixel indices,
//! coordinates and the clamp-to-edge border rule.
use vstd::arithmetic::div_mod::lemma_fundamental_div_mod_converse;
use vstd::prelude::*;

verus! {

/// Index of the pixel at column `x`, row `y` of a row-major frame `w` pixels wide.
pub open spec fn idx(w: int, x: int, y: int) -> int {
    y * w + x
}

/// Whether `(x, y)` lies inside a `w` by `h` frame.
pub open spec fn in_frame(w: int, h: int, x: int, y: int) -> bool {
    0 <= x < w && 0 <= y < h
}

/// Clamp-to-edge extension: a coordinate outside `[0, n)` reads the nearest edge.
pub open spec fn clamp(v: int, n: int) -> int {
    if v < 0 {
        0
    } else if v >= n {
        n - 1
    } else {
        v
    }
}

/// The index of an in-frame pixel is in range and gives its coordinates back.
pub proof fn lemma_idx(w: int, h: int, x: int, y: int)
    requires
        in_frame(w, h, x, y),
    ensures
        0 <= idx(w, x, y) < w * h,
        idx(w, x, y) % w == x,
        idx(w, x, y) / w == y,
{
    assert(0 <= y * w + x < w * h) by (nonlinear_arith)
        requires
            0 <= x < w,
            0 <= y < h,
    ;
    lemma_fundamental_div_mod_converse(idx(w, x, y), w, y, x);
}

/// Every index of a `w` by `h` frame is the index of the in-frame pixel
/// `(i % w, i / w)`.
pub proof fn lemma_coords(w: int, h: int, i: int)
    requires
        0 <= w,
        0 <= i < w * h,
    ensures
        in_frame(w, h, i % w, i / w),
        idx(w, i % w, i / w) == i,
{
    assert(w > 0) by (nonlinear_arith)
        requires
            0 <= i < w * h,
            0 <= w,
    ;
    assert(h > 0) by (nonlinear_arith)
        requires
            0 <= i < w * h,
            w > 0,
    ;
    vstd::arithmetic::div_mod::lemma_fundamental_div_mod(i, w);
    vstd::arithmetic::div_mod::lemma_mod_pos_bound(i, w);
    vstd::arithmetic::div_mod::lemma_div_pos_is_pos(i, w);
    vstd::arithmetic::div_mod::lemma_multiply_divide_lt(i, w, h);
    vstd::arithmetic::mul::lemma_mul_is_commutative(w, i / w);
}

/// The index of pixel `(x, y)` of a `w` by `h` frame.
pub fn offset(w: usize, h: usize, x: usize, y: usize) -> (r: usize)
    requires
        in_frame(w as int, h as int, x as int, y as int),
        w * h <= usize::MAX,
    ensures
        r as int == idx(w as int, x as int, y as int),
        r < w * h,
{
    proof {
        lemma_idx(w as int, h as int, x as int, y as int);
    }
    assert(y * w <= w * h) by (nonlinear_arith)
        requires
            y < h,
    ;
    y * w + x
}

/// The coordinate `x + d`, clamped to `[0, n)`.
pub fn clamp_step(x: usize, d: isize, n: usize) -> (r: usize)
    requires
        x < n,
        -3 <= d <= 3,
    ensures
        r as int == clamp(x + d, n as int),
        r < n,
{
    if d < 0 {
        let m: usize = (-d) as usize;
        if x >= m {
            x - m
        } else {
            0
        }
    } else {
        let m: usize = d as usize;
        if m < n - x {
            x + m
        } else {
            n - 1
        }
    }
}

} // verus!
