//! Gaussian smoothing with the 7-tap binomial kernel `[1, 6, 15, 20, 15, 6, 1] / 64`
//! (radius 3, standard deviation about 1.22) applied along rows and then
//! along columns, with clamp-to-edge borders and a single round-to-nearest
//! at the end.
use crate::grid::{clamp, clamp_step, idx, lemma_coords, offset};
use vstd::prelude::*;

verus! {

/// The binomial kernel applied to seven consecutive samples.
pub open spec fn taps(a: int, b: int, c: int, d: int, e: int, f: int, g: int) -> int {
    a + 6 * b + 15 * c + 20 * d + 15 * e + 6 * f + g
}

/// Luma sample at `(x, y)`, borders clamped.
pub open spec fn luma_at(g: Seq<u8>, w: int, h: int, x: int, y: int) -> int {
    g[idx(w, clamp(x, w), clamp(y, h))] as int
}

/// Row pass at `(x, y)`: the kernel across columns `x - 3 ..= x + 3`, unscaled.
pub open spec fn row_blur_at(g: Seq<u8>, w: int, h: int, x: int, y: int) -> int {
    taps(
        luma_at(g, w, h, x - 3, y),
        luma_at(g, w, h, x - 2, y),
        luma_at(g, w, h, x - 1, y),
        luma_at(g, w, h, x, y),
        luma_at(g, w, h, x + 1, y),
        luma_at(g, w, h, x + 2, y),
        luma_at(g, w, h, x + 3, y),
    )
}

/// The row pass over the whole frame.
pub open spec fn row_blur_of(g: Seq<u8>, w: int, h: int) -> Seq<u32> {
    Seq::new((w * h) as nat, |i: int| row_blur_at(g, w, h, i % w, i / w) as u32)
}

/// Row-pass value at `(x, y)`, borders clamped.
pub open spec fn row_at(r: Seq<u32>, w: int, h: int, x: int, y: int) -> int {
    r[idx(w, clamp(x, w), clamp(y, h))] as int
}

/// Column pass at `(x, y)` over row-pass values, scaled by `1 / 4096` and
/// rounded to nearest (halves up).
pub open spec fn col_blur_at(r: Seq<u32>, w: int, h: int, x: int, y: int) -> int {
    (taps(
        row_at(r, w, h, x, y - 3),
        row_at(r, w, h, x, y - 2),
        row_at(r, w, h, x, y - 1),
        row_at(r, w, h, x, y),
        row_at(r, w, h, x, y + 1),
        row_at(r, w, h, x, y + 2),
        row_at(r, w, h, x, y + 3),
    ) + 2048) / 4096
}

/// The smoothed luminance buffer of a `w` by `h` frame.
pub open spec fn smooth_of(g: Seq<u8>, w: int, h: int) -> Seq<u8> {
    let r = row_blur_of(g, w, h);
    Seq::new((w * h) as nat, |i: int| col_blur_at(r, w, h, i % w, i / w) as u8)
}

fn row_pass(g: &Vec<u8>, width: usize, height: usize) -> (r: Vec<u32>)
    requires
        g@.len() == width * height,
    ensures
        r@ == row_blur_of(g@, width as int, height as int),
        forall|i: int| 0 <= i < r@.len() ==> #[trigger] r@[i] <= 64 * 255,
{
    let n: usize = g.len();
    let ghost w = width as int;
    let ghost h = height as int;
    let mut out: Vec<u32> = Vec::with_capacity(n);
    for i in 0..n
        invariant
            n == w * h,
            w == width,
            h == height,
            g@.len() == n,
            out@.len() == i,
            forall|j: int| 0 <= j < i ==> #[trigger] out@[j] == row_blur_of(g@, w, h)[j],
            forall|j: int| 0 <= j < i ==> #[trigger] out@[j] <= 64 * 255,
    {
        proof {
            lemma_coords(w, h, i as int);
        }
        let x = i % width;
        let y = i / width;
        let x0 = clamp_step(x, -3, width);
        let x1 = clamp_step(x, -2, width);
        let x2 = clamp_step(x, -1, width);
        let x4 = clamp_step(x, 1, width);
        let x5 = clamp_step(x, 2, width);
        let x6 = clamp_step(x, 3, width);
        let a = g[offset(width, height, x0, y)] as u32;
        let b = g[offset(width, height, x1, y)] as u32;
        let c = g[offset(width, height, x2, y)] as u32;
        let d = g[offset(width, height, x, y)] as u32;
        let e = g[offset(width, height, x4, y)] as u32;
        let f = g[offset(width, height, x5, y)] as u32;
        let k = g[offset(width, height, x6, y)] as u32;
        let s = a + 6 * b + 15 * c + 20 * d + 15 * e + 6 * f + k;
        assert(s == row_blur_at(g@, w, h, x as int, y as int));
        out.push(s);
    }
    assert(out@ =~= row_blur_of(g@, w, h));
    out
}

fn col_pass(r: &Vec<u32>, width: usize, height: usize) -> (out: Vec<u8>)
    requires
        r@.len() == width * height,
        forall|i: int| 0 <= i < r@.len() ==> #[trigger] r@[i] <= 64 * 255,
    ensures
        forall|i: int|
            0 <= i < width * height ==> #[trigger] out@[i] == col_blur_at(
                r@,
                width as int,
                height as int,
                i % (width as int),
                i / (width as int),
            ) as u8,
        out@.len() == width * height,
{
    let n: usize = r.len();
    let ghost w = width as int;
    let ghost h = height as int;
    let mut out: Vec<u8> = Vec::with_capacity(n);
    for i in 0..n
        invariant
            n == w * h,
            w == width,
            h == height,
            r@.len() == n,
            forall|j: int| 0 <= j < n ==> #[trigger] r@[j] <= 64 * 255,
            out@.len() == i,
            forall|j: int| 0 <= j < i ==> #[trigger] out@[j] == col_blur_at(r@, w, h, j % w, j / w) as u8,
    {
        proof {
            lemma_coords(w, h, i as int);
        }
        let x = i % width;
        let y = i / width;
        let y0 = clamp_step(y, -3, height);
        let y1 = clamp_step(y, -2, height);
        let y2 = clamp_step(y, -1, height);
        let y4 = clamp_step(y, 1, height);
        let y5 = clamp_step(y, 2, height);
        let y6 = clamp_step(y, 3, height);
        let a = r[offset(width, height, x, y0)];
        let b = r[offset(width, height, x, y1)];
        let c = r[offset(width, height, x, y2)];
        let d = r[offset(width, height, x, y)];
        let e = r[offset(width, height, x, y4)];
        let f = r[offset(width, height, x, y5)];
        let k = r[offset(width, height, x, y6)];
        let s = a + 6 * b + 15 * c + 20 * d + 15 * e + 6 * f + k;
        let v = (s + 2048) / 4096;
        out.push(v as u8);
    }
    out
}

/// Smooths a `width` by `height` luminance buffer with the binomial kernel.
pub fn smooth(luma: &Vec<u8>, width: usize, height: usize) -> (r: Vec<u8>)
    requires
        luma@.len() == width * height,
    ensures
        r@ == smooth_of(luma@, width as int, height as int),
{
    let rows = row_pass(luma, width, height);
    let out = col_pass(&rows, width, height);
    assert(out@ =~= smooth_of(luma@, width as int, height as int));
    out
}

} // verus!
