//! Gradient estimation: Sobel derivatives with clamp-to-edge borders, the
//! squared gradient magnitude, and the gradient direction quantized to four
//! principal orientations.
use crate::grid::{clamp_step, lemma_coords, offset};
use crate::smooth::luma_at;
use vstd::prelude::*;

verus! {

/// Gradient orientation, quantized to the nearest of four principal angles.
/// Angles are measured from the +x axis (columns to the right) towards the
/// +y axis (rows downwards), modulo 180 degrees.
#[derive(Clone, Copy, Debug, PartialEq, Eq, Structural)]
pub enum Direction {
    Deg0,
    Deg45,
    Deg90,
    Deg135,
}

/// One cell of a gradient field. The magnitude is kept squared, so that it
/// stays an exact integer: comparing squares orders magnitudes exactly.
#[derive(Clone, Copy, Debug, PartialEq, Eq, Structural)]
pub struct Gradient {
    pub magnitude_sq: u32,
    pub direction: Direction,
}

/// Horizontal Sobel derivative at `(x, y)`: kernel `[[-1,0,1],[-2,0,2],[-1,0,1]]`.
pub open spec fn gx_at(b: Seq<u8>, w: int, h: int, x: int, y: int) -> int {
    (luma_at(b, w, h, x + 1, y - 1) + 2 * luma_at(b, w, h, x + 1, y) + luma_at(b, w, h, x + 1, y + 1)) - (
    luma_at(b, w, h, x - 1, y - 1) + 2 * luma_at(b, w, h, x - 1, y) + luma_at(b, w, h, x - 1, y + 1))
}

/// Vertical Sobel derivative at `(x, y)`: the transpose of the horizontal kernel.
pub open spec fn gy_at(b: Seq<u8>, w: int, h: int, x: int, y: int) -> int {
    (luma_at(b, w, h, x - 1, y + 1) + 2 * luma_at(b, w, h, x, y + 1) + luma_at(b, w, h, x + 1, y + 1)) - (
    luma_at(b, w, h, x - 1, y - 1) + 2 * luma_at(b, w, h, x, y - 1) + luma_at(b, w, h, x + 1, y - 1))
}

pub open spec fn abs(v: int) -> int {
    if v < 0 {
        -v
    } else {
        v
    }
}

/// Nearest principal orientation of the vector `(gx, gy)`. With `a = |gx|`
/// and `b = |gy|`, the angle lies within 22.5 degrees of the x axis exactly
/// when `b < (sqrt 2 - 1) a`, that is `(a + b)^2 < 2 a^2`; likewise for the y
/// axis. Integer vectors never fall on a 22.5 degree boundary, so no tie
/// arises; the zero vector is classed as `Deg135`.
pub open spec fn direction_of(gx: int, gy: int) -> Direction {
    let a = abs(gx);
    let b = abs(gy);
    if (a + b) * (a + b) < 2 * a * a {
        Direction::Deg0
    } else if (a + b) * (a + b) < 2 * b * b {
        Direction::Deg90
    } else if gx * gy > 0 {
        Direction::Deg45
    } else {
        Direction::Deg135
    }
}

/// The gradient cell at `(x, y)` of a smoothed `w` by `h` frame.
pub open spec fn gradient_at(b: Seq<u8>, w: int, h: int, x: int, y: int) -> Gradient {
    let gx = gx_at(b, w, h, x, y);
    let gy = gy_at(b, w, h, x, y);
    Gradient { magnitude_sq: (gx * gx + gy * gy) as u32, direction: direction_of(gx, gy) }
}

/// The gradient field of a smoothed `w` by `h` frame.
pub open spec fn gradient_of(b: Seq<u8>, w: int, h: int) -> Seq<Gradient> {
    Seq::new((w * h) as nat, |i: int| gradient_at(b, w, h, i % w, i / w))
}

/// Quantizes the direction of `(gx, gy)`.
pub fn quantize(gx: i32, gy: i32) -> (r: Direction)
    requires
        -1020 <= gx <= 1020,
        -1020 <= gy <= 1020,
    ensures
        r == direction_of(gx as int, gy as int),
{
    let a: i64 = if gx < 0 { -(gx as i64) } else { gx as i64 };
    let b: i64 = if gy < 0 { -(gy as i64) } else { gy as i64 };
    assert((a + b) * (a + b) <= 2040 * 2040 && 2 * a * a <= 2 * 1020 * 1020 && 2 * b * b <= 2 * 1020 * 1020)
        by (nonlinear_arith)
        requires
            0 <= a <= 1020,
            0 <= b <= 1020,
    ;
    assert(-1020 * 1020 <= gx as int * gy as int <= 1020 * 1020) by (nonlinear_arith)
        requires
            -1020 <= gx <= 1020,
            -1020 <= gy <= 1020,
    ;
    let s = (a + b) * (a + b);
    if s < 2 * a * a {
        Direction::Deg0
    } else if s < 2 * b * b {
        Direction::Deg90
    } else if (gx as i64) * (gy as i64) > 0 {
        Direction::Deg45
    } else {
        Direction::Deg135
    }
}

/// Computes the gradient field of a smoothed `width` by `height` frame.
pub fn gradients(smoothed: &Vec<u8>, width: usize, height: usize) -> (r: Vec<Gradient>)
    requires
        smoothed@.len() == width * height,
    ensures
        r@ == gradient_of(smoothed@, width as int, height as int),
        forall|i: int| 0 <= i < r@.len() ==> #[trigger] r@[i].magnitude_sq <= 2 * 1020 * 1020,
{
    let n: usize = smoothed.len();
    let ghost w = width as int;
    let ghost h = height as int;
    let mut out: Vec<Gradient> = Vec::with_capacity(n);
    for i in 0..n
        invariant
            n == w * h,
            w == width,
            h == height,
            smoothed@.len() == n,
            out@.len() == i,
            forall|j: int| 0 <= j < i ==> #[trigger] out@[j] == gradient_of(smoothed@, w, h)[j],
            forall|j: int| 0 <= j < i ==> #[trigger] out@[j].magnitude_sq <= 2 * 1020 * 1020,
    {
        proof {
            lemma_coords(w, h, i as int);
        }
        let x = i % width;
        let y = i / width;
        let xl = clamp_step(x, -1, width);
        let xr = clamp_step(x, 1, width);
        let yu = clamp_step(y, -1, height);
        let yd = clamp_step(y, 1, height);
        let ul = smoothed[offset(width, height, xl, yu)] as i32;
        let uc = smoothed[offset(width, height, x, yu)] as i32;
        let ur = smoothed[offset(width, height, xr, yu)] as i32;
        let ml = smoothed[offset(width, height, xl, y)] as i32;
        let mr = smoothed[offset(width, height, xr, y)] as i32;
        let dl = smoothed[offset(width, height, xl, yd)] as i32;
        let dc = smoothed[offset(width, height, x, yd)] as i32;
        let dr = smoothed[offset(width, height, xr, yd)] as i32;
        let gx = (ur + 2 * mr + dr) - (ul + 2 * ml + dl);
        let gy = (dl + 2 * dc + dr) - (ul + 2 * uc + ur);
        assert(gx == gx_at(smoothed@, w, h, x as int, y as int));
        assert(gy == gy_at(smoothed@, w, h, x as int, y as int));
        assert(0 <= gx * gx <= 1020 * 1020 && 0 <= gy * gy <= 1020 * 1020) by (nonlinear_arith)
            requires
                -1020 <= gx <= 1020,
                -1020 <= gy <= 1020,
        ;
        let m = (gx * gx + gy * gy) as u32;
        let d = quantize(gx, gy);
        out.push(Gradient { magnitude_sq: m, direction: d });
    }
    assert(out@ =~= gradient_of(smoothed@, w, h));
    out
}

} // verus!
