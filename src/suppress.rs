//! Non-maximum suppression: a pixel keeps its magnitude only where it is at
//! least that of both neighbours along its gradient direction; border pixels
//! are always suppressed.
use crate::gradient::{Direction, Gradient};
use crate::grid::{idx, lemma_coords, offset};
use vstd::prelude::*;

verus! {

/// Squared magnitude of the gradient cell at `(x, y)`.
pub open spec fn mag_at(gs: Seq<Gradient>, w: int, x: int, y: int) -> int {
    gs[idx(w, x, y)].magnitude_sq as int
}

/// Unit step along a quantized gradient direction (rows grow downwards).
pub open spec fn step_of(d: Direction) -> (int, int) {
    match d {
        Direction::Deg0 => (1, 0),
        Direction::Deg45 => (1, 1),
        Direction::Deg90 => (0, 1),
        Direction::Deg135 => (1, -1),
    }
}

/// Whether `(x, y)` lacks a full ring of neighbours in a `w` by `h` frame.
pub open spec fn on_border(w: int, h: int, x: int, y: int) -> bool {
    x < 1 || y < 1 || x >= w - 1 || y >= h - 1
}

/// The magnitude left at `(x, y)` after suppression.
pub open spec fn suppressed_at(gs: Seq<Gradient>, w: int, h: int, x: int, y: int) -> u32 {
    if on_border(w, h, x, y) {
        0
    } else {
        let s = step_of(gs[idx(w, x, y)].direction);
        let m = mag_at(gs, w, x, y);
        if m >= mag_at(gs, w, x + s.0, y + s.1) && m >= mag_at(gs, w, x - s.0, y - s.1) {
            m as u32
        } else {
            0
        }
    }
}

/// The suppressed magnitude field of a `w` by `h` gradient field.
pub open spec fn suppress_of(gs: Seq<Gradient>, w: int, h: int) -> Seq<u32> {
    Seq::new((w * h) as nat, |i: int| suppressed_at(gs, w, h, i % w, i / w))
}

/// Thins a `width` by `height` gradient field to its ridges.
pub fn suppress(field: &Vec<Gradient>, width: usize, height: usize) -> (r: Vec<u32>)
    requires
        field@.len() == width * height,
    ensures
        r@ == suppress_of(field@, width as int, height as int),
{
    let n: usize = field.len();
    let ghost w = width as int;
    let ghost h = height as int;
    let mut out: Vec<u32> = Vec::with_capacity(n);
    for i in 0..n
        invariant
            n == w * h,
            w == width,
            h == height,
            field@.len() == n,
            out@.len() == i,
            forall|j: int| 0 <= j < i ==> #[trigger] out@[j] == suppress_of(field@, w, h)[j],
    {
        proof {
            lemma_coords(w, h, i as int);
        }
        let x = i % width;
        let y = i / width;
        let kept: u32 = if x >= 1 && y >= 1 && x + 1 < width && y + 1 < height {
            let cell = field[i];
            let (xa, ya, xb, yb) = match cell.direction {
                Direction::Deg0 => (x + 1, y, x - 1, y),
                Direction::Deg45 => (x + 1, y + 1, x - 1, y - 1),
                Direction::Deg90 => (x, y + 1, x, y - 1),
                Direction::Deg135 => (x + 1, y - 1, x - 1, y + 1),
            };
            let ma = field[offset(width, height, xa, ya)].magnitude_sq;
            let mb = field[offset(width, height, xb, yb)].magnitude_sq;
            if cell.magnitude_sq >= ma && cell.magnitude_sq >= mb {
                cell.magnitude_sq
            } else {
                0
            }
        } else {
            0
        };
        out.push(kept);
    }
    assert(out@ =~= suppress_of(field@, w, h));
    out
}

} // verus!
