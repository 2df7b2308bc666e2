//! The full edge detector: RGBA in, RGBA edge mask out.
use crate::gradient::{gradient_of, gradients};
use crate::gray::{gray_of, to_luma};
use crate::tracer::{edges_of, hysteresis};
use crate::mask::{is_black, is_white, mask_of, pack_mask};
use crate::smooth::{smooth, smooth_of};
use crate::suppress::{suppress, suppress_of};
use vstd::prelude::*;

verus! {

/// Why a call to `detect` was refused.
#[derive(Clone, Copy, Debug, PartialEq, Eq, Structural)]
pub enum DetectError {
    /// The width or the height is zero.
    EmptyFrame,
    /// The buffer does not hold exactly `width * height` RGBA pixels.
    LengthMismatch,
    /// The low threshold exceeds the high one.
    ThresholdOrder,
}

/// The error `detect` reports for a buffer of `len` bytes, if any.
pub open spec fn detect_error(len: int, w: int, h: int, low: int, high: int) -> Option<DetectError> {
    if w == 0 || h == 0 {
        Some(DetectError::EmptyFrame)
    } else if len != 4 * w * h {
        Some(DetectError::LengthMismatch)
    } else if low > high {
        Some(DetectError::ThresholdOrder)
    } else {
        None
    }
}

/// The edge map of a `w` by `h` RGBA image: grayscale, smoothing, gradients,
/// suppression, then hysteresis with the magnitude thresholds `low` and
/// `high` (compared on squares, against squared magnitudes).
pub open spec fn edge_map(input: Seq<u8>, w: int, h: int, low: u32, high: u32) -> Seq<bool> {
    let ridges = suppress_of(gradient_of(smooth_of(gray_of(input), w, h), w, h), w, h);
    edges_of(ridges, w, h, (low * low) as u64, (high * high) as u64)
}

/// The RGBA edge mask of a `w` by `h` RGBA image.
pub open spec fn edge_mask(input: Seq<u8>, w: int, h: int, low: u32, high: u32) -> Seq<u8> {
    mask_of(edge_map(input, w, h, low, high))
}

/// Detects the edges of a `width` by `height` RGBA image. A pixel of the
/// result is opaque white where an edge was found and opaque black elsewhere.
/// `low` and `high` are thresholds on the Sobel gradient magnitude.
pub fn detect(input: &[u8], width: u32, height: u32, low: u32, high: u32) -> (r: Result<Vec<u8>, DetectError>)
    ensures
        r is Ok <==> detect_error(input@.len() as int, width as int, height as int, low as int, high as int)
            is None,
        r matches Err(e) ==> detect_error(
            input@.len() as int,
            width as int,
            height as int,
            low as int,
            high as int,
        ) == Some(e),
        r matches Ok(out) ==> out@ == edge_mask(input@, width as int, height as int, low, high),
        r matches Ok(out) ==> out@.len() == input@.len() && out@.len() % 4 == 0,
        r matches Ok(out) ==> forall|i: int|
            0 <= i < out@.len() / 4 ==> is_white(out@, i) || is_black(out@, i),
{
    if width == 0 || height == 0 {
        return Err(DetectError::EmptyFrame);
    }
    let len: usize = input.len();
    assert(4 * (width as int) * (height as int) <= 4 * 0xffff_ffff * 0xffff_ffff) by (nonlinear_arith)
        requires
            width <= 0xffff_ffff,
            height <= 0xffff_ffff,
    ;
    if (len as u128) != 4 * (width as u128) * (height as u128) {
        return Err(DetectError::LengthMismatch);
    }
    if low > high {
        return Err(DetectError::ThresholdOrder);
    }
    let w: usize = width as usize;
    let h: usize = height as usize;
    let ghost wi = w as int;
    let ghost hi = h as int;
    let luma = to_luma(input);
    assert(4 * wi * hi == 4 * (wi * hi)) by (nonlinear_arith);
    assert(luma@.len() == wi * hi);
    let soft = smooth(&luma, w, h);
    let grads = gradients(&soft, w, h);
    let ridges = suppress(&grads, w, h);
    assert(low as int * low as int <= 0xffff_ffff * 0xffff_ffff && high as int * high as int <= 0xffff_ffff
        * 0xffff_ffff) by (nonlinear_arith)
        requires
            low <= 0xffff_ffff,
            high <= 0xffff_ffff,
    ;
    let lo: u64 = low as u64 * low as u64;
    let hi_sq: u64 = high as u64 * high as u64;
    assert(lo <= hi_sq) by (nonlinear_arith)
        requires
            low <= high,
            lo == low as int * low as int,
            hi_sq == high as int * high as int,
    ;
    let edges = hysteresis(&ridges, w, h, lo, hi_sq);
    let out = pack_mask(&edges);
    assert forall|i: int| 0 <= i < out@.len() / 4 implies is_white(out@, i) || is_black(out@, i) by {
        if edges@[i] {
        }
    }
    Ok(out)
}

} // verus!
