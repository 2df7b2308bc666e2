//! Canny edge detection on RGBA pixel buffers, in exact integer arithmetic.
//!
//! The pipeline runs grayscale reduction, Gaussian smoothing, Sobel
//! gradients, non-maximum suppression and hysteresis tracing, then packs the
//! edge map back into RGBA. Each stage is modelled by a spec function over
//! sequences, and `detect` is proved to return the composition of those
//! models.
mod gradient;
mod gray;
mod grid;
mod laws;
mod mask;
mod pipeline;
mod smooth;
mod suppress;
mod tracer;

pub use gradient::{
    abs, direction_of, gradient_at, gradient_of, gradients, gx_at, gy_at, quantize, Direction, Gradient,
};
pub use gray::{gray_of, luma, to_luma};
pub use grid::{clamp, idx, in_frame};
pub use laws::{
    candidate_count, lemma_border_is_black, lemma_deterministic, lemma_edges_shrink_with_high,
    lemma_threshold_monotone, lemma_uniform_is_black, lemma_zero_is_no_edge, same_colour, strong_count,
};
pub use mask::{is_black, is_white, mask_byte, mask_of, pack_mask};
pub use pipeline::{detect, detect_error, edge_map, edge_mask, DetectError};
pub use smooth::{col_blur_at, luma_at, row_at, row_blur_at, row_blur_of, smooth, smooth_of, taps};
pub use suppress::{mag_at, on_border, step_of, suppress, suppress_of, suppressed_at};
pub use tracer::{
    edges_of, hysteresis, is_candidate, is_chain, is_edge, is_strong, touches, value_at,
};
