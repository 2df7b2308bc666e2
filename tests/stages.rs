use canny_edges::{
    gradients, hysteresis, pack_mask, quantize, smooth, suppress, to_luma, Direction, Gradient,
};

#[test]
fn luma_uses_bt601_weights() {
    let px = [255, 255, 255, 7, 255, 0, 0, 0, 0, 255, 0, 0, 0, 0, 255, 0, 10, 20, 30, 40];
    assert_eq!(to_luma(&px), vec![255, 76, 149, 29, 18]);
}

#[test]
fn luma_ignores_trailing_partial_pixel() {
    assert_eq!(to_luma(&[100, 100, 100, 0, 9, 9]), vec![100]);
}

#[test]
fn smooth_keeps_uniform_values() {
    let g = vec![77u8; 20];
    assert_eq!(smooth(&g, 5, 4), g);
}

#[test]
fn smooth_spreads_an_impulse() {
    let mut g = vec![0u8; 7];
    g[3] = 64;
    assert_eq!(smooth(&g, 7, 1), vec![1, 6, 15, 20, 15, 6, 1]);
}

#[test]
fn sobel_on_a_vertical_step() {
    let s = vec![0, 0, 100, 0, 0, 100, 0, 0, 100];
    let g = gradients(&s, 3, 3);
    assert_eq!(g[4], Gradient { magnitude_sq: 160000, direction: Direction::Deg0 });
    assert_eq!(g[1], Gradient { magnitude_sq: 160000, direction: Direction::Deg0 });
    assert_eq!(g[0], Gradient { magnitude_sq: 0, direction: Direction::Deg135 });
}

#[test]
fn sobel_on_a_horizontal_step() {
    let s = vec![0, 0, 0, 0, 0, 0, 50, 50, 50];
    let g = gradients(&s, 3, 3);
    assert_eq!(g[4], Gradient { magnitude_sq: 40000, direction: Direction::Deg90 });
}

#[test]
fn directions_are_quantized() {
    assert_eq!(quantize(10, 0), Direction::Deg0);
    assert_eq!(quantize(-10, 3), Direction::Deg0);
    assert_eq!(quantize(0, 10), Direction::Deg90);
    assert_eq!(quantize(4, -10), Direction::Deg90);
    assert_eq!(quantize(10, 10), Direction::Deg45);
    assert_eq!(quantize(-7, -6), Direction::Deg45);
    assert_eq!(quantize(10, -10), Direction::Deg135);
    assert_eq!(quantize(-9, 8), Direction::Deg135);
    assert_eq!(quantize(0, 0), Direction::Deg135);
}

fn cell(m: u32, d: Direction) -> Gradient {
    Gradient { magnitude_sq: m, direction: d }
}

#[test]
fn suppression_keeps_ridge_and_clears_border() {
    let d = Direction::Deg0;
    let field = vec![
        cell(9, d), cell(9, d), cell(9, d), cell(9, d),
        cell(1, d), cell(5, d), cell(5, d), cell(2, d),
        cell(9, d), cell(9, d), cell(9, d), cell(9, d),
    ];
    assert_eq!(suppress(&field, 4, 3), vec![0, 0, 0, 0, 0, 5, 5, 0, 0, 0, 0, 0]);
}

#[test]
fn suppression_follows_direction() {
    let v = Direction::Deg90;
    let field = vec![
        cell(1, v), cell(9, v), cell(1, v),
        cell(9, v), cell(5, v), cell(9, v),
        cell(1, v), cell(3, v), cell(1, v),
    ];
    assert_eq!(suppress(&field, 3, 3)[4], 0);
    let h = Direction::Deg0;
    let field = vec![
        cell(1, h), cell(9, h), cell(1, h),
        cell(2, h), cell(5, h), cell(4, h),
        cell(1, h), cell(9, h), cell(1, h),
    ];
    assert_eq!(suppress(&field, 3, 3)[4], 5);
}

#[test]
fn weak_chain_joined_to_strong_becomes_edge() {
    let w = 30usize;
    let mut field = vec![0u32; w * 30];
    let at = |x: usize, y: usize| y * w + x;
    field[at(5, 5)] = 100;
    let chain = [(6, 6), (5, 7), (6, 8), (5, 9), (5, 10)];
    for &(x, y) in &chain {
        field[at(x, y)] = 50;
    }
    field[at(20, 20)] = 50;
    let edges = hysteresis(&field, w, 30, 10, 90);
    assert!(edges[at(5, 5)]);
    for &(x, y) in &chain {
        assert!(edges[at(x, y)]);
    }
    assert!(!edges[at(20, 20)]);
    assert_eq!(edges.iter().filter(|&&e| e).count(), 6);
}

#[test]
fn below_low_breaks_the_chain() {
    let mut field = vec![0u32; 10];
    field[0] = 100;
    field[1] = 50;
    field[2] = 5;
    field[3] = 50;
    let edges = hysteresis(&field, 10, 1, 10, 90);
    assert_eq!(edges, vec![true, true, false, false, false, false, false, false, false, false]);
}

#[test]
fn weak_alone_is_no_edge_and_strong_always_is() {
    let field = vec![40, 0, 0, 0, 95, 0];
    assert_eq!(hysteresis(&field, 6, 1, 30, 90), vec![false, false, false, false, true, false]);
}

#[test]
fn zero_magnitude_is_never_an_edge() {
    let field = vec![0u32; 4];
    assert_eq!(hysteresis(&field, 2, 2, 0, 0), vec![false; 4]);
}

#[test]
fn raising_high_reduces_strong_pixels() {
    let field = vec![10, 20, 30, 40, 50, 60];
    let a = hysteresis(&field, 6, 1, 100, 100);
    assert_eq!(a, vec![false; 6]);
    let b = hysteresis(&field, 6, 1, 45, 55);
    assert_eq!(b, vec![false, false, false, false, true, true]);
    let c = hysteresis(&field, 6, 1, 45, 65);
    assert_eq!(c, vec![false; 6]);
}

#[test]
fn mask_packs_white_and_black() {
    assert_eq!(pack_mask(&vec![true, false]), vec![255, 255, 255, 255, 0, 0, 0, 255]);
    assert_eq!(pack_mask(&vec![]), Vec::<u8>::new());
}
