use canny_edges::{detect, DetectError};

fn solid(width: u32, height: u32, rgb: [u8; 3]) -> Vec<u8> {
    let mut v = Vec::new();
    for _ in 0..(width * height) {
        v.extend_from_slice(&[rgb[0], rgb[1], rgb[2], 255]);
    }
    v
}

fn set_pixel(img: &mut Vec<u8>, width: u32, x: u32, y: u32, rgb: [u8; 3]) {
    let i = ((y * width + x) * 4) as usize;
    img[i] = rgb[0];
    img[i + 1] = rgb[1];
    img[i + 2] = rgb[2];
}

fn is_white(out: &[u8], i: usize) -> bool {
    out[4 * i..4 * i + 4] == [255, 255, 255, 255]
}

fn is_black(out: &[u8], i: usize) -> bool {
    out[4 * i..4 * i + 4] == [0, 0, 0, 255]
}

fn pattern(width: u32, height: u32) -> Vec<u8> {
    let mut v = Vec::new();
    for y in 0..height {
        for x in 0..width {
            let r = ((x * 37 + y * 11) % 256) as u8;
            let g = ((x * x + 3 * y) % 256) as u8;
            let b = if (x / 3 + y / 2) % 2 == 0 { 10 } else { 240 };
            v.extend_from_slice(&[r, g, b, 128]);
        }
    }
    v
}

#[test]
fn output_has_input_shape() {
    let img = pattern(9, 7);
    let out = detect(&img, 9, 7, 20, 60).unwrap();
    assert_eq!(out.len(), img.len());
    assert_eq!(out.len() % 4, 0);
}

#[test]
fn output_is_binary() {
    let img = pattern(12, 10);
    let out = detect(&img, 12, 10, 10, 40).unwrap();
    for i in 0..(12 * 10) {
        assert!(is_white(&out, i) || is_black(&out, i));
    }
}

#[test]
fn uniform_image_with_zero_thresholds_is_black() {
    let img = solid(6, 5, [90, 40, 200]);
    let out = detect(&img, 6, 5, 0, 0).unwrap();
    for i in 0..30 {
        assert!(is_black(&out, i));
    }
}

#[test]
fn single_white_pixel_is_outlined() {
    let mut img = solid(21, 21, [0, 0, 0]);
    set_pixel(&mut img, 21, 10, 10, [255, 255, 255]);
    let out = detect(&img, 21, 21, 1, 1).unwrap();
    let mut white_near = 0;
    for y in 0..21usize {
        for x in 0..21usize {
            let i = y * 21 + x;
            let far = x.abs_diff(10) > 4 || y.abs_diff(10) > 4;
            if far {
                assert!(is_black(&out, i));
            } else if is_white(&out, i) {
                white_near += 1;
            }
        }
    }
    assert!(white_near > 0);
    assert!(is_black(&out, 10 * 21 + 10));
}

#[test]
fn detect_is_deterministic() {
    let img = pattern(16, 11);
    let a = detect(&img, 16, 11, 15, 50).unwrap();
    let b = detect(&img, 16, 11, 15, 50).unwrap();
    assert_eq!(a, b);
}

#[test]
fn three_by_three_uniform_is_black() {
    let img = solid(3, 3, [120, 120, 120]);
    for (low, high) in [(0, 0), (0, 1), (5, 100), (1000, 2000)] {
        let out = detect(&img, 3, 3, low, high).unwrap();
        for i in 0..9 {
            assert!(is_black(&out, i));
        }
    }
}

#[test]
fn border_pixels_are_black() {
    let img = pattern(10, 8);
    let out = detect(&img, 10, 8, 0, 1).unwrap();
    for y in 0..8usize {
        for x in 0..10usize {
            if x == 0 || y == 0 || x == 9 || y == 7 {
                assert!(is_black(&out, y * 10 + x));
            }
        }
    }
}

#[test]
fn vertical_step_gives_an_edge() {
    let mut img = solid(12, 6, [0, 0, 0]);
    for y in 0..6 {
        for x in 6..12 {
            set_pixel(&mut img, 12, x, y, [255, 255, 255]);
        }
    }
    let out = detect(&img, 12, 6, 50, 100).unwrap();
    let mut white = 0;
    for y in 1..5usize {
        for x in 1..11usize {
            if is_white(&out, y * 12 + x) {
                white += 1;
                assert!(x == 5 || x == 6);
            }
        }
    }
    assert!(white > 0);
}

#[test]
fn zero_width_is_refused() {
    assert_eq!(detect(&[], 0, 4, 1, 2), Err(DetectError::EmptyFrame));
    assert_eq!(detect(&[], 4, 0, 1, 2), Err(DetectError::EmptyFrame));
}

#[test]
fn wrong_length_is_refused() {
    let img = solid(3, 3, [1, 2, 3]);
    assert_eq!(detect(&img, 3, 4, 1, 2), Err(DetectError::LengthMismatch));
    assert_eq!(detect(&img[..35], 3, 3, 1, 2), Err(DetectError::LengthMismatch));
}

#[test]
fn inverted_thresholds_are_refused() {
    let img = solid(3, 3, [1, 2, 3]);
    assert_eq!(detect(&img, 3, 3, 5, 4), Err(DetectError::ThresholdOrder));
}

#[test]
fn raising_high_never_adds_edges() {
    let img = pattern(14, 12);
    let lo = detect(&img, 14, 12, 10, 30).unwrap();
    let hi = detect(&img, 14, 12, 10, 300).unwrap();
    for i in 0..(14 * 12) {
        if is_white(&hi, i) {
            assert!(is_white(&lo, i));
        }
    }
}
