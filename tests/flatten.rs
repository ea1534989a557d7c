use rster::flatten::{flatten_cubic, flatten_quad, isqrt};
use rster::geometry::{Point, SUBPIXELS};

fn px(x: i64, y: i64) -> Point {
    Point::new(x * SUBPIXELS, y * SUBPIXELS)
}

#[test]
fn isqrt_values() {
    assert_eq!(isqrt(0), 0);
    assert_eq!(isqrt(1), 1);
    assert_eq!(isqrt(15), 3);
    assert_eq!(isqrt(16), 4);
    assert_eq!(isqrt(50331648), 7094);
    assert_eq!(isqrt((1u64 << 58) - 1), (1u64 << 29) - 1);
}

#[test]
fn flat_quad_is_one_segment() {
    let pts = flatten_quad(px(2, 2), px(5, 6), px(8, 10));
    assert_eq!(pts, vec![px(2, 2), px(8, 10)]);
}

#[test]
fn slightly_bent_quad_is_still_one_segment() {
    // a control point 25 sub-pixels off the chord midpoint stays below the threshold
    let pts = flatten_quad(px(2, 2), Point::new(5 * SUBPIXELS + 25, 6 * SUBPIXELS), px(8, 10));
    assert_eq!(pts.len(), 2);
}

#[test]
fn bent_quad_section_count() {
    // control point 8 pixels off the chord midpoint: 1 + floor(sqrt(3 * 64)) = 14 pieces
    let pts = flatten_quad(px(0, 0), px(4, 8), px(8, 0));
    assert_eq!(pts.len(), 15);
    assert_eq!(pts[0], px(0, 0));
    assert_eq!(pts[14], px(8, 0));
    // parameter 7/14 = 1/2: (p0 + 2c + p1) / 4
    assert_eq!(pts[7], px(4, 4));
}

#[test]
fn cubic_halves_and_midpoint() {
    let pts = flatten_cubic(px(0, 0), px(0, 8), px(8, 8), px(8, 0));
    // each half: 1 + floor(sqrt(3 * 32)) = 10 pieces
    assert_eq!(pts.len(), 21);
    assert_eq!(pts[0], px(0, 0));
    assert_eq!(pts[20], px(8, 0));
    // parameter 1/2: (p0 + 3 c0 + 3 c1 + p1) / 8
    assert_eq!(pts[10], Point::new(1024, 1536));
}

#[test]
fn flat_cubic_has_two_pieces() {
    let pts = flatten_cubic(px(0, 0), px(1, 1), px(2, 2), px(3, 3));
    assert_eq!(pts.len(), 3);
    assert_eq!(pts[0], px(0, 0));
    assert_eq!(pts[2], px(3, 3));
}
