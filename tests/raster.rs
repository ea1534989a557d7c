use rster::geometry::{PathBuilder, Point, SUBPIXELS};
use rster::raster::{RasterError, Rster, FULL_AREA, PADDING};

fn px(x: i64, y: i64) -> Point {
    Point::new(x * SUBPIXELS, y * SUBPIXELS)
}

fn all_deltas(r: &Rster) -> Vec<i64> {
    let n = r.width() * r.height() + PADDING;
    (0..n).map(|i| r.delta_at(i).unwrap()).collect()
}

fn square(a: i64, b: i64) -> rster::geometry::PathObj {
    PathBuilder::new(px(a, a))
        .line_to(px(a, b))
        .line_to(px(b, b))
        .line_to(px(b, a))
        .line_to(px(a, a))
        .finish()
}

fn square_backwards(a: i64, b: i64) -> rster::geometry::PathObj {
    PathBuilder::new(px(a, a))
        .line_to(px(b, a))
        .line_to(px(b, b))
        .line_to(px(a, b))
        .line_to(px(a, a))
        .finish()
}

#[test]
fn new_rasterizer_is_blank() {
    let r = Rster::new(4, 3);
    assert_eq!(r.width(), 4);
    assert_eq!(r.height(), 3);
    assert!(all_deltas(&r).iter().all(|&v| v == 0));
    assert_eq!(r.delta_at(4 * 3 + PADDING), None);
    assert_eq!(r.accumulate(), vec![0u8; 12]);
}

#[test]
fn horizontal_line_changes_nothing() {
    let mut r = Rster::new(10, 10);
    assert_eq!(r.draw_line(px(1, 3), px(9, 3)), Ok(()));
    assert_eq!(r.draw_line(Point::new(0, 77), Point::new(2560, 77)), Ok(()));
    assert!(all_deltas(&r).iter().all(|&v| v == 0));
    assert_eq!(r.accumulate(), vec![0u8; 100]);
}

#[test]
fn single_pixel_segment_conserves_area() {
    // within row 1 and column 2: from (2.25, 1.0) to (2.75, 1.5)
    let mut r = Rster::new(5, 4);
    let p0 = Point::new(2 * 256 + 64, 256);
    let p1 = Point::new(2 * 256 + 192, 256 + 128);
    assert_eq!(r.draw_line(p0, p1), Ok(()));
    let d = all_deltas(&r);
    let cell = 5 + 2;
    // the midpoint is half way across the pixel: the two halves are equal
    assert_eq!(d[cell], 128 * 256);
    assert_eq!(d[cell + 1], 128 * 256);
    assert_eq!(d[cell] + d[cell + 1], 2 * 256 * 128);
    for (i, v) in d.iter().enumerate() {
        if i != cell && i != cell + 1 {
            assert_eq!(*v, 0);
        }
    }
}

#[test]
fn upward_segment_deposits_negative_area() {
    let mut r = Rster::new(5, 4);
    let p0 = Point::new(2 * 256 + 192, 256 + 128);
    let p1 = Point::new(2 * 256 + 64, 256);
    assert_eq!(r.draw_line(p0, p1), Ok(()));
    let d = all_deltas(&r);
    assert_eq!(d[7] + d[8], -2 * 256 * 128);
}

#[test]
fn multi_column_row_sums_to_full_height() {
    // one row, from x = 0 to x = 4 pixels: deposits over five cells add up to a full pixel
    let mut r = Rster::new(6, 1);
    assert_eq!(r.draw_line(px(0, 0), px(4, 1)), Ok(()));
    let d = all_deltas(&r);
    let total: i64 = d.iter().sum();
    assert_eq!(total, FULL_AREA);
    // ramp areas: 1/8, 3/8, 5/8, 7/8 of a pixel, then the remainder
    assert_eq!(d[0], FULL_AREA / 8);
    assert_eq!(d[1], 3 * FULL_AREA / 8);
    assert_eq!(d[2], 5 * FULL_AREA / 8);
    assert_eq!(d[3], 7 * FULL_AREA / 8);
    assert_eq!(d[4], FULL_AREA - 2 * FULL_AREA);
}

#[test]
fn half_covered_pixel_byte() {
    // a vertical edge through the middle of column 5 of a one-row canvas
    let mut r = Rster::new(10, 1);
    assert_eq!(r.draw_line(Point::new(5 * 256 + 128, 0), Point::new(5 * 256 + 128, 256)), Ok(()));
    let out = r.accumulate();
    assert_eq!(out[4], 0);
    assert_eq!(out[5], 127);
    assert_eq!(out[6], 255);
    assert_eq!(out[9], 255);
}

#[test]
fn square_on_fifty_by_fifty_canvas() {
    let mut r = Rster::new(50, 50);
    let path = square(5, 10);
    assert_eq!(r.draw_path(path.iter()), Ok(()));
    let out = r.accumulate();
    assert_eq!(out.len(), 2500);
    for y in 0..50 {
        for x in 0..50 {
            let inside = (5..10).contains(&y) && (5..10).contains(&x);
            assert_eq!(out[y * 50 + x], if inside { 255 } else { 0 }, "pixel {} {}", x, y);
        }
    }
}

#[test]
fn reversed_square_same_image() {
    let mut fwd = Rster::new(20, 20);
    let mut bwd = Rster::new(20, 20);
    assert_eq!(fwd.draw_path(square(3, 9).iter()), Ok(()));
    assert_eq!(bwd.draw_path(square_backwards(3, 9).iter()), Ok(()));
    let a = all_deltas(&fwd);
    let b = all_deltas(&bwd);
    for i in 0..a.len() {
        assert_eq!(a[i], -b[i]);
    }
    assert_eq!(fwd.accumulate(), bwd.accumulate());
}

#[test]
fn drawing_twice_doubles_deltas() {
    let tri = PathBuilder::new(Point::new(300, 300))
        .line_to(Point::new(2000, 700))
        .line_to(Point::new(900, 2300))
        .line_to(Point::new(300, 300))
        .finish();
    let mut once = Rster::new(12, 12);
    let mut twice = Rster::new(12, 12);
    assert_eq!(once.draw_path(tri.iter()), Ok(()));
    assert_eq!(twice.draw_path(tri.iter()), Ok(()));
    assert_eq!(twice.draw_path(tri.iter()), Ok(()));
    let a = all_deltas(&once);
    let b = all_deltas(&twice);
    for i in 0..a.len() {
        assert_eq!(b[i], 2 * a[i]);
    }
    let oa = once.accumulate();
    let ob = twice.accumulate();
    let mut partial = 0;
    for i in 0..oa.len() {
        assert!(ob[i] >= oa[i]);
        if oa[i] == 255 {
            assert_eq!(ob[i], 255);
        }
        if oa[i] > 0 && oa[i] < 255 {
            partial += 1;
        }
    }
    assert!(partial > 0);
}

#[test]
fn accumulate_is_repeatable() {
    let mut r = Rster::new(20, 20);
    assert_eq!(r.draw_path(square(2, 6).iter()), Ok(()));
    let a = r.accumulate();
    let b = r.accumulate();
    assert_eq!(a, b);
    assert_eq!(r.draw_path(square(10, 14).iter()), Ok(()));
    let c = r.accumulate();
    assert_eq!(c[3 * 20 + 3], 255);
    assert_eq!(c[11 * 20 + 11], 255);
    assert_eq!(a[11 * 20 + 11], 0);
}

#[test]
fn out_of_bounds_points_are_refused() {
    let mut r = Rster::new(10, 8);
    assert_eq!(r.draw_path(square(2, 5).iter()), Ok(()));
    let before = all_deltas(&r);
    assert_eq!(
        r.draw_line(Point::new(-1, 0), px(1, 1)),
        Err(RasterError::OutOfBounds { coordinate: -1, bound: 0 })
    );
    assert_eq!(
        r.draw_line(px(1, 1), Point::new(2561, 0)),
        Err(RasterError::OutOfBounds { coordinate: 2561, bound: 2560 })
    );
    assert_eq!(
        r.draw_line(px(1, 1), Point::new(3, -5)),
        Err(RasterError::OutOfBounds { coordinate: -5, bound: 0 })
    );
    assert_eq!(
        r.draw_line(px(1, 1), px(2, 9)),
        Err(RasterError::OutOfBounds { coordinate: 9 * 256, bound: 8 * 256 })
    );
    assert_eq!(all_deltas(&r), before);
}

#[test]
fn out_of_bounds_path_draws_nothing() {
    let mut r = Rster::new(10, 10);
    let path = PathBuilder::new(px(1, 1))
        .line_to(px(1, 5))
        .line_to(px(5, 5))
        .quad_bez_to(px(12, 3), px(5, 1))
        .line_to(px(1, 1))
        .finish();
    assert_eq!(
        r.draw_path(path.iter()),
        Err(RasterError::OutOfBounds { coordinate: 12 * 256, bound: 10 * 256 })
    );
    assert!(all_deltas(&r).iter().all(|&v| v == 0));
}

#[test]
fn curve_control_points_are_checked() {
    let mut r = Rster::new(10, 10);
    assert_eq!(
        r.draw_quad_bez(px(1, 1), px(4, 11), px(8, 1)),
        Err(RasterError::OutOfBounds { coordinate: 11 * 256, bound: 10 * 256 })
    );
    assert_eq!(
        r.draw_cub_bez(px(1, 1), Point::new(-3, 4), px(4, 11), px(8, 1)),
        Err(RasterError::OutOfBounds { coordinate: -3, bound: 0 })
    );
    assert!(all_deltas(&r).iter().all(|&v| v == 0));
}

#[test]
fn closed_quad_shape_fills_inside() {
    let mut r = Rster::new(40, 40);
    let shape = PathBuilder::new(px(10, 10))
        .quad_bez_to(px(30, 20), px(10, 30))
        .line_to(px(10, 10))
        .finish();
    assert_eq!(r.draw_path(shape.iter()), Ok(()));
    let out = r.accumulate();
    assert_eq!(out[20 * 40 + 12], 255);
    assert_eq!(out[20 * 40 + 30], 0);
    assert_eq!(out[5 * 40 + 12], 0);
    assert_eq!(out[35 * 40 + 12], 0);
}

#[test]
fn closed_cubic_shape_fills_inside() {
    let mut r = Rster::new(40, 40);
    let shape = PathBuilder::new(px(5, 30))
        .cub_bez_to(px(5, 5), px(35, 5), px(35, 30))
        .line_to(px(5, 30))
        .finish();
    assert_eq!(r.draw_path(shape.iter()), Ok(()));
    let out = r.accumulate();
    assert_eq!(out[25 * 40 + 20], 255);
    assert_eq!(out[2 * 40 + 20], 0);
    assert_eq!(out[35 * 40 + 20], 0);
}

#[test]
fn direct_curve_draws_match_path_draws() {
    let mut a = Rster::new(30, 30);
    let mut b = Rster::new(30, 30);
    assert_eq!(a.draw_quad_bez(px(2, 2), px(25, 10), px(2, 28)), Ok(()));
    assert_eq!(a.draw_cub_bez(px(2, 28), px(10, 20), px(5, 10), px(2, 2)), Ok(()));
    let path = PathBuilder::new(px(2, 2))
        .quad_bez_to(px(25, 10), px(2, 28))
        .cub_bez_to(px(10, 20), px(5, 10), px(2, 2))
        .finish();
    assert_eq!(b.draw_path(path.iter()), Ok(()));
    assert_eq!(all_deltas(&a), all_deltas(&b));
}

#[test]
fn path_without_leading_move_starts_at_origin() {
    let mut a = Rster::new(8, 8);
    let mut b = Rster::new(8, 8);
    let mut it = PathBuilder::new(px(0, 0)).line_to(px(0, 4)).finish().iter();
    // skip the leading Move: the current point then defaults to the origin
    assert!(it.next().is_some());
    assert_eq!(a.draw_path(it), Ok(()));
    assert_eq!(b.draw_line(px(0, 0), px(0, 4)), Ok(()));
    assert_eq!(all_deltas(&a), all_deltas(&b));
}

#[test]
fn edge_on_right_border_spills_into_next_row() {
    let mut r = Rster::new(4, 2);
    assert_eq!(r.draw_line(px(4, 0), px(4, 1)), Ok(()));
    let d = all_deltas(&r);
    assert_eq!(d[4], FULL_AREA);
    assert_eq!(d[5], 0);
}
