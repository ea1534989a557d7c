use rster::{PathBuilder, Point, Rster, SUBPIXELS};

fn pt(x: i64, y: i64) -> Point {
    Point::new(x * SUBPIXELS, y * SUBPIXELS)
}

#[test]
fn square_and_triangle_scene() {
    let mut r = Rster::new(60, 60);
    let path = PathBuilder::new(pt(5, 5))
        .line_to(pt(5, 25))
        .line_to(pt(25, 25))
        .line_to(pt(25, 5))
        .line_to(pt(5, 5))
        .move_to(pt(30, 50))
        .line_to(pt(40, 30))
        .line_to(pt(50, 50))
        .line_to(pt(30, 50))
        .finish();
    assert_eq!(r.draw_path(path.iter()), Ok(()));
    let out = r.accumulate();
    assert_eq!(out[15 * 60 + 15], 255);
    assert_eq!(out[45 * 60 + 40], 255);
    assert_eq!(out[45 * 60 + 31], 0);
    assert_eq!(out[2 * 60 + 2], 0);
    assert_eq!(out[55 * 60 + 40], 0);
}

#[test]
fn same_path_stamped_twice_side_by_side() {
    let mut r = Rster::new(30, 10);
    let left = PathBuilder::new(pt(2, 2)).line_to(pt(2, 8)).line_to(pt(8, 8)).line_to(pt(8, 2)).line_to(pt(2, 2)).finish();
    let right = PathBuilder::new(pt(12, 2)).line_to(pt(12, 8)).line_to(pt(18, 8)).line_to(pt(18, 2)).line_to(pt(12, 2)).finish();
    assert_eq!(r.draw_path(left.iter()), Ok(()));
    assert_eq!(r.draw_path(right.iter()), Ok(()));
    let out = r.accumulate();
    assert_eq!(out[5 * 30 + 5], 255);
    assert_eq!(out[5 * 30 + 10], 0);
    assert_eq!(out[5 * 30 + 15], 255);
    assert_eq!(out[5 * 30 + 25], 0);
}
