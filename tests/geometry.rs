use rster::geometry::{PathBuilder, PathOp, Point, SUBPIXELS};

fn px(x: i64, y: i64) -> Point {
    Point::new(x * SUBPIXELS, y * SUBPIXELS)
}

#[test]
fn point_new_keeps_coordinates() {
    let p = Point::new(3, -7);
    assert_eq!(p.x, 3);
    assert_eq!(p.y, -7);
}

#[test]
fn linterp_halfway() {
    let p = Point::linterp(1, 2, Point::new(0, 0), Point::new(10, 20));
    assert_eq!(p, Point::new(5, 10));
}

#[test]
fn linterp_rounds_down() {
    let p = Point::linterp(1, 3, Point::new(0, 0), Point::new(10, 10));
    assert_eq!(p, Point::new(3, 3));
    let q = Point::linterp(2, 3, Point::new(10, 10), Point::new(0, 0));
    assert_eq!(q, Point::new(3, 3));
}

#[test]
fn linterp_ends() {
    let a = Point::new(7, 9);
    let b = Point::new(100, 4);
    assert_eq!(Point::linterp(0, 5, a, b), a);
    assert_eq!(Point::linterp(5, 5, a, b), b);
}

#[test]
fn builder_records_operations_in_order() {
    let path = PathBuilder::new(px(1, 1))
        .line_to(px(2, 2))
        .quad_bez_to(px(3, 3), px(4, 4))
        .cub_bez_to(px(5, 5), px(6, 6), px(7, 7))
        .move_to(px(8, 8))
        .finish();
    let mut it = path.iter();
    assert_eq!(it.next(), Some(PathOp::Move(px(1, 1))));
    assert_eq!(it.next(), Some(PathOp::Line(px(2, 2))));
    assert_eq!(it.next(), Some(PathOp::QuadBez(px(3, 3), px(4, 4))));
    assert_eq!(it.next(), Some(PathOp::CubBez(px(5, 5), px(6, 6), px(7, 7))));
    assert_eq!(it.next(), Some(PathOp::Move(px(8, 8))));
    assert_eq!(it.next(), None);
    assert_eq!(it.next(), None);
}

#[test]
fn path_can_be_iterated_twice() {
    let path = PathBuilder::new(px(1, 1)).line_to(px(2, 2)).finish();
    let mut a = path.iter();
    let mut b = path.iter();
    assert_eq!(a.next(), b.next());
    assert_eq!(a.next(), b.next());
    assert_eq!(a.next(), None);
}

#[test]
fn linterp_negative_rounds_down() {
    let p = Point::linterp(1, 2, Point::new(-10, -3), Point::new(0, 0));
    assert_eq!(p, Point::new(-5, -2));
}
