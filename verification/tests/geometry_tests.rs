use rust_quadtree::binary32::Binary32;
use rust_quadtree::geometry::{Point, Rectangle, Size};

fn num(v: f32) -> Binary32 {
    Binary32::from_bits(v.to_bits())
}

fn point(x: f32, y: f32) -> Point {
    Point { x: num(x), y: num(y) }
}

fn rect(x: f32, y: f32, width: f32, height: f32) -> Rectangle {
    Rectangle {
        top_left: Point { x: num(x), y: num(y) },
        size: Size { width: num(width), height: num(height) },
    }
}

fn above(v: f32) -> f32 {
    f32::from_bits(v.to_bits() + 1)
}

fn below(v: f32) -> f32 {
    f32::from_bits(v.to_bits() - 1)
}

#[test]
fn contains_includes_both_ends() {
    let r = rect(0.25, 0.5, 0.5, 0.25);
    assert!(r.contains(&point(0.25, 0.5)));
    assert!(r.contains(&point(0.75, 0.5)));
    assert!(r.contains(&point(0.25, 0.75)));
    assert!(r.contains(&point(0.75, 0.75)));
    assert!(r.contains(&point(0.5, 0.625)));
    assert!(!r.contains(&point(below(0.25), 0.5)));
    assert!(!r.contains(&point(above(0.75), 0.5)));
    assert!(!r.contains(&point(0.25, below(0.5))));
    assert!(!r.contains(&point(0.75, above(0.75))));
}

#[test]
fn contains_uses_the_rounded_far_edge() {
    // 16777216 + 3 has no number of its own: the far edge is 16777220.
    let r = rect(16777216.0, 16777216.0, 3.0, 3.0);
    let far = 16777216.0f32 + 3.0f32;
    assert_eq!(far, 16777220.0);
    assert!(r.contains(&point(16777218.0, 16777218.0)));
    assert!(r.contains(&point(far, far)));
    assert!(!r.contains(&point(above(far), far)));
    let r = rect(0.2, 0.2, 0.1, 0.1);
    let far = 0.2f32 + 0.1f32;
    assert!(r.contains(&point(far, far)));
    assert!(!r.contains(&point(above(far), far)));
    assert!(!r.contains(&point(far, above(far))));
}

#[test]
fn contains_is_false_for_nan() {
    let r = rect(0.0, 0.0, 1.0, 1.0);
    assert!(!r.contains(&point(f32::NAN, 0.5)));
    assert!(!r.contains(&point(0.5, f32::NAN)));
    assert!(!rect(f32::NAN, 0.0, 1.0, 1.0).contains(&point(0.5, 0.5)));
    assert!(!rect(0.0, 0.0, 1.0, f32::NAN).contains(&point(0.5, 0.5)));
}

#[test]
fn contains_tolerates_odd_rectangles() {
    // A negative extent leaves no point inside; an empty one leaves its corner.
    assert!(!rect(1.0, 1.0, -1.0, -1.0).contains(&point(0.5, 0.5)));
    assert!(rect(1.0, 1.0, 0.0, 0.0).contains(&point(1.0, 1.0)));
    assert!(rect(-0.0, 0.0, 0.0, 0.0).contains(&point(0.0, -0.0)));
    assert!(rect(0.0, 0.0, f32::INFINITY, f32::INFINITY).contains(&point(3.0e38, 1.0)));
}

#[test]
fn intersects_needs_more_than_an_edge() {
    let a = rect(0.0, 0.0, 1.0, 1.0);
    assert!(a.intersects(&rect(0.5, 0.5, 1.0, 1.0)));
    assert!(a.intersects(&rect(0.25, 0.25, 0.5, 0.5)));
    assert!(a.intersects(&a));
    assert!(!a.intersects(&rect(1.0, 0.0, 1.0, 1.0)));
    assert!(!a.intersects(&rect(0.0, 1.0, 1.0, 1.0)));
    assert!(!a.intersects(&rect(-1.0, 0.0, 1.0, 1.0)));
    assert!(!a.intersects(&rect(1.0, 1.0, 1.0, 1.0)));
    assert!(a.intersects(&rect(below(1.0), 0.0, 1.0, 1.0)));
    assert!(!a.intersects(&rect(5.0, 5.0, 1.0, 1.0)));
    assert!(!a.intersects(&rect(f32::NAN, 0.0, 1.0, 1.0)));
    // A rectangle without area intersects nothing that it only touches, and
    // not itself.
    assert!(!rect(0.5, 0.5, 0.0, 0.0).intersects(&rect(0.5, 0.5, 0.0, 0.0)));
    assert!(a.intersects(&rect(0.5, 0.5, 0.0, 0.0)));
}

#[test]
fn intersects_is_symmetric() {
    let rs = [
        rect(0.0, 0.0, 1.0, 1.0),
        rect(0.5, 0.5, 1.0, 1.0),
        rect(1.0, 0.0, 1.0, 1.0),
        rect(-3.0, -3.0, 10.0, 0.5),
        rect(0.1, 0.1, 0.1, 0.1),
        rect(0.2, 0.2, 0.1, 0.1),
    ];
    for a in rs.iter() {
        for b in rs.iter() {
            assert_eq!(a.intersects(b), b.intersects(a));
        }
    }
}

#[test]
fn quarters_halve_both_extents() {
    let (nw, ne, sw, se) = rect(0.0, 0.0, 1.0, 1.0).quarters();
    let want = [(0.0f32, 0.0f32), (0.5, 0.0), (0.0, 0.5), (0.5, 0.5)];
    for (q, (x, y)) in [nw, ne, sw, se].iter().zip(want.iter()) {
        assert_eq!(q.top_left.x.to_bits(), x.to_bits());
        assert_eq!(q.top_left.y.to_bits(), y.to_bits());
        assert_eq!(q.size.width.to_bits(), 0.5f32.to_bits());
        assert_eq!(q.size.height.to_bits(), 0.5f32.to_bits());
    }
    let (_, _, _, se) = rect(-3.0, 2.0, 5.0, 0.1).quarters();
    assert_eq!(se.top_left.x.to_bits(), (-3.0f32 + 5.0f32 / 2.0).to_bits());
    assert_eq!(se.top_left.y.to_bits(), (2.0f32 + 0.1f32 / 2.0).to_bits());
    assert_eq!(se.size.width.to_bits(), 2.5f32.to_bits());
    assert_eq!(se.size.height.to_bits(), (0.1f32 / 2.0).to_bits());
}
