use tileink::bounds::Bounds;

#[test]
fn empty_rectangles_cover_nothing() {
    assert!(Bounds::new(0, 0, 0, 0).is_empty());
    assert!(Bounds::new(4, 0, 3, 10).is_empty());
    assert!(Bounds::new(0, 5, 10, 5).is_empty());
    assert!(!Bounds::new(-3, -3, -2, -2).is_empty());
}

#[test]
fn width_and_height_saturate_at_zero() {
    let b = Bounds::new(-5, 2, 7, 10);
    assert_eq!(b.width(), 12);
    assert_eq!(b.height(), 8);
    assert_eq!(Bounds::new(9, 9, 1, 1).width(), 0);
    assert_eq!(Bounds::new(i32::MIN, 0, i32::MAX, 1).width(), u32::MAX);
}

#[test]
fn intersection_keeps_the_common_pixels() {
    let a = Bounds::new(0, 0, 10, 10);
    let b = Bounds::new(5, -5, 20, 7);
    assert_eq!(a.intersect(b), Bounds::new(5, 0, 10, 7));
    assert_eq!(a.intersect(b), b.intersect(a));
    assert!(a.intersect(Bounds::new(10, 0, 12, 4)).is_empty());
}

#[test]
fn union_ignores_empty_operands() {
    let a = Bounds::new(0, 0, 2, 2);
    let b = Bounds::new(5, 6, 7, 8);
    assert_eq!(a.union(b), Bounds::new(0, 0, 7, 8));
    assert_eq!(a.union(Bounds::new(100, 100, 100, 100)), a);
    assert_eq!(Bounds::new(100, 100, 50, 50).union(b), b);
}

#[test]
fn canvas_bounds_start_at_the_origin() {
    assert_eq!(Bounds::canvas(64, 32), Bounds::new(0, 0, 64, 32));
    assert_eq!(Bounds::canvas(u32::MAX, 1), Bounds::new(0, 0, i32::MAX, 1));
}
