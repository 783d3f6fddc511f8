use borys::geometry::{on_seg, scal_mul, vec_mul, point_le_exec, sort_points};
use borys::helper::seg_intersect_without_ends;
use borys::{Point, Shift};

fn p(x: i32, y: i32) -> Point {
    Point { x, y }
}

#[test]
fn d2_is_squared_distance() {
    assert_eq!(p(1, 2).d2(&p(4, 6)), 25);
    assert_eq!(p(4, 6).d2(&p(1, 2)), 25);
    assert_eq!(p(-3, 5).d2(&p(-3, 5)), 0);
    assert_eq!(p(-100000, 0).d2(&p(100000, 0)), 40_000_000_000);
}

#[test]
fn ok_means_non_negative() {
    assert!(p(0, 0).ok());
    assert!(p(3, 7).ok());
    assert!(!p(-1, 7).ok());
    assert!(!p(1, -7).ok());
}

#[test]
fn shift_moves_point() {
    let q = p(3, 4).shift(&Shift { dx: -5, dy: 2 });
    assert_eq!(q, p(-2, 6));
    assert_eq!(p(3, 4).d2(&q), 25 + 4);
}

#[test]
fn vec_mul_orientation() {
    assert_eq!(vec_mul(&p(0, 0), &p(2, 0), &p(1, 1)), 1);
    assert_eq!(vec_mul(&p(0, 0), &p(2, 0), &p(1, -1)), -1);
    assert_eq!(vec_mul(&p(0, 0), &p(2, 0), &p(3, 0)), 0);
    assert_eq!(vec_mul(&p(2, 0), &p(0, 0), &p(1, 1)), -1);
}

#[test]
fn vec_mul_exact_on_large_coordinates() {
    let a = p(i32::MIN, i32::MIN);
    let b = p(i32::MAX, i32::MIN);
    let c = p(0, i32::MAX);
    assert_eq!(vec_mul(&a, &b, &c), 1);
    assert_eq!(vec_mul(&b, &a, &c), -1);
}

#[test]
fn scal_mul_sign() {
    assert_eq!(scal_mul(&p(0, 0), &p(2, 0), &p(3, 0)), 1);
    assert_eq!(scal_mul(&p(0, 0), &p(2, 0), &p(-1, 0)), -1);
    assert_eq!(scal_mul(&p(0, 0), &p(2, 0), &p(0, 5)), 0);
}

#[test]
fn on_seg_closed_segment() {
    assert!(on_seg(&p(0, 0), &p(2, 2), &p(1, 1)));
    assert!(on_seg(&p(0, 0), &p(2, 2), &p(0, 0)));
    assert!(on_seg(&p(0, 0), &p(2, 2), &p(2, 2)));
    assert!(!on_seg(&p(0, 0), &p(2, 2), &p(3, 3)));
    assert!(!on_seg(&p(0, 0), &p(2, 2), &p(-1, -1)));
    assert!(!on_seg(&p(0, 0), &p(2, 2), &p(1, 0)));
    // the segment taken the other way holds the same points
    assert!(on_seg(&p(2, 2), &p(0, 0), &p(1, 1)));
    assert!(!on_seg(&p(2, 2), &p(0, 0), &p(3, 3)));
}

#[test]
fn proper_crossing_only() {
    assert!(seg_intersect_without_ends(&p(0, 0), &p(2, 2), &p(0, 2), &p(2, 0)));
    // touching at an endpoint does not count
    assert!(!seg_intersect_without_ends(&p(0, 0), &p(1, 1), &p(1, 1), &p(2, 0)));
    // a T junction does not count
    assert!(!seg_intersect_without_ends(&p(0, 0), &p(2, 0), &p(1, 0), &p(1, 3)));
    // collinear overlap does not count
    assert!(!seg_intersect_without_ends(&p(0, 0), &p(3, 0), &p(1, 0), &p(4, 0)));
    // disjoint
    assert!(!seg_intersect_without_ends(&p(0, 0), &p(1, 0), &p(0, 1), &p(1, 1)));
}

#[test]
fn crossing_is_symmetric() {
    let (a, b, c, d) = (p(0, 0), p(4, 3), p(1, 3), p(3, -1));
    let r = seg_intersect_without_ends(&a, &b, &c, &d);
    assert!(r);
    assert_eq!(seg_intersect_without_ends(&c, &d, &a, &b), r);
    assert_eq!(seg_intersect_without_ends(&b, &a, &c, &d), r);
    assert_eq!(seg_intersect_without_ends(&a, &b, &d, &c), r);
}

#[test]
fn lexicographic_sort() {
    assert!(point_le_exec(&p(1, 5), &p(2, 0)));
    assert!(point_le_exec(&p(1, 0), &p(1, 0)));
    assert!(!point_le_exec(&p(1, 1), &p(1, 0)));
    let v = vec![p(3, 1), p(1, 2), p(1, 0), p(3, 1), p(0, 9)];
    let s = sort_points(&v);
    assert_eq!(s, vec![p(0, 9), p(1, 0), p(1, 2), p(3, 1), p(3, 1)]);
}
