use svgit::points::{lexmin_index, lexmin_index_i, PointSet};

#[test]
fn smallest_point_by_x_then_y() {
    assert_eq!(lexmin_index_i(&[(3, 1), (1, 5), (1, 2), (1, 2)]), 2);
    assert_eq!(lexmin_index_i(&[(0, 0)]), 0);
    assert_eq!(lexmin_index_i(&[]), 0);
    assert_eq!(lexmin_index(&[(-2, 7), (-2, -7), (5, 0)]), 1);
}

#[test]
fn smallest_point_does_not_depend_on_the_start() {
    let a = [(4, 4), (1, 3), (1, 9), (7, 0)];
    let b = [(7, 0), (1, 9), (1, 3), (4, 4)];
    assert_eq!(a[lexmin_index_i(&a)], b[lexmin_index_i(&b)]);
}

#[test]
fn sets_tell_points_apart() {
    let mut s = PointSet::new();
    assert!(!s.contains((1, -1)));
    assert!(s.insert((1, -1)));
    assert!(s.contains((1, -1)));
    assert!(!s.contains((-1, 1)));
    assert!(!s.contains((0, -1)));
    assert!(s.insert((i32::MIN, i32::MAX)));
    assert!(s.contains((i32::MIN, i32::MAX)));
}
