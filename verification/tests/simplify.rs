use svgit::points::PointSet;
use svgit::simplify::{
    collect_run, simplify_closed, simplify_closed_f, simplify_closed_f_keep, simplify_closed_keep,
    split_rdp, Pt,
};

type V = (f64, f64);

fn key(v: f64) -> u64 {
    if v > 0.0 {
        v.to_bits()
    } else {
        0
    }
}

fn order(v: f64) -> i64 {
    let bits = v.abs().to_bits() as i64;
    if v < 0.0 {
        -bits
    } else {
        bits
    }
}

fn perp_dist2_f(p: V, a: V, b: V) -> u64 {
    let (dx, dy) = (b.0 - a.0, b.1 - a.1);
    let len2 = dx * dx + dy * dy;
    if len2 == 0.0 {
        let (ex, ey) = (p.0 - a.0, p.1 - a.1);
        return key(ex * ex + ey * ey);
    }
    let cross = (p.0 - a.0) * dy - (p.1 - a.1) * dx;
    key(cross * cross / len2)
}

fn f(p: Pt) -> V {
    (p.0 as f64, p.1 as f64)
}

fn perp_dist2(p: Pt, a: Pt, b: Pt) -> u64 {
    perp_dist2_f(f(p), f(a), f(b))
}

fn eps2(epsilon: f64) -> Option<u64> {
    if epsilon > 0.0 {
        Some(key(epsilon * epsilon))
    } else {
        None
    }
}

fn closed(pts: &[Pt], epsilon: f64) -> Vec<Pt> {
    simplify_closed(pts, eps2(epsilon), &perp_dist2)
}

fn float_keep(pts: &[V], epsilon: f64, keep: &[bool]) -> Vec<V> {
    let keys: Vec<(i64, i64)> = pts.iter().map(|p| (order(p.0), order(p.1))).collect();
    simplify_closed_f_keep(pts, eps2(epsilon), keep, &keys, &perp_dist2_f)
}

#[test]
fn collapses_a_staircase_into_a_diagonal() {
    // A staircase from (0,0) to (4,4) closed back along the top edge.
    let loop_pts = vec![
        (0, 0), (1, 0), (1, 1), (2, 1), (2, 2), (3, 2), (3, 3), (4, 3), (4, 4), (0, 4),
    ];
    let s = closed(&loop_pts, 1.5);
    // The stair should collapse to roughly the corners of a triangle.
    assert!(s.len() < loop_pts.len());
    assert!(s.len() <= 4, "expected a near-triangle, got {}", s.len());
}

#[test]
fn noop_on_small_or_zero_epsilon() {
    let loop_pts = vec![(0, 0), (4, 0), (4, 4), (0, 4)];
    assert_eq!(closed(&loop_pts, 0.0), loop_pts);
    assert_eq!(closed(&loop_pts, -1.0), loop_pts);
}

#[test]
fn keeps_real_corners() {
    // A clean square should keep its 4 corners.
    let sq = vec![(0, 0), (10, 0), (10, 10), (0, 10)];
    let s = closed(&sq, 1.0);
    assert_eq!(s.len(), 4);
}

#[test]
fn float_keep_single_anchor_does_not_collapse_loop() {
    // A loop with no forced points falls back to a single (lexmin) anchor.
    // The circular run must wrap the whole loop, not degenerate to [anchor].
    let sq: Vec<(f64, f64)> = vec![
        (0.0, 0.0), (5.0, 0.0), (10.0, 0.0), (10.0, 5.0),
        (10.0, 10.0), (5.0, 10.0), (0.0, 10.0), (0.0, 5.0),
    ];
    let s = float_keep(&sq, 1.0, &[]);
    // Should collapse the collinear midpoints to the 4 corners — not vanish.
    assert!(s.len() >= 4, "loop collapsed to {} points", s.len());
    assert!(s.len() <= 5);
}

#[test]
fn float_keep_pins_forced_points() {
    let sq: Vec<(f64, f64)> =
        vec![(0.0, 0.0), (5.0, 0.0), (10.0, 0.0), (10.0, 10.0), (0.0, 10.0)];
    // Force-keep the collinear midpoint (5,0) at index 1.
    let keep = [false, true, false, false, false];
    let s = float_keep(&sq, 1.0, &keep);
    assert!(s.contains(&(5.0, 0.0)), "forced midpoint must survive");
}

#[test]
fn first_vertex_is_an_anchor() {
    // (5,0) lies on a straight edge and stays only because it is the first.
    let pts = vec![(5, 0), (10, 0), (10, 10), (5, 10), (0, 10), (0, 0)];
    assert_eq!(closed(&pts, 1.0), vec![(5, 0), (10, 0), (10, 10), (0, 10), (0, 0)]);
}

#[test]
fn kept_set_splits_the_loop() {
    let pts = vec![(0, 0), (5, 0), (10, 0), (10, 10), (0, 10)];
    let mut keep = PointSet::new();
    assert!(keep.insert((5, 0)));
    assert!(!keep.insert((5, 0)));
    let s = simplify_closed_keep(&pts, eps2(1.0), &keep, &perp_dist2);
    assert!(s.contains(&(5, 0)));
    // Without it, the loop is anchored at its smallest point and the vertex goes.
    let s = simplify_closed_keep(&pts, eps2(1.0), &PointSet::new(), &perp_dist2);
    assert_eq!(s, vec![(0, 0), (10, 0), (10, 10), (0, 10)]);
}

#[test]
fn keep_without_a_tolerance_changes_nothing() {
    let pts = vec![(0, 0), (5, 0), (10, 0), (10, 10), (0, 10)];
    let mut keep = PointSet::new();
    keep.insert((5, 0));
    assert_eq!(simplify_closed_keep(&pts, None, &keep, &perp_dist2), pts);
    let fpts: Vec<V> = pts.iter().map(|p| f(*p)).collect();
    assert_eq!(float_keep(&fpts, 0.0, &[false, true]), fpts);
}

#[test]
fn the_same_stretch_is_simplified_alike_from_both_sides() {
    // Two loops share the stretch between the junctions (0,0) and (12,8), and trace
    // them in opposite directions.
    let stretch = vec![(0, 0), (2, 1), (3, 4), (7, 4), (9, 3), (11, 9), (12, 8)];
    let mut ours = stretch.clone();
    ours.extend([(12, 20), (0, 20)]);
    let mut theirs: Vec<Pt> = stretch.iter().rev().copied().collect();
    theirs.extend([(0, -9), (12, -9)]);
    let mut junctions = PointSet::new();
    junctions.insert((0, 0));
    junctions.insert((12, 8));
    let a = simplify_closed_keep(&ours, eps2(1.5), &junctions, &perp_dist2);
    let b = simplify_closed_keep(&theirs, eps2(1.5), &junctions, &perp_dist2);
    let on_stretch = |pts: &[Pt]| {
        let mut on: Vec<Pt> = pts.iter().copied().filter(|p| stretch.contains(p)).collect();
        on.sort();
        on
    };
    assert_eq!(on_stretch(&a), on_stretch(&b));
    assert!(on_stretch(&a).len() < stretch.len());
}

#[test]
fn equal_distances_do_not_make_the_direction_matter() {
    // Both inner vertices are equally far from the chord: the one in the smaller
    // place stays, from whichever side.
    let pts = vec![(0, 0), (1, 1), (2, 1), (3, 0)];
    let back: Vec<Pt> = pts.iter().rev().copied().collect();
    let mut keep = PointSet::new();
    keep.insert((0, 0));
    keep.insert((3, 0));
    let a = simplify_closed_keep(&pts, eps2(0.8), &keep, &perp_dist2);
    let b = simplify_closed_keep(&back, eps2(0.8), &keep, &perp_dist2);
    assert_eq!(a, vec![(0, 0), (1, 1), (3, 0)]);
    assert_eq!(b, vec![(3, 0), (1, 1), (0, 0)]);
    // The same off the lattice, and for a loop without forced vertices.
    let fpts: Vec<V> = pts.iter().map(|p| f(*p)).collect();
    let fback: Vec<V> = fpts.iter().rev().copied().collect();
    let flags = [true, false, false, true];
    assert_eq!(float_keep(&fpts, 0.8, &flags), vec![(0.0, 0.0), (1.0, 1.0), (3.0, 0.0)]);
    assert_eq!(float_keep(&fback, 0.8, &flags), vec![(3.0, 0.0), (1.0, 1.0), (0.0, 0.0)]);
    let stairs = vec![(0, 0), (2, 0), (2, 2), (4, 2), (4, 4), (0, 4)];
    let down: Vec<Pt> = stairs.iter().rev().copied().collect();
    let mut there = simplify_closed_keep(&stairs, eps2(1.0), &PointSet::new(), &perp_dist2);
    let back = simplify_closed_keep(&down, eps2(1.0), &PointSet::new(), &perp_dist2);
    there.reverse();
    assert_eq!(there, back);
}

#[test]
fn ties_are_broken_as_asked() {
    let pts: [V; 4] = [(0.0, 0.0), (1.0, 2.0), (3.0, 2.0), (4.0, 0.0)];
    let dist = |i: usize, a: usize, b: usize| perp_dist2_f(pts[i], pts[a], pts[b]);
    let tol = Some(key(3.0));
    let kept = |before: &dyn Fn(usize, usize) -> bool| {
        split_rdp(4, &[0, 3], tol, &dist, &|i: usize, j: usize| before(i, j))
    };
    assert_eq!(kept(&|i, j| i < j), vec![true, true, false, true]);
    assert_eq!(kept(&|i, j| i > j), vec![true, false, true, true]);
    // Where nothing goes first, the one that is visited first stays.
    assert_eq!(kept(&|_, _| false), vec![true, true, false, true]);
}

#[test]
fn plain_loops_keep_the_first_of_equals() {
    // The corners (0,2) and (4,2) are equally far from the chord.
    let a = simplify_closed(&[(2, 0), (4, 2), (2, 4), (0, 2)], eps2(1.0), &perp_dist2);
    assert_eq!(a, vec![(2, 0), (4, 2), (2, 4), (0, 2)]);
    let pts = vec![(0, 0), (1, 1), (2, 1), (3, 0), (1, -9)];
    assert!(closed(&pts, 0.5).contains(&(1, 1)));
}

#[test]
fn larger_tolerance_leaves_a_part() {
    let pts = vec![(0, 0), (2, 1), (4, 0), (7, 3), (8, 9), (3, 8), (0, 5), (-1, 2)];
    let mut before = pts.clone();
    for e in [0.3, 0.8, 1.5, 3.0, 6.0] {
        let now = closed(&pts, e);
        let mut rest = before.iter();
        assert!(now.iter().all(|p| rest.any(|q| q == p)), "{now:?} of {before:?}");
        before = now;
    }
}

#[test]
fn second_pass_drops_nothing() {
    let pts = vec![(0, 0), (2, 1), (4, 0), (7, 3), (8, 9), (3, 8), (0, 5), (-1, 2)];
    let once = closed(&pts, 1.0);
    assert_eq!(closed(&once, 1.0), once);
}

#[test]
fn without_flags_the_anchor_is_the_smallest_point() {
    let pts: Vec<V> = vec![(5.0, 0.0), (10.0, 0.0), (10.0, 10.0), (0.0, 10.0), (-1.0, 3.0)];
    let keys: Vec<(i64, i64)> = pts.iter().map(|p| (order(p.0), order(p.1))).collect();
    let s = simplify_closed_f(&pts, eps2(0.5), &keys, &perp_dist2_f);
    assert!(s.contains(&(-1.0, 3.0)));
}

#[test]
fn runs_wrap_around() {
    assert_eq!(collect_run(5, 3, 1), vec![3, 4, 0, 1]);
    assert_eq!(collect_run(5, 1, 3), vec![1, 2, 3]);
    assert_eq!(collect_run(3, 2, 2), vec![2, 0, 1, 2]);
    assert_eq!(collect_run(1, 0, 0), vec![0, 0]);
}
