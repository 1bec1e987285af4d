use svgit::points::PointSet;
use svgit::refine::{corners_with_junctions, evolve, thin, RefineConfig, Refiner, ITERS};
use svgit::simplify::Pt;

type V = (f64, f64);

fn key(v: f64) -> u64 {
    if v > 0.0 {
        v.to_bits()
    } else {
        0
    }
}

fn order(v: f64) -> i64 {
    let bits = v.abs().to_bits() as i64;
    if v < 0.0 {
        -bits
    } else {
        bits
    }
}

fn order32(v: f32) -> Option<i32> {
    let bits = v.abs().to_bits() as i32;
    if v.is_nan() {
        None
    } else if v < 0.0 {
        Some(-bits)
    } else {
        Some(bits)
    }
}

fn sample(r: &Refiner, w: usize, h: usize, x: f64, y: f64) -> f32 {
    if w == 0 || h == 0 {
        return 0.0;
    }
    let xc = x.clamp(0.0, (w - 1) as f64);
    let yc = y.clamp(0.0, (h - 1) as f64);
    let (x0, y0) = (xc.floor(), yc.floor());
    let (tx, ty) = ((xc - x0) as f32, (yc - y0) as f32);
    let (a, b, c, d) = r.sample(x0 as i64, y0 as i64).expect("the map is not empty");
    let (a, b, c, d) =
        (f32::from_bits(a), f32::from_bits(b), f32::from_bits(c), f32::from_bits(d));
    let top = a + (b - a) * tx;
    let bot = c + (d - c) * tx;
    top + (bot - top) * ty
}

/// The direction of the edge gradient; none where the map is flat.
fn direction(r: &Refiner, w: usize, h: usize, p: V) -> Option<V> {
    let at = |x: f64, y: f64| sample(r, w, h, x, y);
    let gx = (at(p.0 + 1.0, p.1) - at(p.0 - 1.0, p.1)) as f64 * 0.5;
    let gy = (at(p.0, p.1 + 1.0) - at(p.0, p.1 - 1.0)) as f64 * 0.5;
    let gl = (gx * gx + gy * gy).sqrt();
    if gl < 1e-4 {
        None
    } else {
        Some((gx / gl, gy / gl))
    }
}

fn ahead(p: V, d: V, steps: i64) -> V {
    let t = steps as f64 * 0.25;
    (p.0 + d.0 * t, p.1 + d.1 * t)
}

fn here(r: &Refiner, w: usize, h: usize, p: V) -> Option<i32> {
    direction(r, w, h, p).and_then(|_| order32(sample(r, w, h, p.0, p.1)))
}

fn strength(r: &Refiner, w: usize, h: usize, radius: f64, p: V, s: i64) -> Option<i32> {
    let d = direction(r, w, h, p)?;
    if (s as f64 * 0.25).abs() > radius {
        return None;
    }
    let q = ahead(p, d, s);
    order32(sample(r, w, h, q.0, q.1))
}

fn ridge_at(r: &Refiner, w: usize, h: usize, p: V, s: i64) -> V {
    match direction(r, w, h, p) {
        Some(d) if s != 0 => ahead(p, d, s),
        _ => p,
    }
}

fn snap(r: &Refiner, w: usize, h: usize, radius: f64, p: V) -> V {
    let steps = (radius * 4.0).round() as i32;
    let s = r.snap(here(r, w, h, p), steps, &|s: i64| strength(r, w, h, radius, p, s));
    ridge_at(r, w, h, p, s)
}

fn nudge(ridge: V, radius: f64, origin: V, prev: V, p: V, next: V) -> V {
    let smooth = ((prev.0 + next.0) * 0.5, (prev.1 + next.1) * 0.5);
    let t = (
        p.0 + 0.45 * (ridge.0 - p.0) + 0.30 * (smooth.0 - p.0),
        p.1 + 0.45 * (ridge.1 - p.1) + 0.30 * (smooth.1 - p.1),
    );
    let (dx, dy) = (t.0 - origin.0, t.1 - origin.1);
    let d = (dx * dx + dy * dy).sqrt();
    if d > radius {
        (origin.0 + dx * (radius / d), origin.1 + dy * (radius / d))
    } else {
        t
    }
}

fn perp_dist2(p: V, a: V, b: V) -> u64 {
    let (dx, dy) = (b.0 - a.0, b.1 - a.1);
    let len2 = dx * dx + dy * dy;
    if len2 == 0.0 {
        return key((p.0 - a.0).powi(2) + (p.1 - a.1).powi(2));
    }
    let cross = (p.0 - a.0) * dy - (p.1 - a.1) * dx;
    key(cross * cross / len2)
}

fn is_sharp(a: V, p: V, b: V) -> bool {
    let unit = |v: V| {
        let n = (v.0 * v.0 + v.1 * v.1).sqrt();
        (v.0 / n, v.1 / n)
    };
    let (u, v) = (unit((p.0 - a.0, p.1 - a.1)), unit((b.0 - p.0, b.1 - p.1)));
    u.0 * v.0 + u.1 * v.1 < 80f64.to_radians().cos()
}

fn lattice(p: V) -> Option<Pt> {
    let whole = p.0.fract() == 0.0 && p.1.fract() == 0.0;
    whole.then_some((p.0 as i32, p.1 as i32))
}

fn near(a: V, b: V) -> bool {
    (a.0 - b.0).abs() < 1e-3 && (a.1 - b.1).abs() < 1e-3
}

fn keys(p: V) -> (i64, i64) {
    (order(p.0), order(p.1))
}

fn refine_loop(
    m: &[u32],
    w: usize,
    h: usize,
    loop_pts: &[Pt],
    eps: f64,
    junctions: &PointSet,
) -> (Vec<V>, Vec<usize>) {
    let r = Refiner::new(m, w, h, RefineConfig::default());
    let lift = |q: Pt| (q.0 as f64, q.1 as f64);
    let eps2 = if eps > 0.0 { Some(key(eps * eps)) } else { None };
    r.refine_loop(
        loop_pts,
        eps2,
        junctions,
        &lift,
        &|p: V| here(&r, w, h, p),
        &|p: V, s: i64| strength(&r, w, h, 2.0, p, s),
        8,
        &|q: Pt, prev: V, p: V, next: V, s: i64| {
            nudge(ridge_at(&r, w, h, p, s), 2.0, lift(q), prev, p, next)
        },
        &keys,
        &perp_dist2,
        &near,
        &lattice,
        &is_sharp,
    )
}

// A 7-wide edge map with a vertical ridge at column 4.
fn ridge() -> (Vec<u32>, usize, usize) {
    let (w, h) = (7usize, 7usize);
    let mut m = vec![0f32; w * h];
    for y in 0..h {
        m[y * w + 4] = 1.0;
        m[y * w + 3] = 0.4;
        m[y * w + 5] = 0.4;
    }
    (m.iter().map(|v| v.to_bits()).collect(), w, h)
}

#[test]
fn snaps_vertex_onto_ridge() {
    let (m, w, h) = ridge();
    let r = Refiner::new(&m, w, h, RefineConfig::default());
    // A vertex one pixel off the ridge should move toward column 4.
    let p = snap(&r, w, h, 2.0, (3.0, 3.0));
    assert!((p.0 - 4.0).abs() < 0.5, "expected snap toward x=4, got {p:?}");
    assert!((p.1 - 3.0).abs() < 1e-6, "y should be unchanged on a vertical ridge");
}

#[test]
fn leaves_vertex_in_flat_region() {
    let m = vec![0.0f32.to_bits(); 49]; // no edges
    let r = Refiner::new(&m, 7, 7, RefineConfig::default());
    let p = snap(&r, 7, 7, 2.0, (3.0, 3.0));
    assert_eq!(p, (3.0, 3.0));
}

#[test]
fn refine_loop_keeps_point_count_stable_and_sorted_corners() {
    let (m, w, h) = ridge();
    let loop_pts = vec![(1, 1), (5, 1), (5, 5), (1, 5)];
    let (pts, corners) = refine_loop(&m, w, h, &loop_pts, 0.0, &PointSet::new());
    assert!(pts.len() <= 4 && !pts.is_empty());
    assert!(corners.windows(2).all(|w| w[0] < w[1]), "corners ascending");
    assert!(corners.iter().all(|&c| c < pts.len()));
}

#[test]
fn default_refinement() {
    let cfg = RefineConfig::default();
    assert_eq!(f64::from_bits(cfg.snap_radius), 2.0);
    assert_eq!(f32::from_bits(cfg.edge_threshold as u32), 0.25);
    assert_eq!(f64::from_bits(cfg.corner_threshold), 80.0);
    assert_eq!(ITERS, 5);
}

#[test]
fn strongest_step_is_taken() {
    let r = Refiner::new(&[], 0, 0, RefineConfig::default());
    let of = |v: f32| order32(v);
    // The first of equals, where it is stronger than the vertex itself.
    let s = r.snap(of(0.1), 3, &|s: i64| of(if s == -2 || s == 1 { 0.9 } else { 0.2 }));
    assert_eq!(s, -2);
    // Nothing is stronger.
    assert_eq!(r.snap(of(0.9), 3, &|_: i64| of(0.9)), 0);
    // Too weak, and just strong enough.
    assert_eq!(r.snap(of(0.0), 3, &|s: i64| of(if s == 3 { 0.249 } else { 0.0 })), 0);
    assert_eq!(r.snap(of(0.0), 3, &|s: i64| of(if s == 3 { 0.25 } else { 0.0 })), 3);
    // Out of reach, or no number.
    assert_eq!(r.snap(of(0.0), 3, &|_: i64| None), 0);
    assert_eq!(r.snap(None, 3, &|_: i64| of(1.0)), 0);
    assert_eq!(r.snap(of(0.0), -1, &|_: i64| of(1.0)), 0);
}

#[test]
fn samples_are_clamped_at_the_borders() {
    let m = [1u32, 2, 3, 4, 5, 6];
    let r = Refiner::new(&m, 3, 2, RefineConfig::default());
    assert_eq!(r.sample(0, 0), Some((1, 2, 4, 5)));
    assert_eq!(r.sample(2, 1), Some((6, 6, 6, 6)));
    assert_eq!(r.sample(-5, 0), Some((1, 1, 4, 4)));
    assert_eq!(r.sample(1, 9), Some((5, 6, 5, 6)));
    assert_eq!(Refiner::new(&[], 0, 2, RefineConfig::default()).sample(0, 0), None);
}

#[test]
fn pinned_vertices_never_move() {
    let origin = [(0, 0), (1, 0), (2, 0), (3, 0)];
    let pinned = [false, true, false, true];
    let out = evolve(&origin, vec![0i64, 10, 20, 30], &pinned, &|_: Pt, a: i64, p: i64, b: i64| {
        a + b - p
    });
    assert_eq!((out[1], out[3]), (10, 30));
    // Every round works on the positions of the one before: 0 -> 40 - 0 -> 0 ...
    assert_eq!((out[0], out[2]), (40, 20));
}

#[test]
fn evolution_does_not_depend_on_the_direction() {
    let origin = [(0, 0), (1, 0), (2, 0), (3, 0), (4, 0)];
    let start = vec![0i64, 7, -3, 11, 4];
    let step = |q: Pt, a: i64, p: i64, b: i64| (a + b) / 2 + p - q.0 as i64;
    let there = evolve(&origin, start.clone(), &[false; 5], &step);
    let mut o = origin;
    o.reverse();
    let mut s = start;
    s.reverse();
    let mut back = evolve(&o, s, &[false; 5], &step);
    back.reverse();
    assert_eq!(there, back);
}

#[test]
fn thinning_keeps_lattice_points() {
    let near = |a: i32, b: i32| (a - b).abs() < 2;
    // Multiples of 100 are on the lattice.
    let lattice = |p: i32| if p % 100 == 0 { Some((p, 0)) } else { None };
    assert_eq!(thin(&[10, 11, 12, 13, 50, 9], &near, &lattice), vec![10, 12, 50]);
    assert_eq!(thin(&[100, 101, 100, 99], &near, &lattice), vec![100, 100]);
    assert_eq!(thin(&[99, 100], &near, &lattice), vec![99, 100]);
    assert_eq!(thin(&[1, 1], &near, &lattice), vec![1]);
    assert_eq!(thin(&[], &near, &lattice), Vec::<i32>::new());
}

#[test]
fn junctions_are_corners() {
    let pts: Vec<V> = vec![(0.0, 0.0), (5.0, 0.0), (10.0, 0.0), (10.0, 10.0), (0.0, 10.0)];
    let mut junctions = PointSet::new();
    junctions.insert((5, 0));
    let corners = corners_with_junctions(&pts, &junctions, &is_sharp, &lattice, &keys);
    assert_eq!(corners, vec![0, 1, 2, 3, 4]);
    let corners = corners_with_junctions(&pts, &PointSet::new(), &is_sharp, &lattice, &keys);
    assert_eq!(corners, vec![0, 2, 3, 4]);
}

#[test]
fn smooth_loops_break_at_their_smallest_point() {
    let pts: Vec<V> = vec![(2.0, 0.0), (1.5, 1.5), (0.5, 1.0), (0.5, -0.5)];
    let smooth = |_: V, _: V, _: V| false;
    assert_eq!(corners_with_junctions(&pts, &PointSet::new(), &smooth, &lattice, &keys), vec![3]);
}

#[test]
fn junctions_survive_refinement() {
    let (m, w, h) = ridge();
    let loop_pts: Vec<Pt> = vec![
        (1, 1), (2, 1), (3, 1), (4, 1), (5, 1), (5, 2), (5, 3), (5, 4), (5, 5), (4, 5), (3, 5),
        (2, 5), (1, 5), (1, 4), (1, 3), (1, 2),
    ];
    let mut junctions = PointSet::new();
    junctions.insert((3, 1));
    junctions.insert((3, 5));
    let (pts, corners) = refine_loop(&m, w, h, &loop_pts, 1.0, &junctions);
    for q in [(3.0, 1.0), (3.0, 5.0)] {
        let i = pts.iter().position(|p| *p == q).expect("a junction stays where it is");
        assert!(corners.contains(&i), "a junction is a corner");
    }
    assert!(pts.len() < loop_pts.len());
    // A map of what is no number moves nothing.
    let blind = vec![f32::NAN.to_bits(); w * h];
    let (pts, _) = refine_loop(&blind, w, h, &[(1, 1), (5, 1), (3, 5)], 0.0, &junctions);
    assert!(!pts.is_empty());
}

#[test]
fn vertices_are_drawn_to_the_step_that_snap_picks() {
    // A strength that is the same everywhere along the gradient but three steps ahead.
    let pull = |threshold: f32, peak: f32| {
        let cfg = RefineConfig { edge_threshold: order32(threshold).unwrap(), ..Default::default() };
        let r = Refiner::new(&[], 0, 0, cfg);
        let (pts, _) = r.refine_loop(
            &[(0, 0), (10, 0), (10, 10), (0, 10)],
            None,
            &PointSet::new(),
            &|q: Pt| (q.0 as i64 * 100, q.1 as i64 * 100),
            &|_: (i64, i64)| order32(0.1),
            &|_: (i64, i64), s: i64| order32(if s == 3 { peak } else { 0.1 }),
            4,
            &|_: Pt, _: (i64, i64), p: (i64, i64), _: (i64, i64), s: i64| (p.0 + s, p.1),
            &|p: (i64, i64)| p,
            &|_: (i64, i64), _: (i64, i64), _: (i64, i64)| 0,
            &|_: (i64, i64), _: (i64, i64)| false,
            &|_: (i64, i64)| None,
            &|_: (i64, i64), _: (i64, i64), _: (i64, i64)| true,
        );
        pts
    };
    // Three steps in each of the rounds, where the peak is strong enough.
    let far = 3 * ITERS as i64;
    assert_eq!(pull(0.5, 0.6), vec![(far, 0), (1000 + far, 0), (1000 + far, 1000), (far, 1000)]);
    assert_eq!(pull(0.7, 0.6), vec![(0, 0), (1000, 0), (1000, 1000), (0, 1000)]);
}

#[test]
fn points_stay_close_to_the_contour() {
    let (m, w, h) = ridge();
    let loop_pts: Vec<Pt> = vec![(0, 0), (2, 0), (6, 0), (6, 3), (6, 6), (3, 6), (0, 6), (0, 3)];
    let (pts, _) = refine_loop(&m, w, h, &loop_pts, 0.0, &PointSet::new());
    assert!(pts.iter().any(|p| lattice(*p).is_none()), "something moves");
    for p in &pts {
        let reach = |q: &Pt| (p.0 - q.0 as f64).hypot(p.1 - q.1 as f64) <= 2.0 + 1e-9;
        assert!(loop_pts.iter().any(reach), "{p:?} has left the contour");
    }
}
