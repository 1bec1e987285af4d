use svgit::curvefit::{
    compute_max_error, detect_corners, drop_zero_edges, fit_loop, fit_loop_pts, fit_span, Fit,
};
use svgit::simplify::Pt;
use svgit::svg::{Ptf, Seg, Subpath};

type V = (f64, f64);
type State = (Vec<f64>, [V; 4]);

fn add(a: V, b: V) -> V {
    (a.0 + b.0, a.1 + b.1)
}

fn sub(a: V, b: V) -> V {
    (a.0 - b.0, a.1 - b.1)
}

fn scale(a: V, s: f64) -> V {
    (a.0 * s, a.1 * s)
}

fn dot(a: V, b: V) -> f64 {
    a.0 * b.0 + a.1 * b.1
}

fn dist(a: V, b: V) -> f64 {
    sub(a, b).0.hypot(sub(a, b).1)
}

fn normalize(a: V) -> V {
    let n = (a.0 * a.0 + a.1 * a.1).sqrt();
    if n == 0.0 {
        (0.0, 0.0)
    } else {
        (a.0 / n, a.1 / n)
    }
}

fn key(v: f64) -> u64 {
    if v > 0.0 {
        v.to_bits()
    } else {
        0
    }
}

fn place(p: V) -> Ptf {
    ((p.0 * 100.0).round() as i128, (p.1 * 100.0).round() as i128)
}

fn back(p: Ptf) -> V {
    (p.0 as f64 / 100.0, p.1 as f64 / 100.0)
}

fn f(p: Pt) -> V {
    (p.0 as f64, p.1 as f64)
}

fn bezier(ctrl: &[V], t: f64) -> V {
    let n = ctrl.len();
    let mut p = [(0.0, 0.0); 4];
    p[..n].copy_from_slice(ctrl);
    for k in 1..n {
        for i in 0..(n - k) {
            p[i] = add(scale(p[i], 1.0 - t), scale(p[i + 1], t));
        }
    }
    p[0]
}

fn basis(u: f64) -> [f64; 4] {
    let t = 1.0 - u;
    [t * t * t, 3.0 * u * t * t, 3.0 * u * u * t, u * u * u]
}

fn generate_bezier(d: &[V], u: &[f64], t1: V, t2: V) -> [V; 4] {
    let (p0, p3) = (d[0], d[d.len() - 1]);
    let mut c = [[0.0f64; 2]; 2];
    let mut x = [0.0f64; 2];
    for i in 0..d.len() {
        let b = basis(u[i]);
        let (a0, a1) = (scale(t1, b[1]), scale(t2, b[2]));
        c[0][0] += dot(a0, a0);
        c[0][1] += dot(a0, a1);
        c[1][1] += dot(a1, a1);
        let tmp = sub(d[i], add(scale(p0, b[0] + b[1]), scale(p3, b[2] + b[3])));
        x[0] += dot(a0, tmp);
        x[1] += dot(a1, tmp);
    }
    let det = c[0][0] * c[1][1] - c[0][1] * c[0][1];
    let (l, r) = if det.abs() < 1e-12 {
        (0.0, 0.0)
    } else {
        ((x[0] * c[1][1] - x[1] * c[0][1]) / det, (c[0][0] * x[1] - c[0][1] * x[0]) / det)
    };
    let len = dist(p0, p3);
    let sound = |a: f64| a.is_finite() && a >= 1e-6 * len && a <= 4.0 * len;
    let (l, r) = if sound(l) && sound(r) { (l, r) } else { (len / 3.0, len / 3.0) };
    [p0, add(p0, scale(t1, l)), add(p3, scale(t2, r)), p3]
}

fn newton(bez: &[V; 4], p: V, u: f64) -> f64 {
    let q1 = [
        scale(sub(bez[1], bez[0]), 3.0),
        scale(sub(bez[2], bez[1]), 3.0),
        scale(sub(bez[3], bez[2]), 3.0),
    ];
    let q2 = [scale(sub(q1[1], q1[0]), 2.0), scale(sub(q1[2], q1[1]), 2.0)];
    let (qu, q1u, q2u) = (bezier(bez, u), bezier(&q1, u), bezier(&q2, u));
    let den = dot(q1u, q1u) + dot(sub(qu, p), q2u);
    if den.abs() < 1e-12 {
        u
    } else {
        (u - dot(sub(qu, p), q1u) / den).clamp(0.0, 1.0)
    }
}

fn fit_with(span: &[V], lo: usize, hi: usize, u: Vec<f64>) -> Fit<State> {
    let d = &span[lo..=hi];
    let t1 = if lo == 0 {
        normalize(sub(span[1], span[0]))
    } else {
        scale(normalize(sub(span[lo - 1], span[lo + 1])), -1.0)
    };
    let t2 = if hi + 1 == span.len() {
        normalize(sub(span[hi - 1], span[hi]))
    } else {
        normalize(sub(span[hi - 1], span[hi + 1]))
    };
    let bez = generate_bezier(d, &u, t1, t2);
    let errors: Vec<Option<u64>> =
        (0..d.len()).map(|i| Some(key(dist(bezier(&bez, u[i]), d[i])))).collect();
    let (err, split) = compute_max_error(&errors);
    Fit { err, split, c1: place(bez[1]), c2: place(bez[2]), state: (u, bez) }
}

fn start(span: &[V], lo: usize, hi: usize) -> Fit<State> {
    let mut u = vec![0.0];
    for i in lo..hi {
        u.push(u[i - lo] + dist(span[i], span[i + 1]));
    }
    let total = u[hi - lo];
    if total > 0.0 {
        for x in u.iter_mut() {
            *x /= total;
        }
    }
    fit_with(span, lo, hi, u)
}

fn again(span: &[V], lo: usize, hi: usize, fit: &Fit<State>) -> Fit<State> {
    let (u, bez) = &fit.state;
    let u = (0..u.len()).map(|i| newton(bez, span[lo + i], u[i])).collect();
    fit_with(span, lo, hi, u)
}

fn straight(p: V, q: V) -> (Ptf, Ptf) {
    (
        place(add(p, scale(sub(q, p), 1.0 / 3.0))),
        place(add(p, scale(sub(q, p), 2.0 / 3.0))),
    )
}

fn lifted(span: &[Pt]) -> Vec<V> {
    span.iter().map(|p| f(*p)).collect()
}

fn fit(loop_pts: &[Pt], corner_deg: f64, error: f64) -> Subpath {
    let cos = corner_deg.to_radians().cos();
    let error = error.max(1e-6);
    fit_loop(
        loop_pts,
        key(error),
        key(error * 4.0),
        &|a: Pt, p: Pt, b: Pt| {
            dot(normalize(sub(f(p), f(a))), normalize(sub(f(b), f(p)))) < cos
        },
        &|span: &[Pt], lo: usize, hi: usize| start(&lifted(span), lo, hi),
        &|span: &[Pt], lo: usize, hi: usize, fit: &Fit<State>| again(&lifted(span), lo, hi, fit),
        &|p: Pt, q: Pt| straight(f(p), f(q)),
    )
}

fn eval_subpath_points(sp: &Subpath, per: usize) -> Vec<V> {
    // Sample the curve densely for error checking.
    let mut pts = Vec::new();
    let mut cur = back(sp.start);
    for seg in &sp.segs {
        match seg {
            Seg::Line(e) => {
                pts.push(cur);
                cur = back(*e);
            }
            Seg::Cubic(c1, c2, e) => {
                let ctrl = [cur, back(*c1), back(*c2), back(*e)];
                for k in 0..per {
                    pts.push(bezier(&ctrl, k as f64 / per as f64));
                }
                cur = back(*e);
            }
        }
    }
    pts.push(cur);
    pts
}

#[test]
fn fits_a_straight_run_with_low_error() {
    let line: Vec<(i32, i32)> = (0..=10).map(|i| (i, 0)).collect();
    let mut out = Vec::new();
    let d: Vec<V> = line.iter().map(|&(x, y)| (x as f64, y as f64)).collect();
    fit_span(&d, key(1.0), key(4.0), &start, &again, &straight, &place, &mut out);
    assert_eq!(out.len(), 1, "a straight run should be one cubic");
}

#[test]
fn fits_a_circle_smoothly_within_tolerance() {
    // Sample a circle; fit_loop should reproduce it closely.
    let r = 50.0;
    let pts: Vec<(i32, i32)> = (0..48)
        .map(|i| {
            let a = i as f64 / 48.0 * std::f64::consts::TAU;
            ((r * a.cos() + r) as i32, (r * a.sin() + r) as i32)
        })
        .collect();
    let sp = fit(&pts, 80.0, 2.0);
    // Every sampled curve point must lie near radius r from the center.
    let center = (r, r);
    let max_dev = eval_subpath_points(&sp, 8)
        .iter()
        .map(|&p| (dist(p, center) - r).abs())
        .fold(0.0, f64::max);
    assert!(max_dev < 3.0, "circle deviation too large: {max_dev}");
}

#[test]
fn square_keeps_four_corners() {
    // A 10x10 square has four 90-degree corners; each should be detected,
    // yielding (near-)straight cubics between them.
    let sq = vec![(0, 0), (10, 0), (10, 10), (0, 10)];
    let sp = fit(&sq, 80.0, 1.0);
    assert_eq!(sp.segs.len(), 4, "four edges between four corners");
}

#[test]
fn degenerate_and_duplicate_input_stays_bounded() {
    // Duplicate vertices + a long near-collinear span must not panic, and
    // (regression for the near-singular least-squares blow-up) every emitted
    // control point must stay finite and near the input bounds.
    let pts = vec![
        (0, 0), (0, 0), (10, 0), (20, 0), (30, 1), (40, 0), (50, 0), (50, 0), (25, 8),
    ];
    let sp = fit(&pts, 80.0, 2.0);
    let ok = |p: Ptf| {
        let p = back(p);
        p.0.is_finite() && p.1.is_finite() && p.0.abs() < 1000.0 && p.1.abs() < 1000.0
    };
    assert!(ok(sp.start));
    for seg in &sp.segs {
        match seg {
            Seg::Line(e) => assert!(ok(*e)),
            Seg::Cubic(c1, c2, e) => {
                assert!(ok(*c1) && ok(*c2) && ok(*e), "control point exploded: {c1:?} {c2:?} {e:?}");
            }
        }
    }
}

fn seg_end(seg: &Seg) -> Ptf {
    match seg {
        Seg::Line(p) => *p,
        Seg::Cubic(_, _, e) => *e,
    }
}

#[test]
fn fitted_loop_ends_where_it_starts() {
    let pts = vec![(0, 0), (10, 0), (14, 4), (10, 10), (0, 10), (-3, 5)];
    for deg in [10.0, 50.0, 170.0] {
        let sp = fit(&pts, deg, 0.5);
        assert_eq!(seg_end(sp.segs.last().unwrap()), sp.start);
    }
}

#[test]
fn loop_with_one_corner_is_drawn_whole() {
    let pts: Vec<V> = vec![(0.0, 0.0), (4.0, -2.0), (8.0, 0.0), (8.0, 4.0), (4.0, 6.0), (0.0, 4.0)];
    let sp = fit_loop_pts(&pts, &[2], key(1e-6), key(4e-6), &start, &again, &straight, &place);
    assert_eq!(sp.start, (800, 0));
    let ends: Vec<Ptf> = sp.segs.iter().map(seg_end).collect();
    assert_eq!(*ends.last().unwrap(), (800, 0));
    // Every other piece ends at a vertex, in loop order.
    let order: Vec<Ptf> = [3, 4, 5, 0, 1].iter().map(|&i: &usize| place(pts[i])).collect();
    let mut rest = order.iter();
    for e in &ends[..ends.len() - 1] {
        assert!(rest.any(|p| p == e), "unexpected end {e:?}");
    }
    assert!(ends.len() > 1);
}

#[test]
fn short_loops_are_polygons() {
    let pts: Vec<V> = vec![(0.0, 0.0), (4.0, 0.5), (2.0, 3.0)];
    let sp = fit_loop_pts(&pts, &[], key(1.0), key(4.0), &start, &again, &straight, &place);
    assert_eq!(sp.start, (0, 0));
    assert_eq!(sp.segs, vec![Seg::Line((400, 50)), Seg::Line((200, 300))]);
    let none: Vec<V> = Vec::new();
    let sp = fit_loop_pts(&none, &[], key(1.0), key(4.0), &start, &again, &straight, &place);
    assert_eq!(sp.start, (0, 0));
    assert!(sp.segs.is_empty());
}

#[test]
fn neighbours_are_joined_straight() {
    let mut out = Vec::new();
    let d = vec![(0.0, 0.0), (3.0, 6.0)];
    fit_span(&d, key(1.0), key(4.0), &start, &again, &straight, &place, &mut out);
    assert_eq!(out, vec![Seg::Cubic((100, 200), (200, 400), (300, 600))]);
    fit_span(&d[..1], key(1.0), key(4.0), &start, &again, &straight, &place, &mut out);
    assert_eq!(out.len(), 1);
}

fn fake(err: u64, split: usize, round: i128) -> Fit<i128> {
    Fit { err, split, c1: (round, 0), c2: (0, round), state: round }
}

fn plain(p: i32) -> Ptf {
    (p as i128, 0)
}

fn line(p: i32, q: i32) -> (Ptf, Ptf) {
    ((p as i128, 1), (q as i128, 1))
}

#[test]
fn close_fits_are_refined_until_they_hold() {
    let span = [0, 1, 2, 3];
    let mut out = Vec::new();
    // Below the tolerance at once.
    fit_span(
        &span, 10, 40,
        &|_: &[i32], _: usize, _: usize| fake(9, 1, 0),
        &|_: &[i32], _: usize, _: usize, f: &Fit<i128>| fake(9, 1, f.state + 1),
        &line, &plain, &mut out,
    );
    assert_eq!(out, vec![Seg::Cubic((0, 0), (0, 0), (3, 0))]);
    // Close: the third round holds.
    out.clear();
    fit_span(
        &span, 10, 40,
        &|_: &[i32], _: usize, _: usize| fake(39, 1, 0),
        &|_: &[i32], _: usize, _: usize, f: &Fit<i128>| {
            fake(if f.state == 2 { 9 } else { 50 }, 1, f.state + 1)
        },
        &line, &plain, &mut out,
    );
    assert_eq!(out, vec![Seg::Cubic((3, 0), (0, 3), (3, 0))]);
    // Not close: no round is tried, and the span is cut at its worst point.
    out.clear();
    fit_span(
        &span, 10, 40,
        &|_: &[i32], lo: usize, hi: usize| fake(if hi - lo == 3 { 40 } else { 5 }, 2, 0),
        &|_: &[i32], _: usize, _: usize, _: &Fit<i128>| fake(0, 1, 99),
        &line, &plain, &mut out,
    );
    assert_eq!(out, vec![Seg::Cubic((0, 0), (0, 0), (2, 0)), Seg::Cubic((2, 1), (3, 1), (3, 0))]);
    // Sixteen rounds and no more: then the last round says where to cut.
    out.clear();
    fit_span(
        &span, 10, 40,
        &|_: &[i32], lo: usize, hi: usize| fake(if hi - lo == 3 { 39 } else { 5 }, 1, 0),
        &|_: &[i32], _: usize, _: usize, f: &Fit<i128>| {
            let round = f.state + 1;
            fake(if round > 16 { 0 } else { 30 }, round as usize - 14, round)
        },
        &line, &plain, &mut out,
    );
    assert_eq!(out, vec![Seg::Cubic((0, 0), (0, 0), (2, 0)), Seg::Cubic((2, 1), (3, 1), (3, 0))]);
}

#[test]
fn cutting_stops_at_a_depth() {
    // Always cut behind the first point: after 48 cuts the rest is drawn straight.
    let span: Vec<i32> = (0..60).collect();
    let mut out = Vec::new();
    fit_span(
        &span, 10, 40,
        &|_: &[i32], _: usize, _: usize| fake(50, 0, 0),
        &|_: &[i32], _: usize, _: usize, _: &Fit<i128>| fake(0, 1, 99),
        &line, &plain, &mut out,
    );
    assert_eq!(out.len(), 49);
    assert_eq!(out[47], Seg::Cubic((47, 1), (48, 1), (48, 0)));
    assert_eq!(out[48], Seg::Cubic((48, 1), (59, 1), (59, 0)));
    // A cut beyond the end is moved inside.
    out.clear();
    fit_span(
        &span[..3], 10, 40,
        &|_: &[i32], _: usize, _: usize| fake(50, 9, 0),
        &|_: &[i32], _: usize, _: usize, _: &Fit<i128>| fake(0, 1, 99),
        &line, &plain, &mut out,
    );
    assert_eq!(out.len(), 2);
    assert_eq!(seg_end(&out[0]), (1, 0));
}

#[test]
fn worst_point_is_the_last_of_the_largest() {
    assert_eq!(compute_max_error(&[Some(9), Some(3), Some(5), Some(5), Some(1), Some(9)]), (5, 3));
    assert_eq!(compute_max_error(&[None, None, None, None]), (0, 2));
    assert_eq!(compute_max_error(&[Some(0), Some(0), Some(0)]), (0, 1));
    assert_eq!(compute_max_error(&[Some(1), None, Some(7), Some(1)]), (7, 2));
}

#[test]
fn corners_are_mirrored_by_reversal() {
    let pts = [(0, 0), (5, 0), (10, 0), (10, 10), (4, 12), (0, 10)];
    let sharp = |a: Pt, p: Pt, b: Pt| {
        dot(normalize(sub(f(p), f(a))), normalize(sub(f(b), f(p)))) < 0.5
    };
    let there = detect_corners(&pts, &sharp);
    let mut rev = pts;
    rev.reverse();
    let mut mirrored: Vec<usize> = detect_corners(&rev, &sharp).iter().map(|i| 5 - i).collect();
    mirrored.reverse();
    assert_eq!(there, mirrored);
    assert_eq!(there, vec![0, 2, 3, 5]);
    assert!(detect_corners(&pts[..2], &sharp).is_empty());
}

#[test]
fn zero_edges_are_dropped() {
    assert_eq!(
        drop_zero_edges(&[(0, 0), (0, 0), (1, 0), (1, 1), (1, 1), (0, 0)]),
        vec![(0, 0), (1, 0), (1, 1)]
    );
    assert_eq!(drop_zero_edges(&[(2, 2), (2, 2)]), vec![(2, 2)]);
    assert_eq!(drop_zero_edges(&[]), vec![]);
}
