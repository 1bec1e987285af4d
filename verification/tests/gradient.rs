use std::cell::RefCell;
use svgit::gradient::{
    accept, fit_all, group_components, is_mergeable, pick_model, Bands, Fits, Gradient,
    GradientConfig, Groups, Measured, Model, Spread, MERGE_MIN_STD,
};
use svgit::moments::Moments;
use svgit::segment::Segmentation;

fn key(v: f64) -> u64 {
    if v > 0.0 {
        v.to_bits()
    } else {
        0
    }
}

fn key_of(v: f64) -> Option<u64> {
    if v.is_nan() {
        None
    } else {
        Some(key(v))
    }
}

/// A gradient: where it runs, and the colours of its two ends.
#[derive(Debug, Clone, PartialEq)]
enum Fill {
    Linear { x1: f64, y1: f64, x2: f64, y2: f64, stops: [[u8; 3]; 2] },
    Radial { cx: f64, cy: f64, r: f64, stops: [[u8; 3]; 2] },
}

/// The sums of a region in floating point.
struct Stats {
    n: f64,
    sx: f64,
    sy: f64,
    sxx: f64,
    sxy: f64,
    syy: f64,
    sv: [f64; 3],
    svx: [f64; 3],
    svy: [f64; 3],
    svv: [f64; 3],
}

impl Stats {
    fn of(m: &Moments) -> Self {
        let ch = [&m.r, &m.g, &m.b];
        Self {
            n: m.n as f64,
            sx: m.sx as f64,
            sy: m.sy as f64,
            sxx: m.sxx as f64,
            sxy: m.sxy as f64,
            syy: m.syy as f64,
            sv: ch.map(|c| c.sv as f64),
            svx: ch.map(|c| c.svx as f64),
            svy: ch.map(|c| c.svy as f64),
            svv: ch.map(|c| c.svv as f64),
        }
    }

    fn color_std(&self) -> f64 {
        let n = self.n.max(1.0);
        (0..3)
            .map(|c| (self.svv[c] / n - (self.sv[c] / n).powi(2)).max(0.0).sqrt())
            .fold(0.0, f64::max)
    }

    fn centroid(&self) -> (f64, f64) {
        let n = self.n.max(1.0);
        (self.sx / n, self.sy / n)
    }
}

struct LinFit {
    coef: [[f64; 3]; 3],
    ux: f64,
    uy: f64,
    rmse: f64,
}

/// The affine colour model of a region.
fn fit_linear(m: &Stats) -> Option<LinFit> {
    if m.n < 3.0 {
        return None;
    }
    let inv = invert3([[m.n, m.sx, m.sy], [m.sx, m.sxx, m.sxy], [m.sy, m.sxy, m.syy]])?;
    let mut coef = [[0f64; 3]; 3];
    let mut rss = 0f64;
    for (c, cf) in coef.iter_mut().enumerate() {
        let rhs = [m.sv[c], m.svx[c], m.svy[c]];
        for (b, row) in cf.iter_mut().zip(&inv) {
            *b = row[0] * rhs[0] + row[1] * rhs[1] + row[2] * rhs[2];
        }
        rss += (m.svv[c] - (cf[0] * rhs[0] + cf[1] * rhs[1] + cf[2] * rhs[2])).max(0.0);
    }
    let rmse = (rss / (m.n * 3.0)).sqrt();
    let (mut s00, mut s01, mut s11) = (0f64, 0f64, 0f64);
    for cf in &coef {
        let (b, d) = (cf[1], cf[2]);
        s00 += b * b;
        s01 += b * d;
        s11 += d * d;
    }
    let (ux, uy) = principal_eigvec(s00, s01, s11)?;
    Some(LinFit { coef, ux, uy, rmse })
}

/// Inverts a matrix that is not nearly singular.
fn invert3(a: [[f64; 3]; 3]) -> Option<[[f64; 3]; 3]> {
    let det = a[0][0] * (a[1][1] * a[2][2] - a[1][2] * a[2][1])
        - a[0][1] * (a[1][0] * a[2][2] - a[1][2] * a[2][0])
        + a[0][2] * (a[1][0] * a[2][1] - a[1][1] * a[2][0]);
    if det.abs() < 1e-6 {
        return None;
    }
    let i = 1.0 / det;
    Some([
        [
            (a[1][1] * a[2][2] - a[1][2] * a[2][1]) * i,
            (a[0][2] * a[2][1] - a[0][1] * a[2][2]) * i,
            (a[0][1] * a[1][2] - a[0][2] * a[1][1]) * i,
        ],
        [
            (a[1][2] * a[2][0] - a[1][0] * a[2][2]) * i,
            (a[0][0] * a[2][2] - a[0][2] * a[2][0]) * i,
            (a[0][2] * a[1][0] - a[0][0] * a[1][2]) * i,
        ],
        [
            (a[1][0] * a[2][1] - a[1][1] * a[2][0]) * i,
            (a[0][1] * a[2][0] - a[0][0] * a[2][1]) * i,
            (a[0][0] * a[1][1] - a[0][1] * a[1][0]) * i,
        ],
    ])
}

/// The unit principal eigenvector of `[[a, b], [b, d]]`.
fn principal_eigvec(a: f64, b: f64, d: f64) -> Option<(f64, f64)> {
    let tr = (a + d) * 0.5;
    let diff = (a - d) * 0.5;
    let lambda = tr + (diff * diff + b * b).sqrt();
    if lambda < 1e-6 {
        return None;
    }
    let (vx, vy) = if b.abs() > 1e-9 {
        (b, lambda - a)
    } else if a >= d {
        (1.0, 0.0)
    } else {
        (0.0, 1.0)
    };
    let len = (vx * vx + vy * vy).sqrt();
    if len < 1e-12 {
        return None;
    }
    Some((vx / len, vy / len))
}

fn clamp_color(v: [f64; 3]) -> [u8; 3] {
    v.map(|x| x.round().clamp(0.0, 255.0) as u8)
}

/// What takes another scan of a region's pixels.
struct Range {
    tmin: f64,
    tmax: f64,
    sr: f64,
    srr: f64,
    scr: [f64; 3],
    rmin: f64,
    rmax: f64,
}

impl Range {
    fn new() -> Self {
        Self {
            tmin: f64::INFINITY,
            tmax: f64::NEG_INFINITY,
            sr: 0.0,
            srr: 0.0,
            scr: [0.0; 3],
            rmin: f64::INFINITY,
            rmax: f64::NEG_INFINITY,
        }
    }

    fn add(&mut self, fx: f64, fy: f64, rgb: &[u8], axis: Option<(f64, f64)>, c: (f64, f64)) {
        if let Some((ux, uy)) = axis {
            let t = ux * fx + uy * fy;
            self.tmin = self.tmin.min(t);
            self.tmax = self.tmax.max(t);
        }
        let dist = ((fx - c.0).powi(2) + (fy - c.1).powi(2)).sqrt();
        self.sr += dist;
        self.srr += dist * dist;
        self.rmin = self.rmin.min(dist);
        self.rmax = self.rmax.max(dist);
        for (scr, &v) in self.scr.iter_mut().zip(rgb) {
            *scr += v as f64 * dist;
        }
    }
}

/// A fill, and what is measured of it.
type Candidate = (Fill, Measured);

/// The linear gradient of a fit and its range.
fn build_linear(lf: &LinFit, m: &Stats, a: &Range) -> Option<Candidate> {
    let span = a.tmax - a.tmin;
    if span < 1e-3 {
        return None;
    }
    let mut max_delta = 0f64;
    for cf in &lf.coef {
        max_delta = max_delta.max(((cf[1] * lf.ux + cf[2] * lf.uy) * span).abs());
    }
    let (cx, cy) = m.centroid();
    let tc = lf.ux * cx + lf.uy * cy;
    let at = |t: f64| (cx + (t - tc) * lf.ux, cy + (t - tc) * lf.uy);
    let eval = |p: (f64, f64)| clamp_color(lf.coef.map(|k| k[0] + k[1] * p.0 + k[2] * p.1));
    let (p1, p2) = (at(a.tmin), at(a.tmax));
    let fill =
        Fill::Linear { x1: p1.0, y1: p1.1, x2: p2.0, y2: p2.1, stops: [eval(p1), eval(p2)] };
    Some((fill, Measured { residual: key(lf.rmse), delta: (max_delta as f32).to_bits() }))
}

/// The radial gradient of a region, affine in the distance from a
/// centre.
fn build_radial(m: &Stats, a: &Range, center: (f64, f64)) -> Option<Candidate> {
    let (n, rmax) = (m.n, a.rmax);
    if n < 3.0 || rmax < 1e-3 {
        return None;
    }
    let det = n * a.srr - a.sr * a.sr;
    if det.abs() < 1e-6 {
        return None;
    }
    let (mut p, mut s) = ([0f64; 3], [0f64; 3]);
    let mut rss = 0f64;
    for c in 0..3 {
        p[c] = (a.srr * m.sv[c] - a.sr * a.scr[c]) / det;
        s[c] = (-a.sr * m.sv[c] + n * a.scr[c]) / det;
        rss += (m.svv[c] - p[c] * m.sv[c] - s[c] * a.scr[c]).max(0.0);
    }
    let rmse = (rss / (n * 3.0)).sqrt();
    let span = rmax - a.rmin.max(0.0);
    let max_delta = s.iter().fold(0f64, |d, sc| d.max((sc * span).abs()));
    let rim = [p[0] + s[0] * rmax, p[1] + s[1] * rmax, p[2] + s[2] * rmax];
    let stops = [clamp_color(p), clamp_color(rim)];
    let fill = Fill::Radial { cx: center.0, cy: center.1, r: rmax, stops };
    Some((fill, Measured { residual: key(rmse), delta: (max_delta as f32).to_bits() }))
}

/// Scans the pixels of components again, each into the range of
/// the group that `owner` names.
fn scan(
    seg: &Segmentation,
    original: &[u8],
    owner: &dyn Fn(usize) -> Option<usize>,
    axes: &[Option<(f64, f64)>],
    centers: &[(f64, f64)],
) -> Vec<Range> {
    let mut out: Vec<Range> = (0..seg.num_components).map(|_| Range::new()).collect();
    for (p, &label) in seg.labels.iter().enumerate() {
        let c = label as usize;
        if seg.component_color[c] == 0 {
            continue;
        }
        if let Some(g) = owner(c) {
            let (x, y) = (p % seg.width, p / seg.width);
            let rgb = &original[p * 4..p * 4 + 3];
            out[g].add(x as f64, y as f64, rgb, axes[g], centers[g]);
        }
    }
    out
}

/// The linear and the radial candidate of every group.
fn candidates(
    seg: &Segmentation,
    original: &[u8],
    groups: &Groups,
) -> Vec<(Option<Candidate>, Option<Candidate>)> {
    let stats: Vec<Stats> = groups.moments.iter().map(Stats::of).collect();
    let lin: Vec<Option<LinFit>> = stats.iter().map(fit_linear).collect();
    let axes: Vec<_> = lin.iter().map(|l| l.as_ref().map(|l| (l.ux, l.uy))).collect();
    let centers: Vec<_> = stats.iter().map(Stats::centroid).collect();
    let ranges = scan(seg, original, &|c| Some(groups.group[c]), &axes, &centers);
    (0..seg.num_components)
        .map(|g| {
            let linear = lin[g].as_ref().and_then(|l| build_linear(l, &stats[g], &ranges[g]));
            (linear, build_radial(&stats[g], &ranges[g], centers[g]))
        })
        .collect()
}

/// The radial candidate of every band, measured from its common centre.
fn band_candidates(seg: &Segmentation, original: &[u8], bands: &Bands) -> Vec<Option<Candidate>> {
    let stats: Vec<Stats> = bands.moments.iter().map(Stats::of).collect();
    let centers: Vec<_> = stats.iter().map(Stats::centroid).collect();
    let axes = vec![None; seg.num_components];
    let ranges = scan(seg, original, &|c| bands.member[c], &axes, &centers);
    (0..seg.num_components)
        .map(|b| build_radial(&stats[b], &ranges[b], centers[b]))
        .collect()
}

/// A gradient for every component that has one. `original` is RGBA
/// with the dimensions of `seg`. Panics on a segmentation that is not one.
fn fills(seg: &Segmentation, original: &[u8], cfg: &GradientConfig) -> Vec<Option<Fill>> {
    let n = seg.num_components;
    assert!(
        (seg.width as u64) <= 1 << 32
            && (seg.height as u64) <= 1 << 32
            && seg.width.checked_mul(seg.height) == Some(seg.labels.len())
            && seg.labels.len() <= usize::MAX / 4,
        "labels do not match the dimensions"
    );
    assert!(
        seg.component_color.len() == n
            && seg.component_area.len() == n
            && seg.labels.iter().all(|&l| (l as usize) < n),
        "labels do not match the components"
    );
    let tol = (seg.width.min(seg.height) as f64 * 0.05).max(3.0);
    let spread = |m: &Moments| {
        let s = Stats::of(m);
        Spread { std: key(s.color_std()), residual: fit_linear(&s).and_then(|l| key_of(l.rmse)) }
    };
    let fitted = RefCell::new(Vec::new());
    let shared = RefCell::new(Vec::new());
    let measured = |c: &Option<Candidate>| c.as_ref().map(|c| c.1);
    let measure = |g: &Groups| -> Vec<Fits> {
        *fitted.borrow_mut() = candidates(seg, original, g);
        fitted.borrow().iter().map(|(l, r)| (measured(l), measured(r))).collect()
    };
    let close = |a: &Moments, b: &Moments| {
        let (a, b) = (Stats::of(a).centroid(), Stats::of(b).centroid());
        (a.0 - b.0).hypot(a.1 - b.1) <= tol
    };
    let rescan = |b: &Bands| -> Vec<Option<Measured>> {
        *shared.borrow_mut() = band_candidates(seg, original, b);
        shared.borrow().iter().map(measured).collect()
    };
    let gradients = fit_all(seg, original, cfg, &spread, &measure, &close, &rescan);
    let (fitted, shared) = (fitted.into_inner(), shared.into_inner());
    let fill = |c: &Option<Candidate>| c.as_ref().map(|c| c.0.clone());
    gradients
        .iter()
        .map(|g| match g {
            None => None,
            Some(Gradient::Linear(g)) => fill(&fitted[*g].0),
            Some(Gradient::Radial(g)) => fill(&fitted[*g].1),
            Some(Gradient::Shared(b)) => fill(&shared[*b]),
        })
        .collect()
}

/// Build a segmentation from an explicit per-pixel component-label map.
fn seg_from(labels: Vec<u32>, w: usize, h: usize, colors: &[u32]) -> Segmentation {
    let num = colors.len();
    let mut area = vec![0u32; num];
    for &l in &labels {
        area[l as usize] += 1;
    }
    Segmentation {
        width: w,
        height: h,
        labels,
        num_components: num,
        component_color: colors.to_vec(),
        component_area: area,
    }
}

fn one_region(w: usize, h: usize) -> Segmentation {
    seg_from(vec![0u32; w * h], w, h, &[1])
}

fn ramp_rgba(w: usize, h: usize, gray: bool) -> Vec<u8> {
    let mut px = vec![0u8; w * h * 4];
    for y in 0..h {
        for x in 0..w {
            let p = (y * w + x) * 4;
            let v = ((x * 255) / (w - 1)) as u8;
            px[p] = v;
            if gray {
                px[p + 1] = v;
                px[p + 2] = v;
            }
            px[p + 3] = 255;
        }
    }
    px
}

struct Line {
    x1: f64,
    y1: f64,
    x2: f64,
    y2: f64,
    stops: [[u8; 3]; 2],
}

fn as_linear(f: &Fill) -> Line {
    match f {
        Fill::Linear { x1, y1, x2, y2, stops } => {
            Line { x1: *x1, y1: *y1, x2: *x2, y2: *y2, stops: *stops }
        }
        _ => panic!("expected a linear gradient"),
    }
}

#[test]
fn fits_a_horizontal_ramp() {
    let (w, h) = (32usize, 16usize);
    let px = ramp_rgba(w, h, false);
    let out = fills(&one_region(w, h), &px, &GradientConfig::default());
    let g = as_linear(out[0].as_ref().expect("ramp should fit"));
    assert!((g.y1 - g.y2).abs() < 1e-6, "axis horizontal");
    assert!((g.x1 - g.x2).abs() > w as f64 * 0.5, "axis spans width");
    let reds = [g.stops[0][0], g.stops[1][0]];
    assert!(reds.iter().any(|&r| r < 30) && reds.iter().any(|&r| r > 225), "red spans 0..255: {reds:?}");
}

#[test]
fn flat_region_is_not_a_gradient() {
    let (w, h) = (20usize, 20usize);
    let mut px = vec![0u8; w * h * 4];
    for i in 0..w * h {
        px[i * 4] = 120;
        px[i * 4 + 1] = 80;
        px[i * 4 + 2] = 40;
        px[i * 4 + 3] = 255;
    }
    let out = fills(&one_region(w, h), &px, &GradientConfig::default());
    assert!(out[0].is_none(), "flat → solid");
}

#[test]
fn small_region_is_skipped() {
    let (w, h) = (4usize, 4usize);
    let px = ramp_rgba(w, h, false);
    let out = fills(&one_region(w, h), &px, &GradientConfig::default());
    assert!(out[0].is_none(), "16 px < min_area");
}

#[test]
fn diagonal_ramp_axis_is_diagonal() {
    let (w, h) = (24usize, 24usize);
    let mut px = vec![0u8; w * h * 4];
    for y in 0..h {
        for x in 0..w {
            let p = (y * w + x) * 4;
            let v = ((x + y) * 255 / (w + h - 2)) as u8;
            px[p] = v;
            px[p + 1] = v;
            px[p + 2] = v;
            px[p + 3] = 255;
        }
    }
    let out = fills(&one_region(w, h), &px, &GradientConfig::default());
    let g = as_linear(out[0].as_ref().expect("diagonal ramp should fit"));
    let dx = (g.x2 - g.x1).abs();
    let dy = (g.y2 - g.y1).abs();
    assert!(dx > 1.0 && dy > 1.0 && (dx / dy - 1.0).abs() < 0.4, "≈45°: dx={dx} dy={dy}");
}

#[test]
fn merges_two_bands_into_one_shared_gradient() {
    // 32×16, split into two components at x=16 (as if quantized into 2 bands),
    // but the original is one continuous red ramp. The two bands must merge
    // into a single shared gradient spanning the full width.
    let (w, h) = (32usize, 16usize);
    let mut labels = vec![0u32; w * h];
    for y in 0..h {
        for x in 0..w {
            labels[y * w + x] = if x < w / 2 { 0 } else { 1 };
        }
    }
    let seg = seg_from(labels, w, h, &[1, 2]);
    let px = ramp_rgba(w, h, false);
    let out = fills(&seg, &px, &GradientConfig::default());
    let g0 = as_linear(out[0].as_ref().expect("band 0 gradient"));
    let g1 = as_linear(out[1].as_ref().expect("band 1 gradient"));
    // Same shared gradient: identical endpoints spanning ~full width.
    assert!((g0.x1 - g1.x1).abs() < 1e-9 && (g0.x2 - g1.x2).abs() < 1e-9, "shared gradient");
    assert!((g0.x2 - g0.x1).abs() > w as f64 * 0.5, "spans the whole ramp, not one band");
}

#[test]
fn fits_a_radial_cone() {
    // Brightness falls off with distance from the center — a symmetric cone.
    // A linear plane fits it flat (no axis slope → rejected), so the radial
    // model must win.
    let (w, h) = (28usize, 28usize);
    let (cx, cy) = (13.5f64, 13.5f64);
    let mut px = vec![0u8; w * h * 4];
    for y in 0..h {
        for x in 0..w {
            let p = (y * w + x) * 4;
            let r = ((x as f64 - cx).powi(2) + (y as f64 - cy).powi(2)).sqrt();
            let v = (255.0 - 11.0 * r).clamp(0.0, 255.0) as u8;
            px[p] = v;
            px[p + 1] = v;
            px[p + 2] = v;
            px[p + 3] = 255;
        }
    }
    let out = fills(&one_region(w, h), &px, &GradientConfig::default());
    match out[0].as_ref().expect("cone should fit a gradient") {
        Fill::Radial { cx: gx, cy: gy, r, .. } => {
            assert!((gx - cx).abs() < 2.0 && (gy - cy).abs() < 2.0, "center ≈ middle");
            assert!(*r > w as f64 * 0.3, "radius spans the region");
        }
        Fill::Linear { .. } => panic!("a symmetric cone should be radial, not linear"),
    }
}

#[test]
fn merges_concentric_radial_bands() {
    // A radial gradient quantized into an inner disk (comp 0) and an outer
    // ring (comp 1). Both fit radial on their own; radial-band merging must
    // hand them ONE shared radial (identical center + radius).
    let (w, h) = (40usize, 40usize);
    let (cx, cy) = (19.5f64, 19.5f64);
    let split = 12.0;
    let mut labels = vec![0u32; w * h];
    let mut px = vec![0u8; w * h * 4];
    for y in 0..h {
        for x in 0..w {
            let r = ((x as f64 - cx).powi(2) + (y as f64 - cy).powi(2)).sqrt();
            let p = (y * w + x) * 4;
            let v = (240.0 - 7.0 * r).clamp(0.0, 255.0) as u8;
            px[p] = v;
            px[p + 1] = v;
            px[p + 2] = v;
            px[p + 3] = 255;
            labels[y * w + x] = if r < split { 0 } else { 1 };
        }
    }
    let seg = seg_from(labels, w, h, &[1, 2]);
    let out = fills(&seg, &px, &GradientConfig::default());
    let radial = |f: &Fill| match f {
        Fill::Radial { cx, cy, r, .. } => (*cx, *cy, *r),
        _ => panic!("expected radial"),
    };
    let g0 = radial(out[0].as_ref().expect("inner radial"));
    let g1 = radial(out[1].as_ref().expect("outer radial"));
    assert!(
        (g0.0 - g1.0).abs() < 1e-9 && (g0.1 - g1.1).abs() < 1e-9 && (g0.2 - g1.2).abs() < 1e-9,
        "both bands must share one radial: {g0:?} vs {g1:?}"
    );
    assert!((g0.0 - cx).abs() < 2.0 && (g0.1 - cy).abs() < 2.0, "center ≈ middle");
}

#[test]
fn distinct_radials_do_not_merge() {
    // Two side-by-side radial cones with DIFFERENT centers must NOT collapse
    // into one shared radial — the centroid-proximity gate keeps them apart,
    // and even if grouped the re-scanned fit would reject the union.
    let (w, h) = (60usize, 30usize);
    let centers = [(15.0f64, 15.0f64), (45.0f64, 15.0f64)];
    let mut labels = vec![0u32; w * h];
    let mut px = vec![0u8; w * h * 4];
    for y in 0..h {
        for x in 0..w {
            let comp = if x < 30 { 0 } else { 1 };
            let (cx, cy) = centers[comp];
            let r = ((x as f64 - cx).powi(2) + (y as f64 - cy).powi(2)).sqrt();
            let v = (240.0 - 8.0 * r).clamp(0.0, 255.0) as u8;
            let p = (y * w + x) * 4;
            px[p] = v;
            px[p + 1] = v;
            px[p + 2] = v;
            px[p + 3] = 255;
            labels[y * w + x] = comp as u32;
        }
    }
    let seg = seg_from(labels, w, h, &[1, 2]);
    let out = fills(&seg, &px, &GradientConfig::default());
    let cx = |f: &Fill| match f {
        Fill::Radial { cx, .. } => *cx,
        _ => panic!("expected radial"),
    };
    let c0 = cx(out[0].as_ref().expect("left radial"));
    let c1 = cx(out[1].as_ref().expect("right radial"));
    assert!((c0 - c1).abs() > 20.0, "distinct radials keep distinct centers: {c0} vs {c1}");
}

#[test]
fn unrelated_neighbors_do_not_merge() {
    // Two adjacent flat regions of very different colors must NOT merge (a
    // step is not a linear gradient) and neither is a gradient on its own.
    let (w, h) = (32usize, 16usize);
    let mut labels = vec![0u32; w * h];
    let mut px = vec![0u8; w * h * 4];
    for y in 0..h {
        for x in 0..w {
            let p = (y * w + x) * 4;
            if x < w / 2 {
                labels[y * w + x] = 0;
                px[p] = 230; // red
            } else {
                labels[y * w + x] = 1;
                px[p + 2] = 230; // blue
            }
            px[p + 3] = 255;
        }
    }
    let seg = seg_from(labels, w, h, &[1, 2]);
    let out = fills(&seg, &px, &GradientConfig::default());
    assert!(out[0].is_none() && out[1].is_none(), "flat step → both stay solid");
}

#[test]
fn default_thresholds() {
    let cfg = GradientConfig::default();
    assert_eq!(cfg.min_area, 64);
    assert_eq!(f32::from_bits(cfg.min_delta), 16.0);
    assert_eq!(f64::from_bits(cfg.max_residual), 12.0);
    assert_eq!(f64::from_bits(MERGE_MIN_STD), 2.0);
}

#[test]
fn unions_merge_up_to_the_thresholds() {
    let cfg = GradientConfig::default();
    let s = |std: f64, residual: Option<f64>| Spread { std: key(std), residual: residual.map(key) };
    assert!(is_mergeable(s(2.0, Some(12.0)), &cfg));
    assert!(!is_mergeable(s(1.99, Some(0.0)), &cfg));
    assert!(!is_mergeable(s(50.0, Some(12.1)), &cfg));
    assert!(!is_mergeable(s(50.0, None), &cfg));
}

fn fit(residual: f64, delta: f32) -> Option<Measured> {
    Some(Measured { residual: key(residual), delta: delta.to_bits() })
}

#[test]
fn fits_are_accepted_up_to_the_thresholds() {
    let cfg = GradientConfig::default();
    assert_eq!(accept(fit(12.0, 16.0), &cfg), Some(key(12.0)));
    assert_eq!(accept(fit(12.5, 16.0), &cfg), None);
    assert_eq!(accept(fit(3.0, 15.9), &cfg), None);
    assert_eq!(accept(None, &cfg), None);
}

#[test]
fn tighter_model_wins_and_linear_on_a_tie() {
    let cfg = GradientConfig::default();
    assert_eq!(pick_model((fit(3.0, 90.0), fit(2.0, 90.0)), &cfg), Some(Model::Radial));
    assert_eq!(pick_model((fit(2.0, 90.0), fit(2.0, 90.0)), &cfg), Some(Model::Linear));
    assert_eq!(pick_model((fit(2.0, 1.0), fit(9.0, 90.0)), &cfg), Some(Model::Radial));
    assert_eq!(pick_model((fit(2.0, 90.0), None), &cfg), Some(Model::Linear));
    assert_eq!(pick_model((None, fit(13.0, 90.0)), &cfg), None);
}

#[test]
fn groups_hold_the_sums_of_their_components() {
    // A row of four components of one pixel; the second is transparent.
    let seg = seg_from(vec![0, 1, 2, 3], 4, 1, &[1, 0, 2, 3]);
    let px: Vec<u8> = vec![10, 20, 30, 255, 9, 9, 9, 0, 1, 2, 3, 255, 4, 5, 6, 255];
    let groups = group_components(&seg, &px, &|_: &Moments| true);
    assert_eq!(groups.adj, vec![(2, 3)]);
    assert_eq!(groups.group, vec![0, 1, 2, 2]);
    let m = &groups.moments[2];
    assert_eq!((m.n, m.sx, m.sy, m.sxx, m.sxy, m.syy), (2, 5, 0, 13, 0, 0));
    assert_eq!((m.r.sv, m.r.svx, m.r.svy, m.r.svv), (5, 14, 0, 17));
    assert_eq!((m.g.sv, m.b.sv, m.b.svv), (7, 9, 45));
    assert_eq!(groups.moments[0].n, 1);
    assert_eq!(groups.moments[1].n, 0);
}

#[test]
fn merging_goes_on_until_nothing_joins() {
    // Three bars side by side. The first two join only once the last two have.
    let seg = seg_from(vec![0, 1, 2, 0, 1, 2], 3, 2, &[1, 2, 3]);
    let px = vec![7u8; 24];
    let joins = |m: &Moments| m.n == 6 || (m.n == 4 && m.sx == 6);
    let groups = group_components(&seg, &px, &joins);
    assert_eq!(groups.group, vec![0, 0, 0]);
    assert_eq!(groups.moments[0].n, 6);
    assert!(groups.adj.contains(&(0, 1)) && groups.adj.contains(&(1, 2)));
}

fn fake_all(
    seg: &Segmentation,
    px: &[u8],
    cfg: &GradientConfig,
    radial: &dyn Fn(usize) -> Option<Measured>,
    close: bool,
    shared: Option<Measured>,
) -> Vec<Option<Gradient>> {
    fit_all(
        seg,
        px,
        cfg,
        &|_: &Moments| Spread { std: 0, residual: None },
        &|g: &Groups| (0..g.group.len()).map(|i| (None, radial(i))).collect(),
        &|_: &Moments, _: &Moments| close,
        &|b: &Bands| b.band.iter().map(|_| shared).collect(),
    )
}

#[test]
fn touching_radials_share_one_when_their_union_fits() {
    let cfg = GradientConfig { min_area: 1, ..GradientConfig::default() };
    let seg = seg_from(vec![0, 1, 2], 3, 1, &[1, 2, 3]);
    let px = vec![7u8; 12];
    let some = fit(1.0, 90.0);
    let all = |_: usize| some;
    assert_eq!(
        fake_all(&seg, &px, &cfg, &all, true, some),
        vec![Some(Gradient::Shared(0)), Some(Gradient::Shared(0)), Some(Gradient::Shared(0))]
    );
    // A union that fits badly leaves each with its own.
    assert_eq!(
        fake_all(&seg, &px, &cfg, &all, true, fit(99.0, 90.0)),
        vec![Some(Gradient::Radial(0)), Some(Gradient::Radial(1)), Some(Gradient::Radial(2))]
    );
    // So do centres that are far apart.
    assert_eq!(
        fake_all(&seg, &px, &cfg, &all, false, some)[1],
        Some(Gradient::Radial(1))
    );
    // A solid component in between keeps the outer two apart.
    let outer = |g: usize| if g == 1 { None } else { some };
    assert_eq!(
        fake_all(&seg, &px, &cfg, &outer, true, some),
        vec![Some(Gradient::Radial(0)), None, Some(Gradient::Radial(2))]
    );
}

#[test]
fn transparent_components_have_no_gradient() {
    let cfg = GradientConfig { min_area: 1, ..GradientConfig::default() };
    let seg = seg_from(vec![0, 1], 2, 1, &[0, 2]);
    let some = fit(1.0, 90.0);
    let out = fake_all(&seg, &[7u8; 8], &cfg, &|_| some, true, some);
    assert_eq!(out, vec![None, Some(Gradient::Radial(1))]);
}
