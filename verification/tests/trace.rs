use svgit::curvefit::Fit;
use svgit::segment::Segmentation;
use svgit::simplify::Pt;
use svgit::svg::Ptf;
use svgit::params::RawParams;
use svgit::trace::{palette_indices, trace_config, trace_rgba, TraceConfig};

fn rgba(colors: &[[u8; 4]]) -> Vec<u8> {
    colors.iter().flat_map(|c| c.iter().copied()).collect()
}

/// Runs of equal colour that touch, found by flooding.
fn segment(idx: &[u32], w: usize, h: usize, _min_area: u32) -> Segmentation {
    let unset = u32::MAX;
    let mut labels = vec![unset; w * h];
    let (mut colors, mut areas) = (Vec::new(), Vec::new());
    for p in 0..w * h {
        if labels[p] != unset {
            continue;
        }
        let c = colors.len() as u32;
        let mut area = 0;
        let mut stack = vec![p];
        labels[p] = c;
        while let Some(q) = stack.pop() {
            area += 1;
            let (x, y) = (q % w, q / w);
            let mut next = Vec::new();
            if x > 0 {
                next.push(q - 1);
            }
            if x + 1 < w {
                next.push(q + 1);
            }
            if y > 0 {
                next.push(q - w);
            }
            if y + 1 < h {
                next.push(q + w);
            }
            for n in next {
                if labels[n] == unset && idx[n] == idx[p] {
                    labels[n] = c;
                    stack.push(n);
                }
            }
        }
        colors.push(idx[p]);
        areas.push(area);
    }
    Segmentation {
        width: w,
        height: h,
        labels,
        num_components: colors.len(),
        component_color: colors,
        component_area: areas,
    }
}

/// The outline of a component's bounding box: every component here is a rectangle.
fn contours(seg: &Segmentation, c: usize) -> Vec<Vec<Pt>> {
    let own: Vec<usize> =
        (0..seg.labels.len()).filter(|&p| seg.labels[p] as usize == c).collect();
    let xs: Vec<i32> = own.iter().map(|p| (p % seg.width) as i32).collect();
    let ys: Vec<i32> = own.iter().map(|p| (p / seg.width) as i32).collect();
    let (x0, x1) = (*xs.iter().min().unwrap(), *xs.iter().max().unwrap() + 1);
    let (y0, y1) = (*ys.iter().min().unwrap(), *ys.iter().max().unwrap() + 1);
    vec![vec![(x0, y0), (x1, y0), (x1, y1), (x0, y1)]]
}

fn dist(p: Pt, a: Pt, b: Pt) -> u64 {
    let (dx, dy) = ((b.0 - a.0) as f64, (b.1 - a.1) as f64);
    let (ex, ey) = ((p.0 - a.0) as f64, (p.1 - a.1) as f64);
    let len2 = dx * dx + dy * dy;
    let d = if len2 == 0.0 { ex * ex + ey * ey } else { (ex * dy - ey * dx).powi(2) / len2 };
    d.to_bits()
}

fn sharp(a: Pt, p: Pt, b: Pt) -> bool {
    (p.0 - a.0) * (b.0 - p.0) + (p.1 - a.1) * (b.1 - p.1) <= 0
}

fn start(_: &[Pt], lo: usize, hi: usize) -> Fit<()> {
    Fit { err: u64::MAX, split: (lo + hi) / 2, c1: (0, 0), c2: (0, 0), state: () }
}

fn again(span: &[Pt], lo: usize, hi: usize, _: &Fit<()>) -> Fit<()> {
    start(span, lo, hi)
}

fn straight(p: Pt, q: Pt) -> (Ptf, Ptf) {
    ((p.0 as i128 * 100, p.1 as i128 * 100), (q.0 as i128 * 100, q.1 as i128 * 100))
}

fn trace(px: &[u8], w: usize, h: usize, cfg: &TraceConfig) -> String {
    trace_rgba(px, w, h, cfg, &segment, &contours, &dist, &sharp, &start, &again, &straight)
}

#[test]
fn two_flat_regions_produce_valid_svg() {
    // 2x2: top row red, bottom row blue.
    let px = rgba(&[
        [255, 0, 0, 255],
        [255, 0, 0, 255],
        [0, 0, 255, 255],
        [0, 0, 255, 255],
    ]);
    let svg = trace(&px, 2, 2, &TraceConfig { min_area: 0, simplify: None, ..Default::default() });
    assert!(svg.starts_with("<?xml"));
    assert!(svg.contains("<svg"));
    assert!(svg.ends_with("</svg>\n"));
    // Background rect (one color) + one path (the other region).
    assert!(svg.contains("<rect"));
    assert_eq!(svg.matches("<path").count(), 1);
    // Both colors appear.
    assert!(svg.contains("#ff0000"));
    assert!(svg.contains("#0000ff"));
}

#[test]
fn transparent_pixels_are_not_drawn() {
    // One opaque green, three transparent.
    let px = rgba(&[
        [0, 255, 0, 255],
        [0, 0, 0, 0],
        [0, 0, 0, 0],
        [0, 0, 0, 0],
    ]);
    let cfg =
        TraceConfig { background: false, min_area: 0, simplify: None, ..Default::default() };
    let svg = trace(&px, 2, 2, &cfg);
    assert_eq!(svg.matches("<path").count(), 1);
    assert!(svg.contains("#00ff00"));
    assert!(!svg.contains("<rect"));
}

#[test]
fn same_color_regions_merge_into_one_path() {
    // 6x1: red red green red green red. The two disconnected green cells
    // share a color and must merge into ONE <path> (two subpaths); red is
    // the background rect, so the red cells are dropped entirely.
    let r = [200, 0, 0, 255];
    let g = [0, 200, 0, 255];
    let px = rgba(&[r, r, g, r, g, r]);
    let svg = trace(&px, 6, 1, &TraceConfig { min_area: 0, simplify: None, ..Default::default() });
    assert!(svg.contains("<rect")); // red background
    assert_eq!(svg.matches("<path").count(), 1, "the two greens merge to one path");
    assert_eq!(svg.matches('M').count(), 2, "one path, two subpaths");
    assert!(svg.contains("#00c800")); // green
}

#[test]
fn empty_image_is_valid_svg() {
    let svg = trace(&[], 0, 0, &TraceConfig::default());
    assert!(svg.contains("<svg"));
    assert!(svg.contains("</svg>"));
}

#[test]
fn default_tracing() {
    let cfg = TraceConfig::default();
    assert_eq!(cfg.alpha_threshold, 0);
    assert_eq!(cfg.min_area, 4);
    assert_eq!(cfg.simplify, Some((1.2f64 * 1.2).to_bits()));
    assert!(cfg.background && !cfg.curve);
    assert_eq!(f64::from_bits(cfg.corner_threshold), 80.0);
    assert_eq!(f64::from_bits(cfg.curve_error), 2.0);
    assert_eq!(f64::from_bits(cfg.curve_near), 8.0);
}

#[test]
fn colours_are_numbered_as_they_appear() {
    let px = rgba(&[[9, 9, 9, 255], [1, 2, 3, 8], [9, 9, 9, 9], [1, 2, 3, 200], [0, 0, 0, 255]]);
    let (idx, palette) = palette_indices(&px, 5, 8);
    assert_eq!(idx, vec![1, 0, 1, 2, 3]);
    assert_eq!(palette, vec![[9, 9, 9], [1, 2, 3], [0, 0, 0]]);
}

#[test]
fn whole_trace() {
    // 3x1: black, white, white. White is the background.
    let px = rgba(&[[0, 0, 0, 255], [255, 255, 255, 255], [255, 255, 255, 255]]);
    let cfg = TraceConfig { simplify: None, ..Default::default() };
    let want = "<?xml version=\"1.0\" encoding=\"UTF-8\"?>\n\
<!-- Generator: svgit owned pipeline -->\n\
<svg xmlns=\"http://www.w3.org/2000/svg\" width=\"3\" height=\"1\" viewBox=\"0 0 3 1\">\n\
<rect width=\"3\" height=\"1\" fill=\"#ffffff\"/>\n\
<path d=\"M0 0L1 0L1 1L0 1Z\" fill=\"#000000\" fill-rule=\"nonzero\"/>\n\
</svg>\n";
    assert_eq!(trace(&px, 3, 1, &cfg), want);
    // As curves, the four corners give four straight cubics.
    let cfg = TraceConfig { curve: true, background: false, ..cfg };
    let svg = trace(&px, 3, 1, &cfg);
    assert!(svg.contains("M0 0C0 0 1 0 1 0C1 0 1 1 1 1C1 1 0 1 0 1C0 1 0 0 0 0Z"));
    assert!(svg.contains("#ffffff"));
}

#[test]
fn collapsed_loops_keep_their_exact_contour() {
    // With a large tolerance a small square would lose its outline.
    let px = rgba(&[[0, 0, 0, 255], [255, 255, 255, 255]]);
    let cfg = TraceConfig {
        simplify: Some(100f64.to_bits()),
        background: false,
        ..Default::default()
    };
    let svg = trace(&px, 2, 1, &cfg);
    assert!(svg.contains("M0 0L1 0L1 1L0 1Z"));
    assert!(svg.contains("M1 0L2 0L2 1L1 1Z"));
}

#[test]
fn short_buffers_are_traced_as_empty() {
    let svg = trace(&[1, 2, 3], 2, 2, &TraceConfig::default());
    assert!(!svg.contains("<path") && !svg.contains("<rect"));
}

#[test]
fn only_drawn_pixels_count() {
    let cfg = TraceConfig { alpha_threshold: 9, min_area: 0, ..Default::default() };
    let p = rgba(&[[1, 2, 3, 10], [5, 5, 5, 9], [9, 9, 9, 255], [9, 9, 9, 255]]);
    let mut q = rgba(&[[1, 2, 3, 200], [8, 0, 8, 0], [9, 9, 9, 11], [9, 9, 9, 255]]);
    q.extend([1, 2, 3]);
    assert_eq!(trace(&p, 2, 2, &cfg), trace(&q, 2, 2, &cfg));
    assert!(trace(&p, 2, 2, &cfg).contains("#010203"));
}

#[test]
fn conversions_are_traced_as_asked() {
    let mut p = RawParams::default();
    p.curve = Some("on".to_string());
    p.min_region = Some(17);
    p.curve_corner = Some(60f64.to_bits() as i64);
    let cfg = trace_config(&p.job(), Some(5), 6, 7);
    assert_eq!((cfg.alpha_threshold, cfg.min_area, cfg.simplify), (0, 17, Some(5)));
    assert!(cfg.background && cfg.curve);
    assert_eq!(f64::from_bits(cfg.corner_threshold), 60.0);
    assert_eq!((cfg.curve_error, cfg.curve_near), (6, 7));
}
