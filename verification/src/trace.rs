//! The tracer: from a colour-reduced raster to a flat-colour SVG document.
//!
//! The pixels become palette indices, the indices components, and every component
//! but the background is drawn along its simplified or fitted contours. The palette
//! is that of the colours present, so a full-colour photo would give one region per
//! colour.
//!
//! The components and their contours come from the caller, and so do the measures
//! of simplification and curve fitting (see the crate documentation).

use std::collections::HashMap;
use vstd::prelude::*;
use vstd::set_lib::{lemma_int_range, lemma_len_subset, set_int_range};
use crate::curvefit::{
    corner_flags, fit_loop, fits, grid_place, law_corners_are_the_sharp_turns,
    law_fitted_loop_follows_every_vertex, leads_on, loop_segs, loop_start, may_fit, may_turn, turns,
    without_zero_edges, Fit, Fitting,
};
use crate::params::Job;
use crate::segment::{Components, Segmentation};
use crate::simplify::{
    computes_on, law_loop_is_simplified, raised, simplified, simplify_closed, Pt,
};
use crate::svg::{
    color_key, document, key_text, law_every_subpath_is_in_the_document, lines_to, on_grid, outlines,
    patches, polygon_subpath, subpath_text, to_svg, Outline, Patch, Ptf, Region, Seg, Subpath,
};

verus! {

broadcast use vstd::std_specs::hash::group_hash_axioms;

/// How a raster is traced.
#[derive(Debug, Clone, Copy)]
pub struct TraceConfig {
    /// Pixels with alpha at or below this are transparent: they are not drawn.
    pub alpha_threshold: u8,
    /// Regions of fewer pixels merge into their largest neighbour.
    pub min_area: u32,
    /// Order key of the square of the simplification tolerance in pixels; `None`
    /// keeps the exact staircase edges.
    pub simplify: Option<u64>,
    /// Emit the largest region as a background rectangle instead of a polygon.
    pub background: bool,
    /// Fit cubic curves to the contours instead of emitting polygons.
    pub curve: bool,
    /// Order key of the corner-detection threshold in degrees.
    pub corner_threshold: u64,
    /// Order key of the curve-fit tolerance in pixels.
    pub curve_error: u64,
    /// Order key of the error below which a fit is worth refining: four times the
    /// tolerance.
    pub curve_near: u64,
}

impl Default for TraceConfig {
    /// A tolerance of 1.2 pixels, corners above 80 degrees and a curve-fit
    /// tolerance of 2 pixels.
    fn default() -> (cfg: Self)
        ensures
            cfg.alpha_threshold == 0,
            cfg.min_area == 4,
            cfg.simplify == Some(0x3ff7_0a3d_70a3_d70a_u64),
            cfg.background,
            !cfg.curve,
            cfg.corner_threshold == 0x4054_0000_0000_0000,
            cfg.curve_error == 0x4000_0000_0000_0000,
            cfg.curve_near == 0x4020_0000_0000_0000,
    {
        TraceConfig {
            alpha_threshold: 0,
            min_area: 4,
            simplify: Some(0x3ff7_0a3d_70a3_d70a),
            background: true,
            curve: false,
            corner_threshold: 0x4054_0000_0000_0000,
            curve_error: 0x4000_0000_0000_0000,
            curve_near: 0x4020_0000_0000_0000,
        }
    }
}

/// The configuration that a conversion is traced with. `eps2` is the order key of
/// the square of its simplification tolerance, `tol` that of its curve-fit tolerance,
/// and `near` that of four times the latter.
pub open spec fn config_of(job: Job, eps2: Option<u64>, tol: u64, near: u64) -> TraceConfig {
    TraceConfig {
        alpha_threshold: 0,
        min_area: job.min_region,
        simplify: eps2,
        background: true,
        curve: job.curve,
        corner_threshold: job.curve_corner as u64,
        curve_error: tol,
        curve_near: near,
    }
}

/// The configuration that a conversion is traced with.
pub fn trace_config(job: &Job, eps2: Option<u64>, tol: u64, near: u64) -> (cfg: TraceConfig)
    requires
        job.curve_corner >= 0,
    ensures
        cfg == config_of(*job, eps2, tol, near),
{
    TraceConfig {
        alpha_threshold: 0,
        min_area: job.min_region,
        simplify: eps2,
        background: true,
        curve: job.curve,
        corner_threshold: job.curve_corner as u64,
        curve_error: tol,
        curve_near: near,
    }
}

/// Whether pixel `i` is drawn.
pub open spec fn opaque_at(pixels: Seq<u8>, alpha: u8, i: int) -> bool {
    pixels[i * 4 + 3] > alpha
}

/// The number of the colour of pixel `i`.
pub open spec fn color_at(pixels: Seq<u8>, i: int) -> int {
    pixels[i * 4] * 0x1_0000 + pixels[i * 4 + 1] * 0x100 + pixels[i * 4 + 2]
}

/// The colours of the first `count` pixels that are drawn, in the order in which
/// they first appear.
pub open spec fn palette_of(pixels: Seq<u8>, alpha: u8, count: int) -> Seq<int>
    decreases count,
{
    if count <= 0 {
        Seq::empty()
    } else {
        let rest = palette_of(pixels, alpha, count - 1);
        if opaque_at(pixels, alpha, count - 1) && !rest.contains(color_at(pixels, count - 1)) {
            rest.push(color_at(pixels, count - 1))
        } else {
            rest
        }
    }
}

/// The palette index of pixel `i` of `n`: 0 where it is transparent, else the
/// place of its colour in the palette, counted from 1.
pub open spec fn index_at(pixels: Seq<u8>, alpha: u8, n: int, i: int) -> int {
    if opaque_at(pixels, alpha, i) {
        palette_of(pixels, alpha, n).index_of(color_at(pixels, i)) + 1
    } else {
        0
    }
}

/// The palette indices of `n` pixels.
pub open spec fn indices_of(pixels: Seq<u8>, alpha: u8, n: int) -> Seq<u32> {
    Seq::new(n as nat, |i: int| index_at(pixels, alpha, n, i) as u32)
}

/// A palette holds no colour twice and at most every colour once.
proof fn lemma_palette(pixels: Seq<u8>, alpha: u8, count: int)
    ensures
        palette_of(pixels, alpha, count).no_duplicates(),
        forall|k: int|
            0 <= k < palette_of(pixels, alpha, count).len() ==> 0 <= #[trigger] palette_of(
                pixels,
                alpha,
                count,
            )[k] < 0x100_0000,
        palette_of(pixels, alpha, count).len() <= 0x100_0000,
    decreases count,
{
    if count > 0 {
        lemma_palette(pixels, alpha, count - 1);
    }
    let p = palette_of(pixels, alpha, count);
    assert(p.to_set().subset_of(set_int_range(0, 0x100_0000)));
    lemma_int_range(0, 0x100_0000);
    lemma_len_subset(p.to_set(), set_int_range(0, 0x100_0000));
    p.unique_seq_to_set();
}

/// A palette only grows: what has a place keeps it.
proof fn lemma_palette_grows(pixels: Seq<u8>, alpha: u8, a: int, b: int)
    requires
        0 <= a <= b,
    ensures
        palette_of(pixels, alpha, a).len() <= palette_of(pixels, alpha, b).len(),
        forall|k: int|
            0 <= k < palette_of(pixels, alpha, a).len() ==> #[trigger] palette_of(pixels, alpha, a)[k]
                == palette_of(pixels, alpha, b)[k],
    decreases b - a,
{
    if a < b {
        lemma_palette_grows(pixels, alpha, a, b - 1);
    }
}

/// The place of a colour in a palette.
proof fn lemma_place(palette: Seq<int>, k: int)
    requires
        palette.no_duplicates(),
        0 <= k < palette.len(),
    ensures
        palette.index_of(palette[k]) == k,
{
    let at = palette.index_of(palette[k]);
    assert(0 <= at < palette.len() && palette[at] == palette[k]);
}

/// The palette indices of the first `n` pixels of an RGBA buffer, and the palette.
pub fn palette_indices(pixels: &[u8], n: usize, alpha: u8) -> (r: (Vec<u32>, Vec<[u8; 3]>))
    requires
        n * 4 <= pixels@.len(),
    ensures
        r.0@ == indices_of(pixels@, alpha, n as int),
        r.1@.len() == palette_of(pixels@, alpha, n as int).len(),
        forall|k: int|
            0 <= k < r.1@.len() ==> color_key(#[trigger] r.1@[k]) == palette_of(
                pixels@,
                alpha,
                n as int,
            )[k],
{
    let mut idx: Vec<u32> = Vec::new();
    let mut palette: Vec<[u8; 3]> = Vec::new();
    let mut map: HashMap<u32, u32> = HashMap::new();
    let len: usize = pixels.len();
    let mut i: usize = 0;
    while i < n
        invariant
            n * 4 <= pixels@.len(),
            len == pixels@.len(),
            i <= n,
            idx@.len() == i,
            palette@.len() == palette_of(pixels@, alpha, i as int).len(),
            forall|k: int|
                0 <= k < palette@.len() ==> color_key(#[trigger] palette@[k]) == palette_of(
                    pixels@,
                    alpha,
                    i as int,
                )[k],
            forall|key: u32| #[trigger]
                map@.contains_key(key) ==> 0 < map@[key] <= palette@.len() && palette_of(
                    pixels@,
                    alpha,
                    i as int,
                )[map@[key] - 1] == key,
            forall|k: int|
                0 <= k < palette@.len() ==> map@.contains_key(
                    (#[trigger] palette_of(pixels@, alpha, i as int)[k]) as u32,
                ),
            forall|j: int|
                0 <= j < i ==> if opaque_at(pixels@, alpha, j) {
                    &&& 0 < #[trigger] idx@[j] <= palette@.len()
                    &&& palette_of(pixels@, alpha, i as int)[idx@[j] - 1] == color_at(pixels@, j)
                } else {
                    idx@[j] == 0
                },
        decreases n - i,
    {
        let ghost pal = palette_of(pixels@, alpha, i as int);
        let ghost more = palette_of(pixels@, alpha, i + 1);
        let ghost before = map@;
        proof {
            lemma_palette(pixels@, alpha, i as int);
            lemma_palette(pixels@, alpha, i + 1);
            lemma_palette_grows(pixels@, alpha, i as int, i + 1);
        }
        let at: usize = i * 4;
        if pixels[at + 3] <= alpha {
            idx.push(0);
        } else {
            let color: [u8; 3] = [pixels[at], pixels[at + 1], pixels[at + 2]];
            let key: u32 = color[0] as u32 * 0x1_0000 + color[1] as u32 * 0x100 + color[2] as u32;
            assert(key == color_at(pixels@, i as int));
            match map.get(&key) {
                Some(ci) => {
                    assert(pal[map@[key] - 1] == key);
                    assert(pal.contains(key as int));
                    idx.push(*ci);
                },
                None => {
                    assert(!pal.contains(key as int)) by {
                        if pal.contains(key as int) {
                            let k = choose|k: int| 0 <= k < pal.len() && pal[k] == key as int;
                            assert(map@.contains_key(pal[k] as u32));
                        }
                    }
                    assert(more =~= pal.push(key as int));
                    palette.push(color);
                    let ci: u32 = palette.len() as u32;
                    map.insert(key, ci);
                    idx.push(ci);
                    assert forall|k: int| 0 <= k < palette@.len() implies map@.contains_key(
                        (#[trigger] more[k]) as u32,
                    ) by {
                        if k < pal.len() {
                            assert(before.contains_key(pal[k] as u32));
                        }
                    }
                    assert forall|k: u32| #[trigger] map@.contains_key(k) implies 0 < map@[k]
                        <= palette@.len() && more[map@[k] - 1] == k by {
                        if k != key {
                            assert(before.contains_key(k));
                        }
                    }
                },
            }
        }
        i = i + 1;
    }
    proof {
        lemma_palette(pixels@, alpha, n as int);
        let pal = palette_of(pixels@, alpha, n as int);
        assert forall|j: int| 0 <= j < n implies idx@[j] == indices_of(pixels@, alpha, n as int)[j] by {
            if opaque_at(pixels@, alpha, j) {
                lemma_place(pal, idx@[j] - 1);
            }
        }
        assert(idx@ =~= indices_of(pixels@, alpha, n as int));
    }
    (idx, palette)
}

/// The mathematical functions behind a tracing.
#[verifier::reject_recursive_types(S)]
pub ghost struct Tracer<S> {
    /// The components of palette indices, the small ones merged away.
    pub segment: spec_fn(Seq<u32>, int, int, u32) -> Components,
    /// The contour loops of a component.
    pub contours: spec_fn(Components, int) -> Seq<Seq<Pt>>,
    /// The order key of the square of a point's distance from a chord.
    pub dist: spec_fn(Pt, Pt, Pt) -> u64,
    /// Whether the turn at the middle one of three points is sharp.
    pub sharp: spec_fn(Pt, Pt, Pt) -> bool,
    /// The fits.
    pub fit: Fitting<Pt, S>,
}

/// The loop that is drawn for a contour: the simplified one, but the exact contour
/// where too little would be left of it.
pub open spec fn drawn_loop<S>(t: Tracer<S>, cfg: TraceConfig, lp: Seq<Pt>) -> Seq<Pt> {
    let simp = simplified(t.dist, lp, cfg.simplify);
    if simp.len() >= 3 {
        simp
    } else {
        lp
    }
}

/// What is drawn for a contour: a curve where curves are asked for and there are
/// points enough, else a polygon; nothing below three points.
pub open spec fn loop_outline<S>(t: Tracer<S>, cfg: TraceConfig, lp: Seq<Pt>) -> Option<Outline> {
    let poly = drawn_loop(t, cfg, lp);
    if poly.len() < 3 {
        None
    } else if cfg.curve && poly.len() >= 4 {
        let pts = without_zero_edges(poly);
        let corners = raised(corner_flags(t.sharp, pts));
        Some(
            Outline {
                start: loop_start(t.fit, pts, corners),
                segs: loop_segs(t.fit, pts, corners),
            },
        )
    } else {
        Some(
            Outline {
                start: on_grid(poly[0]),
                segs: lines_to(poly.skip(1).map_values(|p: Pt| on_grid(p))),
            },
        )
    }
}

/// The measures and fits of `t` are those of the given functions.
pub open spec fn draws_loops<S, D, T, A, B, L>(
    t: Tracer<S>,
    cfg: TraceConfig,
    dist: D,
    sharp: T,
    start: A,
    again: B,
    straight: L,
) -> bool where
    D: Fn(Pt, Pt, Pt) -> u64,
    T: Fn(Pt, Pt, Pt) -> bool,
    A: Fn(&[Pt], usize, usize) -> Fit<S>,
    B: Fn(&[Pt], usize, usize, &Fit<S>) -> Fit<S>,
    L: Fn(Pt, Pt) -> (Ptf, Ptf),
 {
    &&& computes_on(dist, t.dist)
    &&& turns(sharp, t.sharp)
    &&& fits(t.fit, start, again, straight)
    &&& t.fit.place == grid_place()
    &&& t.fit.tol == cfg.curve_error
    &&& t.fit.near == cfg.curve_near
}

/// The measures and fits may be asked for on any points.
pub open spec fn may_draw_loops<S, D, T, A, B, L>(
    dist: D,
    sharp: T,
    start: A,
    again: B,
    straight: L,
) -> bool where
    D: Fn(Pt, Pt, Pt) -> u64,
    T: Fn(Pt, Pt, Pt) -> bool,
    A: Fn(&[Pt], usize, usize) -> Fit<S>,
    B: Fn(&[Pt], usize, usize, &Fit<S>) -> Fit<S>,
    L: Fn(Pt, Pt) -> (Ptf, Ptf),
 {
    &&& forall|p: Pt, a: Pt, b: Pt| #[trigger] dist.requires((p, a, b))
    &&& may_turn(sharp)
    &&& may_fit(start, again, straight)
}

/// Draws one contour.
pub fn loop_subpath<S, D, T, A, B, L>(
    lp: &Vec<Pt>,
    cfg: &TraceConfig,
    dist: &D,
    sharp: &T,
    start: &A,
    again: &B,
    straight: &L,
) -> (r: Option<Subpath>) where
    D: Fn(Pt, Pt, Pt) -> u64,
    T: Fn(Pt, Pt, Pt) -> bool,
    A: Fn(&[Pt], usize, usize) -> Fit<S>,
    B: Fn(&[Pt], usize, usize, &Fit<S>) -> Fit<S>,
    L: Fn(Pt, Pt) -> (Ptf, Ptf),

    requires
        lp@.len() < usize::MAX,
        may_draw_loops(*dist, *sharp, *start, *again, *straight),
    ensures
        forall|t: Tracer<S>| #[trigger]
            draws_loops(t, *cfg, *dist, *sharp, *start, *again, *straight) ==> match r {
                None => loop_outline(t, *cfg, lp@) is None,
                Some(sp) => loop_outline(t, *cfg, lp@) == Some(sp@),
            },
{
    let simp = simplify_closed(lp.as_slice(), cfg.simplify, dist);
    let poly: &Vec<Pt> = if simp.len() >= 3 { &simp } else { lp };
    assert forall|t: Tracer<S>| #[trigger]
        draws_loops(t, *cfg, *dist, *sharp, *start, *again, *straight) implies poly@
        == drawn_loop(t, *cfg, lp@) by {
        assert(computes_on(*dist, t.dist));
    }
    if poly.len() < 3 {
        return None;
    }
    if cfg.curve && poly.len() >= 4 {
        let sp = fit_loop(
            poly.as_slice(),
            cfg.curve_error,
            cfg.curve_near,
            sharp,
            start,
            again,
            straight,
        );
        assert forall|t: Tracer<S>| #[trigger]
            draws_loops(t, *cfg, *dist, *sharp, *start, *again, *straight) implies loop_outline(
            t,
            *cfg,
            lp@,
        ) == Some(sp@) by {
            assert(turns(*sharp, t.sharp) && fits(t.fit, *start, *again, *straight));
        }
        Some(sp)
    } else {
        Some(polygon_subpath(poly.as_slice()))
    }
}

/// What is drawn for the first `count` contours of a component.
pub open spec fn loop_outlines<S>(
    t: Tracer<S>,
    cfg: TraceConfig,
    loops: Seq<Seq<Pt>>,
    count: int,
) -> Seq<Outline>
    decreases count,
{
    if count <= 0 {
        Seq::empty()
    } else {
        let rest = loop_outlines(t, cfg, loops, count - 1);
        match loop_outline(t, cfg, loops[count - 1]) {
            None => rest,
            Some(o) => rest.push(o),
        }
    }
}

/// The loops of a list of loops.
pub open spec fn loop_views(loops: Seq<Vec<Pt>>) -> Seq<Seq<Pt>> {
    loops.map_values(|lp: Vec<Pt>| lp@)
}

/// Draws the contours of one component.
fn loop_subpaths<S, D, T, A, B, L>(
    loops: &Vec<Vec<Pt>>,
    cfg: &TraceConfig,
    dist: &D,
    sharp: &T,
    start: &A,
    again: &B,
    straight: &L,
) -> (out: Vec<Subpath>) where
    D: Fn(Pt, Pt, Pt) -> u64,
    T: Fn(Pt, Pt, Pt) -> bool,
    A: Fn(&[Pt], usize, usize) -> Fit<S>,
    B: Fn(&[Pt], usize, usize, &Fit<S>) -> Fit<S>,
    L: Fn(Pt, Pt) -> (Ptf, Ptf),

    requires
        forall|i: int| 0 <= i < loops@.len() ==> (#[trigger] loops@[i])@.len() < usize::MAX,
        may_draw_loops(*dist, *sharp, *start, *again, *straight),
    ensures
        forall|t: Tracer<S>| #[trigger]
            draws_loops(t, *cfg, *dist, *sharp, *start, *again, *straight) ==> outlines(out@)
                == loop_outlines(t, *cfg, loop_views(loops@), loops@.len() as int),
{
    let mut out: Vec<Subpath> = Vec::new();
    let mut i: usize = 0;
    assert(outlines(out@) =~= Seq::empty());
    while i < loops.len()
        invariant
            i <= loops@.len(),
            forall|i: int| 0 <= i < loops@.len() ==> (#[trigger] loops@[i])@.len() < usize::MAX,
            may_draw_loops(*dist, *sharp, *start, *again, *straight),
            forall|t: Tracer<S>| #[trigger]
                draws_loops(t, *cfg, *dist, *sharp, *start, *again, *straight) ==> outlines(out@)
                    == loop_outlines(t, *cfg, loop_views(loops@), i as int),
        decreases loops@.len() - i,
    {
        let ghost before = out@;
        assert(loop_views(loops@)[i as int] == loops@[i as int]@);
        match loop_subpath(&loops[i], cfg, dist, sharp, start, again, straight) {
            None => {},
            Some(sp) => {
                out.push(sp);
                assert(outlines(out@) =~= outlines(before).push(sp@));
            },
        }
        i = i + 1;
    }
    out
}

/// The component of the largest area among the first `count` that are drawn (the
/// first one among equals); none where no such component has an area.
pub open spec fn largest_opaque(s: Components, count: int) -> Option<int>
    decreases count,
{
    if count <= 0 {
        None
    } else {
        let best = largest_opaque(s, count - 1);
        let c = count - 1;
        if s.colors[c] != 0 && s.areas[c] > best_area(s, best) {
            Some(c)
        } else {
            best
        }
    }
}

/// The area of a component, 0 for none.
pub open spec fn best_area(s: Components, best: Option<int>) -> int {
    match best {
        None => 0,
        Some(c) => s.areas[c] as int,
    }
}

/// The component that is laid down as a background.
pub open spec fn background_of(s: Components, wanted: bool) -> Option<int> {
    if wanted {
        largest_opaque(s, s.count)
    } else {
        None
    }
}

/// A segmentation of palette indices: every component has a colour and an area,
/// and a colour is one of the indices.
pub open spec fn segments(s: Components, idx: Seq<u32>) -> bool {
    &&& 0 <= s.count
    &&& s.colors.len() == s.count
    &&& s.areas.len() == s.count
    &&& forall|c: int|
        0 <= c < s.count && #[trigger] s.colors[c] != 0 ==> idx.contains(s.colors[c])
}

/// Chooses the background: the largest component that is drawn.
fn pick_background(seg: &Segmentation, wanted: bool) -> (bg: Option<usize>)
    requires
        seg@.colors.len() == seg@.count,
        seg@.areas.len() == seg@.count,
    ensures
        match bg {
            None => background_of(seg@, wanted) is None,
            Some(c) => background_of(seg@, wanted) == Some(c as int) && c < seg@.count
                && seg@.colors[c as int] != 0,
        },
{
    let mut bg: Option<usize> = None;
    if wanted {
        let mut best_area: u32 = 0;
        let mut c: usize = 0;
        while c < seg.num_components
            invariant
                seg@.colors.len() == seg@.count,
                seg@.areas.len() == seg@.count,
                c <= seg.num_components,
                match bg {
                    None => largest_opaque(seg@, c as int) is None && best_area == 0,
                    Some(b) => largest_opaque(seg@, c as int) == Some(b as int) && b < c
                        && best_area == seg@.areas[b as int] && seg@.colors[b as int] != 0,
                },
            decreases seg.num_components - c,
        {
            if seg.component_color[c] != 0 && seg.component_area[c] > best_area {
                best_area = seg.component_area[c];
                bg = Some(c);
            }
            c = c + 1;
        }
    }
    bg
}

/// What the first `count` components paint, the background left out.
pub open spec fn component_patches<S>(
    t: Tracer<S>,
    cfg: TraceConfig,
    s: Components,
    palette: Seq<int>,
    count: int,
) -> Seq<Patch>
    decreases count,
{
    if count <= 0 {
        Seq::empty()
    } else {
        let c = count - 1;
        let rest = component_patches(t, cfg, s, palette, c);
        let loops = (t.contours)(s, c);
        let drawn = loop_outlines(t, cfg, loops, loops.len() as int);
        if s.colors[c] == 0 || background_of(s, cfg.background) == Some(c) || drawn.len() == 0 {
            rest
        } else {
            rest.push(Patch { color: palette[s.colors[c] - 1], subpaths: drawn })
        }
    }
}

/// The colour of the background.
pub open spec fn background_color(
    s: Components,
    palette: Seq<int>,
    wanted: bool,
) -> Option<int> {
    match background_of(s, wanted) {
        None => None,
        Some(c) => Some(palette[s.colors[c] - 1]),
    }
}

/// The document that a raster is traced into. One without pixels, or with fewer
/// than its sides call for, gives the empty document.
pub open spec fn traced_document<S>(
    t: Tracer<S>,
    pixels: Seq<u8>,
    width: int,
    height: int,
    cfg: TraceConfig,
) -> Seq<char> {
    let n = width * height;
    if n == 0 || pixels.len() < n * 4 {
        document(width, height, None, Seq::empty())
    } else {
        let idx = indices_of(pixels, cfg.alpha_threshold, n);
        let palette = palette_of(pixels, cfg.alpha_threshold, n);
        let s = (t.segment)(idx, width, height, cfg.min_area);
        document(
            width,
            height,
            background_color(s, palette, cfg.background),
            component_patches(t, cfg, s, palette, s.count),
        )
    }
}

/// The components and contours of `t` are those of the given functions.
pub open spec fn finds_regions<S, G, K>(t: Tracer<S>, segment: G, contours: K) -> bool where
    G: Fn(&[u32], usize, usize, u32) -> Segmentation,
    K: Fn(&Segmentation, usize) -> Vec<Vec<Pt>>,
 {
    &&& forall|idx: &[u32], w: usize, h: usize, a: u32, s: Segmentation| #[trigger]
        segment.ensures((idx, w, h, a), s) ==> s@ == (t.segment)(idx@, w as int, h as int, a)
    &&& forall|s: &Segmentation, c: usize, loops: Vec<Vec<Pt>>| #[trigger]
        contours.ensures((s, c), loops) ==> loop_views(loops@) == (t.contours)(s@, c as int)
}

/// Components and contours may be asked for; components are those of the indices,
/// and a contour leaves room for one more vertex.
pub open spec fn may_find_regions<G, K>(segment: G, contours: K) -> bool where
    G: Fn(&[u32], usize, usize, u32) -> Segmentation,
    K: Fn(&Segmentation, usize) -> Vec<Vec<Pt>>,
 {
    &&& forall|idx: &[u32], w: usize, h: usize, a: u32|
        idx@.len() == w * h ==> #[trigger] segment.requires((idx, w, h, a))
    &&& forall|idx: &[u32], w: usize, h: usize, a: u32, s: Segmentation| #[trigger]
        segment.ensures((idx, w, h, a), s) ==> segments(s@, idx@)
    &&& forall|s: &Segmentation, c: usize|
        c < s.num_components ==> #[trigger] contours.requires((s, c))
    &&& forall|s: &Segmentation, c: usize, loops: Vec<Vec<Pt>>, i: int|
        #![trigger contours.ensures((s, c), loops), loops@[i]]
        contours.ensures((s, c), loops) && 0 <= i < loops@.len() ==> loops@[i]@.len() < usize::MAX
}

/// A palette index stands for a colour of the palette.
proof fn lemma_index_in_palette(pixels: Seq<u8>, alpha: u8, n: int, v: u32)
    requires
        0 <= n,
        indices_of(pixels, alpha, n).contains(v),
    ensures
        v <= palette_of(pixels, alpha, n).len(),
{
    lemma_palette(pixels, alpha, n);
    let pal = palette_of(pixels, alpha, n);
    let i = choose|i: int| 0 <= i < n && indices_of(pixels, alpha, n)[i] == v;
    if opaque_at(pixels, alpha, i) {
        lemma_color_in_palette(pixels, alpha, n, i);
        let k = choose|k: int| 0 <= k < pal.len() && pal[k] == color_at(pixels, i);
        lemma_place(pal, k);
    }
}

/// The palette holds the colour of every pixel that is drawn.
proof fn lemma_color_in_palette(pixels: Seq<u8>, alpha: u8, count: int, i: int)
    requires
        0 <= i < count,
        opaque_at(pixels, alpha, i),
    ensures
        palette_of(pixels, alpha, count).contains(color_at(pixels, i)),
    decreases count,
{
    let rest = palette_of(pixels, alpha, count - 1);
    let pal = palette_of(pixels, alpha, count);
    if i < count - 1 {
        lemma_color_in_palette(pixels, alpha, count - 1, i);
        let k = choose|k: int| 0 <= k < rest.len() && rest[k] == color_at(pixels, i);
        assert(pal[k] == color_at(pixels, i));
    } else if !rest.contains(color_at(pixels, i)) {
        assert(pal[pal.len() - 1] == color_at(pixels, i));
    }
}

/// Traces a colour-reduced RGBA buffer into a flat-colour SVG document.
pub fn trace_rgba<S, G, K, D, T, A, B, L>(
    pixels: &[u8],
    width: usize,
    height: usize,
    cfg: &TraceConfig,
    segment: &G,
    contours: &K,
    dist: &D,
    sharp: &T,
    start: &A,
    again: &B,
    straight: &L,
) -> (svg: String) where
    G: Fn(&[u32], usize, usize, u32) -> Segmentation,
    K: Fn(&Segmentation, usize) -> Vec<Vec<Pt>>,
    D: Fn(Pt, Pt, Pt) -> u64,
    T: Fn(Pt, Pt, Pt) -> bool,
    A: Fn(&[Pt], usize, usize) -> Fit<S>,
    B: Fn(&[Pt], usize, usize, &Fit<S>) -> Fit<S>,
    L: Fn(Pt, Pt) -> (Ptf, Ptf),

    requires
        width * height * 4 <= usize::MAX,
        may_find_regions(*segment, *contours),
        may_draw_loops(*dist, *sharp, *start, *again, *straight),
    ensures
        forall|t: Tracer<S>|
            #![trigger finds_regions(t, *segment, *contours)]
            finds_regions(t, *segment, *contours) && draws_loops(
                t,
                *cfg,
                *dist,
                *sharp,
                *start,
                *again,
                *straight,
            ) ==> svg@ == traced_document(t, pixels@, width as int, height as int, *cfg),
{
    let mut regions: Vec<Region> = Vec::new();
    assert(width * height * 4 <= usize::MAX ==> width * height <= usize::MAX);
    let n: usize = width * height;
    assert(patches(regions@) =~= Seq::empty());
    if n == 0 || pixels.len() < n * 4 {
        return to_svg(width, height, None, regions.as_slice());
    }
    let alpha: u8 = cfg.alpha_threshold;
    let (idx, palette): (Vec<u32>, Vec<[u8; 3]>) = palette_indices(pixels, n, alpha);
    let ghost pal = palette_of(pixels@, alpha, n as int);
    let seg: Segmentation = segment(idx.as_slice(), width, height, cfg.min_area);
    proof {
        assert(segments(seg@, idx@));
        assert forall|c: int| 0 <= c < seg@.count && #[trigger] seg@.colors[c] != 0 implies seg@.colors[c]
            <= palette@.len() by {
            lemma_index_in_palette(pixels@, alpha, n as int, seg@.colors[c]);
        }
    }
    let bg: Option<usize> = pick_background(&seg, cfg.background);
    let background: Option<[u8; 3]> = match bg {
        None => None,
        Some(c) => Some(palette[(seg.component_color[c] - 1) as usize]),
    };
    let mut c: usize = 0;
    while c < seg.num_components
        invariant
            c <= seg.num_components,
            seg@.colors.len() == seg@.count,
            seg@.areas.len() == seg@.count,
            palette@.len() == pal.len(),
            forall|k: int| 0 <= k < palette@.len() ==> color_key(#[trigger] palette@[k]) == pal[k],
            forall|c: int|
                0 <= c < seg@.count && #[trigger] seg@.colors[c] != 0 ==> seg@.colors[c]
                    <= palette@.len(),
            match bg {
                None => background_of(seg@, cfg.background) is None,
                Some(b) => background_of(seg@, cfg.background) == Some(b as int),
            },
            may_find_regions(*segment, *contours),
            may_draw_loops(*dist, *sharp, *start, *again, *straight),
            forall|t: Tracer<S>|
                #![trigger finds_regions(t, *segment, *contours)]
                finds_regions(t, *segment, *contours) && draws_loops(
                    t,
                    *cfg,
                    *dist,
                    *sharp,
                    *start,
                    *again,
                    *straight,
                ) ==> patches(regions@) == component_patches(t, *cfg, seg@, pal, c as int),
        decreases seg.num_components - c,
    {
        let color_index: u32 = seg.component_color[c];
        let is_background: bool = match bg {
            None => false,
            Some(b) => b == c,
        };
        if color_index != 0 && !is_background {
            let color: [u8; 3] = palette[(color_index - 1) as usize];
            let loops: Vec<Vec<Pt>> = contours(&seg, c);
            let subpaths = loop_subpaths(&loops, cfg, dist, sharp, start, again, straight);
            let ghost before = regions@;
            let ghost drawn = outlines(subpaths@);
            assert(drawn.len() == subpaths@.len());
            if subpaths.len() > 0 {
                regions.push(Region { color, subpaths });
                assert(patches(regions@) =~= patches(before).push(
                    Patch { color: pal[color_index - 1], subpaths: drawn },
                ));
            }
            assert forall|t: Tracer<S>|
                #![trigger finds_regions(t, *segment, *contours)]
                finds_regions(t, *segment, *contours) && draws_loops(
                    t,
                    *cfg,
                    *dist,
                    *sharp,
                    *start,
                    *again,
                    *straight,
                ) implies patches(regions@) == component_patches(
                t,
                *cfg,
                seg@,
                pal,
                c + 1,
            ) by {
                assert(loop_views(loops@) == (t.contours)(seg@, c as int));
                assert(loop_views(loops@).len() == loops@.len());
                assert(drawn == loop_outlines(
                    t,
                    *cfg,
                    loop_views(loops@),
                    loops@.len() as int,
                ));
            }
        }
        c = c + 1;
    }
    to_svg(width, height, background, regions.as_slice())
}

/// Palette indices are faithful: that of a pixel that is drawn names its colour,
/// so two such pixels have one index exactly where they have one colour.
pub proof fn law_indices_name_colors(pixels: Seq<u8>, alpha: u8, n: int, i: int, j: int)
    requires
        0 <= i < n,
        0 <= j < n,
        opaque_at(pixels, alpha, i),
        opaque_at(pixels, alpha, j),
    ensures
        ({
            let idx = indices_of(pixels, alpha, n);
            let palette = palette_of(pixels, alpha, n);
            &&& 0 < idx[i] <= palette.len()
            &&& palette[idx[i] - 1] == color_at(pixels, i)
            &&& idx[i] == idx[j] <==> color_at(pixels, i) == color_at(pixels, j)
        }),
{
    lemma_palette(pixels, alpha, n);
    lemma_color_in_palette(pixels, alpha, n, i);
    lemma_color_in_palette(pixels, alpha, n, j);
    let palette = palette_of(pixels, alpha, n);
    let a = choose|a: int| 0 <= a < palette.len() && palette[a] == color_at(pixels, i);
    let b = choose|b: int| 0 <= b < palette.len() && palette[b] == color_at(pixels, j);
    lemma_place(palette, a);
    lemma_place(palette, b);
}

/// The palette lists the colours of the pixels that are drawn, each once.
pub proof fn law_palette_is_that_of_drawn_pixels(pixels: Seq<u8>, alpha: u8, n: int, color: int)
    requires
        0 <= n,
    ensures
        palette_of(pixels, alpha, n).no_duplicates(),
        palette_of(pixels, alpha, n).contains(color) <==> exists|i: int|
            0 <= i < n && opaque_at(pixels, alpha, i) && color_at(pixels, i) == color,
    decreases n,
{
    lemma_palette(pixels, alpha, n);
    if n > 0 {
        law_palette_is_that_of_drawn_pixels(pixels, alpha, n - 1, color);
        let rest = palette_of(pixels, alpha, n - 1);
        let palette = palette_of(pixels, alpha, n);
        if palette.contains(color) {
            let k = choose|k: int| 0 <= k < palette.len() && palette[k] == color;
            if k < rest.len() {
                assert(rest[k] == color);
                let i = choose|i: int|
                    0 <= i < n - 1 && opaque_at(pixels, alpha, i) && color_at(pixels, i) == color;
                assert(0 <= i < n && opaque_at(pixels, alpha, i) && color_at(pixels, i) == color);
            } else {
                assert(opaque_at(pixels, alpha, n - 1) && color_at(pixels, n - 1) == color);
            }
        }
        if exists|i: int|
            0 <= i < n && opaque_at(pixels, alpha, i) && color_at(pixels, i) == color {
            let i = choose|i: int|
                0 <= i < n && opaque_at(pixels, alpha, i) && color_at(pixels, i) == color;
            lemma_color_in_palette(pixels, alpha, n, i);
        }
    }
}

/// The background is the largest component that is drawn, the first one among
/// equals; there is none only where no component that is drawn has an area.
pub proof fn law_background_is_the_largest(s: Components, count: int, c: int)
    requires
        0 <= c < count,
        s.colors[c] != 0,
    ensures
        match largest_opaque(s, count) {
            None => s.areas[c] == 0,
            Some(b) => {
                &&& 0 <= b < count
                &&& s.colors[b] != 0
                &&& s.areas[c] <= s.areas[b]
                &&& c < b ==> s.areas[c] < s.areas[b]
            },
        },
    decreases count,
{
    if c < count - 1 {
        law_background_is_the_largest(s, count - 1, c);
    } else {
        lemma_largest_in_range(s, count - 1);
    }
}

proof fn lemma_largest_in_range(s: Components, count: int)
    ensures
        largest_opaque(s, count) matches Some(b) ==> 0 <= b < count && s.colors[b] != 0
            && s.areas[b] > 0,
    decreases count,
{
    if count > 0 {
        lemma_largest_in_range(s, count - 1);
    }
}

/// Simplification never collapses a real loop to nothing: a contour of at least
/// three vertices is drawn, with at least three of them.
pub proof fn law_real_loops_are_drawn<S>(t: Tracer<S>, cfg: TraceConfig, lp: Seq<Pt>)
    requires
        lp.len() >= 3,
    ensures
        drawn_loop(t, cfg, lp).len() >= 3,
        loop_outline(t, cfg, lp) is Some,
{
}

/// Only opaque components are drawn, and not the background: every patch is that
/// of such a component, in its colour and along its contours.
pub proof fn law_patches_are_of_opaque_components<S>(
    t: Tracer<S>,
    cfg: TraceConfig,
    s: Components,
    palette: Seq<int>,
    count: int,
    k: int,
) -> (c: int)
    requires
        0 <= k < component_patches(t, cfg, s, palette, count).len(),
    ensures
        0 <= c < count,
        s.colors[c] != 0,
        background_of(s, cfg.background) != Some(c),
        component_patches(t, cfg, s, palette, count)[k] == (Patch {
            color: palette[s.colors[c] - 1],
            subpaths: loop_outlines(t, cfg, (t.contours)(s, c), (t.contours)(s, c).len() as int),
        }),
    decreases count,
{
    let rest = component_patches(t, cfg, s, palette, count - 1);
    if k < rest.len() {
        law_patches_are_of_opaque_components(t, cfg, s, palette, count - 1, k)
    } else {
        count - 1
    }
}

/// Pixel `i` is drawn alike in two rasters: transparent in both, or drawn in both
/// with the same colour.
pub open spec fn drawn_alike(p: Seq<u8>, q: Seq<u8>, alpha: u8, i: int) -> bool {
    &&& opaque_at(p, alpha, i) == opaque_at(q, alpha, i)
    &&& opaque_at(p, alpha, i) ==> color_at(p, i) == color_at(q, i)
}

/// A trace depends on nothing but which pixels are drawn and in which colours: not
/// on how far an alpha is above the threshold or below it, not on the colours of
/// transparent pixels, and not on bytes past the last pixel.
pub proof fn law_trace_is_that_of_drawn_pixels<S>(
    t: Tracer<S>,
    p: Seq<u8>,
    q: Seq<u8>,
    width: int,
    height: int,
    cfg: TraceConfig,
)
    requires
        0 <= width * height,
        p.len() >= width * height * 4,
        q.len() >= width * height * 4,
        forall|i: int|
            0 <= i < width * height ==> #[trigger] drawn_alike(p, q, cfg.alpha_threshold, i),
    ensures
        traced_document(t, p, width, height, cfg) == traced_document(t, q, width, height, cfg),
{
    let n = width * height;
    let alpha = cfg.alpha_threshold;
    lemma_same_palette(p, q, alpha, n);
    assert forall|i: int| 0 <= i < n implies index_at(p, alpha, n, i) == #[trigger] index_at(
        q,
        alpha,
        n,
        i,
    ) by {
        assert(drawn_alike(p, q, alpha, i));
    }
    assert(indices_of(p, alpha, n) =~= indices_of(q, alpha, n));
}

proof fn lemma_same_palette(p: Seq<u8>, q: Seq<u8>, alpha: u8, count: int)
    requires
        forall|i: int| 0 <= i < count ==> #[trigger] drawn_alike(p, q, alpha, i),
    ensures
        palette_of(p, alpha, count) == palette_of(q, alpha, count),
    decreases count,
{
    if count > 0 {
        lemma_same_palette(p, q, alpha, count - 1);
        assert(drawn_alike(p, q, alpha, count - 1));
    }
}

proof fn lemma_drawn_loops<S>(t: Tracer<S>, cfg: TraceConfig, loops: Seq<Seq<Pt>>, count: int)
    requires
        0 <= count <= loops.len(),
    ensures
        loop_outlines(t, cfg, loops, count) == loops.take(count).filter(
            |lp: Seq<Pt>| lp.len() >= 3,
        ).map_values(|lp: Seq<Pt>| loop_outline(t, cfg, lp).unwrap()),
    decreases count,
{
    let wide = |lp: Seq<Pt>| lp.len() >= 3;
    let drawn = |lp: Seq<Pt>| loop_outline(t, cfg, lp).unwrap();
    reveal(Seq::filter);
    if count == 0 {
        assert(loops.take(0).filter(wide).map_values(drawn) =~= Seq::empty());
    } else {
        lemma_drawn_loops(t, cfg, loops, count - 1);
        let lp = loops[count - 1];
        assert(loops.take(count).drop_last() =~= loops.take(count - 1));
        assert(loops.take(count).last() == lp);
        assert(loop_outline(t, cfg, lp) is Some <==> lp.len() >= 3);
        assert(loop_outlines(t, cfg, loops, count) =~= loops.take(count).filter(wide).map_values(
            drawn,
        ));
    }
}

/// What the contours of a component draw: each contour of three or more vertices, in
/// their order, and nothing else.
pub proof fn law_every_contour_is_drawn<S>(t: Tracer<S>, cfg: TraceConfig, loops: Seq<Seq<Pt>>)
    ensures
        loop_outlines(t, cfg, loops, loops.len() as int) == loops.filter(
            |lp: Seq<Pt>| lp.len() >= 3,
        ).map_values(|lp: Seq<Pt>| loop_outline(t, cfg, lp).unwrap()),
        forall|lp: Seq<Pt>| #[trigger] loop_outline(t, cfg, lp) is Some <==> lp.len() >= 3,
{
    lemma_drawn_loops(t, cfg, loops, loops.len() as int);
    assert(loops.take(loops.len() as int) =~= loops);
}

/// A component has a contour that can be drawn.
spec fn has_real_contour<S>(t: Tracer<S>, s: Components, c: int) -> bool {
    exists|j: int| 0 <= j < (t.contours)(s, c).len() && (#[trigger] (t.contours)(s, c)[j]).len() >= 3
}

proof fn lemma_some_contour<S>(t: Tracer<S>, cfg: TraceConfig, s: Components, c: int)
    ensures
        loop_outlines(t, cfg, (t.contours)(s, c), (t.contours)(s, c).len() as int).len() > 0
            <==> has_real_contour(t, s, c),
{
    let loops = (t.contours)(s, c);
    lemma_some_loop(t, cfg, loops, loops.len() as int);
}

proof fn lemma_some_loop<S>(t: Tracer<S>, cfg: TraceConfig, loops: Seq<Seq<Pt>>, count: int)
    requires
        0 <= count <= loops.len(),
    ensures
        loop_outlines(t, cfg, loops, count).len() > 0 <==> exists|j: int|
            0 <= j < count && (#[trigger] loops[j]).len() >= 3,
    decreases count,
{
    if count > 0 {
        lemma_some_loop(t, cfg, loops, count - 1);
        assert(loop_outline(t, cfg, loops[count - 1]) is Some <==> loops[count - 1].len() >= 3);
        if loop_outlines(t, cfg, loops, count - 1).len() > 0 {
            let j = choose|j: int| 0 <= j < count - 1 && (#[trigger] loops[j]).len() >= 3;
            assert(loops[j].len() >= 3);
        }
    }
}

/// The components among the first `count` that have a patch.
proof fn lemma_patched<S>(
    t: Tracer<S>,
    cfg: TraceConfig,
    s: Components,
    palette: Seq<int>,
    count: int,
) -> (drawn: Seq<int>)
    requires
        0 <= count,
    ensures
        forall|i: int, j: int| 0 <= i < j < drawn.len() ==> drawn[i] < drawn[j],
        forall|c: int| #[trigger]
            drawn.contains(c) <==> 0 <= c < count && s.colors[c] != 0 && background_of(
                s,
                cfg.background,
            ) != Some(c) && has_real_contour(t, s, c),
        component_patches(t, cfg, s, palette, count) == drawn.map_values(
            |c: int|
                Patch {
                    color: palette[s.colors[c] - 1],
                    subpaths: loop_outlines(
                        t,
                        cfg,
                        (t.contours)(s, c),
                        (t.contours)(s, c).len() as int,
                    ),
                },
        ),
    decreases count,
{
    let patch = |c: int|
        Patch {
            color: palette[s.colors[c] - 1],
            subpaths: loop_outlines(t, cfg, (t.contours)(s, c), (t.contours)(s, c).len() as int),
        };
    if count == 0 {
        let drawn = Seq::<int>::empty();
        assert(component_patches(t, cfg, s, palette, count) =~= drawn.map_values(patch));
        drawn
    } else {
        let rest = lemma_patched(t, cfg, s, palette, count - 1);
        let c = count - 1;
        lemma_some_contour(t, cfg, s, c);
        assert forall|i: int| 0 <= i < rest.len() implies #[trigger] rest[i] < c by {
            assert(rest.contains(rest[i]));
        }
        if s.colors[c] == 0 || background_of(s, cfg.background) == Some(c) || !has_real_contour(
            t,
            s,
            c,
        ) {
            rest
        } else {
            let drawn = rest.push(c);
            assert forall|k: int| #[trigger] drawn.contains(k) <==> 0 <= k < count && s.colors[k]
                != 0 && background_of(s, cfg.background) != Some(k) && has_real_contour(
                t,
                s,
                k,
            ) by {
                if drawn.contains(k) {
                    let i = choose|i: int| 0 <= i < drawn.len() && drawn[i] == k;
                    if i < rest.len() {
                        assert(rest.contains(rest[i]));
                    }
                }
                if rest.contains(k) {
                    let i = choose|i: int| 0 <= i < rest.len() && rest[i] == k;
                    assert(drawn[i] == k);
                }
                if k == c {
                    assert(drawn[rest.len() as int] == c);
                }
            }
            assert(component_patches(t, cfg, s, palette, count) =~= drawn.map_values(patch));
            drawn
        }
    }
}

/// A trace, in full. The background, if one is wanted, is the largest component that
/// is drawn, the first one among equals. Every other component with a colour and with a
/// contour of three or more vertices has a patch of its own, however many contours it
/// has, and nothing else has one: the patches come in the order of the components, each
/// in the colour of its component, along each of its contours of three or more
/// vertices. The document is that of the background's colour and of these patches.
pub proof fn law_trace_draws_every_component<S>(
    t: Tracer<S>,
    pixels: Seq<u8>,
    width: int,
    height: int,
    cfg: TraceConfig,
) -> (r: (Option<int>, Seq<int>))
    requires
        0 < width * height,
        pixels.len() >= width * height * 4,
        (t.segment)(
            indices_of(pixels, cfg.alpha_threshold, width * height),
            width,
            height,
            cfg.min_area,
        ).count >= 0,
    ensures
        ({
            let n = width * height;
            let palette = palette_of(pixels, cfg.alpha_threshold, n);
            let s = (t.segment)(
                indices_of(pixels, cfg.alpha_threshold, n),
                width,
                height,
                cfg.min_area,
            );
            let (back, drawn) = r;
            &&& !cfg.background ==> back is None
            &&& cfg.background ==> match back {
                None => forall|c: int|
                    0 <= c < s.count && #[trigger] s.colors[c] != 0 ==> s.areas[c] == 0,
                Some(b) => {
                    &&& 0 <= b < s.count
                    &&& s.colors[b] != 0
                    &&& s.areas[b] > 0
                    &&& forall|c: int|
                        0 <= c < s.count && #[trigger] s.colors[c] != 0 ==> s.areas[c]
                            <= s.areas[b] && (c < b ==> s.areas[c] < s.areas[b])
                },
            }
            &&& forall|i: int, j: int| 0 <= i < j < drawn.len() ==> drawn[i] < drawn[j]
            &&& forall|c: int| #[trigger]
                drawn.contains(c) <==> 0 <= c < s.count && s.colors[c] != 0 && back != Some(c)
                    && exists|j: int|
                    0 <= j < (t.contours)(s, c).len() && (#[trigger] (t.contours)(s, c)[j]).len()
                        >= 3
            &&& traced_document(t, pixels, width, height, cfg) == document(
                width,
                height,
                match back {
                    None => None,
                    Some(b) => Some(palette[s.colors[b] - 1]),
                },
                drawn.map_values(
                    |c: int|
                        Patch {
                            color: palette[s.colors[c] - 1],
                            subpaths: (t.contours)(s, c).filter(
                                |lp: Seq<Pt>| lp.len() >= 3,
                            ).map_values(|lp: Seq<Pt>| loop_outline(t, cfg, lp).unwrap()),
                        },
                ),
            )
        }),
{
    let n = width * height;
    let palette = palette_of(pixels, cfg.alpha_threshold, n);
    let s = (t.segment)(
        indices_of(pixels, cfg.alpha_threshold, n),
        width,
        height,
        cfg.min_area,
    );
    let back = background_of(s, cfg.background);
    let drawn = lemma_patched(t, cfg, s, palette, s.count);
    if cfg.background {
        lemma_largest_in_range(s, s.count);
        assert forall|c: int| 0 <= c < s.count && #[trigger] s.colors[c] != 0 implies match back {
            None => s.areas[c] == 0,
            Some(b) => s.areas[c] <= s.areas[b] && (c < b ==> s.areas[c] < s.areas[b]),
        } by {
            law_background_is_the_largest(s, s.count, c);
        }
    }
    let patch = |c: int|
        Patch {
            color: palette[s.colors[c] - 1],
            subpaths: (t.contours)(s, c).filter(|lp: Seq<Pt>| lp.len() >= 3).map_values(
                |lp: Seq<Pt>| loop_outline(t, cfg, lp).unwrap(),
            ),
        };
    let patches = component_patches(t, cfg, s, palette, s.count);
    assert forall|k: int| 0 <= k < drawn.len() implies patches[k] == #[trigger] drawn.map_values(
        patch,
    )[k] by {
        law_every_contour_is_drawn(t, cfg, (t.contours)(s, drawn[k]));
    }
    assert(patches =~= drawn.map_values(patch));
    (back, drawn)
}

/// A raster without pixels, or with fewer than its sides call for, gives a document
/// that draws nothing.
pub proof fn law_empty_raster_draws_nothing<S>(
    t: Tracer<S>,
    pixels: Seq<u8>,
    width: int,
    height: int,
    cfg: TraceConfig,
)
    requires
        width * height == 0 || pixels.len() < width * height * 4,
    ensures
        traced_document(t, pixels, width, height, cfg) == document(
            width,
            height,
            None,
            Seq::empty(),
        ),
{
}

/// Every contour of three or more vertices of every component that is drawn stands in
/// the document, unless the component has the colour of the background: in the path data
/// of the element that is filled with the component's colour.
pub proof fn law_every_contour_is_in_the_document<S>(
    t: Tracer<S>,
    pixels: Seq<u8>,
    width: int,
    height: int,
    cfg: TraceConfig,
    c: int,
    j: int,
) -> (r: (Seq<char>, Seq<char>, Seq<char>, Seq<char>))
    requires
        0 < width * height,
        pixels.len() >= width * height * 4,
        ({
            let n = width * height;
            let idx = indices_of(pixels, cfg.alpha_threshold, n);
            let palette = palette_of(pixels, cfg.alpha_threshold, n);
            let s = (t.segment)(idx, width, height, cfg.min_area);
            &&& segments(s, idx)
            &&& 0 <= c < s.count
            &&& s.colors[c] != 0
            &&& 0 <= j < (t.contours)(s, c).len()
            &&& (t.contours)(s, c)[j].len() >= 3
            &&& loop_outline(t, cfg, (t.contours)(s, c)[j]).unwrap().segs.len() >= 2
            &&& background_of(s, cfg.background) != Some(c)
            &&& background_color(s, palette, cfg.background) != Some(palette[s.colors[c] - 1])
        }),
    ensures
        ({
            let n = width * height;
            let palette = palette_of(pixels, cfg.alpha_threshold, n);
            let s = (t.segment)(
                indices_of(pixels, cfg.alpha_threshold, n),
                width,
                height,
                cfg.min_area,
            );
            traced_document(t, pixels, width, height, cfg) == r.0 + ("<path d=\""@ + (r.1
                + subpath_text(loop_outline(t, cfg, (t.contours)(s, c)[j]).unwrap()) + r.2)
                + "\" fill=\""@ + key_text(palette[s.colors[c] - 1])
                + "\" fill-rule=\"nonzero\"/>\n"@) + r.3
        }),
{
    let n = width * height;
    let alpha = cfg.alpha_threshold;
    let idx = indices_of(pixels, alpha, n);
    let palette = palette_of(pixels, alpha, n);
    let s = (t.segment)(idx, width, height, cfg.min_area);
    let loops = (t.contours)(s, c);
    let drawn = lemma_patched(t, cfg, s, palette, s.count);
    assert(has_real_contour(t, s, c)) by {
        assert(loops[j].len() >= 3);
    }
    assert(drawn.contains(c));
    let k = choose|k: int| 0 <= k < drawn.len() && drawn[k] == c;
    let patches = component_patches(t, cfg, s, palette, s.count);
    let o = loop_outline(t, cfg, loops[j]).unwrap();
    let at = lemma_outline_listed(t, cfg, loops, loops.len() as int, j);
    assert(patches[k].subpaths[at] == o);
    lemma_index_in_palette(pixels, alpha, n, s.colors[c]);
    lemma_palette(pixels, alpha, n);
    law_every_subpath_is_in_the_document(
        width,
        height,
        background_color(s, palette, cfg.background),
        patches,
        k,
        at,
    )
}

proof fn lemma_outline_listed<S>(
    t: Tracer<S>,
    cfg: TraceConfig,
    loops: Seq<Seq<Pt>>,
    count: int,
    j: int,
) -> (at: int)
    requires
        0 <= j < count <= loops.len(),
        loops[j].len() >= 3,
    ensures
        0 <= at < loop_outlines(t, cfg, loops, count).len(),
        loop_outlines(t, cfg, loops, count)[at] == loop_outline(t, cfg, loops[j]).unwrap(),
    decreases count,
{
    let rest = loop_outlines(t, cfg, loops, count - 1);
    let all = loop_outlines(t, cfg, loops, count);
    if j == count - 1 {
        assert(loop_outline(t, cfg, loops[j]) is Some);
        all.len() - 1
    } else {
        let at = lemma_outline_listed(t, cfg, loops, count - 1, j);
        assert(all[at] == rest[at]);
        at
    }
}

/// The outline of a contour without curves, or with too few vertices for them, in full: a
/// polygon through three or more of its vertices, in their order and from the first one
/// on, each drawn where it is. These are the vertices that simplification leaves, where it
/// leaves three or more, and else all. With a tolerance, a vertex that is left out lies
/// within it of the side between the vertices that are drawn on either side; without one,
/// all vertices are drawn.
pub proof fn law_polygon_follows_the_contour<S>(
    t: Tracer<S>,
    cfg: TraceConfig,
    lp: Seq<Pt>,
) -> (at: Seq<int>)
    requires
        3 <= lp.len() < usize::MAX,
        !cfg.curve || drawn_loop(t, cfg, lp).len() < 4,
    ensures
        ({
            let o = loop_outline(t, cfg, lp).unwrap();
            let ring = lp.push(lp[0]);
            let n = lp.len() as int;
            &&& at.len() >= 3
            &&& at[0] == 0
            &&& forall|k: int| 0 <= k < at.len() ==> 0 <= #[trigger] at[k] < n
            &&& forall|i: int, j: int| 0 <= i < j < at.len() ==> at[i] < at[j]
            &&& o.start == ((lp[0].0 * 100) as i128, (lp[0].1 * 100) as i128)
            &&& o.segs.len() == at.len() - 1
            &&& forall|k: int|
                1 <= k < at.len() ==> o.segs[k - 1] == Seg::Line(
                    ((lp[#[trigger] at[k]].0 * 100) as i128, (lp[at[k]].1 * 100) as i128),
                )
            &&& cfg.simplify is None ==> at.len() == n
            &&& simplified(t.dist, lp, cfg.simplify).len() < 3 ==> at.len() == n
            &&& simplified(t.dist, lp, cfg.simplify).len() >= 3 ==> {
                &&& at.len() == simplified(t.dist, lp, cfg.simplify).len()
                &&& forall|k: int|
                    0 <= k < at.len() ==> lp[#[trigger] at[k]] == simplified(
                        t.dist,
                        lp,
                        cfg.simplify,
                    )[k]
            }
            &&& at.len() != n && cfg.simplify is Some ==> forall|k: int, p: int|
                #![trigger at[k], ring[p]]
                0 <= k < at.len() && at[k] < p < (if k + 1 < at.len() {
                    at[k + 1]
                } else {
                    n
                }) ==> (t.dist)(
                    ring[p],
                    ring[at[k]],
                    ring[if k + 1 < at.len() {
                        at[k + 1]
                    } else {
                        n
                    }],
                ) <= cfg.simplify.unwrap()
        }),
{
    let n = lp.len() as int;
    let simp = simplified(t.dist, lp, cfg.simplify);
    let kept = law_loop_is_simplified(t.dist, lp, cfg.simplify);
    let at = if simp.len() >= 3 {
        kept
    } else {
        Seq::new(n as nat, |k: int| k)
    };
    let poly = drawn_loop(t, cfg, lp);
    let o = loop_outline(t, cfg, lp).unwrap();
    assert(poly.len() == at.len());
    assert forall|k: int| 0 <= k < at.len() implies poly[k] == lp[#[trigger] at[k]] by {}
    assert forall|k: int| 1 <= k < at.len() implies o.segs[k - 1] == Seg::Line(
        ((lp[#[trigger] at[k]].0 * 100) as i128, (lp[at[k]].1 * 100) as i128),
    ) by {
        assert(poly[k] == lp[at[k]]);
    }
    at
}

/// The outline of a contour with curves: the vertices that are left of the contour,
/// without repetitions, are fitted from sharp turn to sharp turn. The curve follows all
/// of them, once around, and stops at every sharp turn.
pub proof fn law_curve_follows_the_contour<S>(
    t: Tracer<S>,
    cfg: TraceConfig,
    lp: Seq<Pt>,
    i: int,
) -> (stops: Seq<int>)
    requires
        3 <= lp.len() < usize::MAX,
        cfg.curve,
        drawn_loop(t, cfg, lp).len() >= 4,
        4 <= without_zero_edges(drawn_loop(t, cfg, lp)).len() <= usize::MAX,
        0 <= i < without_zero_edges(drawn_loop(t, cfg, lp)).len(),
    ensures
        ({
            let o = loop_outline(t, cfg, lp).unwrap();
            let pts = without_zero_edges(drawn_loop(t, cfg, lp));
            let n = pts.len() as int;
            let sharp = |v: int|
                (t.sharp)(
                    pts[if v > 0 {
                        v - 1
                    } else {
                        n - 1
                    }],
                    pts[v],
                    pts[if v < n - 1 {
                        v + 1
                    } else {
                        0
                    }],
                );
            &&& stops.len() == o.segs.len() + 1
            &&& 0 <= stops[0] < n
            &&& stops.last() == stops[0] + n
            &&& o.start == (t.fit.place)(pts[stops[0]])
            &&& forall|k: int|
                0 <= k < o.segs.len() ==> #[trigger] leads_on(t.fit.place, pts, stops, o.segs, k)
            &&& sharp(i) ==> stops.contains(i)
        }),
{
    let pts = without_zero_edges(drawn_loop(t, cfg, lp));
    let n = pts.len() as int;
    let corners = raised(corner_flags(t.sharp, pts));
    law_corners_are_the_sharp_turns(t.sharp, pts, i);
    let stops = law_fitted_loop_follows_every_vertex(t.fit, pts, corners);
    if corners.contains(i as usize) {
        let k = choose|k: int| 0 <= k < corners.len() && corners[k] == i as usize;
        assert(stops.contains(corners[k] as int));
        assert(corners[k] as int == i);
    }
    let o = loop_outline(t, cfg, lp).unwrap();
    assert(o.segs == loop_segs(t.fit, pts, corners));
    assert(o.start == loop_start(t.fit, pts, corners));
    assert(0 <= stops[0] < n);
    assert(stops.len() == o.segs.len() + 1);
    assert(stops.last() == stops[0] + n);
    assert(o.start == (t.fit.place)(pts[stops[0]]));
    let sharp = |v: int|
        (t.sharp)(
            pts[if v > 0 {
                v - 1
            } else {
                n - 1
            }],
            pts[v],
            pts[if v < n - 1 {
                v + 1
            } else {
                0
            }],
        );
    assert(sharp(i) ==> corners.contains(i as usize));
    assert(sharp(i) ==> stops.contains(i));
    stops
}

/// Palette indices follow the pixels: that of a pixel whose alpha is at or below the
/// threshold is 0, and that of any other names the place of its colour in the palette,
/// counted from 1. Colours take their places in the order in which they first appear.
pub proof fn law_indices_follow_the_pixels(pixels: Seq<u8>, alpha: u8, n: int, i: int, k: int)
    requires
        0 <= i < n,
    ensures
        ({
            let idx = indices_of(pixels, alpha, n);
            let palette = palette_of(pixels, alpha, n);
            &&& idx.len() == n
            &&& pixels[i * 4 + 3] <= alpha ==> idx[i] == 0
            &&& pixels[i * 4 + 3] > alpha ==> 0 < idx[i] <= palette.len() && palette[idx[i] - 1]
                == pixels[i * 4] * 0x1_0000 + pixels[i * 4 + 1] * 0x100 + pixels[i * 4 + 2]
            &&& pixels[i * 4 + 3] > alpha && 0 <= k < idx[i] - 1 ==> exists|j: int|
                0 <= j < i && opaque_at(pixels, alpha, j) && #[trigger] color_at(pixels, j)
                    == palette[k]
        }),
{
    let idx = indices_of(pixels, alpha, n);
    let palette = palette_of(pixels, alpha, n);
    if opaque_at(pixels, alpha, i) {
        law_indices_name_colors(pixels, alpha, n, i, i);
        if 0 <= k < idx[i] - 1 {
            lemma_palette(pixels, alpha, n);
            lemma_palette_grows(pixels, alpha, i + 1, n);
            lemma_color_in_palette(pixels, alpha, i + 1, i);
            let early = palette_of(pixels, alpha, i + 1);
            let before = palette_of(pixels, alpha, i);
            let a = choose|a: int| 0 <= a < early.len() && early[a] == color_at(pixels, i);
            assert(palette[a] == color_at(pixels, i));
            lemma_place(palette, a);
            assert(k < a);
            assert(before[k] == early[k]);
            law_palette_is_that_of_drawn_pixels(pixels, alpha, i, palette[k]);
            assert(before.contains(palette[k]));
        }
    }
}

/// The outline of a contour with curves, in full: the vertices that are left of the contour,
/// without repetitions, fitted as a loop whose corners are the sharp turns, all of them and
/// no other vertex, in their order.
pub proof fn law_curve_is_fitted_between_sharp_turns<S>(
    t: Tracer<S>,
    cfg: TraceConfig,
    lp: Seq<Pt>,
) -> (corners: Seq<usize>)
    requires
        cfg.curve,
        drawn_loop(t, cfg, lp).len() >= 4,
        3 <= without_zero_edges(drawn_loop(t, cfg, lp)).len() <= usize::MAX,
    ensures
        ({
            let o = loop_outline(t, cfg, lp);
            let pts = without_zero_edges(drawn_loop(t, cfg, lp));
            let n = pts.len() as int;
            &&& o is Some
            &&& o.unwrap().start == loop_start(t.fit, pts, corners)
            &&& o.unwrap().segs == loop_segs(t.fit, pts, corners)
            &&& forall|i: int, j: int| 0 <= i < j < corners.len() ==> corners[i] < corners[j]
            &&& forall|k: int| 0 <= k < corners.len() ==> #[trigger] corners[k] < n
            &&& forall|v: int|
                0 <= v < n ==> (#[trigger] corners.contains(v as usize) <==> (t.sharp)(
                    pts[if v > 0 {
                        v - 1
                    } else {
                        n - 1
                    }],
                    pts[v],
                    pts[if v < n - 1 {
                        v + 1
                    } else {
                        0
                    }],
                ))
        }),
{
    let pts = without_zero_edges(drawn_loop(t, cfg, lp));
    let n = pts.len() as int;
    let corners = raised(corner_flags(t.sharp, pts));
    law_corners_are_the_sharp_turns(t.sharp, pts, 0);
    assert forall|v: int| 0 <= v < n implies (#[trigger] corners.contains(v as usize) <==> (
    t.sharp)(
        pts[if v > 0 {
            v - 1
        } else {
            n - 1
        }],
        pts[v],
        pts[if v < n - 1 {
            v + 1
        } else {
            0
        }],
    )) by {
        law_corners_are_the_sharp_turns(t.sharp, pts, v);
    }
    corners
}

/// What is drawn of a contour, with curves or without: what simplification leaves of it,
/// where that is three vertices or more, and else the contour as it is.
pub proof fn law_contour_is_simplified_if_enough_is_left<S>(
    t: Tracer<S>,
    cfg: TraceConfig,
    lp: Seq<Pt>,
)
    ensures
        simplified(t.dist, lp, cfg.simplify).len() >= 3 ==> drawn_loop(t, cfg, lp) == simplified(
            t.dist,
            lp,
            cfg.simplify,
        ),
        simplified(t.dist, lp, cfg.simplify).len() < 3 ==> drawn_loop(t, cfg, lp) == lp,
{
}

} // verus!
