//! Curve fitting: cubic Bezier curves along contour loops, by Schneider's
//! algorithm ("An Algorithm for Automatically Fitting Digitized Curves").
//!
//! A loop is cut into open spans at its corners, so that genuine corners stay
//! crisp. A span is fitted with one cubic; where that fit is not within the
//! tolerance it is refined a few times if it came close, and otherwise the span is
//! cut at its worst point and both parts are fitted.
//!
//! The fits themselves come from the caller, with their errors as order keys (see
//! the crate documentation). What is decided here is where a loop is cut, which
//! fit is taken and what is drawn.

use vstd::prelude::*;
use crate::simplify::{
    circular_run, collect_raised, collect_run, lemma_raised, raised, steps_around, Pt,
};
use crate::svg::{lines_to, on_grid, scaled, Ptf, Seg, Subpath};

verus! {

/// How often a span may be cut in two: past this depth a straight piece is drawn.
pub const MAX_FIT_DEPTH: usize = 48;

/// How often a fit that came close is refined.
pub const MAX_ROUNDS: usize = 16;

/// The largest of the errors at the positions from 1 on and below `end`, and the last
/// position that has it; no error at `middle` where no position has an error that
/// is a number.
pub open spec fn worst(errors: Seq<Option<u64>>, middle: int, end: int) -> (u64, int)
    decreases end,
{
    if end <= 1 {
        (0, middle)
    } else {
        let rest = worst(errors, middle, end - 1);
        match errors[end - 1] {
            Some(e) if e >= rest.0 => (e, end - 1),
            _ => rest,
        }
    }
}

/// The largest error of a fit and where it is, from the order keys of the distances
/// of all points of a part. The ends of a part are on its fit.
pub fn compute_max_error(errors: &[Option<u64>]) -> (r: (u64, usize))
    ensures
        (r.0, r.1 as int) == worst(
            errors@,
            errors@.len() as int / 2,
            errors@.len() - 1,
        ),
{
    let n: usize = errors.len();
    let mut max: u64 = 0;
    let mut split: usize = n / 2;
    if n < 2 {
        return (max, split);
    }
    let mut i: usize = 1;
    while i < n - 1
        invariant
            1 <= i <= n - 1,
            n == errors@.len(),
            (max, split as int) == worst(errors@, n as int / 2, i as int),
        decreases n - i,
    {
        if let Some(e) = errors[i] {
            if e >= max {
                max = e;
                split = i;
            }
        }
        i = i + 1;
    }
    (max, split)
}

/// No point is farther from a fit than its error says, and the point that a part is
/// cut at has that error.
pub proof fn law_worst_is_the_largest(errors: Seq<Option<u64>>, middle: int, end: int, i: int)
    requires
        1 <= i < end,
        errors[i] is Some,
    ensures
        ({
            let (max, at) = worst(errors, middle, end);
            &&& errors[i].unwrap() <= max
            &&& 1 <= at < end
            &&& errors[at] == Some(max)
        }),
    decreases end,
{
    if i < end - 1 {
        law_worst_is_the_largest(errors, middle, end - 1, i);
    } else {
        lemma_worst_in_range(errors, middle, end - 1);
    }
}

proof fn lemma_worst_in_range(errors: Seq<Option<u64>>, middle: int, end: int)
    ensures
        ({
            let (max, at) = worst(errors, middle, end);
            (max == 0 && at == middle) || (1 <= at < end && errors[at] == Some(max))
        }),
    decreases end,
{
    if end > 1 {
        lemma_worst_in_range(errors, middle, end - 1);
    }
}

/// A cubic fitted to a part of a span.
pub struct Fit<S> {
    /// The order key of the largest distance from a point of the part.
    pub err: u64,
    /// The point with that distance, counted from the start of the part.
    pub split: usize,
    /// The first control point.
    pub c1: Ptf,
    /// The second control point.
    pub c2: Ptf,
    /// What the next round of refinement builds on.
    pub state: S,
}

/// The mathematical functions that stand behind a caller's fits, and the
/// tolerances.
#[verifier::reject_recursive_types(P)]
#[verifier::reject_recursive_types(S)]
pub ghost struct Fitting<P, S> {
    /// The first fit to a part of a span, from one position to another.
    pub start: spec_fn(Seq<P>, int, int) -> Fit<S>,
    /// The fit refined by one round.
    pub again: spec_fn(Seq<P>, int, int, Fit<S>) -> Fit<S>,
    /// The control points of a straight piece.
    pub straight: spec_fn(P, P) -> (Ptf, Ptf),
    /// A point as it is drawn.
    pub place: spec_fn(P) -> Ptf,
    /// A fit with an error below this is taken.
    pub tol: u64,
    /// A fit with an error below this is worth refining.
    pub near: u64,
}

/// The three functions may be called: the first two on every part of at least
/// three points.
pub open spec fn may_fit<P, S, A, B, L>(start: A, again: B, straight: L) -> bool where
    A: Fn(&[P], usize, usize) -> Fit<S>,
    B: Fn(&[P], usize, usize, &Fit<S>) -> Fit<S>,
    L: Fn(P, P) -> (Ptf, Ptf),
 {
    &&& forall|span: &[P], lo: usize, hi: usize|
        lo + 1 < hi < span@.len() ==> #[trigger] start.requires((span, lo, hi))
    &&& forall|span: &[P], lo: usize, hi: usize, fit: &Fit<S>|
        lo + 1 < hi < span@.len() ==> #[trigger] again.requires((span, lo, hi, fit))
    &&& forall|p: P, q: P| #[trigger] straight.requires((p, q))
}

/// Every point can be drawn.
pub open spec fn may_draw<P, G: Fn(P) -> Ptf>(place: G) -> bool {
    forall|p: P| #[trigger] place.requires((p,))
}

/// The three functions compute those of `f`.
pub open spec fn fits<P, S, A, B, L>(
    f: Fitting<P, S>,
    start: A,
    again: B,
    straight: L,
) -> bool where
    A: Fn(&[P], usize, usize) -> Fit<S>,
    B: Fn(&[P], usize, usize, &Fit<S>) -> Fit<S>,
    L: Fn(P, P) -> (Ptf, Ptf),
 {
    &&& forall|span: &[P], lo: usize, hi: usize, r: Fit<S>| #[trigger]
        start.ensures((span, lo, hi), r) ==> r == (f.start)(span@, lo as int, hi as int)
    &&& forall|span: &[P], lo: usize, hi: usize, fit: &Fit<S>, r: Fit<S>| #[trigger]
        again.ensures((span, lo, hi, fit), r) ==> r == (f.again)(span@, lo as int, hi as int, *fit)
    &&& forall|p: P, q: P, r: (Ptf, Ptf)| #[trigger]
        straight.ensures((p, q), r) ==> r == (f.straight)(p, q)
}

/// `place` draws the points as `f` says.
pub open spec fn draws<P, S, G: Fn(P) -> Ptf>(f: Fitting<P, S>, place: G) -> bool {
    forall|p: P, r: Ptf| #[trigger] place.ensures((p,), r) ==> r == (f.place)(p)
}

/// The fit after at most `left` rounds of refinement, which end with the first
/// one that is within the tolerance.
pub open spec fn refined<P, S>(
    f: Fitting<P, S>,
    span: Seq<P>,
    lo: int,
    hi: int,
    fit: Fit<S>,
    left: nat,
) -> Fit<S>
    decreases left,
{
    if fit.err < f.tol || left == 0 {
        fit
    } else {
        refined(f, span, lo, hi, (f.again)(span, lo, hi, fit), (left - 1) as nat)
    }
}

/// The fit that decides about a part: the first one, refined if it came close.
pub open spec fn outcome<P, S>(f: Fitting<P, S>, span: Seq<P>, lo: int, hi: int) -> Fit<S> {
    let first = (f.start)(span, lo, hi);
    if first.err < f.tol || first.err >= f.near {
        first
    } else {
        refined(f, span, lo, hi, first, MAX_ROUNDS as nat)
    }
}

/// Where a part is cut: at the worst point, but never at an end.
pub open spec fn cut_position(split: int, lo: int, hi: int) -> int {
    if split < 1 {
        lo + 1
    } else if split > hi - lo - 1 {
        hi - 1
    } else {
        lo + split
    }
}

/// A straight piece, drawn as a cubic.
pub open spec fn straight_piece<P, S>(f: Fitting<P, S>, p: P, q: P) -> Seg {
    Seg::Cubic((f.straight)(p, q).0, (f.straight)(p, q).1, (f.place)(q))
}

/// What is drawn along the part of `span` from `lo` to `hi`, at the given depth of
/// cutting.
pub open spec fn fitted<P, S>(
    f: Fitting<P, S>,
    span: Seq<P>,
    lo: int,
    hi: int,
    depth: int,
) -> Seq<Seg>
    decreases MAX_FIT_DEPTH - depth,
{
    if hi - lo <= 1 || depth >= MAX_FIT_DEPTH {
        seq![straight_piece(f, span[lo], span[hi])]
    } else {
        let fit = outcome(f, span, lo, hi);
        if fit.err < f.tol {
            seq![Seg::Cubic(fit.c1, fit.c2, (f.place)(span[hi]))]
        } else {
            let mid = cut_position(fit.split as int, lo, hi);
            fitted(f, span, lo, mid, depth + 1) + fitted(f, span, mid, hi, depth + 1)
        }
    }
}

/// What is drawn along an open span; nothing along a single point.
pub open spec fn fitted_span<P, S>(f: Fitting<P, S>, span: Seq<P>) -> Seq<Seg> {
    if span.len() < 2 {
        Seq::empty()
    } else {
        fitted(f, span, 0, span.len() - 1, 0)
    }
}

/// The fit that decides about a part.
fn best_fit<P, S, A, B, L>(
    span: &[P],
    lo: usize,
    hi: usize,
    tol: u64,
    near: u64,
    start: &A,
    again: &B,
    straight: &L,
) -> (fit: Fit<S>) where
    A: Fn(&[P], usize, usize) -> Fit<S>,
    B: Fn(&[P], usize, usize, &Fit<S>) -> Fit<S>,
    L: Fn(P, P) -> (Ptf, Ptf),

    requires
        may_fit(*start, *again, *straight),
        lo + 1 < hi < span@.len(),
    ensures
        forall|f: Fitting<P, S>| #[trigger]
            fits(f, *start, *again, *straight) && f.tol == tol && f.near == near ==> fit
                == outcome(f, span@, lo as int, hi as int),
{
    let mut fit: Fit<S> = start(span, lo, hi);
    if fit.err < tol || fit.err >= near {
        return fit;
    }
    let ghost first = fit;
    let mut round: usize = 0;
    while round < MAX_ROUNDS && fit.err >= tol
        invariant
            may_fit(*start, *again, *straight),
            lo + 1 < hi < span@.len(),
            round <= MAX_ROUNDS,
            forall|f: Fitting<P, S>| #[trigger]
                fits(f, *start, *again, *straight) && f.tol == tol && f.near == near
                    ==> refined(f, span@, lo as int, hi as int, first, MAX_ROUNDS as nat)
                    == refined(
                    f,
                    span@,
                    lo as int,
                    hi as int,
                    fit,
                    (MAX_ROUNDS - round) as nat,
                ),
        decreases MAX_ROUNDS - round,
    {
        fit = again(span, lo, hi, &fit);
        round = round + 1;
    }
    fit
}

/// Draws the part of `span` from `lo` to `hi`.
fn fit_cubic<P: Copy, S, A, B, L, G>(
    span: &[P],
    lo: usize,
    hi: usize,
    depth: usize,
    tol: u64,
    near: u64,
    start: &A,
    again: &B,
    straight: &L,
    place: &G,
    out: &mut Vec<Seg>,
) where
    A: Fn(&[P], usize, usize) -> Fit<S>,
    B: Fn(&[P], usize, usize, &Fit<S>) -> Fit<S>,
    L: Fn(P, P) -> (Ptf, Ptf),
    G: Fn(P) -> Ptf,

    requires
        may_fit(*start, *again, *straight),
        may_draw(*place),
        lo < hi < span@.len(),
        depth <= MAX_FIT_DEPTH,
    ensures
        forall|f: Fitting<P, S>| #[trigger]
            fits(f, *start, *again, *straight) && draws(f, *place) && f.tol == tol && f.near == near
                ==> final(out)@ == old(out)@ + fitted(
                f,
                span@,
                lo as int,
                hi as int,
                depth as int,
            ),
    decreases MAX_FIT_DEPTH - depth,
{
    let ghost before = out@;
    if hi - lo == 1 || depth >= MAX_FIT_DEPTH {
        let c: (Ptf, Ptf) = straight(span[lo], span[hi]);
        out.push(Seg::Cubic(c.0, c.1, place(span[hi])));
        assert forall|f: Fitting<P, S>| #[trigger]
            fits(f, *start, *again, *straight) && draws(f, *place) && f.tol == tol && f.near
                == near implies out@ == before + fitted(
            f,
            span@,
            lo as int,
            hi as int,
            depth as int,
        ) by {
            assert(out@ =~= before + seq![straight_piece(f, span@[lo as int], span@[hi as int])]);
        }
        return;
    }
    let fit: Fit<S> = best_fit(span, lo, hi, tol, near, start, again, straight);
    if fit.err < tol {
        out.push(Seg::Cubic(fit.c1, fit.c2, place(span[hi])));
        assert forall|f: Fitting<P, S>| #[trigger]
            fits(f, *start, *again, *straight) && draws(f, *place) && f.tol == tol && f.near
                == near implies out@ == before + fitted(
            f,
            span@,
            lo as int,
            hi as int,
            depth as int,
        ) by {
            assert(out@ =~= before + seq![
                Seg::Cubic(fit.c1, fit.c2, (f.place)(span@[hi as int])),
            ]);
        }
        return;
    }
    let step: usize = if fit.split < 1 {
        1
    } else if fit.split > hi - lo - 1 {
        hi - lo - 1
    } else {
        fit.split
    };
    let mid: usize = lo + step;
    fit_cubic(span, lo, mid, depth + 1, tol, near, start, again, straight, place, out);
    fit_cubic(span, mid, hi, depth + 1, tol, near, start, again, straight, place, out);
    assert forall|f: Fitting<P, S>| #[trigger]
        fits(f, *start, *again, *straight) && draws(f, *place) && f.tol == tol && f.near == near implies out@
        == before + fitted(f, span@, lo as int, hi as int, depth as int) by {
        let left = fitted(f, span@, lo as int, mid as int, depth + 1);
        let right = fitted(f, span@, mid as int, hi as int, depth + 1);
        assert((before + left) + right =~= before + (left + right));
    }
}

/// Draws an open span.
pub fn fit_span<P: Copy, S, A, B, L, G>(
    span: &[P],
    tol: u64,
    near: u64,
    start: &A,
    again: &B,
    straight: &L,
    place: &G,
    out: &mut Vec<Seg>,
) where
    A: Fn(&[P], usize, usize) -> Fit<S>,
    B: Fn(&[P], usize, usize, &Fit<S>) -> Fit<S>,
    L: Fn(P, P) -> (Ptf, Ptf),
    G: Fn(P) -> Ptf,

    requires
        may_fit(*start, *again, *straight),
        may_draw(*place),
    ensures
        forall|f: Fitting<P, S>| #[trigger]
            fits(f, *start, *again, *straight) && draws(f, *place) && f.tol == tol && f.near == near
                ==> final(out)@ == old(out)@ + fitted_span(f, span@),
{
    let ghost before = out@;
    if span.len() < 2 {
        assert(out@ =~= before + Seq::<Seg>::empty());
        return;
    }
    fit_cubic(span, 0, span.len() - 1, 0, tol, near, start, again, straight, place, out);
}

/// `sharp` may be called on any three points.
pub open spec fn may_turn<P, T: Fn(P, P, P) -> bool>(sharp: T) -> bool {
    forall|p: P, q: P, r: P| #[trigger] sharp.requires((p, q, r))
}

/// `sharp` decides as `m` does.
pub open spec fn turns<P, T: Fn(P, P, P) -> bool>(sharp: T, m: spec_fn(P, P, P) -> bool) -> bool {
    forall|p: P, q: P, r: P, b: bool| #[trigger] sharp.ensures((p, q, r), b) ==> b == m(p, q, r)
}

/// The vertex before `i` on a loop of `n`.
pub open spec fn before(n: int, i: int) -> int {
    if i == 0 {
        n - 1
    } else {
        i - 1
    }
}

/// The vertex after `i` on a loop of `n`.
pub open spec fn after(n: int, i: int) -> int {
    if i == n - 1 {
        0
    } else {
        i + 1
    }
}

/// Which vertices of a loop turn sharply.
pub open spec fn corner_flags<P>(m: spec_fn(P, P, P) -> bool, pts: Seq<P>) -> Seq<bool> {
    let n = pts.len() as int;
    Seq::new(n as nat, |i: int| n >= 3 && m(pts[before(n, i)], pts[i], pts[after(n, i)]))
}

/// The indices where the turn between the incoming and the outgoing edge is
/// sharp, ascending. A loop of fewer than three vertices has none.
pub fn detect_corners<P: Copy, T: Fn(P, P, P) -> bool>(pts: &[P], sharp: &T) -> (out: Vec<usize>)
    requires
        may_turn(*sharp),
    ensures
        forall|m: spec_fn(P, P, P) -> bool| #[trigger]
            turns(*sharp, m) ==> out@ == raised(corner_flags(m, pts@)),
        forall|i: int| 0 <= i < out@.len() ==> #[trigger] out@[i] < pts@.len(),
        forall|i: int, j: int| 0 <= i < j < out@.len() ==> out@[i] < out@[j],
{
    let n: usize = pts.len();
    let mut flags: Vec<bool> = Vec::new();
    let mut i: usize = 0;
    while i < n
        invariant
            n == pts@.len(),
            i <= n,
            flags@.len() == i,
            may_turn(*sharp),
            forall|m: spec_fn(P, P, P) -> bool| #[trigger]
                turns(*sharp, m) ==> flags@ == corner_flags(m, pts@).take(i as int),
        decreases n - i,
    {
        let prev: usize = if i == 0 { n - 1 } else { i - 1 };
        let next: usize = if i == n - 1 { 0 } else { i + 1 };
        let ghost done = flags@;
        let corner: bool = n >= 3 && sharp(pts[prev], pts[i], pts[next]);
        flags.push(corner);
        i = i + 1;
        assert forall|m: spec_fn(P, P, P) -> bool| #[trigger] turns(*sharp, m) implies flags@
            == corner_flags(m, pts@).take(i as int) by {
            assert(done == corner_flags(m, pts@).take(i - 1));
            assert(flags@ =~= corner_flags(m, pts@).take(i as int));
        }
    }
    proof {
        lemma_raised(flags@);
        assert forall|m: spec_fn(P, P, P) -> bool| #[trigger] turns(*sharp, m) implies flags@
            == corner_flags(m, pts@) by {
            assert(corner_flags(m, pts@).take(n as int) =~= corner_flags(m, pts@));
        }
    }
    collect_raised(&flags)
}

/// The points of a run.
pub open spec fn along<P>(pts: Seq<P>, run: Seq<usize>) -> Seq<P> {
    run.map_values(|i: usize| pts[i as int])
}

/// The span of a loop from its `k`-th cut around to the next one. A loop that is
/// cut once is one span, from that vertex around to itself.
pub open spec fn span_at<P>(pts: Seq<P>, cuts: Seq<usize>, k: int) -> Seq<P> {
    along(
        pts,
        circular_run(pts.len() as int, cuts[k] as int, cuts[(k + 1) % (cuts.len() as int)] as int),
    )
}

/// What is drawn along the first `count` spans.
pub open spec fn fitted_spans<P, S>(
    f: Fitting<P, S>,
    pts: Seq<P>,
    cuts: Seq<usize>,
    count: int,
) -> Seq<Seg>
    decreases count,
{
    if count <= 0 {
        Seq::empty()
    } else {
        fitted_spans(f, pts, cuts, count - 1) + fitted_span(f, span_at(pts, cuts, count - 1))
    }
}

/// Where a loop is cut: at its corners, and at vertex 0 where it has none.
pub open spec fn cuts_of(corners: Seq<usize>) -> Seq<usize> {
    if corners.len() == 0 {
        seq![0usize]
    } else {
        corners
    }
}

/// `corners` lists vertices of a loop of `n`, ascending.
pub open spec fn are_corners(corners: Seq<usize>, n: int) -> bool {
    &&& forall|i: int| 0 <= i < corners.len() ==> #[trigger] corners[i] < n
    &&& forall|i: int, j: int| 0 <= i < j < corners.len() ==> corners[i] < corners[j]
}

/// Where the drawing of a loop starts.
pub open spec fn loop_start<P, S>(f: Fitting<P, S>, pts: Seq<P>, corners: Seq<usize>) -> Ptf {
    if pts.len() == 0 {
        (0, 0)
    } else if pts.len() < 4 {
        (f.place)(pts[0])
    } else {
        (f.place)(pts[cuts_of(corners)[0] as int])
    }
}

/// The drawing of a loop: a polygon below four vertices, else the curves along
/// its spans.
pub open spec fn loop_segs<P, S>(f: Fitting<P, S>, pts: Seq<P>, corners: Seq<usize>) -> Seq<Seg> {
    if pts.len() == 0 {
        Seq::empty()
    } else if pts.len() < 4 {
        lines_to(pts.skip(1).map_values(f.place))
    } else {
        let cuts = cuts_of(corners);
        fitted_spans(f, pts, cuts, cuts.len() as int)
    }
}

fn collect_along<P: Copy>(pts: &[P], run: &Vec<usize>) -> (out: Vec<P>)
    requires
        forall|i: int| 0 <= i < run@.len() ==> #[trigger] run@[i] < pts@.len(),
    ensures
        out@ == along(pts@, run@),
{
    let mut out: Vec<P> = Vec::new();
    let mut i: usize = 0;
    while i < run.len()
        invariant
            i <= run@.len(),
            forall|i: int| 0 <= i < run@.len() ==> #[trigger] run@[i] < pts@.len(),
            out@ == along(pts@, run@).take(i as int),
        decreases run@.len() - i,
    {
        out.push(pts[run[i]]);
        i = i + 1;
        assert(out@ =~= along(pts@, run@).take(i as int));
    }
    assert(out@ =~= along(pts@, run@));
    out
}

fn polygon<P: Copy, G: Fn(P) -> Ptf>(pts: &[P], place: &G) -> (sp: Subpath)
    requires
        may_draw(*place),
    ensures
        pts@.len() == 0 ==> sp.start == (0i128, 0i128) && sp.segs@.len() == 0,
        pts@.len() > 0 ==> place.ensures((pts@[0],), sp.start) && sp.segs@.len() == pts@.len() - 1,
        forall|i: int|
            1 <= i < pts@.len() ==> (#[trigger] sp.segs@[i - 1] matches Seg::Line(p)
                && place.ensures((pts@[i],), p)),
{
    let mut segs: Vec<Seg> = Vec::new();
    if pts.len() == 0 {
        return Subpath { start: (0, 0), segs };
    }
    let start: Ptf = place(pts[0]);
    let mut i: usize = 1;
    while i < pts.len()
        invariant
            1 <= i <= pts@.len(),
            may_draw(*place),
            segs@.len() == i - 1,
            forall|j: int|
                1 <= j < i ==> (#[trigger] segs@[j - 1] matches Seg::Line(p) && place.ensures(
                    (pts@[j],),
                    p,
                )),
        decreases pts@.len() - i,
    {
        segs.push(Seg::Line(place(pts[i])));
        i = i + 1;
    }
    Subpath { start, segs }
}

/// Fits a closed loop that is given by its points and its corners. The curve is
/// cut into open spans at the corners, each fitted by itself, so that genuine
/// corners stay crisp.
#[verifier::rlimit(40)]
pub fn fit_loop_pts<P: Copy, S, A, B, L, G>(
    pts: &[P],
    corners: &[usize],
    tol: u64,
    near: u64,
    start: &A,
    again: &B,
    straight: &L,
    place: &G,
) -> (sp: Subpath) where
    A: Fn(&[P], usize, usize) -> Fit<S>,
    B: Fn(&[P], usize, usize, &Fit<S>) -> Fit<S>,
    L: Fn(P, P) -> (Ptf, Ptf),
    G: Fn(P) -> Ptf,

    requires
        are_corners(corners@, pts@.len() as int),
        may_fit(*start, *again, *straight),
        may_draw(*place),
    ensures
        forall|f: Fitting<P, S>| #[trigger]
            fits(f, *start, *again, *straight) && draws(f, *place) && f.tol == tol && f.near == near
                ==> sp.start == loop_start(f, pts@, corners@) && sp.segs@ == loop_segs(
                f,
                pts@,
                corners@,
            ),
{
    let n: usize = pts.len();
    if n < 4 {
        let sp = polygon(pts, place);
        assert forall|f: Fitting<P, S>| #[trigger]
            fits(f, *start, *again, *straight) && draws(f, *place) && f.tol == tol && f.near
                == near implies sp.start == loop_start(f, pts@, corners@) && sp.segs@ == loop_segs(
            f,
            pts@,
            corners@,
        ) by {
            if n > 0 {
                assert forall|i: int| 0 <= i < sp.segs@.len() implies #[trigger] sp.segs@[i]
                    == loop_segs(f, pts@, corners@)[i] by {
                    assert(sp.segs@[(i + 1) - 1] is Line);
                }
            }
            assert(sp.segs@ =~= loop_segs(f, pts@, corners@));
        }
        return sp;
    }
    let mut cuts: Vec<usize> = Vec::new();
    if corners.len() == 0 {
        cuts.push(0);
    } else {
        let mut j: usize = 0;
        while j < corners.len()
            invariant
                j <= corners@.len(),
                cuts@ == corners@.take(j as int),
            decreases corners@.len() - j,
        {
            cuts.push(corners[j]);
            j = j + 1;
            assert(cuts@ =~= corners@.take(j as int));
        }
    }
    assert(cuts@ =~= cuts_of(corners@));
    let first: Ptf = place(pts[cuts[0]]);
    let mut segs: Vec<Seg> = Vec::new();
    let mut k: usize = 0;
    while k < cuts.len()
        invariant
            n == pts@.len(),
            n >= 4,
            k <= cuts@.len(),
            forall|i: int| 0 <= i < cuts@.len() ==> #[trigger] cuts@[i] < n,
            may_fit(*start, *again, *straight),
            may_draw(*place),
            forall|f: Fitting<P, S>| #[trigger]
                fits(f, *start, *again, *straight) && draws(f, *place) && f.tol == tol && f.near
                    == near ==> segs@ == fitted_spans(f, pts@, cuts@, k as int),
        decreases cuts@.len() - k,
    {
        let next: usize = if k + 1 == cuts.len() { 0 } else { k + 1 };
        proof {
            let c = cuts@.len() as int;
            assert((k + 1) % c == next) by (nonlinear_arith)
                requires
                    0 <= k < c,
                    next == if k + 1 == c {
                        0int
                    } else {
                        k + 1
                    },
            ;
        }
        assert(cuts@[next as int] < n);
        let run = collect_run(n, cuts[k], cuts[next]);
        proof {
            assert forall|i: int| 0 <= i < run@.len() implies #[trigger] run@[i] < n by {
                assert(0 <= (cuts@[k as int] + i) % (n as int) < n) by (nonlinear_arith)
                    requires
                        n > 0,
                ;
            }
        }
        let span = collect_along(pts, &run);
        fit_span(span.as_slice(), tol, near, start, again, straight, place, &mut segs);
        k = k + 1;
    }
    Subpath { start: first, segs }
}

/// A sequence without its repetitions: of equal neighbours the first stays.
pub open spec fn deduped<P>(pts: Seq<P>) -> Seq<P>
    decreases pts.len(),
{
    if pts.len() == 0 {
        Seq::empty()
    } else {
        let rest = deduped(pts.drop_last());
        if rest.len() > 0 && rest.last() == pts.last() {
            rest
        } else {
            rest.push(pts.last())
        }
    }
}

/// A closed loop without edges of length zero.
pub open spec fn without_zero_edges<P>(pts: Seq<P>) -> Seq<P> {
    let d = deduped(pts);
    if d.len() > 1 && d.first() == d.last() {
        d.drop_last()
    } else {
        d
    }
}

/// Drops consecutive duplicate vertices of a closed loop, the last one too where
/// it equals the first, so that no edge has length zero.
pub fn drop_zero_edges(pts: &[Pt]) -> (out: Vec<Pt>)
    ensures
        out@ == without_zero_edges(pts@),
{
    let mut out: Vec<Pt> = Vec::new();
    let mut i: usize = 0;
    while i < pts.len()
        invariant
            i <= pts@.len(),
            out@ == deduped(pts@.take(i as int)),
        decreases pts@.len() - i,
    {
        let p: Pt = pts[i];
        let len: usize = out.len();
        let repeated: bool = len > 0 && out[len - 1].0 == p.0 && out[len - 1].1 == p.1;
        assert(pts@.take(i + 1).drop_last() =~= pts@.take(i as int));
        if !repeated {
            out.push(p);
        }
        i = i + 1;
    }
    assert(pts@.take(i as int) =~= pts@);
    let len: usize = out.len();
    if len > 1 && out[0].0 == out[len - 1].0 && out[0].1 == out[len - 1].1 {
        let ghost all = out@;
        out.pop();
        assert(out@ =~= all.drop_last());
    }
    out
}

/// Fits one loop of lattice points into a closed subpath of cubics. `sharp` says
/// which vertices are corners.
pub fn fit_loop<S, T, A, B, L>(
    loop_pts: &[Pt],
    tol: u64,
    near: u64,
    sharp: &T,
    start: &A,
    again: &B,
    straight: &L,
) -> (sp: Subpath) where
    T: Fn(Pt, Pt, Pt) -> bool,
    A: Fn(&[Pt], usize, usize) -> Fit<S>,
    B: Fn(&[Pt], usize, usize, &Fit<S>) -> Fit<S>,
    L: Fn(Pt, Pt) -> (Ptf, Ptf),

    requires
        may_turn(*sharp),
        may_fit(*start, *again, *straight),
    ensures
        forall|m: spec_fn(Pt, Pt, Pt) -> bool, f: Fitting<Pt, S>|
            #![trigger turns(*sharp, m), fits(f, *start, *again, *straight)]
            turns(*sharp, m) && fits(f, *start, *again, *straight) && f.place == grid_place()
                && f.tol == tol && f.near == near ==> {
                let pts = without_zero_edges(loop_pts@);
                let corners = raised(corner_flags(m, pts));
                sp.start == loop_start(f, pts, corners) && sp.segs@ == loop_segs(f, pts, corners)
            },
{
    let pts = drop_zero_edges(loop_pts);
    let corners = detect_corners(pts.as_slice(), sharp);
    let place = |p: Pt| -> (q: Ptf)
        ensures
            q == on_grid(p),
        { scaled(p) };
    fit_loop_pts(pts.as_slice(), corners.as_slice(), tol, near, start, again, straight, &place)
}

/// Lattice points are drawn where they are.
pub open spec fn grid_place() -> spec_fn(Pt) -> Ptf {
    |p: Pt| on_grid(p)
}

/// Corners do not depend on the direction in which a boundary is traced: where the
/// turn test does not tell the edges before and after a vertex apart, as the angle
/// between them does not, the reversed loop has the mirrored corners. Either way they
/// ascend, and a loop of fewer than three vertices has none.
pub proof fn law_corners_are_direction_symmetric<P>(
    m: spec_fn(P, P, P) -> bool,
    pts: Seq<P>,
    i: int,
)
    requires
        forall|p: P, q: P, r: P| #[trigger] m(p, q, r) == m(r, q, p),
        0 <= i < pts.len() <= usize::MAX,
    ensures
        ({
            let (there, back) = (
                raised(corner_flags(m, pts)),
                raised(corner_flags(m, pts.reverse())),
            );
            &&& there.contains(i as usize) <==> back.contains((pts.len() - 1 - i) as usize)
            &&& are_corners(there, pts.len() as int)
            &&& are_corners(back, pts.len() as int)
            &&& pts.len() < 3 ==> there.len() == 0 && back.len() == 0
        }),
{
    let n = pts.len() as int;
    let j = n - 1 - i;
    let rev = pts.reverse();
    let (flags, mirrored) = (corner_flags(m, pts), corner_flags(m, rev));
    assert(rev[before(n, j)] == pts[after(n, i)]);
    assert(rev[after(n, j)] == pts[before(n, i)]);
    assert(m(pts[before(n, i)], pts[i], pts[after(n, i)]) == m(
        pts[after(n, i)],
        pts[i],
        pts[before(n, i)],
    ));
    assert(mirrored[j] == flags[i]);
    lemma_raised(flags);
    lemma_raised(mirrored);
    let (there, back) = (raised(flags), raised(mirrored));
    if there.contains(i as usize) {
        let k = choose|k: int| 0 <= k < there.len() && there[k] == i as usize;
        assert(flags[there[k] as int]);
    }
    if back.contains(j as usize) {
        let k = choose|k: int| 0 <= k < back.len() && back[k] == j as usize;
        assert(mirrored[back[k] as int]);
    }
    if n < 3 {
        if there.len() > 0 {
            assert(flags[there[0] as int]);
        }
        if back.len() > 0 {
            assert(mirrored[back[0] as int]);
        }
    }
}

/// The positions of `span` where the pieces of a part end.
pub open spec fn piece_ends<P, S>(
    f: Fitting<P, S>,
    span: Seq<P>,
    lo: int,
    hi: int,
    depth: int,
) -> Seq<int>
    decreases MAX_FIT_DEPTH - depth,
{
    if hi - lo <= 1 || depth >= MAX_FIT_DEPTH {
        seq![hi]
    } else {
        let fit = outcome(f, span, lo, hi);
        if fit.err < f.tol {
            seq![hi]
        } else {
            let mid = cut_position(fit.split as int, lo, hi);
            piece_ends(f, span, lo, mid, depth + 1) + piece_ends(f, span, mid, hi, depth + 1)
        }
    }
}

/// Where a piece of a part starts: where the one before it ends.
pub open spec fn piece_start(lo: int, ends: Seq<int>, k: int) -> int {
    if k == 0 {
        lo
    } else {
        ends[k - 1]
    }
}

/// The end point of a segment.
pub open spec fn seg_end(seg: Seg) -> Ptf {
    match seg {
        Seg::Line(p) => p,
        Seg::Cubic(_, _, e) => e,
    }
}

/// The pieces tile the part: each starts where the one before it ends, at a later
/// position of the span, the last one ends where the part does, and every piece
/// ends at the point of its position.
pub proof fn law_pieces_tile<P, S>(
    f: Fitting<P, S>,
    span: Seq<P>,
    lo: int,
    hi: int,
    depth: int,
)
    requires
        lo < hi,
    ensures
        ({
            let segs = fitted(f, span, lo, hi, depth);
            let ends = piece_ends(f, span, lo, hi, depth);
            &&& segs.len() == ends.len()
            &&& ends.len() > 0
            &&& ends.last() == hi
            &&& forall|k: int|
                0 <= k < ends.len() ==> #[trigger] piece_start(lo, ends, k) < ends[k] <= hi
            &&& forall|k: int|
                #![trigger segs[k]]
                0 <= k < ends.len() ==> seg_end(segs[k]) == (f.place)(span[ends[k]])
        }),
    decreases MAX_FIT_DEPTH - depth,
{
    if hi - lo <= 1 || depth >= MAX_FIT_DEPTH {
    } else {
        let fit = outcome(f, span, lo, hi);
        if fit.err < f.tol {
        } else {
            let mid = cut_position(fit.split as int, lo, hi);
            law_pieces_tile(f, span, lo, mid, depth + 1);
            law_pieces_tile(f, span, mid, hi, depth + 1);
            let e1 = piece_ends(f, span, lo, mid, depth + 1);
            let e2 = piece_ends(f, span, mid, hi, depth + 1);
            let s1 = fitted(f, span, lo, mid, depth + 1);
            let s2 = fitted(f, span, mid, hi, depth + 1);
            let segs = fitted(f, span, lo, hi, depth);
            let ends = piece_ends(f, span, lo, hi, depth);
            assert forall|k: int| 0 <= k < ends.len() implies #[trigger] piece_start(
                lo,
                ends,
                k,
            ) < ends[k] <= hi by {
                if k < e1.len() {
                    assert(ends[k] == e1[k]);
                    assert(piece_start(lo, ends, k) == piece_start(lo, e1, k));
                } else {
                    assert(ends[k] == e2[k - e1.len()]);
                    assert(piece_start(lo, ends, k) == piece_start(mid, e2, k - e1.len()));
                }
            }
            assert forall|k: int| #![trigger segs[k]] 0 <= k < ends.len() implies seg_end(segs[k])
                == (f.place)(span[ends[k]]) by {
                if k < e1.len() {
                    assert(segs[k] == s1[k] && ends[k] == e1[k]);
                } else {
                    assert(segs[k] == s2[k - e1.len()] && ends[k] == e2[k - e1.len()]);
                }
            }
        }
    }
}

/// The piece from `a` to `b` is the fit that decided about it, and that fit is
/// within the tolerance.
pub open spec fn within_tolerance<P, S>(
    f: Fitting<P, S>,
    span: Seq<P>,
    a: int,
    b: int,
    seg: Seg,
) -> bool {
    let fit = outcome(f, span, a, b);
    fit.err < f.tol && seg == Seg::Cubic(fit.c1, fit.c2, (f.place)(span[b]))
}

/// Every piece is within the tolerance or straight, and a straight one joins
/// neighbours unless the cutting went too deep, which it cannot along a part of at
/// most 50 points.
pub proof fn law_pieces_are_within_tolerance<P, S>(
    f: Fitting<P, S>,
    span: Seq<P>,
    lo: int,
    hi: int,
    depth: int,
    k: int,
)
    requires
        lo < hi,
        0 <= depth <= MAX_FIT_DEPTH,
        0 <= k < piece_ends(f, span, lo, hi, depth).len(),
    ensures
        ({
            let ends = piece_ends(f, span, lo, hi, depth);
            let a = piece_start(lo, ends, k);
            let b = ends[k];
            let seg = fitted(f, span, lo, hi, depth)[k];
            ||| within_tolerance(f, span, a, b, seg)
            ||| seg == straight_piece(f, span[a], span[b]) && (b == a + 1 || hi - lo + depth
                >= MAX_FIT_DEPTH + 2)
        }),
    decreases MAX_FIT_DEPTH - depth,
{
    if hi - lo <= 1 || depth >= MAX_FIT_DEPTH {
    } else {
        let fit = outcome(f, span, lo, hi);
        if fit.err < f.tol {
        } else {
            let mid = cut_position(fit.split as int, lo, hi);
            law_pieces_tile(f, span, lo, mid, depth + 1);
            law_pieces_tile(f, span, mid, hi, depth + 1);
            let e1 = piece_ends(f, span, lo, mid, depth + 1);
            let e2 = piece_ends(f, span, mid, hi, depth + 1);
            let ends = piece_ends(f, span, lo, hi, depth);
            if k < e1.len() {
                law_pieces_are_within_tolerance(f, span, lo, mid, depth + 1, k);
                assert(ends[k] == e1[k]);
                assert(piece_start(lo, ends, k) == piece_start(lo, e1, k));
            } else {
                law_pieces_are_within_tolerance(f, span, mid, hi, depth + 1, k - e1.len());
                assert(ends[k] == e2[k - e1.len()]);
                assert(piece_start(lo, ends, k) == piece_start(mid, e2, k - e1.len()));
            }
        }
    }
}

/// A span ends at its last point.
proof fn lemma_span_end<P, S>(f: Fitting<P, S>, span: Seq<P>)
    requires
        span.len() >= 2,
    ensures
        fitted_span(f, span).len() > 0,
        seg_end(fitted_span(f, span).last()) == (f.place)(span.last()),
{
    law_pieces_tile(f, span, 0, span.len() - 1, 0);
    let ends = piece_ends(f, span, 0, span.len() - 1, 0);
    assert(seg_end(fitted_span(f, span)[ends.len() - 1]) == (f.place)(span[ends[ends.len() - 1]]));
}

proof fn lemma_span_reaches<P>(pts: Seq<P>, cuts: Seq<usize>, k: int)
    requires
        pts.len() >= 2,
        are_corners(cuts, pts.len() as int),
        0 <= k < cuts.len(),
    ensures
        span_at(pts, cuts, k).len() >= 2,
        span_at(pts, cuts, k).last() == pts[cuts[(k + 1) % (cuts.len() as int)] as int],
{
    let n = pts.len() as int;
    let c = cuts.len() as int;
    let next = (k + 1) % c;
    assert(0 <= next < c) by (nonlinear_arith)
        requires
            next == (k + 1) % c,
            c > 0,
    ;
    let a = cuts[k] as int;
    let b = cuts[next] as int;
    let steps = steps_around(n, a, b);
    assert((a + steps) % n == b) by (nonlinear_arith)
        requires
            0 <= a < n,
            0 <= b < n,
            a + steps == b || a + steps == b + n,
    ;
}

/// The drawing of the first `count` spans holds an end at each of their ends.
proof fn lemma_cut_is_an_end<P, S>(
    f: Fitting<P, S>,
    pts: Seq<P>,
    cuts: Seq<usize>,
    count: int,
    k: int,
) -> (at: int)
    requires
        pts.len() >= 2,
        are_corners(cuts, pts.len() as int),
        0 <= k < count <= cuts.len(),
    ensures
        0 <= at < fitted_spans(f, pts, cuts, count).len(),
        k == count - 1 ==> at == fitted_spans(f, pts, cuts, count).len() - 1,
        seg_end(fitted_spans(f, pts, cuts, count)[at]) == (f.place)(
            pts[cuts[(k + 1) % (cuts.len() as int)] as int],
        ),
    decreases count,
{
    let rest = fitted_spans(f, pts, cuts, count - 1);
    let segs = fitted_spans(f, pts, cuts, count);
    if k == count - 1 {
        lemma_span_reaches(pts, cuts, k);
        let last = fitted_span(f, span_at(pts, cuts, k));
        lemma_span_end(f, span_at(pts, cuts, k));
        assert(segs[segs.len() - 1] == last[last.len() - 1]);
        segs.len() - 1
    } else {
        let at = lemma_cut_is_an_end(f, pts, cuts, count - 1, k);
        assert(segs[at] == rest[at]);
        at
    }
}

/// A fitted loop closes: its last segment ends where the drawing starts.
pub proof fn law_loop_closes<P, S>(f: Fitting<P, S>, pts: Seq<P>, corners: Seq<usize>)
    requires
        pts.len() >= 4,
        are_corners(corners, pts.len() as int),
    ensures
        loop_segs(f, pts, corners).len() > 0,
        seg_end(loop_segs(f, pts, corners).last()) == loop_start(f, pts, corners),
{
    let cuts = cuts_of(corners);
    let c = cuts.len() as int;
    let at = lemma_cut_is_an_end(f, pts, cuts, c, c - 1);
    assert(c % c == 0) by (nonlinear_arith)
        requires
            c > 0,
    ;
}

/// Corners stay crisp: at every corner of a fitted loop one segment ends, so no
/// curve runs through it.
pub proof fn law_segments_end_at_corners<P, S>(
    f: Fitting<P, S>,
    pts: Seq<P>,
    corners: Seq<usize>,
    k: int,
) -> (at: int)
    requires
        pts.len() >= 4,
        are_corners(corners, pts.len() as int),
        0 <= k < corners.len(),
    ensures
        0 <= at < loop_segs(f, pts, corners).len(),
        seg_end(loop_segs(f, pts, corners)[at]) == (f.place)(pts[corners[k] as int]),
{
    let c = corners.len() as int;
    let prev = before(c, k);
    assert((prev + 1) % c == k) by (nonlinear_arith)
        requires
            0 <= k < c,
            prev + 1 == k || (prev + 1 == c && k == 0),
    ;
    lemma_cut_is_an_end(f, pts, corners, c, prev)
}

proof fn lemma_deduped<P>(pts: Seq<P>)
    ensures
        deduped(pts).len() <= pts.len(),
        pts.len() > 0 ==> deduped(pts).len() > 0 && deduped(pts).last() == pts.last(),
        forall|i: int|
            #![trigger deduped(pts)[i]]
            0 <= i < deduped(pts).len() - 1 ==> deduped(pts)[i] != deduped(pts)[i + 1],
    decreases pts.len(),
{
    if pts.len() > 0 {
        lemma_deduped(pts.drop_last());
        let rest = deduped(pts.drop_last());
        assert forall|i: int|
            #![trigger deduped(pts)[i]]
            0 <= i < deduped(pts).len() - 1 implies deduped(pts)[i] != deduped(pts)[i + 1] by {
            assert(deduped(pts)[i] == rest[i]);
            if i + 1 < rest.len() {
                assert(deduped(pts)[i + 1] == rest[i + 1]);
            }
        }
    }
}

/// Corner detection and tangent estimation never see an edge of length zero:
/// neighbours on the loop differ, the last vertex and the first one too.
pub proof fn law_no_zero_edge<P>(pts: Seq<P>, i: int)
    requires
        0 <= i < without_zero_edges(pts).len(),
        without_zero_edges(pts).len() > 1,
    ensures
        without_zero_edges(pts)[i] != without_zero_edges(pts)[after(
            without_zero_edges(pts).len() as int,
            i,
        )],
{
    let d = deduped(pts);
    let w = without_zero_edges(pts);
    lemma_deduped(pts);
    assert(d[i] == w[i]);
    if w.len() < d.len() && i == w.len() - 1 {
        assert(d[i] != d[i + 1]);
    }
}

/// `fit` comes about by refining the first fit to the part of `span` from `a` to `b`,
/// round after round, at most sixteen times: no fit but the last one is within the
/// tolerance, and the first one is refined only where it came close.
pub open spec fn is_refined_fit<P, S>(
    f: Fitting<P, S>,
    span: Seq<P>,
    a: int,
    b: int,
    fit: Fit<S>,
) -> bool {
    exists|rounds: Seq<Fit<S>>|
        #![trigger rounds.last()]
        {
            &&& 1 <= rounds.len() <= 17
            &&& rounds[0] == (f.start)(span, a, b)
            &&& rounds.last() == fit
            &&& forall|i: int, j: int|
                #![trigger rounds[i], rounds[j]]
                0 <= i && j == i + 1 && j < rounds.len() ==> rounds[j] == (f.again)(
                    span,
                    a,
                    b,
                    rounds[i],
                ) && rounds[i].err >= f.tol
            &&& rounds.len() > 1 ==> rounds[0].err < f.near
            &&& fit.err < f.tol || rounds.len() == 17 || (rounds.len() == 1 && fit.err >= f.near)
        }
}

proof fn lemma_refined_rounds<P, S>(
    f: Fitting<P, S>,
    span: Seq<P>,
    lo: int,
    hi: int,
    fit: Fit<S>,
    left: nat,
) -> (rounds: Seq<Fit<S>>)
    ensures
        1 <= rounds.len() <= left + 1,
        rounds[0] == fit,
        rounds.last() == refined(f, span, lo, hi, fit, left),
        forall|i: int, j: int|
            #![trigger rounds[i], rounds[j]]
            0 <= i && j == i + 1 && j < rounds.len() ==> rounds[j] == (f.again)(
                span,
                lo,
                hi,
                rounds[i],
            ) && rounds[i].err >= f.tol,
        rounds.last().err < f.tol || rounds.len() == left + 1,
    decreases left,
{
    if fit.err < f.tol || left == 0 {
        let rounds = seq![fit];
        assert(rounds.len() == 1 && rounds[0] == fit);
        rounds
    } else {
        let rest = lemma_refined_rounds(
            f,
            span,
            lo,
            hi,
            (f.again)(span, lo, hi, fit),
            (left - 1) as nat,
        );
        let rounds = seq![fit] + rest;
        assert(rounds.last() == rest.last());
        assert forall|i: int, j: int|
            #![trigger rounds[i], rounds[j]]
            0 <= i && j == i + 1 && j < rounds.len() implies rounds[j] == (f.again)(
            span,
            lo,
            hi,
            rounds[i],
        ) && rounds[i].err >= f.tol by {
            if i > 0 {
                assert(rounds[i] == rest[i - 1] && rounds[j] == rest[j - 1]);
            } else {
                assert(rounds[j] == rest[0]);
            }
        }
        rounds
    }
}

/// The fit that decides about a part is the first one, refined round after round if it
/// came close, until it is within the tolerance or sixteen rounds are over.
pub proof fn law_deciding_fit_is_refined<P, S>(f: Fitting<P, S>, span: Seq<P>, lo: int, hi: int)
    ensures
        is_refined_fit(f, span, lo, hi, outcome(f, span, lo, hi)),
{
    let first = (f.start)(span, lo, hi);
    let fit = outcome(f, span, lo, hi);
    if first.err < f.tol || first.err >= f.near {
        let rounds = seq![first];
        assert(rounds.last() == fit);
    } else {
        let rounds = lemma_refined_rounds(f, span, lo, hi, first, MAX_ROUNDS as nat);
        assert(rounds.last() == fit);
    }
}

/// How a part of a span is drawn, from `lo` to `hi`: neighbours by a straight piece; a
/// longer part by one cubic where the fit that decides about it is within the
/// tolerance; and else in two parts, which meet at the worst point of that fit, but
/// never at an end.
pub proof fn law_part_is_drawn<P, S>(
    f: Fitting<P, S>,
    span: Seq<P>,
    lo: int,
    hi: int,
    depth: int,
) -> (r: (Fit<S>, int))
    requires
        lo < hi,
        0 <= depth < 48,
    ensures
        is_refined_fit(f, span, lo, hi, r.0),
        ({
            let (fit, mid) = r;
            let segs = fitted(f, span, lo, hi, depth);
            let ends = (f.straight)(span[lo], span[hi]);
            &&& hi == lo + 1 ==> segs == seq![Seg::Cubic(ends.0, ends.1, (f.place)(span[hi]))]
            &&& hi > lo + 1 && fit.err < f.tol ==> segs == seq![
                Seg::Cubic(fit.c1, fit.c2, (f.place)(span[hi])),
            ]
            &&& hi > lo + 1 && fit.err >= f.tol ==> {
                &&& lo < mid < hi
                &&& 1 <= fit.split < hi - lo ==> mid == lo + fit.split
                &&& fit.split < 1 ==> mid == lo + 1
                &&& fit.split >= hi - lo ==> mid == hi - 1
                &&& segs == fitted(f, span, lo, mid, depth + 1) + fitted(
                    f,
                    span,
                    mid,
                    hi,
                    depth + 1,
                )
            }
        }),
{
    law_deciding_fit_is_refined(f, span, lo, hi);
    let fit = outcome(f, span, lo, hi);
    (fit, cut_position(fit.split as int, lo, hi))
}

/// The `k`-th cut of a loop of `n` vertices, counted on past the last vertex where the
/// loop has closed.
pub open spec fn cut_stop(n: int, cuts: Seq<usize>, k: int) -> int {
    if k < cuts.len() {
        cuts[k] as int
    } else {
        cuts[k - cuts.len()] + n
    }
}

/// The vertices of a loop from its `k`-th cut on to the next one, both included.
pub open spec fn stretch<P>(pts: Seq<P>, cuts: Seq<usize>, k: int) -> Seq<P> {
    let n = pts.len() as int;
    let from = cut_stop(n, cuts, k);
    Seq::new(
        (cut_stop(n, cuts, k + 1) - from + 1) as nat,
        |t: int| if from + t < n {
            pts[from + t]
        } else {
            pts[from + t - n]
        },
    )
}

/// `seg` draws the points of `span` from `a` to `b`: by a fit within the tolerance, or
/// straight; straight only between neighbours, or along a span of more than 50 points.
pub open spec fn draws_part<P, S>(
    f: Fitting<P, S>,
    span: Seq<P>,
    a: int,
    b: int,
    seg: Seg,
) -> bool {
    ||| exists|fit: Fit<S>| #[trigger]
        is_refined_fit(f, span, a, b, fit) && fit.err < f.tol && seg == Seg::Cubic(
            fit.c1,
            fit.c2,
            (f.place)(span[b]),
        )
    ||| seg == Seg::Cubic(
        (f.straight)(span[a], span[b]).0,
        (f.straight)(span[a], span[b]).1,
        (f.place)(span[b]),
    ) && (b == a + 1 || span.len() > 50)
}

/// `seg` draws the vertices of a loop from the `from`-th to the `to`-th, counted on past
/// the last one, as a part of the stretch between two neighbouring cuts.
pub open spec fn draws_stretch<P, S>(
    f: Fitting<P, S>,
    pts: Seq<P>,
    cuts: Seq<usize>,
    from: int,
    to: int,
    seg: Seg,
) -> bool {
    exists|k: int|
        #![trigger stretch(pts, cuts, k)]
        {
            let start = cut_stop(pts.len() as int, cuts, k);
            &&& 0 <= k < cuts.len()
            &&& start <= from < to <= cut_stop(pts.len() as int, cuts, k + 1)
            &&& draws_part(f, stretch(pts, cuts, k), from - start, to - start, seg)
        }
}

proof fn lemma_stretch<P>(pts: Seq<P>, cuts: Seq<usize>, k: int)
    requires
        0 < pts.len() <= usize::MAX,
        are_corners(cuts, pts.len() as int),
        0 <= k < cuts.len(),
    ensures
        span_at(pts, cuts, k) == stretch(pts, cuts, k),
        cut_stop(pts.len() as int, cuts, k) < cut_stop(pts.len() as int, cuts, k + 1),
        0 <= cut_stop(pts.len() as int, cuts, k) < pts.len(),
        cut_stop(pts.len() as int, cuts, k + 1) <= cut_stop(pts.len() as int, cuts, k)
            + pts.len(),
{
    let n = pts.len() as int;
    let c = cuts.len() as int;
    let a = cut_stop(n, cuts, k);
    let z = cut_stop(n, cuts, k + 1);
    assert(cuts[k] < n && cuts[0] < n);
    if k + 1 < c {
        vstd::arithmetic::div_mod::lemma_small_mod((k + 1) as nat, c as nat);
        assert(cuts[k] < cuts[k + 1]);
        assert(cuts[k + 1] < n);
    } else {
        vstd::arithmetic::div_mod::lemma_mod_self_0(c);
        if k > 0 {
            assert(cuts[0] < cuts[k]);
        }
    }
    let span = span_at(pts, cuts, k);
    assert forall|t: int| 0 <= t < span.len() implies span[t] == stretch(pts, cuts, k)[t] by {
        if a + t < n {
            vstd::arithmetic::div_mod::lemma_small_mod((a + t) as nat, n as nat);
        } else {
            vstd::arithmetic::div_mod::lemma_fundamental_div_mod_converse(a + t, n, 1, a + t - n);
        }
    }
    assert(span =~= stretch(pts, cuts, k));
}

/// The piece `i` along stretch `k` leads from one of `ends` to the next.
spec fn stops_at<P, S>(
    f: Fitting<P, S>,
    pts: Seq<P>,
    cuts: Seq<usize>,
    k: int,
    ends: Seq<int>,
    i: int,
) -> bool {
    let start = piece_start(cut_stop(pts.len() as int, cuts, k), ends, i);
    &&& start < ends[i]
    &&& draws_stretch(f, pts, cuts, start, ends[i], fitted_span(f, span_at(pts, cuts, k))[i])
}

/// The stops of the pieces along one stretch.
proof fn lemma_stretch_stops<P, S>(
    f: Fitting<P, S>,
    pts: Seq<P>,
    cuts: Seq<usize>,
    k: int,
) -> (ends: Seq<int>)
    requires
        2 <= pts.len() <= usize::MAX,
        are_corners(cuts, pts.len() as int),
        0 <= k < cuts.len(),
    ensures
        ({
            let n = pts.len() as int;
            let segs = fitted_span(f, span_at(pts, cuts, k));
            &&& ends.len() == segs.len()
            &&& ends.len() > 0
            &&& ends.last() == cut_stop(n, cuts, k + 1)
            &&& forall|i: int| 0 <= i < ends.len() ==> #[trigger] stops_at(f, pts, cuts, k, ends, i)
        }),
{
    let n = pts.len() as int;
    let span = span_at(pts, cuts, k);
    let start = cut_stop(n, cuts, k);
    lemma_stretch(pts, cuts, k);
    let hi = span.len() - 1;
    law_pieces_tile(f, span, 0, hi, 0);
    let within = piece_ends(f, span, 0, hi, 0);
    let ends = within.map_values(|e: int| start + e);
    let segs = fitted_span(f, span);
    assert forall|i: int| 0 <= i < ends.len() implies #[trigger] stops_at(
        f,
        pts,
        cuts,
        k,
        ends,
        i,
    ) by {
        let (a, b) = (piece_start(0, within, i), within[i]);
        assert(a < b <= hi);
        assert(0 <= a) by {
            if i > 0 {
                lemma_ends_positive(f, span, hi, i - 1);
            }
        }
        assert(piece_start(start, ends, i) == start + a);
        law_pieces_are_within_tolerance(f, span, 0, hi, 0, i);
        let fit = outcome(f, span, a, b);
        law_deciding_fit_is_refined(f, span, a, b);
        assert(stretch(pts, cuts, k) == span);
        assert(is_refined_fit(f, stretch(pts, cuts, k), a, b, fit));
        assert(draws_part(f, stretch(pts, cuts, k), a, b, segs[i]));
    }
    ends
}

proof fn lemma_ends_positive<P, S>(f: Fitting<P, S>, span: Seq<P>, hi: int, i: int)
    requires
        0 < hi,
        0 <= i < piece_ends(f, span, 0, hi, 0).len(),
    ensures
        0 < piece_ends(f, span, 0, hi, 0)[i],
    decreases i,
{
    law_pieces_tile(f, span, 0, hi, 0);
    let ends = piece_ends(f, span, 0, hi, 0);
    assert(piece_start(0, ends, i) < ends[i]);
    if i > 0 {
        lemma_ends_positive(f, span, hi, i - 1);
    }
}

/// The stops along the first `count` stretches.
proof fn lemma_stops<P, S>(
    f: Fitting<P, S>,
    pts: Seq<P>,
    cuts: Seq<usize>,
    count: int,
) -> (stops: Seq<int>)
    requires
        2 <= pts.len() <= usize::MAX,
        are_corners(cuts, pts.len() as int),
        0 <= count <= cuts.len(),
        cuts.len() > 0,
    ensures
        ({
            let n = pts.len() as int;
            let segs = fitted_spans(f, pts, cuts, count);
            &&& stops.len() == segs.len() + 1
            &&& stops[0] == cut_stop(n, cuts, 0)
            &&& stops.last() == cut_stop(n, cuts, count)
            &&& forall|i: int, j: int|
                #![trigger stops[i], stops[j]]
                0 <= i && j == i + 1 && j < stops.len() ==> stops[i] < stops[j] && draws_stretch(
                    f,
                    pts,
                    cuts,
                    stops[i],
                    stops[j],
                    segs[i],
                )
            &&& forall|k: int|
                0 <= k <= count ==> stops.contains(#[trigger] cut_stop(n, cuts, k))
        }),
    decreases count,
{
    let n = pts.len() as int;
    let first = cut_stop(n, cuts, 0);
    if count == 0 {
        let stops = seq![first];
        assert(stops[0] == first);
        stops
    } else {
        let before = lemma_stops(f, pts, cuts, count - 1);
        let ends = lemma_stretch_stops(f, pts, cuts, count - 1);
        let stops = before + ends;
        let segs = fitted_spans(f, pts, cuts, count);
        let old = fitted_spans(f, pts, cuts, count - 1);
        let new = fitted_span(f, span_at(pts, cuts, count - 1));
        let start = cut_stop(n, cuts, count - 1);
        assert forall|i: int, j: int|
            #![trigger stops[i], stops[j]]
            0 <= i && j == i + 1 && j < stops.len() implies stops[i] < stops[j] && draws_stretch(
            f,
            pts,
            cuts,
            stops[i],
            stops[j],
            segs[i],
        ) by {
            if j < before.len() {
                assert(stops[i] == before[i] && stops[j] == before[j]);
                assert(segs[i] == old[i]);
            } else {
                let e = j - before.len();
                assert(stops_at(f, pts, cuts, count - 1, ends, e));
                assert(stops[j] == ends[e]);
                assert(stops[i] == piece_start(start, ends, e));
                assert(segs[i] == new[e]);
            }
        }
        assert forall|k: int| 0 <= k <= count implies stops.contains(
            #[trigger] cut_stop(n, cuts, k),
        ) by {
            if k < count {
                assert(before.contains(cut_stop(n, cuts, k)));
                let i = choose|i: int| 0 <= i < before.len() && before[i] == cut_stop(n, cuts, k);
                assert(stops[i] == cut_stop(n, cuts, k));
            } else {
                assert(stops[stops.len() - 1] == ends.last());
            }
        }
        assert(stops.last() == ends.last());
        stops
    }
}

/// Segment `i` leads on from one of `stops` to the next: farther around the loop, and to the
/// place of the vertex there.
pub open spec fn leads_on<P>(
    place: spec_fn(P) -> Ptf,
    pts: Seq<P>,
    stops: Seq<int>,
    segs: Seq<Seg>,
    i: int,
) -> bool {
    let to = stops[i + 1];
    &&& stops[i] < to
    &&& seg_end(segs[i]) == place(pts[if to < pts.len() {
        to
    } else {
        to - pts.len()
    }])
}

/// A fitted loop follows its vertices all the way around, in their order: its segments
/// lead from stop to stop, each one farther on around the loop, once around from the
/// first corner (from vertex 0 without corners) to itself, and every corner is a stop.
/// Each segment draws all vertices between its two stops, with no corner among them: by
/// a fit to them within the tolerance, or straight between neighbours.
pub proof fn law_fitted_loop_follows_every_vertex<P, S>(
    f: Fitting<P, S>,
    pts: Seq<P>,
    corners: Seq<usize>,
) -> (stops: Seq<int>)
    requires
        4 <= pts.len() <= usize::MAX,
        are_corners(corners, pts.len() as int),
    ensures
        ({
            let n = pts.len() as int;
            let segs = loop_segs(f, pts, corners);
            let cuts = if corners.len() == 0 {
                seq![0usize]
            } else {
                corners
            };
            &&& stops.len() == segs.len() + 1
            &&& stops[0] == cuts[0]
            &&& stops.last() == cuts[0] + n
            &&& loop_start(f, pts, corners) == (f.place)(pts[cuts[0] as int])
            &&& forall|i: int|
                0 <= i < segs.len() ==> #[trigger] leads_on(f.place, pts, stops, segs, i)
                    && draws_stretch(f, pts, cuts, stops[i], stops[i + 1], segs[i])
            &&& forall|k: int|
                0 <= k < corners.len() ==> stops.contains(#[trigger] corners[k] as int)
        }),
{
    let n = pts.len() as int;
    let cuts = cuts_of(corners);
    let stops = lemma_stops(f, pts, cuts, cuts.len() as int);
    let segs = loop_segs(f, pts, corners);
    assert forall|i: int| 0 <= i < segs.len() implies #[trigger] leads_on(
        f.place,
        pts,
        stops,
        segs,
        i,
    ) && draws_stretch(f, pts, cuts, stops[i], stops[i + 1], segs[i]) by {
        let j = i + 1;
        assert(stops[i] < stops[j] && draws_stretch(f, pts, cuts, stops[i], stops[j], segs[i]));
        lemma_stretch_end(f, pts, cuts, stops[i], stops[j], segs[i]);
    }
    assert forall|k: int| 0 <= k < corners.len() implies stops.contains(
        #[trigger] corners[k] as int,
    ) by {
        assert(cut_stop(n, cuts, k) == corners[k]);
    }
    stops
}

proof fn lemma_stretch_end<P, S>(
    f: Fitting<P, S>,
    pts: Seq<P>,
    cuts: Seq<usize>,
    from: int,
    to: int,
    seg: Seg,
)
    requires
        0 < pts.len() <= usize::MAX,
        are_corners(cuts, pts.len() as int),
        draws_stretch(f, pts, cuts, from, to, seg),
    ensures
        seg_end(seg) == (f.place)(pts[if to < pts.len() {
            to
        } else {
            to - pts.len()
        }]),
{
    let k = choose|k: int|
        #![trigger stretch(pts, cuts, k)]
        {
            let start = cut_stop(pts.len() as int, cuts, k);
            &&& 0 <= k < cuts.len()
            &&& start <= from < to <= cut_stop(pts.len() as int, cuts, k + 1)
            &&& draws_part(f, stretch(pts, cuts, k), from - start, to - start, seg)
        };
    lemma_stretch(pts, cuts, k);
}

/// The spans of a loop cover it: one after the other, each from a corner on to the next
/// one, they hold every vertex in turn, and what is drawn is what is drawn along each of
/// them.
pub proof fn law_loop_is_drawn_span_by_span<P, S>(
    f: Fitting<P, S>,
    pts: Seq<P>,
    corners: Seq<usize>,
)
    requires
        4 <= pts.len() <= usize::MAX,
        are_corners(corners, pts.len() as int),
    ensures
        ({
            let n = pts.len() as int;
            let cuts = if corners.len() == 0 {
                seq![0usize]
            } else {
                corners
            };
            let spans = Seq::new(
                cuts.len(),
                |k: int|
                    {
                        let from = cuts[k] as int;
                        let to = if k + 1 < cuts.len() {
                            cuts[k + 1] as int
                        } else {
                            cuts[0] + n
                        };
                        Seq::new((to - from + 1) as nat, |t: int| pts[(from + t) % n])
                    },
            );
            loop_segs(f, pts, corners) == spans.map_values(
                |span: Seq<P>| fitted(f, span, 0, span.len() - 1, 0),
            ).flatten()
        }),
{
    let n = pts.len() as int;
    let cuts = cuts_of(corners);
    let spans = Seq::new(
        cuts.len(),
        |k: int|
            {
                let from = cuts[k] as int;
                let to = if k + 1 < cuts.len() {
                    cuts[k + 1] as int
                } else {
                    cuts[0] + n
                };
                Seq::new((to - from + 1) as nat, |t: int| pts[(from + t) % n])
            },
    );
    let drawn = spans.map_values(|span: Seq<P>| fitted(f, span, 0, span.len() - 1, 0));
    assert forall|k: int| 0 <= k < cuts.len() implies #[trigger] drawn[k] == fitted_span(
        f,
        span_at(pts, cuts, k),
    ) by {
        lemma_stretch(pts, cuts, k);
        let span = span_at(pts, cuts, k);
        let c = cuts.len() as int;
        if k + 1 < c {
            vstd::arithmetic::div_mod::lemma_small_mod((k + 1) as nat, c as nat);
        } else {
            vstd::arithmetic::div_mod::lemma_mod_self_0(c);
        }
        assert(span.len() == spans[k].len());
        assert forall|t: int| 0 <= t < span.len() implies span[t] == spans[k][t] by {
            vstd::arithmetic::div_mod::lemma_mod_bound(cuts[k] + t, n);
        }
        assert(span =~= spans[k]);
    }
    lemma_spans_joined(f, pts, cuts, drawn, cuts.len() as int);
    assert(drawn.take(cuts.len() as int) =~= drawn);
}

proof fn lemma_spans_joined<P, S>(
    f: Fitting<P, S>,
    pts: Seq<P>,
    cuts: Seq<usize>,
    drawn: Seq<Seq<Seg>>,
    count: int,
)
    requires
        0 <= count <= drawn.len(),
        drawn.len() == cuts.len(),
        forall|k: int|
            0 <= k < cuts.len() ==> #[trigger] drawn[k] == fitted_span(f, span_at(pts, cuts, k)),
    ensures
        fitted_spans(f, pts, cuts, count) == drawn.take(count).flatten(),
    decreases count,
{
    if count == 0 {
        assert(drawn.take(0).flatten() =~= Seq::empty());
    } else {
        lemma_spans_joined(f, pts, cuts, drawn, count - 1);
        let part = drawn.take(count - 1);
        assert(drawn.take(count) =~= part.push(drawn[count - 1]));
        part.lemma_flatten_push(drawn[count - 1]);
    }
}

/// A loop of fewer than four vertices is drawn as the polygon of all its vertices, and one
/// without any as nothing at the origin.
pub proof fn law_small_loop_is_a_polygon<P, S>(
    f: Fitting<P, S>,
    pts: Seq<P>,
    corners: Seq<usize>,
    i: int,
)
    requires
        pts.len() < 4,
    ensures
        pts.len() == 0 ==> loop_start(f, pts, corners) == (0i128, 0i128) && loop_segs(
            f,
            pts,
            corners,
        ).len() == 0,
        pts.len() > 0 ==> loop_start(f, pts, corners) == (f.place)(pts[0]) && loop_segs(
            f,
            pts,
            corners,
        ).len() == pts.len() - 1,
        1 <= i < pts.len() ==> loop_segs(f, pts, corners)[i - 1] == Seg::Line((f.place)(pts[i])),
{
}

/// The corners of a loop of three or more vertices are exactly the vertices at which
/// the turn from the vertex before to the vertex after is sharp, in ascending order.
pub proof fn law_corners_are_the_sharp_turns<P>(m: spec_fn(P, P, P) -> bool, pts: Seq<P>, i: int)
    requires
        3 <= pts.len() <= usize::MAX,
        0 <= i < pts.len(),
    ensures
        ({
            let n = pts.len() as int;
            let corners = raised(corner_flags(m, pts));
            &&& are_corners(corners, n)
            &&& corners.contains(i as usize) <==> m(
                pts[if i > 0 {
                    i - 1
                } else {
                    n - 1
                }],
                pts[i],
                pts[if i < n - 1 {
                    i + 1
                } else {
                    0
                }],
            )
        }),
{
    let flags = corner_flags(m, pts);
    lemma_raised(flags);
    let corners = raised(flags);
    if corners.contains(i as usize) {
        let k = choose|k: int| 0 <= k < corners.len() && corners[k] == i as usize;
        assert(flags[corners[k] as int]);
    }
    if flags[i] {
        assert(corners.contains(i as usize));
    }
}

/// The worst of the errors, in full: the last of the places with the largest one, and
/// the middle where no place between the ends has an error that is a number.
pub proof fn law_worst_is_the_last_of_the_largest(
    errors: Seq<Option<u64>>,
    middle: int,
    end: int,
    i: int,
)
    ensures
        ({
            let (max, at) = worst(errors, middle, end);
            &&& at < i < end && i >= 1 && errors[i] is Some ==> errors[i].unwrap() < max
            &&& (forall|k: int| 1 <= k < end ==> #[trigger] errors[k] is None) ==> (max, at) == (0u64, middle)
        }),
    decreases end,
{
    if end > 1 {
        law_worst_is_the_last_of_the_largest(errors, middle, end - 1, i);
        if forall|k: int| 1 <= k < end ==> #[trigger] errors[k] is None {
            assert(errors[end - 1] is None);
        }
    }
}

/// The place `at[k]` is the last of those in `at` up to `p`, of `n` places.
pub open spec fn stands_for(at: Seq<int>, n: int, k: int, p: int) -> bool {
    &&& 0 <= k < at.len()
    &&& at[k] <= p < n
    &&& k + 1 < at.len() ==> p < at[k + 1]
}

proof fn lemma_deduped_places<P>(pts: Seq<P>) -> (at: Seq<int>)
    ensures
        at.len() == deduped(pts).len(),
        forall|k: int|
            0 <= k < at.len() ==> 0 <= #[trigger] at[k] < pts.len() && deduped(pts)[k] == pts[at[k]],
        forall|i: int, j: int| 0 <= i < j < at.len() ==> at[i] < at[j],
        pts.len() > 0 ==> at.len() > 0 && at[0] == 0,
        forall|k: int, p: int|
            #[trigger] stands_for(at, pts.len() as int, k, p) ==> pts[p] == pts[at[k]],
    decreases pts.len(),
{
    if pts.len() == 0 {
        Seq::empty()
    } else {
        let front = pts.drop_last();
        let rest = lemma_deduped_places(front);
        lemma_deduped(front);
        let d = deduped(front);
        let last = pts.len() - 1;
        if d.len() > 0 && d.last() == pts.last() {
            assert forall|k: int, p: int|
                #[trigger] stands_for(rest, pts.len() as int, k, p) implies pts[p]
                == pts[rest[k]] by {
                if p < last {
                    assert(stands_for(rest, last, k, p));
                    assert(front[p] == pts[p]);
                    assert(front[rest[k]] == pts[rest[k]]);
                } else {
                    if k + 1 < rest.len() {
                        assert(rest[k + 1] < front.len());
                    }
                    assert(d[k] == front[rest[k]]);
                }
            }
            rest
        } else {
            let at = rest.push(last);
            assert forall|k: int, p: int|
                #[trigger] stands_for(at, pts.len() as int, k, p) implies pts[p]
                == pts[at[k]] by {
                if k < rest.len() {
                    assert(at[k] == rest[k]);
                    if k + 1 < rest.len() {
                        assert(at[k + 1] == rest[k + 1]);
                    }
                    assert(stands_for(rest, last, k, p));
                    assert(front[p] == pts[p]);
                    assert(front[rest[k]] == pts[rest[k]]);
                }
            }
            at
        }
    }
}

/// Only repetitions are dropped from a loop: what is left are its vertices in their
/// order, from the first one on, and every vertex equals the one that is left for it,
/// the last vertices equal the first one where they repeat it.
pub proof fn law_only_repetitions_are_dropped<P>(pts: Seq<P>) -> (at: Seq<int>)
    ensures
        ({
            let out = without_zero_edges(pts);
            &&& at.len() == out.len()
            &&& pts.len() > 0 ==> at.len() > 0 && at[0] == 0
            &&& forall|k: int|
                0 <= k < at.len() ==> 0 <= #[trigger] at[k] < pts.len() && out[k] == pts[at[k]]
            &&& forall|i: int, j: int| 0 <= i < j < at.len() ==> at[i] < at[j]
            &&& forall|k: int, p: int|
                #[trigger] stands_for(at, pts.len() as int, k, p) ==> pts[p] == pts[at[k]] || (k
                    == at.len() - 1 && pts[p] == pts[0])
        }),
{
    let all = lemma_deduped_places(pts);
    let d = deduped(pts);
    if d.len() > 1 && d.first() == d.last() {
        let at = all.drop_last();
        let last = all.len() - 1;
        assert(d[0] == pts[all[0]] && d[last] == pts[all[last]]);
        assert forall|k: int, p: int|
            #[trigger] stands_for(at, pts.len() as int, k, p) implies pts[p] == pts[at[k]] || (k
            == at.len() - 1 && pts[p] == pts[0]) by {
            if k < at.len() - 1 || p < all[last] {
                assert(stands_for(all, pts.len() as int, k, p));
            } else {
                assert(stands_for(all, pts.len() as int, last, p));
            }
            assert(at[k] == all[k]);
            if k + 1 < at.len() {
                assert(at[k + 1] == all[k + 1]);
            } else if p >= all[last] {
                assert(pts[p] == pts[all[last]]);
            }
        }
        at
    } else {
        all
    }
}

/// Cutting ends: from the 48th cut on, a part is drawn straight, however it would fit.
pub proof fn law_deep_parts_are_straight<P, S>(
    f: Fitting<P, S>,
    span: Seq<P>,
    lo: int,
    hi: int,
    depth: int,
)
    requires
        depth >= 48,
    ensures
        fitted(f, span, lo, hi, depth) == seq![
            Seg::Cubic(
                (f.straight)(span[lo], span[hi]).0,
                (f.straight)(span[lo], span[hi]).1,
                (f.place)(span[hi]),
            ),
        ],
{
}

/// A span is drawn from its first point to its last, and no cut comes before; along a
/// single point nothing is drawn.
pub proof fn law_span_is_drawn_end_to_end<P, S>(f: Fitting<P, S>, span: Seq<P>)
    ensures
        span.len() >= 2 ==> fitted_span(f, span) == fitted(f, span, 0, span.len() - 1, 0),
        span.len() < 2 ==> fitted_span(f, span).len() == 0,
{
}

} // verus!
