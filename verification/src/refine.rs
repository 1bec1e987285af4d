//! Edge-guided contour refinement.
//!
//! Given an edge-probability map, a dense contour is snapped onto the nearest ridge
//! of true edges, which takes the stairs out of the quantization boundary; then it
//! is simplified again, and its corners are found on the cleaned-up curve.
//!
//! Junctions, where three or more regions meet, are pinned: they never move, are
//! never dropped and always break the curve, so that every region that shares one
//! agrees on the boundary.
//!
//! Coordinates and edge strengths come from the caller as order keys and bit
//! patterns (see the crate documentation). What is decided here is which ridge a
//! vertex is drawn to, which vertices move, which stay and which are corners.

use vstd::prelude::*;
use crate::curvefit::{after, are_corners, before, corner_flags, detect_corners, may_turn, turns};
use crate::points::{
    as_key_pairs, law_lexmin_is_canonical, lemma_lexmin_exists, lexmin_index, lexmin_of, PointSet,
};
use crate::sampling::{around, samples_around, Taps};
use crate::simplify::{
    by_index, by_place, collect_raised, computes_on, cut_at, flags_of, law_forced_vertices_stay,
    lemma_flags_of_raised, lemma_picked_contains, lemma_picked_from, lemma_raised, lemma_split_len,
    members, padded, raised, simplified_keep, simplify_closed_f_keep, split_kept, Pt,
};

verus! {

/// How often the contour is nudged.
pub const ITERS: usize = 5;

/// How contours are refined.
#[derive(Debug, Clone, Copy)]
pub struct RefineConfig {
    /// Order key of the largest distance, in pixels, that a vertex may move.
    pub snap_radius: u64,
    /// Order key of the least edge strength that a vertex is drawn to.
    pub edge_threshold: i32,
    /// Order key of the turn angle, in degrees, above which a vertex is a corner.
    pub corner_threshold: u64,
}

impl Default for RefineConfig {
    /// A radius of 2 pixels, a strength of 0.25 and an angle of 80 degrees.
    fn default() -> (cfg: Self)
        ensures
            cfg.snap_radius == 0x4000_0000_0000_0000,
            cfg.edge_threshold == 0x3e80_0000,
            cfg.corner_threshold == 0x4054_0000_0000_0000,
    {
        RefineConfig {
            snap_radius: 0x4000_0000_0000_0000,
            edge_threshold: 0x3e80_0000,
            corner_threshold: 0x4054_0000_0000_0000,
        }
    }
}

/// Strengths may be asked for at any step.
pub open spec fn may_sample<Q: Fn(i64) -> Option<i32>>(strength: Q) -> bool {
    forall|s: i64| #[trigger] strength.requires((s,))
}

/// `strength` computes `m`.
pub open spec fn samples<Q: Fn(i64) -> Option<i32>>(strength: Q, m: spec_fn(int) -> Option<i32>) -> bool {
    forall|s: i64, v: Option<i32>| #[trigger] strength.ensures((s,), v) ==> v == m(s as int)
}

/// The strongest of the steps from `lo` on and below `end` (the first one among
/// equals) with its strength, where it is stronger than `here`; else step 0 with
/// that. A step out of reach has no strength.
pub open spec fn peak(m: spec_fn(int) -> Option<i32>, here: i32, lo: int, end: int) -> (i32, int)
    decreases end - lo,
{
    if end <= lo {
        (here, 0)
    } else {
        let best = peak(m, here, lo, end - 1);
        match m(end - 1) {
            Some(v) if v > best.0 => (v, end - 1),
            _ => best,
        }
    }
}

/// The step that a vertex is drawn to along the edge gradient: the strongest one
/// of at most `steps` either way, if it reaches the threshold; else 0.
pub open spec fn ridge_step(
    m: spec_fn(int) -> Option<i32>,
    here: Option<i32>,
    steps: int,
    threshold: i32,
) -> int {
    match here {
        None => 0,
        Some(here) => {
            let best = peak(m, here, -steps, steps + 1);
            if best.0 >= threshold {
                best.1
            } else {
                0
            }
        },
    }
}

/// The mathematical functions behind a refinement.
#[verifier::reject_recursive_types(P)]
pub ghost struct Geometry<P> {
    /// A lattice point as a point.
    pub lift: spec_fn(Pt) -> P,
    /// Where a vertex moves: from its lattice point, the vertex before it, its
    /// place and the vertex after it.
    pub step: spec_fn(Pt, P, P, P) -> P,
    /// The order keys of the coordinates.
    pub order: spec_fn(P) -> (i64, i64),
    /// The order key of a point's distance from a chord.
    pub dist: spec_fn(P, P, P) -> u64,
    /// Whether two points are near-duplicates.
    pub near: spec_fn(P, P) -> bool,
    /// The lattice point that a point sits on, if it does.
    pub lattice: spec_fn(P) -> Option<Pt>,
    /// Whether the turn at the middle one of three points is sharp.
    pub sharp: spec_fn(P, P, P) -> bool,
}

/// The mathematical functions behind the pull of ridges on vertices.
#[verifier::reject_recursive_types(P)]
pub ghost struct Pull<P> {
    /// The strength of the edge at a vertex; none where the edge map is flat there.
    pub here: spec_fn(P) -> Option<i32>,
    /// The strength that some steps along the edge gradient lead to; none out of
    /// reach.
    pub strength: spec_fn(P, int) -> Option<i32>,
    /// Where a vertex moves: from its lattice point, the vertex before it, its
    /// place, the vertex after it and the step that it is drawn to.
    pub nudge: spec_fn(Pt, P, P, P, i64) -> P,
}

/// The strengths along the edge gradient at a vertex.
pub open spec fn along<P>(u: Pull<P>, p: P) -> spec_fn(int) -> Option<i32> {
    |s: int| (u.strength)(p, s)
}

/// Where a vertex moves that is drawn to its ridge.
pub open spec fn pulled<P>(u: Pull<P>, steps: int, threshold: i32) -> spec_fn(Pt, P, P, P) -> P {
    |q: Pt, a: P, p: P, b: P|
        (u.nudge)(q, a, p, b, ridge_step(along(u, p), (u.here)(p), steps, threshold) as i64)
}

/// `g` with vertices that are drawn to their ridges.
pub open spec fn with_pull<P>(
    g: Geometry<P>,
    u: Pull<P>,
    steps: int,
    threshold: i32,
) -> Geometry<P> {
    Geometry { step: pulled(u, steps, threshold), ..g }
}

/// The functions of a pull may be called on any vertices.
pub open spec fn may_pull<P, E, Q, M>(here: &E, strength: &Q, nudge: &M) -> bool where
    E: Fn(P) -> Option<i32>,
    Q: Fn(P, i64) -> Option<i32>,
    M: Fn(Pt, P, P, P, i64) -> P,
 {
    &&& forall|p: P| #[trigger] here.requires((p,))
    &&& forall|p: P, s: i64| #[trigger] strength.requires((p, s))
    &&& forall|q: Pt, a: P, p: P, b: P, s: i64| #[trigger] nudge.requires((q, a, p, b, s))
}

/// The functions of a pull compute those of `u`.
pub open spec fn pulls<P, E, Q, M>(u: Pull<P>, here: E, strength: Q, nudge: M) -> bool where
    E: Fn(P) -> Option<i32>,
    Q: Fn(P, i64) -> Option<i32>,
    M: Fn(Pt, P, P, P, i64) -> P,
 {
    &&& forall|p: P, v: Option<i32>| #[trigger] here.ensures((p,), v) ==> v == (u.here)(p)
    &&& forall|p: P, s: i64, v: Option<i32>| #[trigger]
        strength.ensures((p, s), v) ==> v == (u.strength)(p, s as int)
    &&& forall|q: Pt, a: P, p: P, b: P, s: i64, r: P| #[trigger]
        nudge.ensures((q, a, p, b, s), r) ==> r == (u.nudge)(q, a, p, b, s)
}

/// `strength` computes `m` along the edge gradient at `p`.
pub open spec fn samples_along<P, Q: Fn(P, i64) -> Option<i32>>(
    strength: &Q,
    p: P,
    m: spec_fn(int) -> Option<i32>,
) -> bool {
    forall|s: i64, v: Option<i32>| #[trigger] strength.ensures((p, s), v) ==> v == m(s as int)
}

/// The functions that shape a contour may be called on any points.
pub open spec fn may_shape<P, L, O, D, N, X, C>(
    lift: L,
    order: O,
    dist: D,
    near: N,
    lattice: X,
    sharp: C,
) -> bool where
    L: Fn(Pt) -> P,
    O: Fn(P) -> (i64, i64),
    D: Fn(P, P, P) -> u64,
    N: Fn(P, P) -> bool,
    X: Fn(P) -> Option<Pt>,
    C: Fn(P, P, P) -> bool,
 {
    &&& forall|q: Pt| #[trigger] lift.requires((q,))
    &&& forall|p: P| #[trigger] order.requires((p,))
    &&& forall|p: P, a: P, b: P| #[trigger] dist.requires((p, a, b))
    &&& forall|a: P, b: P| #[trigger] near.requires((a, b))
    &&& forall|p: P| #[trigger] lattice.requires((p,))
    &&& may_turn(sharp)
}

/// The functions that shape a contour compute those of `g`.
pub open spec fn shapes<P, L, O, D, N, X, C>(
    g: Geometry<P>,
    lift: L,
    order: O,
    dist: D,
    near: N,
    lattice: X,
    sharp: C,
) -> bool where
    L: Fn(Pt) -> P,
    O: Fn(P) -> (i64, i64),
    D: Fn(P, P, P) -> u64,
    N: Fn(P, P) -> bool,
    X: Fn(P) -> Option<Pt>,
    C: Fn(P, P, P) -> bool,
 {
    &&& lifts(lift, g.lift)
    &&& orders(order, g.order)
    &&& computes_on(dist, g.dist)
    &&& nears(near, g.near)
    &&& sits(lattice, g.lattice)
    &&& turns(sharp, g.sharp)
}

/// `lift` computes `m`.
pub open spec fn lifts<P, L: Fn(Pt) -> P>(lift: L, m: spec_fn(Pt) -> P) -> bool {
    forall|q: Pt, p: P| #[trigger] lift.ensures((q,), p) ==> p == m(q)
}

/// `step` computes `m`.
pub open spec fn nudges<P, T: Fn(Pt, P, P, P) -> P>(step: T, m: spec_fn(Pt, P, P, P) -> P) -> bool {
    forall|q: Pt, a: P, p: P, b: P, r: P| #[trigger]
        step.ensures((q, a, p, b), r) ==> r == m(q, a, p, b)
}

/// `order` computes `m`.
pub open spec fn orders<P, O: Fn(P) -> (i64, i64)>(order: O, m: spec_fn(P) -> (i64, i64)) -> bool {
    forall|p: P, k: (i64, i64)| #[trigger] order.ensures((p,), k) ==> k == m(p)
}

/// `near` computes `m`.
pub open spec fn nears<P, N: Fn(P, P) -> bool>(near: N, m: spec_fn(P, P) -> bool) -> bool {
    forall|a: P, b: P, r: bool| #[trigger] near.ensures((a, b), r) ==> r == m(a, b)
}

/// `lattice` computes `m`.
pub open spec fn sits<P, X: Fn(P) -> Option<Pt>>(lattice: X, m: spec_fn(P) -> Option<Pt>) -> bool {
    forall|p: P, r: Option<Pt>| #[trigger] lattice.ensures((p,), r) ==> r == m(p)
}

/// The contour nudged once: all vertices move at the same time, the pinned ones
/// not at all.
pub open spec fn nudged<P>(
    m: spec_fn(Pt, P, P, P) -> P,
    origin: Seq<Pt>,
    pinned: Seq<bool>,
    pts: Seq<P>,
) -> Seq<P> {
    let n = pts.len() as int;
    Seq::new(
        n as nat,
        |i: int|
            if pinned[i] {
                pts[i]
            } else {
                m(origin[i], pts[before(n, i)], pts[i], pts[after(n, i)])
            },
    )
}

/// The contour after some rounds.
pub open spec fn evolved<P>(
    m: spec_fn(Pt, P, P, P) -> P,
    origin: Seq<Pt>,
    pinned: Seq<bool>,
    pts: Seq<P>,
    rounds: nat,
) -> Seq<P>
    decreases rounds,
{
    if rounds == 0 {
        pts
    } else {
        nudged(m, origin, pinned, evolved(m, origin, pinned, pts, (rounds - 1) as nat))
    }
}

/// Evolves the contour as a short snake, whose pinned vertices stay.
pub fn evolve<P: Copy, T: Fn(Pt, P, P, P) -> P>(
    origin: &[Pt],
    start: Vec<P>,
    pinned: &[bool],
    step: &T,
) -> (pts: Vec<P>)
    requires
        origin@.len() == start@.len(),
        pinned@.len() == start@.len(),
        forall|q: Pt, a: P, p: P, b: P| #[trigger] step.requires((q, a, p, b)),
    ensures
        pts@.len() == start@.len(),
        forall|m: spec_fn(Pt, P, P, P) -> P| #[trigger]
            nudges(*step, m) ==> pts@ == evolved(m, origin@, pinned@, start@, ITERS as nat),
{
    let n: usize = start.len();
    let ghost first = start@;
    let mut pts: Vec<P> = start;
    let mut round: usize = 0;
    while round < ITERS
        invariant
            round <= ITERS,
            n == origin@.len(),
            n == pinned@.len(),
            n == pts@.len(),
            forall|q: Pt, a: P, p: P, b: P| #[trigger] step.requires((q, a, p, b)),
            forall|m: spec_fn(Pt, P, P, P) -> P| #[trigger]
                nudges(*step, m) ==> pts@ == evolved(m, origin@, pinned@, first, round as nat),
        decreases ITERS - round,
    {
        let mut next: Vec<P> = Vec::new();
        let mut i: usize = 0;
        while i < n
            invariant
                i <= n,
                n == origin@.len(),
                n == pinned@.len(),
                n == pts@.len(),
                next@.len() == i,
                forall|q: Pt, a: P, p: P, b: P| #[trigger] step.requires((q, a, p, b)),
                forall|m: spec_fn(Pt, P, P, P) -> P| #[trigger]
                    nudges(*step, m) ==> next@ == nudged(m, origin@, pinned@, pts@).take(i as int),
            decreases n - i,
        {
            let ghost done = next@;
            if pinned[i] {
                next.push(pts[i]);
            } else {
                let prev: usize = if i == 0 { n - 1 } else { i - 1 };
                let succ: usize = if i == n - 1 { 0 } else { i + 1 };
                next.push(step(origin[i], pts[prev], pts[i], pts[succ]));
            }
            i = i + 1;
            assert forall|m: spec_fn(Pt, P, P, P) -> P| #[trigger] nudges(*step, m) implies next@
                == nudged(m, origin@, pinned@, pts@).take(i as int) by {
                assert(done == nudged(m, origin@, pinned@, pts@).take(i - 1));
                assert(next@ =~= nudged(m, origin@, pinned@, pts@).take(i as int));
            }
        }
        assert forall|m: spec_fn(Pt, P, P, P) -> P| #[trigger] nudges(*step, m) implies next@
            == evolved(m, origin@, pinned@, first, (round + 1) as nat) by {
            assert(nudged(m, origin@, pinned@, pts@).take(n as int) =~= nudged(
                m,
                origin@,
                pinned@,
                pts@,
            ));
        }
        pts = next;
        round = round + 1;
    }
    pts
}

/// A point that may be dropped beside `other`: a near-duplicate off the lattice.
pub open spec fn superfluous<P>(
    near: spec_fn(P, P) -> bool,
    lattice: spec_fn(P) -> Option<Pt>,
    p: P,
    other: P,
) -> bool {
    near(p, other) && lattice(p) is None
}

/// The points without those that are superfluous beside the last one kept.
pub open spec fn thinned<P>(
    near: spec_fn(P, P) -> bool,
    lattice: spec_fn(P) -> Option<Pt>,
    pts: Seq<P>,
) -> Seq<P>
    decreases pts.len(),
{
    if pts.len() == 0 {
        Seq::empty()
    } else {
        let rest = thinned(near, lattice, pts.drop_last());
        if rest.len() > 0 && superfluous(near, lattice, pts.last(), rest.last()) {
            rest
        } else {
            rest.push(pts.last())
        }
    }
}

/// A closed loop without near-duplicates: the last point goes too where it is
/// close to the first one.
pub open spec fn thinned_loop<P>(
    near: spec_fn(P, P) -> bool,
    lattice: spec_fn(P) -> Option<Pt>,
    pts: Seq<P>,
) -> Seq<P> {
    let t = thinned(near, lattice, pts);
    if t.len() > 1 && near(t.first(), t.last()) && lattice(t.last()) is None {
        t.drop_last()
    } else {
        t
    }
}

/// Drops near-duplicates from a closed loop, but never a point on the lattice:
/// that would reopen a gap at a junction.
pub fn thin<P: Copy, N: Fn(P, P) -> bool, X: Fn(P) -> Option<Pt>>(
    pts: &[P],
    near: &N,
    lattice: &X,
) -> (out: Vec<P>)
    requires
        forall|a: P, b: P| #[trigger] near.requires((a, b)),
        forall|p: P| #[trigger] lattice.requires((p,)),
    ensures
        forall|m: spec_fn(P, P) -> bool, l: spec_fn(P) -> Option<Pt>|
            #![trigger nears(*near, m), sits(*lattice, l)]
            nears(*near, m) && sits(*lattice, l) ==> out@ == thinned_loop(m, l, pts@),
{
    let mut out: Vec<P> = Vec::new();
    let mut i: usize = 0;
    while i < pts.len()
        invariant
            i <= pts@.len(),
            forall|a: P, b: P| #[trigger] near.requires((a, b)),
            forall|p: P| #[trigger] lattice.requires((p,)),
            forall|m: spec_fn(P, P) -> bool, l: spec_fn(P) -> Option<Pt>|
                #![trigger nears(*near, m), sits(*lattice, l)]
                nears(*near, m) && sits(*lattice, l) ==> out@ == thinned(
                    m,
                    l,
                    pts@.take(i as int),
                ),
        decreases pts@.len() - i,
    {
        let p: P = pts[i];
        let len: usize = out.len();
        let drop: bool = len > 0 && near(p, out[len - 1]) && lattice(p).is_none();
        assert(pts@.take(i + 1).drop_last() =~= pts@.take(i as int));
        if !drop {
            out.push(p);
        }
        i = i + 1;
    }
    assert(pts@.take(i as int) =~= pts@);
    let len: usize = out.len();
    if len > 1 && near(out[0], out[len - 1]) && lattice(out[len - 1]).is_none() {
        let ghost all = out@;
        out.pop();
        assert(out@ =~= all.drop_last());
    }
    out
}

/// Whether a point sits on a junction.
pub open spec fn on_junction<P>(
    lattice: spec_fn(P) -> Option<Pt>,
    junctions: Set<Pt>,
    p: P,
) -> bool {
    lattice(p) matches Some(q) && junctions.contains(q)
}

/// Which vertices break the curve: the sharp turns and the junctions.
pub open spec fn break_flags<P>(
    sharp: spec_fn(P, P, P) -> bool,
    lattice: spec_fn(P) -> Option<Pt>,
    junctions: Set<Pt>,
    pts: Seq<P>,
) -> Seq<bool> {
    Seq::new(
        pts.len(),
        |i: int| corner_flags(sharp, pts)[i] || on_junction(lattice, junctions, pts[i]),
    )
}

/// The order keys of points.
pub open spec fn keys_of<P>(order: spec_fn(P) -> (i64, i64), pts: Seq<P>) -> Seq<(i64, i64)> {
    pts.map_values(order)
}

/// The corners of a loop for curve fitting, ascending: the vertices that break the
/// curve, or else the lexicographically smallest one.
pub open spec fn junction_corners<P>(
    sharp: spec_fn(P, P, P) -> bool,
    lattice: spec_fn(P) -> Option<Pt>,
    order: spec_fn(P) -> (i64, i64),
    junctions: Set<Pt>,
    pts: Seq<P>,
) -> Seq<usize> {
    if pts.len() == 0 {
        Seq::empty()
    } else {
        cut_at(
            break_flags(sharp, lattice, junctions, pts),
            lexmin_of(as_key_pairs(keys_of(order, pts))),
        )
    }
}

fn collect_keys<P: Copy, O: Fn(P) -> (i64, i64)>(pts: &[P], order: &O) -> (keys: Vec<(i64, i64)>)
    requires
        forall|p: P| #[trigger] order.requires((p,)),
    ensures
        keys@.len() == pts@.len(),
        forall|m: spec_fn(P) -> (i64, i64)| #[trigger]
            orders(*order, m) ==> keys@ == keys_of(m, pts@),
{
    let mut keys: Vec<(i64, i64)> = Vec::new();
    let mut i: usize = 0;
    while i < pts.len()
        invariant
            i <= pts@.len(),
            keys@.len() == i,
            forall|p: P| #[trigger] order.requires((p,)),
            forall|j: int| 0 <= j < i ==> order.ensures((pts@[j],), #[trigger] keys@[j]),
        decreases pts@.len() - i,
    {
        keys.push(order(pts[i]));
        i = i + 1;
    }
    assert forall|m: spec_fn(P) -> (i64, i64)| #[trigger] orders(*order, m) implies keys@
        == keys_of(m, pts@) by {
        assert forall|j: int| 0 <= j < pts@.len() implies keys@[j] == keys_of(m, pts@)[j] by {
            assert(order.ensures((pts@[j],), keys@[j]));
        }
        assert(keys@ =~= keys_of(m, pts@));
    }
    keys
}

/// The corner indices for curve fitting: the sharp turns and every junction.
/// Breaking the curve at junctions is what makes a shared edge fit alike from both
/// regions. A loop without either is broken at its lexicographically smallest
/// point, which is the same landmark from either side.
pub fn corners_with_junctions<P: Copy, C, X, O>(
    pts: &[P],
    junctions: &PointSet,
    sharp: &C,
    lattice: &X,
    order: &O,
) -> (out: Vec<usize>) where
    C: Fn(P, P, P) -> bool,
    X: Fn(P) -> Option<Pt>,
    O: Fn(P) -> (i64, i64),

    requires
        may_turn(*sharp),
        forall|p: P| #[trigger] lattice.requires((p,)),
        forall|p: P| #[trigger] order.requires((p,)),
    ensures
        are_corners(out@, pts@.len() as int),
        pts@.len() > 0 ==> out@.len() > 0,
        forall|
            m: spec_fn(P, P, P) -> bool,
            l: spec_fn(P) -> Option<Pt>,
            o: spec_fn(P) -> (i64, i64),
        |
            #![trigger turns(*sharp, m), sits(*lattice, l), orders(*order, o)]
            turns(*sharp, m) && sits(*lattice, l) && orders(*order, o) ==> out@
                == junction_corners(m, l, o, junctions@, pts@),
{
    let n: usize = pts.len();
    if n == 0 {
        return Vec::new();
    }
    let turned = detect_corners(pts, sharp);
    let mut flags: Vec<bool> = Vec::new();
    let mut next: usize = 0;
    let mut i: usize = 0;
    let ghost marks = flags_of(n as int, turned@);
    while i < n
        invariant
            n == pts@.len(),
            i <= n,
            next <= turned@.len(),
            flags@.len() == i,
            are_corners(turned@, n as int),
            marks == flags_of(n as int, turned@),
            forall|j: int| 0 <= j < next ==> #[trigger] turned@[j] < i,
            forall|j: int| next <= j < turned@.len() ==> i <= #[trigger] turned@[j],
            forall|p: P| #[trigger] lattice.requires((p,)),
            forall|l: spec_fn(P) -> Option<Pt>, j: int|
                #![trigger sits(*lattice, l), flags@[j]]
                sits(*lattice, l) && 0 <= j < i ==> flags@[j] == (marks[j] || on_junction(
                    l,
                    junctions@,
                    pts@[j],
                )),
        decreases n - i,
    {
        let turn: bool = next < turned.len() && turned[next] == i;
        let pinned: bool = match lattice(pts[i]) {
            Some(q) => junctions.contains(q),
            None => false,
        };
        proof {
            if turn {
                assert(turned@[next as int] == i);
                assert(marks[i as int]);
            } else {
                assert(!marks[i as int]);
            }
        }
        flags.push(turn || pinned);
        if turn {
            next = next + 1;
        }
        i = i + 1;
    }
    let mut out: Vec<usize> = collect_raised(&flags);
    proof {
        lemma_raised(flags@);
    }
    let ghost raised_before = out@;
    let keys = collect_keys(pts, order);
    if out.len() == 0 {
        out.push(lexmin_index(keys.as_slice()));
    }
    proof {
        assert forall|
            m: spec_fn(P, P, P) -> bool,
            l: spec_fn(P) -> Option<Pt>,
            o: spec_fn(P) -> (i64, i64),
        |
            #![trigger turns(*sharp, m), sits(*lattice, l), orders(*order, o)]
            turns(*sharp, m) && sits(*lattice, l) && orders(*order, o) implies out@
            == junction_corners(m, l, o, junctions@, pts@) by {
            let want = break_flags(m, l, junctions@, pts@);
            lemma_flags_of_raised(corner_flags(m, pts@));
            assert(marks =~= corner_flags(m, pts@));
            assert(flags@ =~= want);
            assert(out@ =~= cut_at(want, lexmin_of(as_key_pairs(keys@))));
        }
    }
    out
}

/// The loop that is left of a dense contour before its near-duplicates go.
pub open spec fn simplified_contour<P>(
    g: Geometry<P>,
    loop_pts: Seq<Pt>,
    eps2: Option<u64>,
    junctions: Set<Pt>,
) -> Seq<P> {
    let pinned = members(loop_pts, junctions);
    let moved = evolved(g.step, loop_pts, pinned, loop_pts.map_values(g.lift), ITERS as nat);
    simplified_keep(
        g.dist,
        moved,
        as_key_pairs(keys_of(g.order, moved)),
        pinned,
        eps2,
    )
}

/// The points of a refined contour. A loop of fewer than four vertices stays as
/// it is.
pub open spec fn refined_points<P>(
    g: Geometry<P>,
    loop_pts: Seq<Pt>,
    eps2: Option<u64>,
    junctions: Set<Pt>,
) -> Seq<P> {
    if loop_pts.len() < 4 {
        loop_pts.map_values(g.lift)
    } else {
        thinned_loop(g.near, g.lattice, simplified_contour(g, loop_pts, eps2, junctions))
    }
}

/// The corners of a refined contour; none where fewer than three points are left
/// or the loop stayed as it was.
pub open spec fn refined_corners<P>(
    g: Geometry<P>,
    loop_pts: Seq<Pt>,
    eps2: Option<u64>,
    junctions: Set<Pt>,
) -> Seq<usize> {
    let pts = refined_points(g, loop_pts, eps2, junctions);
    if loop_pts.len() < 4 || pts.len() < 3 {
        Seq::empty()
    } else {
        junction_corners(g.sharp, g.lattice, g.order, junctions, pts)
    }
}

fn lift_all<P: Copy, L: Fn(Pt) -> P>(pts: &[Pt], lift: &L) -> (out: Vec<P>)
    requires
        forall|q: Pt| #[trigger] lift.requires((q,)),
    ensures
        out@.len() == pts@.len(),
        forall|m: spec_fn(Pt) -> P| #[trigger] lifts(*lift, m) ==> out@ == pts@.map_values(m),
{
    let mut out: Vec<P> = Vec::new();
    let mut i: usize = 0;
    while i < pts.len()
        invariant
            i <= pts@.len(),
            out@.len() == i,
            forall|q: Pt| #[trigger] lift.requires((q,)),
            forall|j: int| 0 <= j < i ==> lift.ensures((pts@[j],), #[trigger] out@[j]),
        decreases pts@.len() - i,
    {
        out.push(lift(pts[i]));
        i = i + 1;
    }
    assert forall|m: spec_fn(Pt) -> P| #[trigger] lifts(*lift, m) implies out@ == pts@.map_values(
        m,
    ) by {
        assert forall|j: int| 0 <= j < pts@.len() implies out@[j] == pts@.map_values(m)[j] by {
            assert(lift.ensures((pts@[j],), out@[j]));
        }
        assert(out@ =~= pts@.map_values(m));
    }
    out
}

/// An edge map with its dimensions and the configuration, used to refine each
/// contour loop. The map holds the bit patterns of its samples, row by row.
pub struct Refiner<'a> {
    edge: &'a [u32],
    width: usize,
    height: usize,
    cfg: RefineConfig,
}

impl<'a> Refiner<'a> {
    /// The samples of the edge map.
    pub closed spec fn edge(&self) -> Seq<u32> {
        self.edge@
    }

    /// The width of the edge map.
    pub closed spec fn width(&self) -> int {
        self.width as int
    }

    /// The height of the edge map.
    pub closed spec fn height(&self) -> int {
        self.height as int
    }

    /// The configuration.
    pub closed spec fn cfg(&self) -> RefineConfig {
        self.cfg
    }

    /// Puts an edge map and a configuration together.
    pub fn new(edge: &'a [u32], width: usize, height: usize, cfg: RefineConfig) -> (r: Self)
        ensures
            r.edge() == edge@,
            r.width() == width,
            r.height() == height,
            r.cfg() == cfg,
    {
        Refiner { edge, width, height, cfg }
    }

    /// The four samples around a position, clamped at the borders; none where the
    /// map is empty.
    pub fn sample(&self, x: i64, y: i64) -> (r: Option<Taps>)
        requires
            self.width() * self.height() <= self.edge().len(),
        ensures
            r == if self.width() == 0 || self.height() == 0 {
                None
            } else {
                Some(around(self.edge(), self.width(), self.height(), x as int, y as int))
            },
    {
        if self.width == 0 || self.height == 0 {
            None
        } else {
            Some(samples_around(self.edge, self.width, self.height, x, y))
        }
    }

    /// The step along the edge gradient that draws a vertex onto a ridge: the
    /// strongest of at most `steps` either way, if it is stronger than `here` and
    /// reaches the threshold; else 0, which leaves the vertex where it is.
    pub fn snap<Q: Fn(i64) -> Option<i32>>(
        &self,
        here: Option<i32>,
        steps: i32,
        strength: &Q,
    ) -> (s: i64)
        requires
            may_sample(*strength),
        ensures
            forall|m: spec_fn(int) -> Option<i32>| #[trigger]
                samples(*strength, m) ==> s == ridge_step(
                    m,
                    here,
                    steps as int,
                    self.cfg().edge_threshold,
                ),
    {
        let start: i32 = match here {
            None => {
                return 0;
            },
            Some(v) => v,
        };
        let mut best: i32 = start;
        let mut best_step: i64 = 0;
        let lo: i64 = -(steps as i64);
        let end: i64 = steps as i64 + 1;
        let mut k: i64 = lo;
        while k < end
            invariant
                lo <= k,
                k <= end || end < lo,
                end <= 0x8000_0000,
                may_sample(*strength),
                end < lo ==> k == lo && best == start && best_step == 0,
                k <= end ==> (forall|m: spec_fn(int) -> Option<i32>| #[trigger]
                    samples(*strength, m) ==> (best, best_step as int) == peak(
                        m,
                        start,
                        lo as int,
                        k as int,
                    )),
            decreases end - k,
        {
            if let Some(v) = strength(k) {
                if v > best {
                    best = v;
                    best_step = k;
                }
            }
            k = k + 1;
        }
        if best >= self.cfg.edge_threshold {
            best_step
        } else {
            0
        }
    }

    /// Refines a dense contour loop of lattice points: the points that are left,
    /// and their corners, ascending. Vertices are nudged towards the ridges that
    /// [`Refiner::snap`] picks for them, at most `steps` steps away.
    pub fn refine_loop<P: Copy, L, E, Q, M, O, D, N, X, C>(
        &self,
        loop_pts: &[Pt],
        eps2: Option<u64>,
        junctions: &PointSet,
        lift: &L,
        here: &E,
        strength: &Q,
        steps: i32,
        nudge: &M,
        order: &O,
        dist: &D,
        near: &N,
        lattice: &X,
        sharp: &C,
    ) -> (r: (Vec<P>, Vec<usize>)) where
        L: Fn(Pt) -> P,
        E: Fn(P) -> Option<i32>,
        Q: Fn(P, i64) -> Option<i32>,
        M: Fn(Pt, P, P, P, i64) -> P,
        O: Fn(P) -> (i64, i64),
        D: Fn(P, P, P) -> u64,
        N: Fn(P, P) -> bool,
        X: Fn(P) -> Option<Pt>,
        C: Fn(P, P, P) -> bool,

        requires
            may_pull(here, strength, nudge),
            may_shape(*lift, *order, *dist, *near, *lattice, *sharp),
        ensures
            are_corners(r.1@, r.0@.len() as int),
            forall|g: Geometry<P>, u: Pull<P>|
                #![trigger shapes(g, *lift, *order, *dist, *near, *lattice, *sharp), pulls(u, *here, *strength, *nudge)]
                shapes(g, *lift, *order, *dist, *near, *lattice, *sharp) && pulls(
                    u,
                    *here,
                    *strength,
                    *nudge,
                ) ==> ({
                    let drawn = with_pull(g, u, steps as int, self.cfg().edge_threshold);
                    &&& r.0@ == refined_points(drawn, loop_pts@, eps2, junctions@)
                    &&& r.1@ == refined_corners(drawn, loop_pts@, eps2, junctions@)
                }),
    {
        let ghost threshold = self.cfg().edge_threshold;
        let step = |q: Pt, a: P, p: P, b: P| -> (r: P)
            requires
                may_pull(here, strength, nudge),
            ensures
                exists|h: Option<i32>, s: i64| #[trigger]
                    nudge.ensures((q, a, p, b, s), r) && #[trigger] here.ensures((p,), h) && forall|
                        m: spec_fn(int) -> Option<i32>,
                    | #[trigger]
                        samples_along(strength, p, m) ==> s == ridge_step(
                            m,
                            h,
                            steps as int,
                            threshold,
                        ),
            {
                let h: Option<i32> = here(p);
                let at = |s: i64| -> (v: Option<i32>)
                    requires
                        strength.requires((p, s)),
                    ensures
                        strength.ensures((p, s), v),
                    { strength(p, s) };
                let s: i64 = self.snap(h, steps, &at);
                assert forall|m: spec_fn(int) -> Option<i32>| #[trigger]
                    samples_along(strength, p, m) implies s == ridge_step(
                    m,
                    h,
                    steps as int,
                    threshold,
                ) by {
                    assert(samples(at, m));
                }
                nudge(q, a, p, b, s)
            };
        let r = refine_by(loop_pts, eps2, junctions, lift, &step, order, dist, near, lattice, sharp);
        assert forall|g: Geometry<P>, u: Pull<P>|
            #![trigger shapes(g, *lift, *order, *dist, *near, *lattice, *sharp), pulls(u, *here, *strength, *nudge)]
            shapes(g, *lift, *order, *dist, *near, *lattice, *sharp) && pulls(
                u,
                *here,
                *strength,
                *nudge,
            ) implies ({
            let drawn = with_pull(g, u, steps as int, threshold);
            &&& r.0@ == refined_points(drawn, loop_pts@, eps2, junctions@)
            &&& r.1@ == refined_corners(drawn, loop_pts@, eps2, junctions@)
        }) by {
            let drawn = with_pull(g, u, steps as int, threshold);
            assert forall|q: Pt, a: P, p: P, b: P, r: P| #[trigger]
                step.ensures((q, a, p, b), r) implies r == (drawn.step)(q, a, p, b) by {
                assert(samples_along(strength, p, along(u, p)));
            }
            assert(nudges(step, drawn.step));
            assert(shapes(drawn, *lift, *order, *dist, *near, *lattice, *sharp));
        }
        r
    }
}

/// Refines a dense contour loop whose vertices move by `step`.
fn refine_by<P: Copy, L, T, O, D, N, X, C>(
    loop_pts: &[Pt],
    eps2: Option<u64>,
    junctions: &PointSet,
    lift: &L,
    step: &T,
    order: &O,
    dist: &D,
    near: &N,
    lattice: &X,
    sharp: &C,
) -> (r: (Vec<P>, Vec<usize>)) where
    L: Fn(Pt) -> P,
    T: Fn(Pt, P, P, P) -> P,
    O: Fn(P) -> (i64, i64),
    D: Fn(P, P, P) -> u64,
    N: Fn(P, P) -> bool,
    X: Fn(P) -> Option<Pt>,
    C: Fn(P, P, P) -> bool,

    requires
        may_shape(*lift, *order, *dist, *near, *lattice, *sharp),
        forall|q: Pt, a: P, p: P, b: P| #[trigger] step.requires((q, a, p, b)),
    ensures
        are_corners(r.1@, r.0@.len() as int),
        forall|g: Geometry<P>| #[trigger]
            shapes(g, *lift, *order, *dist, *near, *lattice, *sharp) && nudges(*step, g.step) ==> r.0@
                == refined_points(g, loop_pts@, eps2, junctions@) && r.1@ == refined_corners(
                g,
                loop_pts@,
                eps2,
                junctions@,
            ),
{
    let n: usize = loop_pts.len();
    let origin = lift_all(loop_pts, lift);
    if n < 4 {
        let none: Vec<usize> = Vec::new();
        return (origin, none);
    }
    let mut pinned: Vec<bool> = Vec::new();
    let mut i: usize = 0;
    while i < n
        invariant
            i <= n,
            n == loop_pts@.len(),
            pinned@ == members(loop_pts@, junctions@).take(i as int),
        decreases n - i,
    {
        pinned.push(junctions.contains(loop_pts[i]));
        i = i + 1;
        assert(pinned@ =~= members(loop_pts@, junctions@).take(i as int));
    }
    assert(pinned@ =~= members(loop_pts@, junctions@));
    assert(padded(pinned@, n as int) =~= pinned@);
    let moved = evolve(loop_pts, origin, pinned.as_slice(), step);
    let keys = collect_keys(moved.as_slice(), order);
    let kept = simplify_closed_f_keep(
        moved.as_slice(),
        eps2,
        pinned.as_slice(),
        keys.as_slice(),
        dist,
    );
    let pts = thin(kept.as_slice(), near, lattice);
    assert forall|g: Geometry<P>| #[trigger]
        shapes(g, *lift, *order, *dist, *near, *lattice, *sharp) && nudges(*step, g.step) implies pts@
        == refined_points(g, loop_pts@, eps2, junctions@) by {
        assert(lifts(*lift, g.lift));
        assert(nudges(*step, g.step));
        assert(orders(*order, g.order));
        assert(computes_on(*dist, g.dist));
        assert(nears(*near, g.near));
        assert(sits(*lattice, g.lattice));
        assert(kept@ == simplified_contour(g, loop_pts@, eps2, junctions@));
    }
    if pts.len() < 3 {
        let none: Vec<usize> = Vec::new();
        return (pts, none);
    }
    let corners = corners_with_junctions(pts.as_slice(), junctions, sharp, lattice, order);
    assert forall|g: Geometry<P>| #[trigger]
        shapes(g, *lift, *order, *dist, *near, *lattice, *sharp) && nudges(*step, g.step) implies corners@
        == refined_corners(g, loop_pts@, eps2, junctions@) by {
        assert(orders(*order, g.order));
        assert(sits(*lattice, g.lattice));
        assert(turns(*sharp, g.sharp));
    }
    (pts, corners)
}

proof fn lemma_peak(m: spec_fn(int) -> Option<i32>, here: i32, lo: int, end: int)
    ensures
        ({
            let (v, s) = peak(m, here, lo, end);
            &&& v >= here
            &&& v > here ==> lo <= s < end && m(s) == Some(v)
            &&& v == here ==> s == 0
            &&& forall|k: int|
                lo <= k < end ==> (#[trigger] m(k) matches Some(w) ==> w <= v && (k < s && v > here
                    ==> w < v))
        }),
    decreases end - lo,
{
    if end > lo {
        lemma_peak(m, here, lo, end - 1);
    }
}

/// A vertex is drawn to the strongest ridge in reach, the first one among equals,
/// and only where that is stronger than its own place and reaches the threshold.
pub proof fn law_snap_takes_the_strongest(
    m: spec_fn(int) -> Option<i32>,
    here: i32,
    steps: int,
    threshold: i32,
    k: int,
)
    requires
        ridge_step(m, Some(here), steps, threshold) != 0,
        -steps <= k <= steps,
        m(k) is Some,
    ensures
        ({
            let s = ridge_step(m, Some(here), steps, threshold);
            &&& -steps <= s <= steps
            &&& m(s) matches Some(v) && v > here && v >= threshold && m(k).unwrap() <= v && (k < s
                ==> m(k).unwrap() < v)
        }),
{
    lemma_peak(m, here, -steps, steps + 1);
}

/// A vertex without a ridge in reach that beats its own place stays there.
pub proof fn law_flat_surroundings_leave_the_vertex(
    m: spec_fn(int) -> Option<i32>,
    here: i32,
    steps: int,
    threshold: i32,
)
    requires
        forall|k: int| -steps <= k <= steps ==> (#[trigger] m(k) matches Some(v) ==> v <= here),
    ensures
        ridge_step(m, Some(here), steps, threshold) == 0,
{
    lemma_peak(m, here, -steps, steps + 1);
}

/// Pinned vertices never move.
pub proof fn law_pinned_never_move<P>(
    m: spec_fn(Pt, P, P, P) -> P,
    origin: Seq<Pt>,
    pinned: Seq<bool>,
    pts: Seq<P>,
    rounds: nat,
    i: int,
)
    requires
        0 <= i < pts.len(),
        pinned[i],
    ensures
        evolved(m, origin, pinned, pts, rounds).len() == pts.len(),
        evolved(m, origin, pinned, pts, rounds)[i] == pts[i],
    decreases rounds,
{
    if rounds > 0 {
        law_pinned_never_move(m, origin, pinned, pts, (rounds - 1) as nat, i);
    }
}

/// A boundary evolves alike from both sides: where a step does not tell the vertex
/// before from the one after, the reversed contour evolves into the reversed
/// result.
pub proof fn law_evolution_is_direction_symmetric<P>(
    m: spec_fn(Pt, P, P, P) -> P,
    origin: Seq<Pt>,
    pinned: Seq<bool>,
    pts: Seq<P>,
    rounds: nat,
)
    requires
        origin.len() == pts.len(),
        pinned.len() == pts.len(),
        forall|q: Pt, a: P, p: P, b: P| #[trigger] m(q, a, p, b) == m(q, b, p, a),
    ensures
        evolved(m, origin, pinned, pts, rounds).len() == pts.len(),
        evolved(m, origin.reverse(), pinned.reverse(), pts.reverse(), rounds) == evolved(
            m,
            origin,
            pinned,
            pts,
            rounds,
        ).reverse(),
    decreases rounds,
{
    if rounds > 0 {
        law_evolution_is_direction_symmetric(m, origin, pinned, pts, (rounds - 1) as nat);
        let n = pts.len() as int;
        let prior = evolved(m, origin, pinned, pts, (rounds - 1) as nat);
        let there = nudged(m, origin, pinned, prior);
        let back = nudged(m, origin.reverse(), pinned.reverse(), prior.reverse());
        assert forall|i: int| 0 <= i < n implies back[i] == there.reverse()[i] by {
            let j = n - 1 - i;
            assert(prior.reverse()[before(n, i)] == prior[after(n, j)]);
            assert(prior.reverse()[after(n, i)] == prior[before(n, j)]);
            assert(m(origin[j], prior[before(n, j)], prior[j], prior[after(n, j)]) == m(
                origin[j],
                prior[after(n, j)],
                prior[j],
                prior[before(n, j)],
            ));
        }
        assert(back =~= there.reverse());
    }
}

proof fn lemma_thinned_keeps<P>(
    near: spec_fn(P, P) -> bool,
    lattice: spec_fn(P) -> Option<Pt>,
    pts: Seq<P>,
    p: P,
)
    requires
        pts.contains(p),
        lattice(p) is Some,
    ensures
        thinned(near, lattice, pts).contains(p),
    decreases pts.len(),
{
    let i = choose|i: int| 0 <= i < pts.len() && pts[i] == p;
    let front = pts.drop_last();
    let rest = thinned(near, lattice, front);
    let all = thinned(near, lattice, pts);
    if i < front.len() {
        assert(front[i] == p);
        lemma_thinned_keeps(near, lattice, front, p);
        let j = choose|j: int| 0 <= j < rest.len() && rest[j] == p;
        assert(all[j] == p);
    } else {
        assert(all[all.len() - 1] == p);
    }
}

/// No point on the lattice is dropped as a near-duplicate.
pub proof fn law_lattice_points_are_not_thinned<P>(
    near: spec_fn(P, P) -> bool,
    lattice: spec_fn(P) -> Option<Pt>,
    pts: Seq<P>,
    p: P,
)
    requires
        pts.contains(p),
        lattice(p) is Some,
    ensures
        thinned_loop(near, lattice, pts).contains(p),
{
    lemma_thinned_keeps(near, lattice, pts, p);
    let t = thinned(near, lattice, pts);
    let j = choose|j: int| 0 <= j < t.len() && t[j] == p;
    assert(thinned_loop(near, lattice, pts)[j] == p);
}

/// Junctions survive the refinement where they are: a vertex of the contour on a
/// junction is a point of the result, at its own place.
pub proof fn law_junctions_survive<P>(
    g: Geometry<P>,
    loop_pts: Seq<Pt>,
    eps2: Option<u64>,
    junctions: Set<Pt>,
    i: int,
)
    requires
        loop_pts.len() <= usize::MAX,
        0 <= i < loop_pts.len(),
        junctions.contains(loop_pts[i]),
        (g.lattice)((g.lift)(loop_pts[i])) is Some,
    ensures
        refined_points(g, loop_pts, eps2, junctions).contains((g.lift)(loop_pts[i])),
{
    let lifted = loop_pts.map_values(g.lift);
    let p = lifted[i];
    if loop_pts.len() < 4 {
        assert(refined_points(g, loop_pts, eps2, junctions)[i] == p);
    } else {
        let n = loop_pts.len() as int;
        let pinned = members(loop_pts, junctions);
        let moved = evolved(g.step, loop_pts, pinned, lifted, ITERS as nat);
        law_pinned_never_move(g.step, loop_pts, pinned, lifted, ITERS as nat, i);
        let kept = simplified_contour(g, loop_pts, eps2, junctions);
        assert(moved[i] == p);
        if eps2 is Some {
            lemma_raised(pinned);
            assert(pinned[i]);
            let j = choose|j: int| 0 <= j < raised(pinned).len() && raised(pinned)[j] == i as usize;
            let order = as_key_pairs(keys_of(g.order, moved));
            let forced = cut_at(pinned, lexmin_of(order));
            assert(forced[j] == i);
            let m = by_place(by_index(g.dist, moved), order);
            law_forced_vertices_stay(m, n, forced, eps2, j);
            lemma_split_len(m, n, forced, eps2);
            lemma_picked_contains(moved, split_kept(m, n, forced, eps2), i);
        }
        assert(kept.contains(p));
        law_lattice_points_are_not_thinned(g.near, g.lattice, kept, p);
    }
}

proof fn lemma_evolved_within<P>(
    m: spec_fn(Pt, P, P, P) -> P,
    origin: Seq<Pt>,
    pinned: Seq<bool>,
    pts: Seq<P>,
    rounds: nat,
    within: spec_fn(Pt, P) -> bool,
)
    requires
        forall|i: int| 0 <= i < pts.len() ==> within(origin[i], #[trigger] pts[i]),
        forall|q: Pt, a: P, p: P, b: P| within(q, #[trigger] m(q, a, p, b)),
    ensures
        evolved(m, origin, pinned, pts, rounds).len() == pts.len(),
        forall|i: int|
            0 <= i < pts.len() ==> within(
                origin[i],
                #[trigger] evolved(m, origin, pinned, pts, rounds)[i],
            ),
    decreases rounds,
{
    if rounds > 0 {
        lemma_evolved_within(m, origin, pinned, pts, (rounds - 1) as nat, within);
    }
}

proof fn lemma_thinned_from<P>(
    near: spec_fn(P, P) -> bool,
    lattice: spec_fn(P) -> Option<Pt>,
    pts: Seq<P>,
)
    ensures
        forall|k: int|
            0 <= k < thinned(near, lattice, pts).len() ==> pts.contains(
                #[trigger] thinned(near, lattice, pts)[k],
            ),
    decreases pts.len(),
{
    if pts.len() > 0 {
        let front = pts.drop_last();
        lemma_thinned_from(near, lattice, front);
        assert forall|k: int| 0 <= k < thinned(near, lattice, pts).len() implies pts.contains(
            #[trigger] thinned(near, lattice, pts)[k],
        ) by {
            let rest = thinned(near, lattice, front);
            if k < rest.len() {
                let j = choose|j: int| 0 <= j < front.len() && front[j] == rest[k];
                assert(pts[j] == rest[k]);
            } else {
                assert(pts[pts.len() - 1] == pts.last());
            }
        }
    }
}

/// No point of a refined contour leaves the surroundings of its lattice point: where a
/// vertex starts within them, and no nudge leads out of them, every point of the
/// result is within those of some vertex of the contour. So a cap on the displacement
/// that every nudge keeps, the contour keeps.
pub proof fn law_displacement_stays_capped<P>(
    g: Geometry<P>,
    u: Pull<P>,
    steps: int,
    threshold: i32,
    loop_pts: Seq<Pt>,
    eps2: Option<u64>,
    junctions: Set<Pt>,
    within: spec_fn(Pt, P) -> bool,
    k: int,
)
    requires
        forall|q: Pt| within(q, #[trigger] (g.lift)(q)),
        forall|q: Pt, a: P, p: P, b: P, s: i64| within(q, #[trigger] (u.nudge)(q, a, p, b, s)),
        0 <= k < refined_points(with_pull(g, u, steps, threshold), loop_pts, eps2, junctions).len(),
    ensures
        exists|i: int|
            0 <= i < loop_pts.len() && within(
                #[trigger] loop_pts[i],
                refined_points(with_pull(g, u, steps, threshold), loop_pts, eps2, junctions)[k],
            ),
{
    let drawn = with_pull(g, u, steps, threshold);
    let out = refined_points(drawn, loop_pts, eps2, junctions);
    let lifted = loop_pts.map_values(drawn.lift);
    if loop_pts.len() < 4 {
        assert(within(loop_pts[k], out[k]));
    } else {
        let pinned = members(loop_pts, junctions);
        let moved = evolved(drawn.step, loop_pts, pinned, lifted, ITERS as nat);
        assert forall|q: Pt, a: P, p: P, b: P| within(q, #[trigger] (drawn.step)(q, a, p, b)) by {
            let s = ridge_step(along(u, p), (u.here)(p), steps, threshold) as i64;
            assert(within(q, (u.nudge)(q, a, p, b, s)));
        }
        lemma_evolved_within(drawn.step, loop_pts, pinned, lifted, ITERS as nat, within);
        let kept = simplified_contour(drawn, loop_pts, eps2, junctions);
        lemma_thinned_from(drawn.near, drawn.lattice, kept);
        assert(thinned(drawn.near, drawn.lattice, kept)[k] == out[k]);
        assert(kept.contains(out[k]));
        if eps2 is Some {
            let order = as_key_pairs(keys_of(drawn.order, moved));
            let forced = cut_at(pinned, lexmin_of(order));
            let m = by_place(by_index(drawn.dist, moved), order);
            lemma_split_len(m, moved.len() as int, forced, eps2);
            lemma_picked_from(moved, split_kept(m, moved.len() as int, forced, eps2));
        }
        assert(moved.contains(out[k]));
        let i = choose|i: int| 0 <= i < moved.len() && moved[i] == out[k];
        assert(within(loop_pts[i], moved[i]));
    }
}

/// Every point of a refined contour on a junction is a corner, so that the curve
/// breaks there from whichever region it is drawn.
pub proof fn law_junctions_are_corners<P>(
    g: Geometry<P>,
    loop_pts: Seq<Pt>,
    eps2: Option<u64>,
    junctions: Set<Pt>,
    j: int,
)
    requires
        loop_pts.len() >= 4,
        3 <= refined_points(g, loop_pts, eps2, junctions).len() <= usize::MAX,
        0 <= j < refined_points(g, loop_pts, eps2, junctions).len(),
        on_junction(g.lattice, junctions, refined_points(g, loop_pts, eps2, junctions)[j]),
    ensures
        refined_corners(g, loop_pts, eps2, junctions).contains(j as usize),
{
    let pts = refined_points(g, loop_pts, eps2, junctions);
    let flags = break_flags(g.sharp, g.lattice, junctions, pts);
    assert(flags[j]);
    lemma_raised(flags);
}

/// A smooth closed loop is cut at a landmark of its geometry: two loops through
/// the same points, from wherever they start and whichever way they run, are cut at
/// the same coordinates.
pub proof fn law_smooth_loops_share_a_seam<P>(
    g: Geometry<P>,
    junctions: Set<Pt>,
    p: Seq<P>,
    q: Seq<P>,
)
    requires
        0 < p.len() <= usize::MAX,
        0 < q.len() <= usize::MAX,
        forall|k: (i64, i64)| keys_of(g.order, p).contains(k) <==> keys_of(g.order, q).contains(k),
        raised(break_flags(g.sharp, g.lattice, junctions, p)).len() == 0,
        raised(break_flags(g.sharp, g.lattice, junctions, q)).len() == 0,
    ensures
        ({
            let a = junction_corners(g.sharp, g.lattice, g.order, junctions, p);
            let b = junction_corners(g.sharp, g.lattice, g.order, junctions, q);
            &&& a.len() == 1 && b.len() == 1
            &&& (g.order)(p[a[0] as int]) == (g.order)(q[b[0] as int])
        }),
{
    let kp = as_key_pairs(keys_of(g.order, p));
    let kq = as_key_pairs(keys_of(g.order, q));
    lemma_lexmin_exists(kp);
    lemma_lexmin_exists(kq);
    assert forall|x: (int, int)| kp.contains(x) <==> kq.contains(x) by {
        lemma_same_keys(keys_of(g.order, p), keys_of(g.order, q), x);
        lemma_same_keys(keys_of(g.order, q), keys_of(g.order, p), x);
    }
    law_lexmin_is_canonical(kp, kq, lexmin_of(kp), lexmin_of(kq));
}

proof fn lemma_same_keys(a: Seq<(i64, i64)>, b: Seq<(i64, i64)>, x: (int, int))
    requires
        forall|k: (i64, i64)| a.contains(k) ==> b.contains(k),
    ensures
        as_key_pairs(a).contains(x) ==> as_key_pairs(b).contains(x),
{
    if as_key_pairs(a).contains(x) {
        let i = choose|i: int| 0 <= i < as_key_pairs(a).len() && as_key_pairs(a)[i] == x;
        assert(a.contains(a[i]));
        let j = choose|j: int| 0 <= j < b.len() && b[j] == a[i];
        assert(as_key_pairs(b)[j] == x);
    }
}

/// The step that a vertex is drawn to, in full: where some step in reach leads to an edge
/// that is stronger than the one at the vertex and reaches the threshold, it is the first of
/// those that lead to the strongest edge in reach. Where none does, and where the edge map
/// is flat at the vertex, it is 0.
pub proof fn law_snap_is_the_first_of_the_strongest(
    m: spec_fn(int) -> Option<i32>,
    here: Option<i32>,
    steps: int,
    threshold: i32,
)
    ensures
        ({
            let s = ridge_step(m, here, steps, threshold);
            &&& here is None ==> s == 0
            &&& here matches Some(h) ==> ({
                let beats = |k: int|
                    -steps <= k <= steps && m(k) is Some && m(k).unwrap() > h && m(k).unwrap()
                        >= threshold;
                &&& (exists|k: int| #[trigger] beats(k)) ==> beats(s) && forall|k: int|
                    -steps <= k <= steps && (#[trigger] m(k)) is Some ==> m(k).unwrap() <= m(
                        s,
                    ).unwrap() && (k < s ==> m(k).unwrap() < m(s).unwrap())
                &&& !(exists|k: int| #[trigger] beats(k)) ==> s == 0
            })
        }),
{
    if let Some(h) = here {
        lemma_peak(m, h, -steps, steps + 1);
        let s = ridge_step(m, here, steps, threshold);
        let beats = |k: int|
            -steps <= k <= steps && m(k) is Some && m(k).unwrap() > h && m(k).unwrap()
                >= threshold;
        let best = peak(m, h, -steps, steps + 1);
        if exists|k: int| #[trigger] beats(k) {
            let k = choose|k: int| #[trigger] beats(k);
            assert(m(k) is Some);
            assert(best.0 >= m(k).unwrap());
            assert(s == best.1);
        } else {
            assert(!beats(best.1));
        }
    }
}

/// The contour after each of the first `count` rounds.
proof fn lemma_rounds<P>(
    m: spec_fn(Pt, P, P, P) -> P,
    origin: Seq<Pt>,
    pinned: Seq<bool>,
    pts: Seq<P>,
    count: nat,
) -> (rounds: Seq<Seq<P>>)
    ensures
        rounds.len() == count + 1,
        rounds[0] == pts,
        forall|r: int|
            0 <= r <= count ==> #[trigger] rounds[r] == evolved(m, origin, pinned, pts, r as nat)
                && rounds[r].len() == pts.len(),
    decreases count,
{
    if count == 0 {
        seq![pts]
    } else {
        let rest = lemma_rounds(m, origin, pinned, pts, (count - 1) as nat);
        let rounds = rest.push(evolved(m, origin, pinned, pts, count));
        assert(rest[count - 1].len() == pts.len());
        rounds
    }
}

/// How a contour moves, vertex by vertex and round by round. It starts on its lattice
/// points. In each of five rounds a vertex on a junction stays where it is; every other
/// vertex, whether or not others are on junctions, goes where the nudge leads from its
/// lattice point, the places that it and its two neighbours had before the round, and the
/// step that it is drawn to from there. What is left of the contour after the last round is
/// simplified, with the vertices on junctions flagged, and rid of near-duplicates.
pub proof fn law_contour_moves_round_by_round<P>(
    g: Geometry<P>,
    u: Pull<P>,
    steps: int,
    threshold: i32,
    loop_pts: Seq<Pt>,
    eps2: Option<u64>,
    junctions: Set<Pt>,
) -> (rounds: Seq<Seq<P>>)
    requires
        4 <= loop_pts.len(),
    ensures
        ({
            let n = loop_pts.len() as int;
            let flags = Seq::new(n as nat, |i: int| junctions.contains(loop_pts[i]));
            let keys = Seq::new(
                n as nat,
                |i: int|
                    {
                        let k = (g.order)(rounds[5][i]);
                        (k.0 as int, k.1 as int)
                    },
            );
            &&& rounds.len() == 6
            &&& forall|r: int| 0 <= r <= 5 ==> (#[trigger] rounds[r]).len() == n
            &&& forall|i: int|
                0 <= i < n ==> #[trigger] rounds[0][i] == (g.lift)(loop_pts[i])
            &&& forall|r: int, i: int|
                #![trigger rounds[r][i]]
                0 <= r < 5 && 0 <= i < n ==> rounds[r + 1][i] == if junctions.contains(
                    loop_pts[i],
                ) {
                    rounds[r][i]
                } else {
                    let p = rounds[r][i];
                    let a = rounds[r][if i > 0 {
                        i - 1
                    } else {
                        n - 1
                    }];
                    let b = rounds[r][if i < n - 1 {
                        i + 1
                    } else {
                        0
                    }];
                    (u.nudge)(
                        loop_pts[i],
                        a,
                        p,
                        b,
                        ridge_step(|s: int| (u.strength)(p, s), (u.here)(p), steps, threshold) as i64,
                    )
                }
            &&& refined_points(with_pull(g, u, steps, threshold), loop_pts, eps2, junctions)
                == thinned_loop(
                g.near,
                g.lattice,
                simplified_keep(g.dist, rounds[5], keys, flags, eps2),
            )
        }),
{
    let n = loop_pts.len() as int;
    let drawn = with_pull(g, u, steps, threshold);
    let pinned = members(loop_pts, junctions);
    let lifted = loop_pts.map_values(g.lift);
    let rounds = lemma_rounds(drawn.step, loop_pts, pinned, lifted, 5);
    assert forall|r: int, i: int|
        #![trigger rounds[r][i]]
        0 <= r < 5 && 0 <= i < n implies rounds[r + 1][i] == if junctions.contains(loop_pts[i]) {
        rounds[r][i]
    } else {
        let p = rounds[r][i];
        let a = rounds[r][if i > 0 {
            i - 1
        } else {
            n - 1
        }];
        let b = rounds[r][if i < n - 1 {
            i + 1
        } else {
            0
        }];
        (u.nudge)(
            loop_pts[i],
            a,
            p,
            b,
            ridge_step(|s: int| (u.strength)(p, s), (u.here)(p), steps, threshold) as i64,
        )
    } by {
        let p = rounds[r][i];
        assert(rounds[r + 1] == nudged(drawn.step, loop_pts, pinned, rounds[r]));
        assert(along(u, p) =~= (|s: int| (u.strength)(p, s)));
        assert(pinned[i] == junctions.contains(loop_pts[i]));
    }
    let moved = rounds[5];
    let flags = Seq::new(n as nat, |i: int| junctions.contains(loop_pts[i]));
    let keys = Seq::new(
        n as nat,
        |i: int|
            {
                let k = (g.order)(moved[i]);
                (k.0 as int, k.1 as int)
            },
    );
    assert(flags =~= pinned);
    assert(keys =~= as_key_pairs(keys_of(g.order, moved)));
    rounds
}

/// A loop of fewer than four vertices stays on its lattice points and has no corners.
pub proof fn law_small_loop_stays<P>(
    g: Geometry<P>,
    loop_pts: Seq<Pt>,
    eps2: Option<u64>,
    junctions: Set<Pt>,
)
    requires
        loop_pts.len() < 4,
    ensures
        refined_points(g, loop_pts, eps2, junctions).len() == loop_pts.len(),
        forall|i: int|
            0 <= i < loop_pts.len() ==> #[trigger] refined_points(g, loop_pts, eps2, junctions)[i]
                == (g.lift)(loop_pts[i]),
        refined_corners(g, loop_pts, eps2, junctions).len() == 0,
{
}

/// `p` lies between the place `at[k]` and the next one, or the end of `n` places.
pub open spec fn falls_after(at: Seq<int>, n: int, k: int, p: int) -> bool {
    &&& 0 <= k < at.len()
    &&& at[k] < p < n
    &&& k + 1 < at.len() ==> p < at[k + 1]
}

proof fn lemma_thinned_places<P>(
    near: spec_fn(P, P) -> bool,
    lattice: spec_fn(P) -> Option<Pt>,
    pts: Seq<P>,
) -> (at: Seq<int>)
    ensures
        ({
            let t = thinned(near, lattice, pts);
            &&& at.len() == t.len()
            &&& pts.len() > 0 ==> at.len() > 0 && at[0] == 0
            &&& forall|k: int|
                0 <= k < at.len() ==> 0 <= #[trigger] at[k] < pts.len() && t[k] == pts[at[k]]
            &&& forall|i: int, j: int| 0 <= i < j < at.len() ==> at[i] < at[j]
            &&& forall|i: int, j: int|
                #![trigger at[i], at[j]]
                0 <= i && j == i + 1 && j < at.len() ==> !(near(pts[at[j]], pts[at[i]]) && lattice(
                    pts[at[j]],
                ) is None)
            &&& forall|k: int, p: int|
                #[trigger] falls_after(at, pts.len() as int, k, p) ==> near(pts[p], pts[at[k]])
                    && lattice(pts[p]) is None
        }),
    decreases pts.len(),
{
    if pts.len() == 0 {
        Seq::empty()
    } else {
        let front = pts.drop_last();
        let rest = lemma_thinned_places(near, lattice, front);
        let t = thinned(near, lattice, front);
        let last = pts.len() - 1;
        if t.len() > 0 && near(pts.last(), t.last()) && lattice(pts.last()) is None {
            assert forall|k: int, p: int|
                #[trigger] falls_after(rest, pts.len() as int, k, p) implies near(
                pts[p],
                pts[rest[k]],
            ) && lattice(pts[p]) is None by {
                if p < last {
                    assert(falls_after(rest, last, k, p));
                    assert(front[p] == pts[p]);
                }
            }
            rest
        } else {
            let at = rest.push(last);
            assert forall|k: int, p: int|
                #[trigger] falls_after(at, pts.len() as int, k, p) implies near(
                pts[p],
                pts[at[k]],
            ) && lattice(pts[p]) is None by {
                assert(k < rest.len());
                assert(at[k] == rest[k]);
                assert(falls_after(rest, last, k, p));
                assert(front[p] == pts[p]);
            }
            assert forall|i: int, j: int|
                #![trigger at[i], at[j]]
                0 <= i && j == i + 1 && j < at.len() implies !(near(pts[at[j]], pts[at[i]])
                && lattice(pts[at[j]]) is None) by {
                assert(at[i] == rest[i]);
                if j < rest.len() {
                    assert(at[j] == rest[j]);
                } else {
                    assert(t.last() == front[rest[i]]);
                }
            }
            at
        }
    }
}

/// What goes as a near-duplicate, in full. Going through the points in order, from the
/// first one on, a point goes exactly where it is off the lattice and near the last one that
/// stayed. Of those that stayed, the last one goes too where it is off the lattice and
/// near the first, unless it is the only one.
pub proof fn law_only_near_duplicates_go<P>(
    near: spec_fn(P, P) -> bool,
    lattice: spec_fn(P) -> Option<Pt>,
    pts: Seq<P>,
) -> (at: Seq<int>)
    ensures
        ({
            let out = thinned_loop(near, lattice, pts);
            let n = pts.len() as int;
            let closes = at.len() > 1 && near(pts[at[0]], pts[at.last()]) && lattice(
                pts[at.last()],
            ) is None;
            &&& n > 0 ==> at.len() > 0 && at[0] == 0
            &&& forall|k: int| 0 <= k < at.len() ==> 0 <= #[trigger] at[k] < n
            &&& forall|i: int, j: int| 0 <= i < j < at.len() ==> at[i] < at[j]
            &&& forall|i: int, j: int|
                #![trigger at[i], at[j]]
                0 <= i && j == i + 1 && j < at.len() ==> !(near(pts[at[j]], pts[at[i]]) && lattice(
                    pts[at[j]],
                ) is None)
            &&& forall|k: int, p: int|
                #[trigger] falls_after(at, n, k, p) ==> near(pts[p], pts[at[k]]) && lattice(
                    pts[p],
                ) is None
            &&& out.len() == if closes {
                at.len() - 1
            } else {
                at.len() as int
            }
            &&& forall|k: int| 0 <= k < out.len() ==> #[trigger] out[k] == pts[at[k]]
        }),
{
    let at = lemma_thinned_places(near, lattice, pts);
    let t = thinned(near, lattice, pts);
    let out = thinned_loop(near, lattice, pts);
    if at.len() > 0 {
        assert(t.first() == pts[at[0]]);
        assert(t.last() == pts[at.last()]);
    }
    assert forall|k: int| 0 <= k < out.len() implies #[trigger] out[k] == pts[at[k]] by {
        assert(out[k] == t[k]);
    }
    at
}

/// The corners, in full: a point is one exactly where the curve turns sharply at it or it
/// sits on a junction. Where there is no such point, the only corner is the
/// lexicographically smallest one, the first among equals.
pub proof fn law_corners_are_sharp_or_on_junctions<P>(
    sharp: spec_fn(P, P, P) -> bool,
    lattice: spec_fn(P) -> Option<Pt>,
    order: spec_fn(P) -> (i64, i64),
    junctions: Set<Pt>,
    pts: Seq<P>,
)
    requires
        3 <= pts.len() <= usize::MAX,
    ensures
        ({
            let n = pts.len() as int;
            let corners = junction_corners(sharp, lattice, order, junctions, pts);
            let breaks = |i: int|
                sharp(
                    pts[if i > 0 {
                        i - 1
                    } else {
                        n - 1
                    }],
                    pts[i],
                    pts[if i < n - 1 {
                        i + 1
                    } else {
                        0
                    }],
                ) || (lattice(pts[i]) is Some && junctions.contains(lattice(pts[i]).unwrap()));
            &&& forall|i: int, j: int| 0 <= i < j < corners.len() ==> corners[i] < corners[j]
            &&& (exists|i: int| 0 <= i < n && #[trigger] breaks(i)) ==> forall|i: int|
                0 <= i < n ==> (#[trigger] corners.contains(i as usize) <==> breaks(i))
            &&& !(exists|i: int| 0 <= i < n && #[trigger] breaks(i)) ==> corners.len() == 1 && ({
                let best = (order)(pts[corners[0] as int]);
                &&& 0 <= corners[0] < n
                &&& forall|i: int|
                    #![trigger pts[i]]
                    0 <= i < n ==> best.0 < order(pts[i]).0 || (best.0 == order(pts[i]).0
                        && best.1 <= order(pts[i]).1)
                &&& forall|i: int|
                    #![trigger pts[i]]
                    0 <= i < corners[0] ==> best != order(pts[i])
            })
        }),
{
    let n = pts.len() as int;
    let corners = junction_corners(sharp, lattice, order, junctions, pts);
    let flags = break_flags(sharp, lattice, junctions, pts);
    lemma_raised(flags);
    let breaks = |i: int|
        sharp(
            pts[if i > 0 {
                i - 1
            } else {
                n - 1
            }],
            pts[i],
            pts[if i < n - 1 {
                i + 1
            } else {
                0
            }],
        ) || (lattice(pts[i]) is Some && junctions.contains(lattice(pts[i]).unwrap()));
    assert forall|i: int| 0 <= i < n implies #[trigger] flags[i] == breaks(i) by {}
    if exists|i: int| 0 <= i < n && #[trigger] breaks(i) {
        let i = choose|i: int| 0 <= i < n && #[trigger] breaks(i);
        assert(flags[i]);
        assert(raised(flags).contains(i as usize));
        assert(corners == raised(flags));
        assert forall|i: int| 0 <= i < n implies (#[trigger] corners.contains(i as usize)
            <==> breaks(i)) by {
            if corners.contains(i as usize) {
                let k = choose|k: int| 0 <= k < corners.len() && corners[k] == i as usize;
                assert(flags[corners[k] as int]);
            }
            if flags[i] {
                assert(corners.contains(i as usize));
            }
        }
    } else {
        if raised(flags).len() > 0 {
            let c = raised(flags)[0] as int;
            assert(flags[c]);
            assert(breaks(c));
        }
        let keys = as_key_pairs(keys_of(order, pts));
        lemma_lexmin_exists(keys);
        let best = lexmin_of(keys);
        assert(corners[0] == best);
        assert forall|i: int| #![trigger pts[i]] 0 <= i < n implies keys[i] == (
            order(pts[i]).0 as int,
            order(pts[i]).1 as int,
        ) by {}
    }
}

/// The corners of a refined contour are those of its points; there are none where fewer
/// than three points are left.
pub proof fn law_refined_corners_are_those_of_the_points<P>(
    g: Geometry<P>,
    loop_pts: Seq<Pt>,
    eps2: Option<u64>,
    junctions: Set<Pt>,
)
    requires
        loop_pts.len() >= 4,
    ensures
        refined_points(g, loop_pts, eps2, junctions).len() >= 3 ==> refined_corners(
            g,
            loop_pts,
            eps2,
            junctions,
        ) == junction_corners(
            g.sharp,
            g.lattice,
            g.order,
            junctions,
            refined_points(g, loop_pts, eps2, junctions),
        ),
        refined_points(g, loop_pts, eps2, junctions).len() < 3 ==> refined_corners(
            g,
            loop_pts,
            eps2,
            junctions,
        ).len() == 0,
{
}

} // verus!
