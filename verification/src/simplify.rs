//! Path simplification: Ramer-Douglas-Peucker on closed loops.
//!
//! The contour tracer emits staircase polygons along pixel edges. RDP drops
//! the vertices that lie within a tolerance of a straight chord, which turns
//! long stairs into clean diagonals and shrinks the path data.
//!
//! Distances come from the caller as order keys (see the crate documentation).

use vstd::prelude::*;
use crate::points::{
    as_key_pairs, as_pairs, is_lexmin, lemma_lexmin_exists, lex_less, lexmin_index, lexmin_index_i, lexmin_of,
    PointSet,
};

verus! {

/// A lattice point: the corner of a pixel.
pub type Pt = (i32, i32);

/// `dist` may be called on any three of the first `n` indices.
pub open spec fn total<F: Fn(usize, usize, usize) -> u64>(dist: F, n: int) -> bool {
    forall|i: usize, a: usize, b: usize|
        i < n && a < n && b < n ==> #[trigger] dist.requires((i, a, b))
}

/// `before` may be called on any two of the first `n` indices.
pub open spec fn total_order<L: Fn(usize, usize) -> bool>(before: L, n: int) -> bool {
    forall|i: usize, j: usize| i < n && j < n ==> #[trigger] before.requires((i, j))
}

/// How the vertices of a loop are measured, by their indices.
pub ghost struct Measure {
    /// The distance of a vertex from the chord between two others.
    pub dist: spec_fn(usize, usize, usize) -> u64,
    /// Whether the first of two vertices that are equally far goes first. Where
    /// neither does, the one that is visited first goes first.
    pub before: spec_fn(usize, usize) -> bool,
}

/// `dist` and `before` compute the mathematical functions of `m`.
pub open spec fn computes<F, L>(dist: F, before: L, m: Measure) -> bool where
    F: Fn(usize, usize, usize) -> u64,
    L: Fn(usize, usize) -> bool,
 {
    &&& forall|i: usize, a: usize, b: usize, d: u64| #[trigger]
        dist.ensures((i, a, b), d) ==> d == (m.dist)(i, a, b)
    &&& forall|i: usize, j: usize, r: bool| #[trigger]
        before.ensures((i, j), r) ==> r == (m.before)(i, j)
}

/// `before` orders vertices, with ties: none goes before itself, and one that goes
/// before another goes before all that are tied with it.
pub open spec fn is_ranking(before: spec_fn(usize, usize) -> bool) -> bool {
    &&& forall|i: usize, j: usize| #[trigger] before(i, j) ==> !before(j, i)
    &&& forall|i: usize, j: usize, k: usize|
        #![trigger before(i, j), before(j, k)]
        !before(i, j) && !before(j, k) ==> !before(i, k)
}

/// Whether position `p` of `run` goes before position `q`.
pub open spec fn goes_first(m: Measure, run: Seq<usize>, p: int, q: int) -> bool {
    (m.before)(run[p], run[q]) || (p < q && !(m.before)(run[q], run[p]))
}

/// The position strictly between `first` and `end` that is farthest from the
/// chord of `run` from `first` to `last` (the one that goes first among equals),
/// with its distance; `(first, 0)` where every distance is 0.
pub open spec fn farthest(
    m: Measure,
    run: Seq<usize>,
    first: int,
    last: int,
    end: int,
) -> (int, u64)
    decreases end - first,
{
    if end <= first + 1 {
        (first, 0)
    } else {
        let best = farthest(m, run, first, last, end - 1);
        let d = (m.dist)(run[end - 1], run[first], run[last]);
        if d > best.1 || (d == best.1 && d > 0 && (m.before)(run[end - 1], run[best.0])) {
            (end - 1, d)
        } else {
            best
        }
    }
}

/// The positions strictly between `first` and `last` that RDP keeps.
pub open spec fn keepers(
    m: Measure,
    run: Seq<usize>,
    first: int,
    last: int,
    eps2: u64,
) -> Set<int>
    decreases last - first,
{
    let best = farthest(m, run, first, last, last);
    if first < best.0 < last && best.1 > eps2 {
        keepers(m, run, first, best.0, eps2).union(keepers(m, run, best.0, last, eps2)).insert(
            best.0,
        )
    } else {
        Set::empty()
    }
}

/// `keep` with the vertices at the positions `s` of `run` raised as well.
pub open spec fn marked(keep: Seq<bool>, run: Seq<usize>, s: Set<int>) -> Seq<bool> {
    Seq::new(
        keep.len(),
        |p: int| keep[p] || exists|j: int| #[trigger] s.contains(j) && run[j] == p,
    )
}

pub proof fn lemma_farthest_in_range(
    m: Measure,
    run: Seq<usize>,
    first: int,
    last: int,
    end: int,
)
    requires
        first < end,
    ensures
        ({
            let best = farthest(m, run, first, last, end);
            &&& first <= best.0 < end
            &&& best.1 > 0 ==> first < best.0
        }),
    decreases end - first,
{
    if end > first + 1 {
        lemma_farthest_in_range(m, run, first, last, end - 1);
    }
}

pub proof fn lemma_keepers_in_range(
    m: Measure,
    run: Seq<usize>,
    first: int,
    last: int,
    eps2: u64,
)
    ensures
        forall|j: int| #[trigger]
            keepers(m, run, first, last, eps2).contains(j) ==> first < j < last,
    decreases last - first,
{
    let best = farthest(m, run, first, last, last);
    if first < best.0 < last && best.1 > eps2 {
        lemma_keepers_in_range(m, run, first, best.0, eps2);
        lemma_keepers_in_range(m, run, best.0, last, eps2);
        assert forall|j: int| #[trigger]
            keepers(m, run, first, last, eps2).contains(j) implies first < j < last by {
            assert(j == best.0 || keepers(m, run, first, best.0, eps2).contains(j) || keepers(
                m,
                run,
                best.0,
                last,
                eps2,
            ).contains(j));
        }
    }
}

/// Runs RDP on the open polyline `run[first..=last]`, raising `keep` for every
/// vertex that stays.
fn rdp_run<F, L>(
    run: &Vec<usize>,
    first: usize,
    last: usize,
    eps2: u64,
    dist: &F,
    before: &L,
    keep: &mut Vec<bool>,
) where F: Fn(usize, usize, usize) -> u64, L: Fn(usize, usize) -> bool
    requires
        first <= last < run.len(),
        forall|j: int| 0 <= j < run.len() ==> #[trigger] run@[j] < old(keep).len(),
        total(*dist, old(keep).len() as int),
        total_order(*before, old(keep).len() as int),
    ensures
        final(keep).len() == old(keep).len(),
        forall|p: int| 0 <= p < old(keep).len() && old(keep)@[p] ==> #[trigger] final(keep)@[p],
        forall|m: Measure| #[trigger]
            computes(*dist, *before, m) ==> final(keep)@ == marked(
                old(keep)@,
                run@,
                keepers(m, run@, first as int, last as int, eps2),
            ),
    decreases last - first,
{
    if last <= first + 1 {
        assert(forall|m: Measure|
            keepers(m, run@, first as int, last as int, eps2) == Set::<int>::empty());
        assert(marked(keep@, run@, Set::<int>::empty()) =~= keep@);
        return;
    }
    let ghost keep0 = keep@;
    let a: usize = run[first];
    let b: usize = run[last];
    let mut max_d: u64 = 0;
    let mut mi: usize = first;
    let mut i: usize = first + 1;
    while i < last
        invariant
            first < i <= last < run.len(),
            a == run@[first as int],
            b == run@[last as int],
            keep@ == keep0,
            forall|j: int| 0 <= j < run.len() ==> #[trigger] run@[j] < keep.len(),
            total(*dist, keep.len() as int),
            total_order(*before, keep.len() as int),
            first <= mi < i,
            max_d > 0 ==> first < mi,
            forall|m: Measure| #[trigger]
                computes(*dist, *before, m) ==> farthest(m, run@, first as int, last as int, i as int) == (
                    mi as int,
                    max_d,
                ),
        decreases last - i,
    {
        let d: u64 = dist(run[i], a, b);
        if d > max_d || (d == max_d && d > 0 && before(run[i], run[mi])) {
            max_d = d;
            mi = i;
        }
        i = i + 1;
    }
    if max_d > eps2 {
        let k: usize = run[mi];
        keep.set(k, true);
        let ghost keep1 = keep@;
        rdp_run(run, first, mi, eps2, dist, before, keep);
        let ghost keep2 = keep@;
        rdp_run(run, mi, last, eps2, dist, before, keep);
        proof {
            assert forall|m: Measure| #[trigger]
                computes(*dist, *before, m) implies keep@ == marked(
                keep0,
                run@,
                keepers(m, run@, first as int, last as int, eps2),
            ) by {
                let sl = keepers(m, run@, first as int, mi as int, eps2);
                let sr = keepers(m, run@, mi as int, last as int, eps2);
                let s = keepers(m, run@, first as int, last as int, eps2);
                assert(s == sl.union(sr).insert(mi as int));
                assert forall|p: int| 0 <= p < keep0.len() implies keep@[p] == marked(
                    keep0,
                    run@,
                    s,
                )[p] by {
                    if exists|j: int| #[trigger] s.contains(j) && run@[j] == p {
                        let j = choose|j: int| #[trigger] s.contains(j) && run@[j] == p;
                        assert(j == mi || sl.contains(j) || sr.contains(j));
                    }
                    if keep1[p] && !keep0[p] {
                        assert(p == k);
                        assert(s.contains(mi as int));
                    }
                    if keep2[p] && !keep1[p] {
                        let j = choose|j: int| #[trigger] sl.contains(j) && run@[j] == p;
                        assert(s.contains(j));
                    }
                    if keep@[p] && !keep2[p] {
                        let j = choose|j: int| #[trigger] sr.contains(j) && run@[j] == p;
                        assert(s.contains(j));
                    }
                }
                assert(keep@ =~= marked(keep0, run@, s));
            }
        }
    } else {
        proof {
            assert forall|m: Measure| #[trigger]
                computes(*dist, *before, m) implies keep@ == marked(
                keep0,
                run@,
                keepers(m, run@, first as int, last as int, eps2),
            ) by {
                assert(keepers(m, run@, first as int, last as int, eps2) == Set::<int>::empty());
                assert(marked(keep0, run@, Set::<int>::empty()) =~= keep0);
            }
        }
    }
}

/// How many steps lead around a loop of `n` vertices from `a` to `b`; a whole
/// turn where the two are the same.
pub open spec fn steps_around(n: int, a: int, b: int) -> int {
    if b > a {
        b - a
    } else {
        b - a + n
    }
}

/// The vertices of a loop of `n`, from `a` around to `b`, both ends included.
pub open spec fn circular_run(n: int, a: int, b: int) -> Seq<usize> {
    Seq::new((steps_around(n, a, b) + 1) as nat, |k: int| ((a + k) % n) as usize)
}

/// The circular index run from `a` to `b`. A run from a vertex to itself wraps
/// the whole loop.
pub fn collect_run(n: usize, a: usize, b: usize) -> (run: Vec<usize>)
    requires
        a < n,
        b < n,
    ensures
        run@ == circular_run(n as int, a as int, b as int),
{
    let mut run: Vec<usize> = Vec::new();
    run.push(a);
    let mut i: usize = a;
    let ghost total = steps_around(n as int, a as int, b as int);
    proof {
        assert(a as int % n as int == a) by (nonlinear_arith)
            requires
                0 <= a < n,
        ;
    }
    loop
        invariant_except_break
            1 <= run.len() <= total,
        invariant
            a < n,
            b < n,
            total == steps_around(n as int, a as int, b as int),
            i < n,
            i == (a + run.len() - 1) % n as int,
            forall|k: int|
                0 <= k < run.len() ==> #[trigger] run@[k] == ((a + k) % n as int) as usize,
        ensures
            run.len() == total + 1,
            forall|k: int|
                0 <= k < run.len() ==> #[trigger] run@[k] == ((a + k) % n as int) as usize,
        decreases total + 1 - run.len(),
    {
        let ghost len = run.len() as int;
        proof {
            lemma_next_around(n as int, a as int, len - 1);
            lemma_arrives(n as int, a as int, b as int, len);
        }
        i = if i + 1 == n { 0 } else { i + 1 };
        run.push(i);
        if i == b {
            break;
        }
    }
    assert(run@ =~= circular_run(n as int, a as int, b as int));
    run
}

proof fn lemma_next_around(n: int, a: int, k: int)
    requires
        0 <= a < n,
        0 <= k,
    ensures
        (a + k + 1) % n == if (a + k) % n + 1 == n {
            0
        } else {
            (a + k) % n + 1
        },
        0 <= (a + k + 1) % n < n,
{
    vstd::arithmetic::div_mod::lemma_fundamental_div_mod(a + k, n);
    let q = (a + k) / n;
    let r = (a + k) % n;
    vstd::arithmetic::div_mod::lemma_mod_bound(a + k, n);
    if r + 1 == n {
        assert(a + k + 1 == (q + 1) * n + 0) by (nonlinear_arith)
            requires
                a + k == n * q + r,
                r + 1 == n,
        ;
        vstd::arithmetic::div_mod::lemma_fundamental_div_mod_converse(a + k + 1, n, q + 1, 0);
    } else {
        assert(a + k + 1 == q * n + (r + 1)) by (nonlinear_arith)
            requires
                a + k == n * q + r,
        ;
        vstd::arithmetic::div_mod::lemma_fundamental_div_mod_converse(a + k + 1, n, q, r + 1);
    }
}

/// Within one turn from `a`, the only step count that lands on `b` is
/// `steps_around`.
proof fn lemma_arrives(n: int, a: int, b: int, k: int)
    requires
        0 <= a < n,
        0 <= b < n,
        1 <= k <= steps_around(n, a, b),
    ensures
        (a + k) % n == b <==> k == steps_around(n, a, b),
{
    if a + k < n {
        vstd::arithmetic::div_mod::lemma_small_mod((a + k) as nat, n as nat);
    } else {
        vstd::arithmetic::div_mod::lemma_fundamental_div_mod_converse(a + k, n, 1, a + k - n);
    }
}

/// The flags that are raised exactly at the indices in `forced`.
pub open spec fn flags_of(n: int, forced: Seq<usize>) -> Seq<bool> {
    Seq::new(n as nat, |p: int| exists|j: int| 0 <= j < forced.len() && #[trigger] forced[j] == p)
}

/// The raised indices of `keep`, in ascending order.
pub open spec fn raised(keep: Seq<bool>) -> Seq<usize>
    decreases keep.len(),
{
    if keep.len() == 0 {
        Seq::empty()
    } else {
        let rest = raised(keep.drop_last());
        if keep.last() {
            rest.push((keep.len() - 1) as usize)
        } else {
            rest
        }
    }
}

/// The items of `pts` whose flag is raised, in order.
pub open spec fn picked<P>(pts: Seq<P>, keep: Seq<bool>) -> Seq<P>
    decreases keep.len(),
{
    if keep.len() == 0 {
        Seq::empty()
    } else {
        let rest = picked(pts, keep.drop_last());
        if keep.last() {
            rest.push(pts[keep.len() - 1])
        } else {
            rest
        }
    }
}

/// `keep` after RDP on the first `count` of the circular intervals that the
/// ascending `anchors` cut a loop of `n` vertices into.
pub open spec fn intervals_kept(
    m: Measure,
    n: int,
    anchors: Seq<usize>,
    eps2: u64,
    keep: Seq<bool>,
    count: int,
) -> Seq<bool>
    decreases count,
{
    if count <= 0 {
        keep
    } else {
        let before = intervals_kept(m, n, anchors, eps2, keep, count - 1);
        let run = circular_run(
            n,
            anchors[count - 1] as int,
            anchors[count % anchors.len() as int] as int,
        );
        marked(before, run, keepers(m, run, 0, run.len() - 1, eps2))
    }
}

/// The vertices of a loop of `n` that stay: the `forced` ones, and on each
/// circular interval between two of them the ones that RDP keeps. Without a
/// tolerance only the forced ones stay.
pub open spec fn split_kept(
    m: Measure,
    n: int,
    forced: Seq<usize>,
    eps2: Option<u64>,
) -> Seq<bool> {
    let keep = flags_of(n, forced);
    match eps2 {
        None => keep,
        Some(eps2) => {
            let anchors = raised(keep);
            intervals_kept(m, n, anchors, eps2, keep, anchors.len() as int)
        },
    }
}

pub proof fn lemma_raised(keep: Seq<bool>)
    requires
        keep.len() <= usize::MAX,
    ensures
        raised(keep).len() <= keep.len(),
        forall|j: int|
            0 <= j < raised(keep).len() ==> #[trigger] raised(keep)[j] < keep.len()
                && keep[raised(keep)[j] as int],
        forall|p: int| 0 <= p < keep.len() && #[trigger] keep[p] ==> raised(keep).contains(p as usize),
        forall|i: int, j: int|
            0 <= i < j < raised(keep).len() ==> raised(keep)[i] < raised(keep)[j],
    decreases keep.len(),
{
    if keep.len() > 0 {
        let front = keep.drop_last();
        lemma_raised(front);
        assert forall|p: int| 0 <= p < keep.len() && #[trigger] keep[p] implies raised(
            keep,
        ).contains(p as usize) by {
            if p < keep.len() - 1 {
                assert(front[p]);
                let j = choose|j: int| 0 <= j < raised(front).len() && raised(front)[j] == p as usize;
                assert(raised(keep)[j] == p as usize);
            } else {
                assert(raised(keep)[raised(keep).len() - 1] == p as usize);
            }
        }
    }
}

/// The raised indices of `keep`, in ascending order.
pub(crate) fn collect_raised(keep: &Vec<bool>) -> (out: Vec<usize>)
    ensures
        out@ == raised(keep@),
{
    let mut out: Vec<usize> = Vec::new();
    let mut i: usize = 0;
    while i < keep.len()
        invariant
            i <= keep.len(),
            out@ == raised(keep@.take(i as int)),
        decreases keep.len() - i,
    {
        assert(keep@.take(i + 1).drop_last() =~= keep@.take(i as int));
        if keep[i] {
            out.push(i);
        }
        i = i + 1;
    }
    assert(keep@.take(i as int) =~= keep@);
    out
}

/// The items of `pts` whose flag is raised, in order.
pub(crate) fn collect_picked<P: Copy>(pts: &[P], keep: &Vec<bool>) -> (out: Vec<P>)
    requires
        keep.len() <= pts@.len(),
    ensures
        out@ == picked(pts@, keep@),
{
    let mut out: Vec<P> = Vec::new();
    let mut i: usize = 0;
    while i < keep.len()
        invariant
            i <= keep.len() <= pts@.len(),
            out@ == picked(pts@, keep@.take(i as int)),
        decreases keep.len() - i,
    {
        assert(keep@.take(i + 1).drop_last() =~= keep@.take(i as int));
        if keep[i] {
            out.push(pts[i]);
        }
        i = i + 1;
    }
    assert(keep@.take(i as int) =~= keep@);
    out
}

/// Runs RDP independently on each circular interval of `0..n` delimited by the
/// `forced` indices, which always stay. `dist(i, a, b)` is the distance key of
/// vertex `i` from the segment `a`-`b`. `eps2` is the key of the tolerance. Of
/// vertices that are equally far, `before` says which one goes first.
pub fn split_rdp<F, L>(
    n: usize,
    forced: &[usize],
    eps2: Option<u64>,
    dist: &F,
    before: &L,
) -> (keep: Vec<bool>) where F: Fn(usize, usize, usize) -> u64, L: Fn(usize, usize) -> bool
    requires
        forall|j: int| 0 <= j < forced@.len() ==> #[trigger] forced@[j] < n,
        total(*dist, n as int),
        total_order(*before, n as int),
    ensures
        keep.len() == n,
        forall|j: int| 0 <= j < forced@.len() ==> keep@[#[trigger] forced@[j] as int],
        forall|m: Measure| #[trigger]
            computes(*dist, *before, m) ==> keep@ == split_kept(m, n as int, forced@, eps2),
{
    let mut keep: Vec<bool> = vec![false; n];
    let mut j: usize = 0;
    while j < forced.len()
        invariant
            j <= forced.len(),
            keep.len() == n,
            forall|j: int| 0 <= j < forced@.len() ==> #[trigger] forced@[j] < n,
            keep@ == flags_of(n as int, forced@.take(j as int)),
        decreases forced.len() - j,
    {
        let ghost so_far = keep@;
        let a: usize = forced[j];
        keep.set(a, true);
        proof {
            let t = forced@.take(j as int);
            let t1 = forced@.take(j + 1);
            assert forall|p: int| 0 <= p < n implies keep@[p] == flags_of(n as int, t1)[p] by {
                if so_far[p] {
                    let i = choose|i: int| 0 <= i < t.len() && #[trigger] t[i] == p;
                    assert(t1[i] == p);
                }
                if p == a {
                    assert(t1[j as int] == p);
                }
                if flags_of(n as int, t1)[p] && p != a {
                    let i = choose|i: int| 0 <= i < t1.len() && #[trigger] t1[i] == p;
                    assert(t[i] == p);
                }
            }
            assert(keep@ =~= flags_of(n as int, t1));
        }
        j = j + 1;
    }
    assert(forced@.take(j as int) =~= forced@);
    proof {
        assert forall|j: int| 0 <= j < forced@.len() implies keep@[#[trigger] forced@[j] as int] by {}
    }
    let ghost flags = keep@;
    let eps: u64 = match eps2 {
        None => {
            return keep;
        },
        Some(eps) => eps,
    };
    let anchors = collect_raised(&keep);
    proof {
        lemma_raised(flags);
    }
    let k: usize = anchors.len();
    let mut idx: usize = 0;
    while idx < k
        invariant
            idx <= k == anchors.len(),
            eps2 == Some(eps),
            flags == flags_of(n as int, forced@),
            flags.len() == n,
            anchors@ == raised(flags),
            forall|j: int| 0 <= j < anchors.len() ==> #[trigger] anchors@[j] < n,
            keep.len() == n,
            total(*dist, n as int),
            total_order(*before, n as int),
            forall|p: int| 0 <= p < n && flags[p] ==> #[trigger] keep@[p],
            forall|m: Measure| #[trigger]
                computes(*dist, *before, m) ==> keep@ == intervals_kept(
                    m,
                    n as int,
                    anchors@,
                    eps,
                    flags,
                    idx as int,
                ),
        decreases k - idx,
    {
        let a: usize = anchors[idx];
        let b: usize = if idx + 1 == k { anchors[0] } else { anchors[idx + 1] };
        assert(b == anchors@[(idx + 1) % k as int]) by {
            if idx + 1 < k {
                vstd::arithmetic::div_mod::lemma_small_mod((idx + 1) as nat, k as nat);
            } else {
                vstd::arithmetic::div_mod::lemma_mod_self_0(k as int);
            }
        }
        let run = collect_run(n, a, b);
        let ghost so_far = keep@;
        let last: usize = run.len() - 1;
        proof {
            assert forall|j: int| 0 <= j < run.len() implies #[trigger] run@[j] < n by {
                vstd::arithmetic::div_mod::lemma_mod_bound(a + j, n as int);
            }
        }
        rdp_run(&run, 0, last, eps, dist, before, &mut keep);
        assert(forall|p: int| 0 <= p < n && flags[p] ==> so_far[p]);
        idx = idx + 1;
    }
    keep
}

/// `dist` may be called on any three of `pts`.
pub open spec fn total_on<P, F: Fn(P, P, P) -> u64>(dist: F, pts: Seq<P>) -> bool {
    forall|i: int, a: int, b: int|
        0 <= i < pts.len() && 0 <= a < pts.len() && 0 <= b < pts.len() ==> #[trigger] dist.requires(
            (pts[i], pts[a], pts[b]),
        )
}

/// `dist` computes the mathematical function `m` of three points.
pub open spec fn computes_on<P, F: Fn(P, P, P) -> u64>(dist: F, m: spec_fn(P, P, P) -> u64) -> bool {
    forall|p: P, a: P, b: P, d: u64| #[trigger] dist.ensures((p, a, b), d) ==> d == m(p, a, b)
}

/// The measure `m` of points, as a measure of their indices in `pts`.
pub open spec fn by_index<P>(m: spec_fn(P, P, P) -> u64, pts: Seq<P>) -> spec_fn(
    usize,
    usize,
    usize,
) -> u64 {
    |i: usize, a: usize, b: usize| m(pts[i as int], pts[a as int], pts[b as int])
}

/// The measure of distances `dist` that tells equally far vertices apart by who is
/// visited first.
pub open spec fn in_order(dist: spec_fn(usize, usize, usize) -> u64) -> Measure {
    Measure { dist, before: |i: usize, j: usize| false }
}

/// The measure of distances `dist` that tells equally far vertices apart by their
/// coordinates: the lexicographically smaller one goes first.
pub open spec fn by_place(
    dist: spec_fn(usize, usize, usize) -> u64,
    order: Seq<(int, int)>,
) -> Measure {
    Measure { dist, before: |i: usize, j: usize| lex_less(order[i as int], order[j as int]) }
}

/// The run `0, 1, .., n - 1`.
pub open spec fn straight_run(n: int) -> Seq<usize> {
    Seq::new(n as nat, |k: int| k as usize)
}

/// What RDP leaves of the closed loop `pts`, taken as the open polyline that
/// starts at its first vertex and returns to it. A loop of at most three
/// vertices stays as it is, and so does any loop without a tolerance.
pub open spec fn simplified<P>(
    m: spec_fn(P, P, P) -> u64,
    pts: Seq<P>,
    eps2: Option<u64>,
) -> Seq<P> {
    let n = pts.len() as int;
    match eps2 {
        Some(eps2) if n > 3 => {
            let ring = pts.push(pts[0]);
            let s = keepers(in_order(by_index(m, ring)), straight_run(n + 1), 0, n, eps2);
            picked(pts, Seq::new(n as nat, |p: int| p == 0 || s.contains(p)))
        },
        _ => pts,
    }
}

fn copied<P: Copy>(pts: &[P]) -> (out: Vec<P>)
    ensures
        out@ == pts@,
{
    let mut out: Vec<P> = Vec::new();
    let mut i: usize = 0;
    while i < pts.len()
        invariant
            i <= pts.len(),
            out@ == pts@.take(i as int),
        decreases pts.len() - i,
    {
        out.push(pts[i]);
        assert(out@ =~= pts@.take(i + 1));
        i = i + 1;
    }
    assert(pts@.take(i as int) =~= pts@);
    out
}

/// Simplifies a closed loop with the tolerance key `eps2`. Returns the vertices
/// that stay, the first one among them. `None` stands for a tolerance that is
/// not positive, which leaves the loop as it is.
pub fn simplify_closed<F: Fn(Pt, Pt, Pt) -> u64>(
    loop_pts: &[Pt],
    eps2: Option<u64>,
    dist: &F,
) -> (out: Vec<Pt>)
    requires
        loop_pts@.len() < usize::MAX,
        total_on(*dist, loop_pts@),
    ensures
        forall|m: spec_fn(Pt, Pt, Pt) -> u64| #[trigger]
            computes_on(*dist, m) ==> out@ == simplified(m, loop_pts@, eps2),
        loop_pts@.len() <= 3 || eps2 is None ==> out@ == loop_pts@,
        loop_pts@.len() > 0 ==> out.len() > 0 && out@[0] == loop_pts@[0],
{
    let n: usize = loop_pts.len();
    let eps: u64 = match eps2 {
        None => {
            return copied(loop_pts);
        },
        Some(eps) => eps,
    };
    if n <= 3 {
        return copied(loop_pts);
    }
    let mut pts: Vec<Pt> = copied(loop_pts);
    pts.push(loop_pts[0]);
    let mut run: Vec<usize> = Vec::new();
    let mut keep: Vec<bool> = Vec::new();
    let mut i: usize = 0;
    while i < n + 1
        invariant
            i <= n + 1,
            n < usize::MAX,
            run@ == straight_run(i as int),
            keep.len() == i,
            forall|p: int| 0 <= p < i ==> #[trigger] keep@[p] == (p == 0 || p == n),
        decreases n + 1 - i,
    {
        run.push(i);
        keep.push(i == 0 || i == n);
        i = i + 1;
        assert(run@ =~= straight_run(i as int));
    }
    let by_idx = |i: usize, a: usize, b: usize| -> (d: u64)
        requires
            i < pts@.len(),
            a < pts@.len(),
            b < pts@.len(),
            dist.requires((pts@[i as int], pts@[a as int], pts@[b as int])),
        ensures
            dist.ensures((pts@[i as int], pts@[a as int], pts@[b as int]), d),
        { dist(pts[i], pts[a], pts[b]) };
    proof {
        assert forall|i: int, a: int, b: int|
            0 <= i < pts.len() && 0 <= a < pts.len() && 0 <= b < pts.len() implies #[trigger] dist.requires(
        (pts@[i], pts@[a], pts@[b])) by {
            let i1 = if i == n { 0 } else { i };
            let a1 = if a == n { 0 } else { a };
            let b1 = if b == n { 0 } else { b };
            assert(dist.requires((loop_pts@[i1], loop_pts@[a1], loop_pts@[b1])));
        }
    }
    let visited_first = |i: usize, j: usize| -> (r: bool)
        ensures
            !r,
        { false };
    let ghost keep0 = keep@;
    rdp_run(&run, 0, n, eps, &by_idx, &visited_first, &mut keep);
    let ghost keep1 = keep@;
    let _ = keep.pop();
    let out = collect_picked(loop_pts, &keep);
    proof {
        assert(keep0[0]);
        assert(keep1[0]);
        lemma_picked_first(loop_pts@, keep@);
        assert forall|m: spec_fn(Pt, Pt, Pt) -> u64| #[trigger] computes_on(*dist, m) implies out@
            == simplified(m, loop_pts@, eps2) by {
            let im = in_order(by_index(m, pts@));
            assert(computes(by_idx, visited_first, im));
            let s = keepers(im, run@, 0, n as int, eps);
            assert(keep1 == marked(keep0, run@, s));
            lemma_keepers_in_range(im, run@, 0, n as int, eps);
            let want = Seq::new(n as nat, |p: int| p == 0 || s.contains(p));
            assert forall|p: int| 0 <= p < n implies keep@[p] == want[p] by {
                if s.contains(p) {
                    assert(run@[p] == p);
                }
            }
            assert(keep@ =~= want);
            assert(pts@ =~= loop_pts@.push(loop_pts@[0]));
        }
    }
    out
}

/// What is left of the closed loop `pts` when the vertices `forced` stay and
/// each interval between two of them is simplified for itself. `order` holds the
/// coordinates of the vertices.
pub open spec fn simplified_between<P>(
    m: spec_fn(P, P, P) -> u64,
    pts: Seq<P>,
    order: Seq<(int, int)>,
    forced: Seq<usize>,
    eps2: Option<u64>,
) -> Seq<P> {
    picked(pts, split_kept(by_place(by_index(m, pts), order), pts.len() as int, forced, eps2))
}

/// The vertices that a loop is cut at: the flagged ones, or else the canonical
/// anchor.
pub open spec fn cut_at(flags: Seq<bool>, anchor: int) -> Seq<usize> {
    if raised(flags).len() == 0 {
        seq![anchor as usize]
    } else {
        raised(flags)
    }
}

fn keep_between<P: Copy, F: Fn(P, P, P) -> u64>(
    loop_pts: &[P],
    order: &[(i64, i64)],
    forced: &[usize],
    eps2: Option<u64>,
    dist: &F,
) -> (out: Vec<P>)
    requires
        order@.len() == loop_pts@.len(),
        forall|j: int| 0 <= j < forced@.len() ==> #[trigger] forced@[j] < loop_pts@.len(),
        total_on(*dist, loop_pts@),
    ensures
        forall|m: spec_fn(P, P, P) -> u64| #[trigger]
            computes_on(*dist, m) ==> out@ == simplified_between(
                m,
                loop_pts@,
                as_key_pairs(order@),
                forced@,
                eps2,
            ),
        forall|j: int|
            0 <= j < forced@.len() ==> out@.contains(loop_pts@[#[trigger] forced@[j] as int]),
{
    let by_idx = |i: usize, a: usize, b: usize| -> (d: u64)
        requires
            i < loop_pts@.len(),
            a < loop_pts@.len(),
            b < loop_pts@.len(),
            dist.requires((loop_pts@[i as int], loop_pts@[a as int], loop_pts@[b as int])),
        ensures
            dist.ensures((loop_pts@[i as int], loop_pts@[a as int], loop_pts@[b as int]), d),
        { dist(loop_pts[i], loop_pts[a], loop_pts[b]) };
    let goes_before = |i: usize, j: usize| -> (r: bool)
        requires
            i < order@.len(),
            j < order@.len(),
        ensures
            r == lex_less(as_key_pairs(order@)[i as int], as_key_pairs(order@)[j as int]),
        {
            let (p, q): ((i64, i64), (i64, i64)) = (order[i], order[j]);
            p.0 < q.0 || (p.0 == q.0 && p.1 < q.1)
        };
    let keep = split_rdp(loop_pts.len(), forced, eps2, &by_idx, &goes_before);
    let out = collect_picked(loop_pts, &keep);
    proof {
        assert forall|m: spec_fn(P, P, P) -> u64| #[trigger] computes_on(*dist, m) implies out@
            == simplified_between(m, loop_pts@, as_key_pairs(order@), forced@, eps2) by {
            assert(computes(
                by_idx,
                goes_before,
                by_place(by_index(m, loop_pts@), as_key_pairs(order@)),
            ));
        }
        assert forall|j: int| 0 <= j < forced@.len() implies out@.contains(
            loop_pts@[#[trigger] forced@[j] as int],
        ) by {
            lemma_picked_contains(loop_pts@, keep@, forced@[j] as int);
        }
    }
    out
}

proof fn lemma_picked_first<P>(pts: Seq<P>, keep: Seq<bool>)
    requires
        0 < keep.len() <= pts.len(),
        keep[0],
    ensures
        picked(pts, keep).len() > 0,
        picked(pts, keep)[0] == pts[0],
    decreases keep.len(),
{
    let front = keep.drop_last();
    if front.len() > 0 {
        lemma_picked_first(pts, front);
    } else {
        assert(picked(pts, front) =~= Seq::<P>::empty());
        assert(keep.last());
    }
}

pub proof fn lemma_picked_contains<P>(pts: Seq<P>, keep: Seq<bool>, p: int)
    requires
        0 <= p < keep.len() <= pts.len(),
        keep[p],
    ensures
        picked(pts, keep).contains(pts[p]),
    decreases keep.len(),
{
    let front = keep.drop_last();
    if p < front.len() {
        lemma_picked_contains(pts, front, p);
        let rest = picked(pts, front);
        let j = choose|j: int| 0 <= j < rest.len() && rest[j] == pts[p];
        assert(picked(pts, keep)[j] == pts[p]);
    } else {
        assert(picked(pts, keep).last() == pts[p]);
    }
}

/// What is left of the closed loop `pts` when the flagged vertices stay (the
/// smallest one where none is flagged) and each interval between two of them is
/// simplified for itself. `order` holds the coordinates of the vertices. A loop of
/// fewer than three vertices stays as it is, and so does any loop without a
/// tolerance.
pub open spec fn simplified_keep<P>(
    m: spec_fn(P, P, P) -> u64,
    pts: Seq<P>,
    order: Seq<(int, int)>,
    flags: Seq<bool>,
    eps2: Option<u64>,
) -> Seq<P> {
    if pts.len() < 3 || eps2 is None {
        pts
    } else {
        simplified_between(m, pts, order, cut_at(flags, lexmin_of(order)), eps2)
    }
}

/// Which vertices of `pts` are in `set`.
pub open spec fn members(pts: Seq<Pt>, set: Set<Pt>) -> Seq<bool> {
    Seq::new(pts.len(), |i: int| set.contains(pts[i]))
}

/// The flags of the first `n` vertices; a missing flag is not raised.
pub open spec fn padded(flags: Seq<bool>, n: int) -> Seq<bool> {
    Seq::new(n as nat, |i: int| i < flags.len() && flags[i])
}

/// [`simplify_closed`] that keeps every vertex in `keep_set` (shared junctions)
/// and splits the RDP at them, so that the boundary between two junctions is
/// simplified alike from whichever region traces it: of equally far vertices the
/// lexicographically smallest one goes first.
pub fn simplify_closed_keep<F: Fn(Pt, Pt, Pt) -> u64>(
    loop_pts: &[Pt],
    eps2: Option<u64>,
    keep_set: &PointSet,
    dist: &F,
) -> (out: Vec<Pt>)
    requires
        total_on(*dist, loop_pts@),
    ensures
        forall|m: spec_fn(Pt, Pt, Pt) -> u64| #[trigger]
            computes_on(*dist, m) ==> out@ == simplified_keep(
                m,
                loop_pts@,
                as_pairs(loop_pts@),
                members(loop_pts@, keep_set@),
                eps2,
            ),
        forall|i: int|
            0 <= i < loop_pts@.len() && keep_set@.contains(#[trigger] loop_pts@[i])
                ==> out@.contains(loop_pts@[i]),
        loop_pts@.len() < 3 || eps2 is None ==> out@ == loop_pts@,
{
    let n: usize = loop_pts.len();
    if n < 3 || eps2.is_none() {
        return copied(loop_pts);
    }
    let mut flags: Vec<bool> = Vec::new();
    let mut order: Vec<(i64, i64)> = Vec::new();
    let mut i: usize = 0;
    while i < n
        invariant
            i <= n == loop_pts@.len(),
            flags@ == members(loop_pts@, keep_set@).take(i as int),
            order.len() == i,
            forall|k: int|
                0 <= k < i ==> (#[trigger] order@[k]).0 == loop_pts@[k].0 && order@[k].1
                    == loop_pts@[k].1,
        decreases n - i,
    {
        let p: Pt = loop_pts[i];
        flags.push(keep_set.contains(p));
        order.push((p.0 as i64, p.1 as i64));
        i = i + 1;
        assert(flags@ =~= members(loop_pts@, keep_set@).take(i as int));
    }
    assert(as_key_pairs(order@) =~= as_pairs(loop_pts@));
    assert(flags@ =~= members(loop_pts@, keep_set@));
    let mut forced: Vec<usize> = collect_raised(&flags);
    proof {
        lemma_raised(flags@);
    }
    if forced.len() == 0 {
        forced.push(lexmin_index_i(loop_pts));
    }
    assert(forced@ =~= cut_at(flags@, lexmin_of(as_pairs(loop_pts@))));
    let out = keep_between(loop_pts, &order, &forced, eps2, dist);
    proof {
        assert forall|i: int|
            0 <= i < loop_pts@.len() && keep_set@.contains(#[trigger] loop_pts@[i]) implies out@.contains(
        loop_pts@[i]) by {
            assert(flags@[i]);
            let j = choose|j: int| 0 <= j < raised(flags@).len() && raised(flags@)[j] == i as usize;
            assert(forced@[j] == i);
        }
    }
    out
}

/// [`simplify_closed_f_keep`] without flagged vertices.
pub fn simplify_closed_f<P: Copy, F: Fn(P, P, P) -> u64>(
    loop_pts: &[P],
    eps2: Option<u64>,
    order: &[(i64, i64)],
    dist: &F,
) -> (out: Vec<P>)
    requires
        order@.len() == loop_pts@.len(),
        total_on(*dist, loop_pts@),
    ensures
        forall|m: spec_fn(P, P, P) -> u64| #[trigger]
            computes_on(*dist, m) ==> out@ == simplified_keep(
                m,
                loop_pts@,
                as_key_pairs(order@),
                Seq::new(loop_pts@.len(), |i: int| false),
                eps2,
            ),
        loop_pts@.len() < 3 || eps2 is None ==> out@ == loop_pts@,
{
    let none: Vec<bool> = Vec::new();
    let out = simplify_closed_f_keep(loop_pts, eps2, &none, order, dist);
    assert(padded(none@, loop_pts@.len() as int) =~= Seq::new(loop_pts@.len(), |i: int| false));
    out
}

/// [`simplify_closed_keep`] for points that have left the lattice. `force_keep`
/// flags the vertices that must stay, and `order` holds the order keys of the
/// coordinates, by which equally far vertices are told apart.
pub fn simplify_closed_f_keep<P: Copy, F: Fn(P, P, P) -> u64>(
    loop_pts: &[P],
    eps2: Option<u64>,
    force_keep: &[bool],
    order: &[(i64, i64)],
    dist: &F,
) -> (out: Vec<P>)
    requires
        order@.len() == loop_pts@.len(),
        total_on(*dist, loop_pts@),
    ensures
        forall|m: spec_fn(P, P, P) -> u64| #[trigger]
            computes_on(*dist, m) ==> out@ == simplified_keep(
                m,
                loop_pts@,
                as_key_pairs(order@),
                padded(force_keep@, loop_pts@.len() as int),
                eps2,
            ),
        forall|i: int|
            0 <= i < loop_pts@.len() && i < force_keep@.len() && #[trigger] force_keep@[i]
                ==> out@.contains(loop_pts@[i]),
        loop_pts@.len() < 3 || eps2 is None ==> out@ == loop_pts@,
{
    let n: usize = loop_pts.len();
    if n < 3 || eps2.is_none() {
        return copied(loop_pts);
    }
    let mut flags: Vec<bool> = Vec::new();
    let mut i: usize = 0;
    while i < n
        invariant
            i <= n == loop_pts@.len(),
            flags@ == padded(force_keep@, n as int).take(i as int),
        decreases n - i,
    {
        let f: bool = i < force_keep.len() && force_keep[i];
        flags.push(f);
        i = i + 1;
        assert(flags@ =~= padded(force_keep@, n as int).take(i as int));
    }
    assert(flags@ =~= padded(force_keep@, n as int));
    let mut forced: Vec<usize> = collect_raised(&flags);
    proof {
        lemma_raised(flags@);
    }
    if forced.len() == 0 {
        forced.push(lexmin_index(order));
    }
    assert(forced@ =~= cut_at(flags@, lexmin_of(as_key_pairs(order@))));
    let out = keep_between(loop_pts, order, &forced, eps2, dist);
    proof {
        assert forall|i: int|
            0 <= i < loop_pts@.len() && i < force_keep@.len() && #[trigger] force_keep@[i] implies out@.contains(
        loop_pts@[i]) by {
            assert(flags@[i]);
            let j = choose|j: int| 0 <= j < raised(flags@).len() && raised(flags@)[j] == i as usize;
            assert(forced@[j] == i);
        }
    }
    out
}

/// The distance of position `p` of `run` from the chord from `first` to `last`.
pub open spec fn chord_dist(
    m: Measure,
    run: Seq<usize>,
    first: int,
    last: int,
    p: int,
) -> u64 {
    (m.dist)(run[p], run[first], run[last])
}

pub proof fn lemma_farthest_is_max(
    m: Measure,
    run: Seq<usize>,
    first: int,
    last: int,
    end: int,
)
    requires
        first < end,
        is_ranking(m.before),
    ensures
        ({
            let best = farthest(m, run, first, last, end);
            &&& forall|p: int|
                first < p < end ==> #[trigger] chord_dist(m, run, first, last, p) <= best.1
            &&& best.1 > 0 ==> first < best.0 < end && chord_dist(m, run, first, last, best.0)
                == best.1
            &&& best.1 > 0 ==> forall|p: int|
                first < p < end && p != best.0 && #[trigger] chord_dist(m, run, first, last, p)
                    == best.1 ==> goes_first(m, run, best.0, p)
        }),
    decreases end - first,
{
    if end > first + 1 {
        lemma_farthest_is_max(m, run, first, last, end - 1);
        let old = farthest(m, run, first, last, end - 1);
        let best = farthest(m, run, first, last, end);
        let d = chord_dist(m, run, first, last, end - 1);
        if best.1 > 0 {
            assert forall|p: int|
                first < p < end && p != best.0 && #[trigger] chord_dist(m, run, first, last, p)
                    == best.1 implies goes_first(m, run, best.0, p) by {
                if best.0 == end - 1 && d == old.1 {
                    // The new one goes before the old one, and so before its ties.
                    let (x, o, q) = (run[end - 1], run[old.0], run[p]);
                    if p != old.0 {
                        assert(goes_first(m, run, old.0, p));
                        assert(!(m.before)(q, o));
                        if !(m.before)(x, q) {
                            assert(!(m.before)(x, o));
                        }
                    }
                } else if p == end - 1 {
                    assert(!(m.before)(run[end - 1], run[old.0]));
                }
            }
        }
    }
}

/// The farthest position is the one that no position exceeds and that goes before
/// every position that matches it.
proof fn lemma_farthest_is(
    m: Measure,
    run: Seq<usize>,
    first: int,
    last: int,
    k: int,
    d: u64,
)
    requires
        first < k < last,
        d > 0,
        chord_dist(m, run, first, last, k) == d,
        forall|p: int| first < p < last ==> #[trigger] chord_dist(m, run, first, last, p) <= d,
        is_ranking(m.before),
        forall|p: int|
            first < p < last && p != k && #[trigger] chord_dist(m, run, first, last, p) == d
                ==> goes_first(m, run, k, p),
    ensures
        farthest(m, run, first, last, last) == (k, d),
{
    lemma_farthest_is_max(m, run, first, last, last);
    let best = farthest(m, run, first, last, last);
    assert(chord_dist(m, run, first, last, k) <= best.1);
    assert(chord_dist(m, run, first, last, best.0) == best.1);
    if best.0 != k {
        assert(goes_first(m, run, k, best.0));
        assert(goes_first(m, run, best.0, k));
    }
}

/// What RDP promises: a vertex that is dropped lies within the tolerance of the
/// chord between the nearest vertices that stay on either side of it.
pub proof fn law_dropped_within_tolerance(
    m: Measure,
    run: Seq<usize>,
    first: int,
    last: int,
    eps2: u64,
    l: int,
    p: int,
    r: int,
)
    requires
        is_ranking(m.before),
        first <= l < p < r <= last,
        l == first || keepers(m, run, first, last, eps2).contains(l),
        r == last || keepers(m, run, first, last, eps2).contains(r),
        forall|q: int| l < q < r ==> !#[trigger] keepers(m, run, first, last, eps2).contains(q),
    ensures
        (m.dist)(run[p], run[l], run[r]) <= eps2,
    decreases last - first,
{
    let best = farthest(m, run, first, last, last);
    lemma_farthest_is_max(m, run, first, last, last);
    lemma_farthest_in_range(m, run, first, last, last);
    lemma_keepers_in_range(m, run, first, last, eps2);
    let s = keepers(m, run, first, last, eps2);
    if first < best.0 < last && best.1 > eps2 {
        let sl = keepers(m, run, first, best.0, eps2);
        let sr = keepers(m, run, best.0, last, eps2);
        lemma_keepers_in_range(m, run, first, best.0, eps2);
        lemma_keepers_in_range(m, run, best.0, last, eps2);
        assert(s.contains(best.0));
        assert(forall|q: int| #[trigger] s.contains(q) <==> q == best.0 || sl.contains(q) || sr.contains(q));
        if best.0 <= l {
            assert forall|q: int| l < q < r implies !#[trigger] sr.contains(q) by {
                assert(!s.contains(q));
            }
            law_dropped_within_tolerance(m, run, best.0, last, eps2, l, p, r);
        } else {
            assert(best.0 >= r);
            assert forall|q: int| l < q < r implies !#[trigger] sl.contains(q) by {
                assert(!s.contains(q));
            }
            law_dropped_within_tolerance(m, run, first, best.0, eps2, l, p, r);
        }
    } else {
        assert(chord_dist(m, run, first, last, p) <= best.1);
    }
}

/// Two runs with the same geometry keep the same positions: the same distances,
/// under their own measures, and the same order of places.
pub proof fn law_same_geometry_same_vertices(
    m1: Measure,
    run1: Seq<usize>,
    m2: Measure,
    run2: Seq<usize>,
    first: int,
    last: int,
    eps2: u64,
)
    requires
        forall|i: int, j: int, k: int|
            first <= i <= last && first <= j <= last && first <= k <= last ==> #[trigger] (m1.dist)(
                run1[i],
                run1[j],
                run1[k],
            ) == (m2.dist)(run2[i], run2[j], run2[k]),
        forall|i: int, j: int|
            first <= i <= last && first <= j <= last ==> #[trigger] (m1.before)(run1[i], run1[j])
                == (m2.before)(run2[i], run2[j]),
    ensures
        keepers(m1, run1, first, last, eps2) == keepers(m2, run2, first, last, eps2),
    decreases last - first,
{
    if first < last {
        lemma_same_farthest(m1, run1, m2, run2, first, last, last);
        let best = farthest(m1, run1, first, last, last);
        if first < best.0 < last && best.1 > eps2 {
            law_same_geometry_same_vertices(m1, run1, m2, run2, first, best.0, eps2);
            law_same_geometry_same_vertices(m1, run1, m2, run2, best.0, last, eps2);
        }
    }
}

proof fn lemma_same_farthest(
    m1: Measure,
    run1: Seq<usize>,
    m2: Measure,
    run2: Seq<usize>,
    first: int,
    last: int,
    end: int,
)
    requires
        end <= last,
        forall|i: int, j: int, k: int|
            first <= i <= last && first <= j <= last && first <= k <= last ==> #[trigger] (m1.dist)(
                run1[i],
                run1[j],
                run1[k],
            ) == (m2.dist)(run2[i], run2[j], run2[k]),
        forall|i: int, j: int|
            first <= i <= last && first <= j <= last ==> #[trigger] (m1.before)(run1[i], run1[j])
                == (m2.before)(run2[i], run2[j]),
    ensures
        farthest(m1, run1, first, last, end) == farthest(m2, run2, first, last, end),
    decreases end - first,
{
    if end > first + 1 {
        lemma_same_farthest(m1, run1, m2, run2, first, last, end - 1);
        assert((m1.dist)(run1[end - 1], run1[first], run1[last]) == (m2.dist)(
            run2[end - 1],
            run2[first],
            run2[last],
        ));
        let best = farthest(m1, run1, first, last, end - 1);
        lemma_farthest_in_range(m1, run1, first, last, end - 1);
        assert((m1.before)(run1[end - 1], run1[best.0]) == (m2.before)(run2[end - 1], run2[best.0]));
    }
}

/// No two vertices inside `run` are tied: one of them goes first.
pub open spec fn tells_apart(m: Measure, run: Seq<usize>) -> bool {
    forall|i: int, j: int|
        #![trigger (m.before)(run[i], run[j])]
        0 < i < run.len() - 1 && 0 < j < run.len() - 1 && i != j ==> (m.before)(run[i], run[j])
            || (m.before)(run[j], run[i])
}

/// `run2` is `run1` walked backwards: the distances are the same, under their own
/// measures, and so is the order of places.
pub open spec fn mirrors(m1: Measure, run1: Seq<usize>, m2: Measure, run2: Seq<usize>) -> bool {
    &&& run2.len() == run1.len()
    &&& forall|i: int, j: int, k: int|
        0 <= i < run1.len() && 0 <= j < run1.len() && 0 <= k < run1.len() ==> #[trigger] (m1.dist)(
            run1[i],
            run1[j],
            run1[k],
        ) == (m2.dist)(
            run2[run1.len() - 1 - i],
            run2[run1.len() - 1 - k],
            run2[run1.len() - 1 - j],
        )
    &&& forall|i: int, j: int|
        0 <= i < run1.len() && 0 <= j < run1.len() ==> #[trigger] (m1.before)(run1[i], run1[j])
            == (m2.before)(run2[run1.len() - 1 - i], run2[run1.len() - 1 - j])
}

/// A boundary traced from either side keeps the same vertices: the run walked
/// backwards keeps exactly the mirrored positions, ties or no ties in distance, as
/// long as its vertices have different places.
pub proof fn law_either_side_same_vertices(
    m1: Measure,
    run1: Seq<usize>,
    m2: Measure,
    run2: Seq<usize>,
    first: int,
    last: int,
    eps2: u64,
    q: int,
)
    requires
        0 <= first <= last < run1.len(),
        is_ranking(m1.before),
        is_ranking(m2.before),
        mirrors(m1, run1, m2, run2),
        tells_apart(m1, run1),
    ensures
        keepers(m1, run1, first, last, eps2).contains(q) <==> keepers(
            m2,
            run2,
            run1.len() - 1 - last,
            run1.len() - 1 - first,
            eps2,
        ).contains(run1.len() - 1 - q),
    decreases last - first,
{
    let n = run1.len() as int;
    let best = farthest(m1, run1, first, last, last);
    let f2 = n - 1 - last;
    let l2 = n - 1 - first;
    let best2 = farthest(m2, run2, f2, l2, l2);
    if first < last {
        lemma_farthest_is_max(m1, run1, first, last, last);
        lemma_farthest_in_range(m1, run1, first, last, last);
        lemma_farthest_is_max(m2, run2, f2, l2, l2);
        lemma_farthest_in_range(m2, run2, f2, l2, l2);
    }
    assert forall|p: int| first < p < last implies chord_dist(m2, run2, f2, l2, n - 1 - p)
        == #[trigger] chord_dist(m1, run1, first, last, p) by {
        assert((m1.dist)(run1[p], run1[first], run1[last]) == (m2.dist)(
            run2[n - 1 - p],
            run2[n - 1 - last],
            run2[n - 1 - first],
        ));
    }
    if first < best.0 < last && best.1 > eps2 {
        let k2 = n - 1 - best.0;
        assert forall|p: int| f2 < p < l2 implies #[trigger] chord_dist(m2, run2, f2, l2, p)
            <= best.1 by {
            assert(chord_dist(m1, run1, first, last, n - 1 - p) <= best.1);
        }
        assert forall|p: int|
            f2 < p < l2 && p != k2 && #[trigger] chord_dist(m2, run2, f2, l2, p)
                == best.1 implies goes_first(m2, run2, k2, p) by {
            let p1 = n - 1 - p;
            assert(chord_dist(m1, run1, first, last, p1) == best.1);
            assert(goes_first(m1, run1, best.0, p1));
            assert((m1.before)(run1[best.0], run1[p1]) || (m1.before)(run1[p1], run1[best.0]));
            assert((m1.before)(run1[best.0], run1[p1]));
        }
        assert(chord_dist(m1, run1, first, last, best.0) == best.1);
        lemma_farthest_is(m2, run2, f2, l2, k2, best.1);
        law_either_side_same_vertices(m1, run1, m2, run2, first, best.0, eps2, q);
        law_either_side_same_vertices(m1, run1, m2, run2, best.0, last, eps2, q);
        let s1 = keepers(m1, run1, first, last, eps2);
        let s2 = keepers(m2, run2, f2, l2, eps2);
        assert(s1.contains(q) <==> q == best.0 || keepers(m1, run1, first, best.0, eps2).contains(q)
            || keepers(m1, run1, best.0, last, eps2).contains(q));
        let q2 = n - 1 - q;
        assert(s2.contains(q2) <==> q2 == k2 || keepers(m2, run2, f2, k2, eps2).contains(q2)
            || keepers(m2, run2, k2, l2, eps2).contains(q2));
    } else {
        if f2 < best2.0 < l2 && best2.1 > eps2 {
            assert(chord_dist(m1, run1, first, last, n - 1 - best2.0) <= best.1);
            assert(chord_dist(m2, run2, f2, l2, n - 1 - (n - 1 - best2.0)) == chord_dist(
                m1,
                run1,
                first,
                last,
                n - 1 - best2.0,
            ));
            assert(false);
        }
    }
}

/// RDP settles in one pass: a second pass over the vertices that stayed, with
/// the same tolerance, drops none of them. `at[i]` is the position in `run` of
/// the `i`-th vertex of `kept`.
pub proof fn law_second_pass_drops_nothing(
    m: Measure,
    run: Seq<usize>,
    kept: Seq<usize>,
    at: Seq<int>,
    f: int,
    l: int,
    eps2: u64,
    j: int,
)
    requires
        is_ranking(m.before),
        0 <= f < j < l < kept.len(),
        at.len() == kept.len(),
        forall|i: int| f <= i <= l ==> #[trigger] kept[i] == run[at[i]],
        forall|i: int, k: int| f <= i < k <= l ==> at[i] < at[k],
        forall|i: int|
            f < i < l ==> #[trigger] keepers(m, run, at[f], at[l], eps2).contains(at[i]),
        forall|p: int| #[trigger]
            keepers(m, run, at[f], at[l], eps2).contains(p) ==> exists|i: int|
                f < i < l && at[i] == p,
    ensures
        keepers(m, kept, f, l, eps2).contains(j),
    decreases l - f,
{
    let first = at[f];
    let last = at[l];
    let s = keepers(m, run, first, last, eps2);
    let best = farthest(m, run, first, last, last);
    assert(s.contains(at[j]));
    assert(first < last);
    lemma_farthest_is_max(m, run, first, last, last);
    lemma_keepers_in_range(m, run, first, last, eps2);
    let sl = keepers(m, run, first, best.0, eps2);
    let sr = keepers(m, run, best.0, last, eps2);
    lemma_keepers_in_range(m, run, first, best.0, eps2);
    lemma_keepers_in_range(m, run, best.0, last, eps2);
    assert(first < best.0 < last && best.1 > eps2);
    assert(forall|q: int| #[trigger] s.contains(q) <==> q == best.0 || sl.contains(q) || sr.contains(q));
    assert(s.contains(best.0));
    let k = choose|i: int| f < i < l && at[i] == best.0;
    assert forall|p: int| f < p < l implies #[trigger] chord_dist(m, kept, f, l, p) == chord_dist(
        m,
        run,
        first,
        last,
        at[p],
    ) && first < at[p] < last by {
        assert(kept[p] == run[at[p]] && kept[f] == run[at[f]] && kept[l] == run[at[l]]);
    }
    assert forall|p: int| f < p < l implies #[trigger] chord_dist(m, kept, f, l, p) <= best.1 by {
        assert(chord_dist(m, run, first, last, at[p]) <= best.1);
    }
    assert forall|p: int|
        f < p < l && p != k && #[trigger] chord_dist(m, kept, f, l, p) == best.1 implies goes_first(
        m,
        kept,
        k,
        p,
    ) by {
        assert(if p < k { at[p] < at[k] } else { at[k] < at[p] });
        assert(chord_dist(m, run, first, last, at[p]) == best.1);
        assert(goes_first(m, run, best.0, at[p]));
        assert(kept[p] == run[at[p]] && kept[k] == run[at[k]]);
    }
    assert(chord_dist(m, kept, f, l, k) == best.1);
    lemma_farthest_is(m, kept, f, l, k, best.1);
    assert(forall|q: int| #[trigger]
        keepers(m, kept, f, l, eps2).contains(q) <==> q == k || keepers(m, kept, f, k, eps2).contains(q)
            || keepers(m, kept, k, l, eps2).contains(q));
    if j < k {
        assert forall|i: int| f < i < k implies #[trigger] sl.contains(at[i]) by {
            assert(s.contains(at[i]));
            assert(at[i] < at[k]);
        }
        assert forall|p: int| #[trigger] sl.contains(p) implies exists|i: int|
            f < i < k && at[i] == p by {
            assert(s.contains(p));
            let i = choose|i: int| f < i < l && at[i] == p;
            assert(i < k) by {
                if i > k {
                    assert(at[k] < at[i]);
                }
            }
        }
        law_second_pass_drops_nothing(m, run, kept, at, f, k, eps2, j);
    } else if j > k {
        assert forall|i: int| k < i < l implies #[trigger] sr.contains(at[i]) by {
            assert(s.contains(at[i]));
            assert(at[k] < at[i]);
        }
        assert forall|p: int| #[trigger] sr.contains(p) implies exists|i: int|
            k < i < l && at[i] == p by {
            assert(s.contains(p));
            let i = choose|i: int| f < i < l && at[i] == p;
            assert(i > k) by {
                if i < k {
                    assert(at[i] < at[k]);
                }
            }
        }
        law_second_pass_drops_nothing(m, run, kept, at, k, l, eps2, j);
    }
}

/// The `idx`-th of the circular intervals that `anchors` cut a loop of `n` into.
pub open spec fn interval(n: int, anchors: Seq<usize>, idx: int) -> Seq<usize> {
    circular_run(n, anchors[idx] as int, anchors[(idx + 1) % anchors.len() as int] as int)
}

/// Where the inside of an interval lies: between its two anchors, or past the
/// last anchor and before the first one.
proof fn lemma_inside_interval(n: int, anchors: Seq<usize>, idx: int, j: int)
    requires
        0 <= idx < anchors.len(),
        forall|i: int| 0 <= i < anchors.len() ==> #[trigger] anchors[i] < n <= usize::MAX,
        forall|i: int, k: int| 0 <= i < k < anchors.len() ==> anchors[i] < anchors[k],
        0 < j < interval(n, anchors, idx).len() - 1,
    ensures
        ({
            let v = interval(n, anchors, idx)[j];
            &&& v < n
            &&& idx + 1 < anchors.len() ==> v == anchors[idx] + j && v < anchors[idx + 1]
            &&& idx + 1 == anchors.len() ==> if anchors[idx] + j < n {
                v == anchors[idx] + j
            } else {
                v == anchors[idx] + j - n && v < anchors[0]
            }
        }),
{
    let k = anchors.len() as int;
    let a = anchors[idx] as int;
    if idx + 1 < k {
        vstd::arithmetic::div_mod::lemma_small_mod((idx + 1) as nat, k as nat);
        assert(anchors[idx] < anchors[idx + 1]);
        vstd::arithmetic::div_mod::lemma_small_mod((a + j) as nat, n as nat);
    } else {
        vstd::arithmetic::div_mod::lemma_mod_self_0(k);
        if k > 1 {
            assert(anchors[0] < anchors[idx]);
        }
        if a + j < n {
            vstd::arithmetic::div_mod::lemma_small_mod((a + j) as nat, n as nat);
        } else {
            vstd::arithmetic::div_mod::lemma_fundamental_div_mod_converse(a + j, n, 1, a + j - n);
        }
    }
}

/// A vertex inside one interval is inside no other, and at one position only.
proof fn lemma_intervals_disjoint(n: int, anchors: Seq<usize>, i1: int, j1: int, i2: int, j2: int)
    requires
        0 <= i1 < anchors.len(),
        0 <= i2 < anchors.len(),
        forall|i: int| 0 <= i < anchors.len() ==> #[trigger] anchors[i] < n <= usize::MAX,
        forall|i: int, k: int| 0 <= i < k < anchors.len() ==> anchors[i] < anchors[k],
        0 < j1 < interval(n, anchors, i1).len() - 1,
        0 < j2 < interval(n, anchors, i2).len() - 1,
        interval(n, anchors, i1)[j1] == interval(n, anchors, i2)[j2],
    ensures
        i1 == i2,
        j1 == j2,
{
    lemma_inside_interval(n, anchors, i1, j1);
    lemma_inside_interval(n, anchors, i2, j2);
    if i1 + 1 < anchors.len() && i2 < i1 {
        assert(i2 + 1 == i1 || anchors[i2 + 1] < anchors[i1]);
    }
    if i2 + 1 < anchors.len() && i1 < i2 {
        assert(i1 + 1 == i2 || anchors[i1 + 1] < anchors[i2]);
    }
    if i1 + 1 == anchors.len() && i2 < i1 {
        assert(i2 + 1 == i1 || anchors[i2 + 1] < anchors[i1]);
        assert(i2 == 0 || anchors[0] < anchors[i2]);
    }
    if i2 + 1 == anchors.len() && i1 < i2 {
        assert(i1 + 1 == i2 || anchors[i1 + 1] < anchors[i2]);
        assert(i1 == 0 || anchors[0] < anchors[i1]);
    }
}

proof fn lemma_intervals_kept_at(
    m: Measure,
    n: int,
    anchors: Seq<usize>,
    eps2: u64,
    keep: Seq<bool>,
    count: int,
    idx: int,
    j: int,
)
    requires
        0 <= idx < anchors.len(),
        0 <= count <= anchors.len(),
        keep.len() == n,
        forall|i: int| 0 <= i < anchors.len() ==> #[trigger] anchors[i] < n <= usize::MAX,
        forall|i: int, k: int| 0 <= i < k < anchors.len() ==> anchors[i] < anchors[k],
        0 < j < interval(n, anchors, idx).len() - 1,
    ensures
        intervals_kept(m, n, anchors, eps2, keep, count).len() == n,
        ({
            let run = interval(n, anchors, idx);
            let v = run[j] as int;
            intervals_kept(m, n, anchors, eps2, keep, count)[v] == (keep[v] || (idx < count
                && keepers(m, run, 0, run.len() - 1, eps2).contains(j)))
        }),
    decreases count,
{
    let run = interval(n, anchors, idx);
    let v = run[j] as int;
    lemma_inside_interval(n, anchors, idx, j);
    if count > 0 {
        lemma_intervals_kept_at(m, n, anchors, eps2, keep, count - 1, idx, j);
        let here = interval(n, anchors, count - 1);
        let s = keepers(m, here, 0, here.len() - 1, eps2);
        lemma_keepers_in_range(m, here, 0, here.len() - 1, eps2);
        let before = intervals_kept(m, n, anchors, eps2, keep, count - 1);
        assert(intervals_kept(m, n, anchors, eps2, keep, count) == marked(before, here, s));
        if exists|q: int| #[trigger] s.contains(q) && here[q] == v {
            let q = choose|q: int| #[trigger] s.contains(q) && here[q] == v;
            lemma_intervals_disjoint(n, anchors, count - 1, q, idx, j);
        }
        if idx == count - 1 && s.contains(j) {
            assert(here[j] == v);
        }
    }
}

/// What stays of the boundary between two forced vertices depends on that
/// stretch alone: the rest of the loop has no say in it.
pub proof fn law_interval_is_local(
    m: Measure,
    n: int,
    forced: Seq<usize>,
    eps2: u64,
    idx: int,
    j: int,
)
    requires
        0 <= n <= usize::MAX,
        0 <= idx < raised(flags_of(n, forced)).len(),
        0 < j < interval(n, raised(flags_of(n, forced)), idx).len() - 1,
    ensures
        ({
            let run = interval(n, raised(flags_of(n, forced)), idx);
            split_kept(m, n, forced, Some(eps2))[run[j] as int] <==> keepers(
                m,
                run,
                0,
                run.len() - 1,
                eps2,
            ).contains(j)
        }),
{
    let keep = flags_of(n, forced);
    let anchors = raised(keep);
    lemma_raised(keep);
    lemma_intervals_kept_at(m, n, anchors, eps2, keep, anchors.len() as int, idx, j);
    let v = interval(n, anchors, idx)[j] as int;
    lemma_inside_interval(n, anchors, idx, j);
    if keep[v] {
        assert(anchors.contains(v as usize));
        let q = choose|q: int| 0 <= q < anchors.len() && anchors[q] == v as usize;
        if q < idx {
            assert(anchors[q] < anchors[idx]);
            assert(q == 0 || anchors[0] < anchors[q]);
        } else if q > idx {
            assert(q == idx + 1 || anchors[idx + 1] < anchors[q]);
        }
        assert(false);
    }
}

/// The forced vertices stay, with any tolerance.
pub proof fn law_forced_vertices_stay(
    m: Measure,
    n: int,
    forced: Seq<usize>,
    eps2: Option<u64>,
    j: int,
)
    requires
        0 <= n <= usize::MAX,
        0 <= j < forced.len(),
        forced[j] < n,
    ensures
        split_kept(m, n, forced, eps2)[forced[j] as int],
{
    let keep = flags_of(n, forced);
    assert(keep[forced[j] as int]);
    if let Some(eps2) = eps2 {
        lemma_raised(keep);
        lemma_intervals_only_raise(
            m,
            n,
            raised(keep),
            eps2,
            keep,
            raised(keep).len() as int,
            forced[j] as int,
        );
    }
}

proof fn lemma_intervals_only_raise(
    m: Measure,
    n: int,
    anchors: Seq<usize>,
    eps2: u64,
    keep: Seq<bool>,
    count: int,
    p: int,
)
    requires
        0 <= p < keep.len(),
        keep[p],
    ensures
        intervals_kept(m, n, anchors, eps2, keep, count).len() == keep.len(),
        intervals_kept(m, n, anchors, eps2, keep, count)[p],
    decreases count,
{
    if count > 0 {
        lemma_intervals_only_raise(m, n, anchors, eps2, keep, count - 1, p);
    }
}

/// Two ascending sequences with the same items are the same.
proof fn lemma_ascending_same(s: Seq<usize>, t: Seq<usize>)
    requires
        forall|i: int, j: int| 0 <= i < j < s.len() ==> s[i] < s[j],
        forall|i: int, j: int| 0 <= i < j < t.len() ==> t[i] < t[j],
        forall|x: usize| s.contains(x) <==> t.contains(x),
    ensures
        s == t,
    decreases s.len(),
{
    if s.len() == 0 {
        if t.len() > 0 {
            assert(t.contains(t[0]));
            assert(s.contains(t[0]));
        }
        assert(s =~= t);
    } else {
        let (a, b) = (s.last(), t.last());
        assert(s.contains(s[s.len() - 1]));
        assert(t.contains(a));
        let i = choose|i: int| 0 <= i < t.len() && t[i] == a;
        assert(t.contains(t[t.len() - 1]));
        assert(s.contains(b));
        let j = choose|j: int| 0 <= j < s.len() && s[j] == b;
        assert(a == b);
        let (s1, t1) = (s.drop_last(), t.drop_last());
        assert forall|x: usize| s1.contains(x) implies t1.contains(x) by {
            let p = choose|p: int| 0 <= p < s1.len() && s1[p] == x;
            assert(s[p] == x && s[p] < s[s.len() - 1]);
            assert(s.contains(x));
            let q = choose|q: int| 0 <= q < t.len() && t[q] == x;
            assert(t1[q] == x);
        }
        assert forall|x: usize| t1.contains(x) implies s1.contains(x) by {
            let p = choose|p: int| 0 <= p < t1.len() && t1[p] == x;
            assert(t[p] == x && t[p] < t[t.len() - 1]);
            assert(t.contains(x));
            let q = choose|q: int| 0 <= q < s.len() && s[q] == x;
            assert(s1[q] == x);
        }
        lemma_ascending_same(s1, t1);
        assert(s =~= s1.push(a));
        assert(t =~= t1.push(b));
    }
}

/// The raised indices of mirrored flags are the mirrored ones.
proof fn lemma_mirrored_raised(keep: Seq<bool>)
    requires
        keep.len() <= usize::MAX,
    ensures
        raised(keep.reverse()).len() == raised(keep).len(),
        forall|i: int|
            0 <= i < raised(keep).len() ==> #[trigger] raised(keep.reverse())[i] == keep.len() - 1
                - raised(keep)[raised(keep).len() - 1 - i],
{
    let n = keep.len() as int;
    let back = keep.reverse();
    let (a, b) = (raised(keep), raised(back));
    lemma_raised(keep);
    lemma_raised(back);
    let c = Seq::new(a.len(), |i: int| (n - 1 - a[a.len() - 1 - i]) as usize);
    assert forall|i: int, j: int| 0 <= i < j < c.len() implies c[i] < c[j] by {
        assert(a[a.len() - 1 - j] < a[a.len() - 1 - i]);
    }
    assert forall|x: usize| b.contains(x) implies c.contains(x) by {
        let i = choose|i: int| 0 <= i < b.len() && b[i] == x;
        assert(back[b[i] as int]);
        assert(keep[n - 1 - x]);
        assert(a.contains((n - 1 - x) as usize));
        let j = choose|j: int| 0 <= j < a.len() && a[j] == (n - 1 - x) as usize;
        assert(c[a.len() - 1 - j] == x);
    }
    assert forall|x: usize| c.contains(x) implies b.contains(x) by {
        let i = choose|i: int| 0 <= i < c.len() && c[i] == x;
        let y = a[a.len() - 1 - i];
        assert(keep[y as int]);
        assert(back[x as int]);
    }
    lemma_ascending_same(b, c);
}

/// The picked items are those at the raised indices.
proof fn lemma_picked_at<P>(pts: Seq<P>, keep: Seq<bool>)
    requires
        keep.len() <= pts.len(),
        keep.len() <= usize::MAX,
    ensures
        picked(pts, keep).len() == raised(keep).len(),
        forall|i: int|
            0 <= i < raised(keep).len() ==> #[trigger] picked(pts, keep)[i] == pts[raised(
                keep,
            )[i] as int],
    decreases keep.len(),
{
    if keep.len() > 0 {
        lemma_picked_at(pts, keep.drop_last());
    }
}

/// The picked items are items of the whole.
pub proof fn lemma_picked_from<P>(pts: Seq<P>, keep: Seq<bool>)
    requires
        keep.len() <= pts.len(),
    ensures
        forall|k: int|
            0 <= k < picked(pts, keep).len() ==> pts.contains(#[trigger] picked(pts, keep)[k]),
    decreases keep.len(),
{
    if keep.len() > 0 {
        lemma_picked_from(pts, keep.drop_last());
        assert forall|k: int| 0 <= k < picked(pts, keep).len() implies pts.contains(
            #[trigger] picked(pts, keep)[k],
        ) by {
            let rest = picked(pts, keep.drop_last());
            if k < rest.len() {
                assert(pts.contains(rest[k]));
            } else {
                assert(pts[keep.len() - 1] == picked(pts, keep)[k]);
            }
        }
    }
}

/// What is picked from the reversed items by the mirrored flags is what was picked,
/// reversed.
proof fn lemma_picked_reversed<P>(pts: Seq<P>, keep: Seq<bool>)
    requires
        keep.len() == pts.len(),
        keep.len() <= usize::MAX,
    ensures
        picked(pts.reverse(), keep.reverse()) == picked(pts, keep).reverse(),
{
    lemma_picked_at(pts, keep);
    lemma_picked_at(pts.reverse(), keep.reverse());
    lemma_mirrored_raised(keep);
    lemma_raised(keep);
    let k = raised(keep).len() as int;
    let (there, back) = (picked(pts, keep).reverse(), picked(pts.reverse(), keep.reverse()));
    assert forall|i: int| 0 <= i < k implies back[i] == there[i] by {
        assert(raised(keep.reverse())[i] == keep.len() - 1 - raised(keep)[k - 1 - i]);
    }
    assert(back =~= there);
}

/// Between which two of the ascending `anchors` a number lies.
proof fn lemma_bracket(anchors: Seq<usize>, p: int) -> (idx: int)
    requires
        anchors.len() > 0,
        anchors[0] < p < anchors.last(),
        forall|i: int| 0 <= i < anchors.len() ==> #[trigger] anchors[i] != p,
    ensures
        0 <= idx < anchors.len() - 1,
        anchors[idx] < p < anchors[idx + 1],
    decreases anchors.len(),
{
    let k = anchors.len() as int;
    if anchors[k - 2] < p {
        k - 2
    } else {
        lemma_bracket(anchors.drop_last(), p)
    }
}

proof fn lemma_wrap(n: int, x: int)
    requires
        0 <= x < n,
    ensures
        x % n == x,
        (x + n) % n == x,
{
    vstd::arithmetic::div_mod::lemma_small_mod(x as nat, n as nat);
    vstd::arithmetic::div_mod::lemma_fundamental_div_mod_converse(x + n, n, 1, x);
}

/// A vertex that is no anchor lies inside one of the intervals.
proof fn lemma_in_some_interval(n: int, anchors: Seq<usize>, p: int) -> (at: (int, int))
    requires
        anchors.len() > 0,
        0 <= p < n <= usize::MAX,
        forall|i: int| 0 <= i < anchors.len() ==> #[trigger] anchors[i] < n && anchors[i] != p,
        forall|i: int, k: int| 0 <= i < k < anchors.len() ==> anchors[i] < anchors[k],
    ensures
        0 <= at.0 < anchors.len(),
        0 < at.1 < interval(n, anchors, at.0).len() - 1,
        interval(n, anchors, at.0)[at.1] == p,
{
    let k = anchors.len() as int;
    let (low, high) = (anchors[0] as int, anchors[k - 1] as int);
    lemma_wrap(n, p);
    assert(low <= high);
    if p < low || p > high {
        vstd::arithmetic::div_mod::lemma_mod_self_0(k);
        let j = if p > high {
            p - high
        } else {
            p - high + n
        };
        (k - 1, j)
    } else {
        let idx = lemma_bracket(anchors, p);
        vstd::arithmetic::div_mod::lemma_small_mod((idx + 1) as nat, k as nat);
        (idx, p - anchors[idx])
    }
}

/// The interval of mirrored anchors that runs backwards along an interval.
spec fn mirrored_index(k: int, idx: int) -> int {
    if idx + 1 < k {
        k - 2 - idx
    } else {
        k - 1
    }
}

proof fn lemma_mirrored_interval(n: int, anchors: Seq<usize>, back: Seq<usize>, idx: int)
    requires
        0 <= idx < anchors.len(),
        n <= usize::MAX,
        back.len() == anchors.len(),
        forall|i: int| 0 <= i < anchors.len() ==> #[trigger] anchors[i] < n,
        forall|i: int|
            0 <= i < anchors.len() ==> #[trigger] back[i] == n - 1 - anchors[anchors.len() - 1 - i],
    ensures
        ({
            let run = interval(n, anchors, idx);
            let idx2 = mirrored_index(anchors.len() as int, idx);
            let run2 = interval(n, back, idx2);
            &&& 0 <= idx2 < anchors.len()
            &&& run2.len() == run.len()
            &&& forall|t: int|
                0 <= t < run.len() ==> #[trigger] run[t] < n && run2[run.len() - 1 - t] == n - 1
                    - run[t]
        }),
{
    let k = anchors.len() as int;
    let idx2 = mirrored_index(k, idx);
    let run = interval(n, anchors, idx);
    let run2 = interval(n, back, idx2);
    vstd::arithmetic::div_mod::lemma_mod_self_0(k);
    if idx + 1 < k {
        vstd::arithmetic::div_mod::lemma_small_mod((idx + 1) as nat, k as nat);
        vstd::arithmetic::div_mod::lemma_small_mod((idx2 + 1) as nat, k as nat);
    }
    let a = anchors[idx] as int;
    let b = anchors[(idx + 1) % k] as int;
    assert(0 <= (idx + 1) % k < k);
    assert(back[idx2] == n - 1 - b);
    assert(back[(idx2 + 1) % k] == n - 1 - a);
    let steps = steps_around(n, a, b);
    assert(steps == steps_around(n, n - 1 - b, n - 1 - a));
    assert forall|t: int| 0 <= t < run.len() implies #[trigger] run[t] < n && run2[run.len() - 1 - t]
        == n - 1 - run[t] by {
        if a + t < n {
            lemma_wrap(n, a + t);
            lemma_wrap(n, n - 1 - a - t);
        } else {
            lemma_wrap(n, a + t - n);
            lemma_wrap(n, 2 * n - 1 - a - t);
        }
    }
}

/// A lexicographic order is a ranking.
proof fn lemma_places_rank(dist: spec_fn(usize, usize, usize) -> u64, order: Seq<(int, int)>)
    ensures
        is_ranking(by_place(dist, order).before),
{
}

/// A run of a loop, and the same run of the loop walked backwards.
proof fn lemma_walked_back<P>(
    m: spec_fn(P, P, P) -> u64,
    pts: Seq<P>,
    order: Seq<(int, int)>,
    run: Seq<usize>,
    run2: Seq<usize>,
)
    requires
        order.len() == pts.len(),
        forall|q: P, a: P, b: P| #[trigger] m(q, a, b) == m(q, b, a),
        forall|i: int, j: int| 0 <= i < j < order.len() ==> order[i] != order[j],
        run2.len() == run.len(),
        forall|t: int|
            0 <= t < run.len() ==> #[trigger] run[t] < pts.len() && run2[run.len() - 1 - t]
                == pts.len() - 1 - run[t],
        forall|i: int, j: int|
            0 < i < run.len() - 1 && 0 < j < run.len() - 1 && i != j ==> #[trigger] run[i]
                != #[trigger] run[j],
    ensures
        mirrors(
            by_place(by_index(m, pts), order),
            run,
            by_place(by_index(m, pts.reverse()), order.reverse()),
            run2,
        ),
        tells_apart(by_place(by_index(m, pts), order), run),
{
    let n = pts.len() as int;
    let last = run.len() - 1;
    let m1 = by_place(by_index(m, pts), order);
    let m2 = by_place(by_index(m, pts.reverse()), order.reverse());
    assert forall|i: int| 0 <= i < run.len() implies pts.reverse()[#[trigger] run2[last - i] as int]
        == pts[run[i] as int] && order.reverse()[run2[last - i] as int] == order[run[i] as int] by {
        assert(run[i] < n);
    }
    assert forall|i: int, u: int, v: int|
        0 <= i < run.len() && 0 <= u < run.len() && 0 <= v < run.len() implies #[trigger] (m1.dist)(
        run[i],
        run[u],
        run[v],
    ) == (m2.dist)(run2[last - i], run2[last - v], run2[last - u]) by {
        assert(pts.reverse()[run2[last - i] as int] == pts[run[i] as int]);
        assert(pts.reverse()[run2[last - u] as int] == pts[run[u] as int]);
        assert(pts.reverse()[run2[last - v] as int] == pts[run[v] as int]);
        assert(m(pts[run[i] as int], pts[run[u] as int], pts[run[v] as int]) == m(
            pts[run[i] as int],
            pts[run[v] as int],
            pts[run[u] as int],
        ));
    }
    assert forall|i: int, u: int|
        0 <= i < run.len() && 0 <= u < run.len() implies #[trigger] (m1.before)(run[i], run[u])
        == (m2.before)(run2[last - i], run2[last - u]) by {
        assert(order.reverse()[run2[last - i] as int] == order[run[i] as int]);
        assert(order.reverse()[run2[last - u] as int] == order[run[u] as int]);
    }
    assert forall|i: int, u: int|
        #![trigger (m1.before)(run[i], run[u])]
        0 < i < run.len() - 1 && 0 < u < run.len() - 1 && i != u implies (m1.before)(run[i], run[u])
        || (m1.before)(run[u], run[i]) by {
        assert(run[i] != run[u] && run[i] < n && run[u] < n);
        assert(order[run[i] as int] != order[run[u] as int]);
    }
}

/// What stays of a loop that is walked backwards is what stays, mirrored.
proof fn lemma_split_mirrored<P>(
    m: spec_fn(P, P, P) -> u64,
    pts: Seq<P>,
    order: Seq<(int, int)>,
    forced: Seq<usize>,
    back: Seq<usize>,
    eps2: u64,
    p: int,
)
    requires
        0 <= p < pts.len() <= usize::MAX,
        order.len() == pts.len(),
        forall|q: P, a: P, b: P| #[trigger] m(q, a, b) == m(q, b, a),
        forall|i: int, j: int| 0 <= i < j < order.len() ==> order[i] != order[j],
        flags_of(pts.len() as int, back) == flags_of(pts.len() as int, forced).reverse(),
        raised(flags_of(pts.len() as int, forced)).len() > 0,
    ensures
        split_kept(by_place(by_index(m, pts), order), pts.len() as int, forced, Some(eps2))[p]
            == split_kept(
            by_place(by_index(m, pts.reverse()), order.reverse()),
            pts.len() as int,
            back,
            Some(eps2),
        )[pts.len() - 1 - p],
{
    let n = pts.len() as int;
    let m1 = by_place(by_index(m, pts), order);
    let m2 = by_place(by_index(m, pts.reverse()), order.reverse());
    let keep = flags_of(n, forced);
    let keep2 = flags_of(n, back);
    let (anchors, anchors2) = (raised(keep), raised(keep2));
    lemma_raised(keep);
    lemma_raised(keep2);
    lemma_mirrored_raised(keep);
    assert(keep2[n - 1 - p] == keep[p]);
    if keep[p] {
        lemma_intervals_only_raise(m1, n, anchors, eps2, keep, anchors.len() as int, p);
        lemma_intervals_only_raise(m2, n, anchors2, eps2, keep2, anchors2.len() as int, n - 1 - p);
    } else {
        let (idx, j) = lemma_in_some_interval(n, anchors, p);
        let idx2 = mirrored_index(anchors.len() as int, idx);
        let (run, run2) = (interval(n, anchors, idx), interval(n, anchors2, idx2));
        let last = run.len() - 1;
        lemma_mirrored_interval(n, anchors, anchors2, idx);
        assert(run2[last - j] == n - 1 - p);
        law_interval_is_local(m1, n, forced, eps2, idx, j);
        law_interval_is_local(m2, n, back, eps2, idx2, last - j);
        assert forall|i: int, u: int|
            0 < i < run.len() - 1 && 0 < u < run.len() - 1 && i != u implies #[trigger] run[i]
            != #[trigger] run[u] by {
            if run[i] == run[u] {
                lemma_intervals_disjoint(n, anchors, idx, i, idx, u);
            }
        }
        lemma_walked_back(m, pts, order, run, run2);
        lemma_places_rank(by_index(m, pts), order);
        lemma_places_rank(by_index(m, pts.reverse()), order.reverse());
        law_either_side_same_vertices(m1, run, m2, run2, 0, last, eps2, j);
    }
}

/// A loop simplifies identically from whichever side it is traced: with vertices in
/// different places, and a measure that does not tell the ends of a chord apart, the
/// loop walked backwards is left with the same vertices, walked backwards.
pub proof fn law_loop_is_simplified_alike_from_both_sides<P>(
    m: spec_fn(P, P, P) -> u64,
    pts: Seq<P>,
    order: Seq<(int, int)>,
    flags: Seq<bool>,
    eps2: Option<u64>,
)
    requires
        pts.len() <= usize::MAX,
        order.len() == pts.len(),
        flags.len() == pts.len(),
        forall|q: P, a: P, b: P| #[trigger] m(q, a, b) == m(q, b, a),
        forall|i: int, j: int| 0 <= i < j < order.len() ==> order[i] != order[j],
    ensures
        simplified_keep(m, pts.reverse(), order.reverse(), flags.reverse(), eps2)
            == simplified_keep(m, pts, order, flags, eps2).reverse(),
        forall|p: P|
            simplified_keep(m, pts.reverse(), order.reverse(), flags.reverse(), eps2).contains(p)
                <==> simplified_keep(m, pts, order, flags, eps2).contains(p),
{
    let n = pts.len() as int;
    let out = simplified_keep(m, pts, order, flags, eps2);
    let back = simplified_keep(m, pts.reverse(), order.reverse(), flags.reverse(), eps2);
    assert(back == out.reverse()) by {
        if n >= 3 && eps2 is Some {
            let (a, b) = (lexmin_of(order), lexmin_of(order.reverse()));
            lemma_lexmin_exists(order);
            lemma_lexmin_exists(order.reverse());
            assert(b == n - 1 - a) by {
                let c = n - 1 - b;
                assert(order[c] == order.reverse()[b]);
                assert(order[a] == order.reverse()[n - 1 - a]);
                assert(!lex_less(order[c], order[a]));
                assert(!lex_less(order.reverse()[n - 1 - a], order.reverse()[b]));
            }
            let (forced, forced2) = (cut_at(flags, a), cut_at(flags.reverse(), b));
            lemma_raised(flags);
            lemma_mirrored_raised(flags);
            let keep = flags_of(n, forced);
            if raised(flags).len() == 0 {
                assert(forced[0] == a && forced2[0] == b);
                assert forall|p: int| 0 <= p < n implies flags_of(n, forced2)[p] == keep.reverse()[p] by {
                    assert(keep[n - 1 - p] == (n - 1 - p == a));
                    assert(flags_of(n, forced2)[p] == (p == b));
                }
                assert(flags_of(n, forced2) =~= keep.reverse());
                assert(keep[a]);
            } else {
                lemma_flags_of_raised(flags);
                lemma_flags_of_raised(flags.reverse());
                assert(keep[raised(flags)[0] as int]);
            }
            lemma_raised(keep);
            let e = eps2.unwrap();
            let m1 = by_place(by_index(m, pts), order);
            let m2 = by_place(by_index(m, pts.reverse()), order.reverse());
            let (k1, k2) = (split_kept(m1, n, forced, eps2), split_kept(m2, n, forced2, eps2));
            lemma_split_len(m1, n, forced, eps2);
            lemma_split_len(m2, n, forced2, eps2);
            assert forall|p: int| 0 <= p < n implies k2[p] == k1.reverse()[p] by {
                lemma_split_mirrored(m, pts, order, forced, forced2, e, n - 1 - p);
            }
            assert(k2 =~= k1.reverse());
            lemma_picked_reversed(pts, k1);
        }
    }
    assert forall|p: P| back.contains(p) implies out.contains(p) by {
        let i = choose|i: int| 0 <= i < back.len() && back[i] == p;
        assert(out[out.len() - 1 - i] == p);
    }
    assert forall|p: P| out.contains(p) implies back.contains(p) by {
        let i = choose|i: int| 0 <= i < out.len() && out[i] == p;
        assert(back[out.len() - 1 - i] == p);
    }
}

/// The same of [`simplify_closed_keep`]: the boundary of a region, walked backwards,
/// is left with the same points, and every kept one is among them.
pub proof fn law_keep_is_alike_from_both_sides(
    m: spec_fn(Pt, Pt, Pt) -> u64,
    pts: Seq<Pt>,
    set: Set<Pt>,
    eps2: Option<u64>,
    p: Pt,
)
    requires
        pts.len() <= usize::MAX,
        forall|q: Pt, a: Pt, b: Pt| #[trigger] m(q, a, b) == m(q, b, a),
        forall|i: int, j: int| 0 <= i < j < pts.len() ==> pts[i] != pts[j],
    ensures
        ({
            let out = simplified_keep(m, pts, as_pairs(pts), members(pts, set), eps2);
            let rev = pts.reverse();
            let back = simplified_keep(m, rev, as_pairs(rev), members(rev, set), eps2);
            &&& back == out.reverse()
            &&& back.contains(p) <==> out.contains(p)
            &&& set.contains(p) && pts.contains(p) ==> out.contains(p)
        }),
{
    let n = pts.len() as int;
    let rev = pts.reverse();
    let (order, flags) = (as_pairs(pts), members(pts, set));
    assert(as_pairs(rev) =~= order.reverse());
    assert(members(rev, set) =~= flags.reverse());
    law_loop_is_simplified_alike_from_both_sides(m, pts, order, flags, eps2);
    if set.contains(p) && pts.contains(p) && n >= 3 && eps2 is Some {
        let i = choose|i: int| 0 <= i < n && pts[i] == p;
        let forced = cut_at(flags, lexmin_of(order));
        let m1 = by_place(by_index(m, pts), order);
        assert(flags[i]);
        lemma_raised(flags);
        assert(raised(flags).contains(i as usize));
        let j = choose|j: int| 0 <= j < raised(flags).len() && raised(flags)[j] == i as usize;
        law_forced_vertices_stay(m1, n, forced, eps2, j);
        lemma_split_len(m1, n, forced, eps2);
        lemma_picked_contains(pts, split_kept(m1, n, forced, eps2), i);
    }
}

/// `s` is left of `t` when some items are dropped.
pub open spec fn is_subsequence<P>(s: Seq<P>, t: Seq<P>) -> bool
    decreases t.len(),
{
    if s.len() == 0 {
        true
    } else if t.len() == 0 {
        false
    } else {
        (s.last() == t.last() && is_subsequence(s.drop_last(), t.drop_last())) || is_subsequence(
            s,
            t.drop_last(),
        )
    }
}

/// What fewer flags pick is left of what more flags pick.
proof fn lemma_fewer_picked<P>(pts: Seq<P>, few: Seq<bool>, many: Seq<bool>)
    requires
        few.len() == many.len(),
        forall|i: int| 0 <= i < few.len() && #[trigger] few[i] ==> many[i],
    ensures
        is_subsequence(picked(pts, few), picked(pts, many)),
    decreases few.len(),
{
    if few.len() > 0 {
        let (f, g) = (few.drop_last(), many.drop_last());
        lemma_fewer_picked(pts, f, g);
        let (s, t) = (picked(pts, f), picked(pts, g));
        let last = pts[few.len() - 1];
        assert(t.push(last).drop_last() =~= t);
        assert(s.push(last).drop_last() =~= s);
        assert(few[few.len() - 1] ==> many[few.len() - 1]);
    }
}

/// A larger tolerance never keeps a vertex that a smaller one drops.
pub proof fn law_larger_tolerance_keeps_fewer(
    m: Measure,
    run: Seq<usize>,
    first: int,
    last: int,
    small: u64,
    large: u64,
)
    requires
        small <= large,
    ensures
        keepers(m, run, first, last, large).subset_of(keepers(m, run, first, last, small)),
    decreases last - first,
{
    let best = farthest(m, run, first, last, last);
    if first < best.0 < last && best.1 > large {
        law_larger_tolerance_keeps_fewer(m, run, first, best.0, small, large);
        law_larger_tolerance_keeps_fewer(m, run, best.0, last, small, large);
    }
}

/// Which vertices of a closed loop stay.
spec fn loop_flags<P>(m: spec_fn(P, P, P) -> u64, pts: Seq<P>, eps2: u64) -> Seq<bool> {
    let n = pts.len() as int;
    let s = keepers(in_order(by_index(m, pts.push(pts[0]))), straight_run(n + 1), 0, n, eps2);
    Seq::new(n as nat, |p: int| p == 0 || s.contains(p))
}

/// Of a closed loop, a larger tolerance leaves part of what a smaller one leaves.
pub proof fn law_larger_tolerance_leaves_a_part<P>(
    m: spec_fn(P, P, P) -> u64,
    pts: Seq<P>,
    small: u64,
    large: u64,
)
    requires
        small <= large,
    ensures
        is_subsequence(simplified(m, pts, Some(large)), simplified(m, pts, Some(small))),
{
    let n = pts.len() as int;
    if n > 3 {
        law_larger_tolerance_keeps_fewer(
            in_order(by_index(m, pts.push(pts[0]))),
            straight_run(n + 1),
            0,
            n,
            small,
            large,
        );
        assert(loop_flags(m, pts, large).len() == n);
        lemma_fewer_picked(pts, loop_flags(m, pts, large), loop_flags(m, pts, small));
    } else {
        lemma_part_of_itself(pts);
    }
}

proof fn lemma_part_of_itself<P>(s: Seq<P>)
    ensures
        is_subsequence(s, s),
    decreases s.len(),
{
    if s.len() > 0 {
        lemma_part_of_itself(s.drop_last());
    }
}

/// A closed loop settles in one pass: what is left of it is not simplified any
/// further by the same tolerance.
pub proof fn law_second_pass_changes_nothing<P>(m: spec_fn(P, P, P) -> u64, pts: Seq<P>, eps2: u64)
    requires
        pts.len() < usize::MAX,
    ensures
        simplified(m, simplified(m, pts, Some(eps2)), Some(eps2)) == simplified(m, pts, Some(eps2)),
{
    let n = pts.len() as int;
    let out = simplified(m, pts, Some(eps2));
    let k = out.len() as int;
    if n > 3 && k > 3 {
        let ring = pts.push(pts[0]);
        let big = in_order(by_index(m, ring));
        let run = straight_run(n + 1);
        let s = keepers(big, run, 0, n, eps2);
        let flags = loop_flags(m, pts, eps2);
        lemma_keepers_in_range(big, run, 0, n, eps2);
        lemma_picked_at(pts, flags);
        lemma_raised(flags);
        assert(out =~= picked(pts, flags));
        let up = raised(flags);
        let at = up.map_values(|i: usize| i as int).push(n);
        let kept = up.push(n as usize);
        assert(flags[0]);
        assert(up.contains(0));
        let z = choose|z: int| 0 <= z < up.len() && up[z] == 0;
        assert(up[0] == 0) by {
            if z > 0 {
                assert(up[0] < up[z]);
            }
        }
        assert forall|i: int| 0 < i < k implies #[trigger] s.contains(at[i]) by {
            assert(flags[up[i] as int]);
            assert(up[0] < up[i]);
        }
        assert forall|p: int| #[trigger] s.contains(p) implies exists|i: int|
            0 < i < k && at[i] == p by {
            assert(flags[p]);
            assert(up.contains(p as usize));
            let i = choose|i: int| 0 <= i < up.len() && up[i] == p as usize;
            assert(at[i] == p);
        }
        assert forall|i: int, j: int| 0 <= i < j <= k implies at[i] < at[j] by {
            if j < k {
                assert(up[i] < up[j]);
            }
        }
        assert forall|i: int| 0 <= i <= k implies #[trigger] kept[i] == run[at[i]] by {}
        let ring2 = out.push(out[0]);
        let small = in_order(by_index(m, ring2));
        let run2 = straight_run(k + 1);
        assert forall|i: int| 0 <= i <= k implies #[trigger] ring2[run2[i] as int]
            == ring[kept[i] as int] by {}
        assert forall|i: int, u: int, v: int|
            0 <= i <= k && 0 <= u <= k && 0 <= v <= k implies #[trigger] (big.dist)(
            kept[i],
            kept[u],
            kept[v],
        ) == (small.dist)(run2[i], run2[u], run2[v]) by {
            assert(ring2[run2[i] as int] == ring[kept[i] as int]);
            assert(ring2[run2[u] as int] == ring[kept[u] as int]);
            assert(ring2[run2[v] as int] == ring[kept[v] as int]);
        }
        law_same_geometry_same_vertices(big, kept, small, run2, 0, k, eps2);
        let flags2 = loop_flags(m, out, eps2);
        assert forall|j: int| 0 <= j < k implies #[trigger] flags2[j] by {
            if j > 0 {
                law_second_pass_drops_nothing(big, run, kept, at, 0, k, eps2, j);
            }
        }
        lemma_all_picked(out, flags2);
    }
}

proof fn lemma_all_picked<P>(pts: Seq<P>, keep: Seq<bool>)
    requires
        keep.len() <= pts.len(),
        forall|i: int| 0 <= i < keep.len() ==> #[trigger] keep[i],
    ensures
        picked(pts, keep) == pts.take(keep.len() as int),
    decreases keep.len(),
{
    if keep.len() > 0 {
        lemma_all_picked(pts, keep.drop_last());
        assert(keep[keep.len() - 1]);
        assert(pts.take(keep.len() as int) =~= pts.take(keep.len() - 1).push(pts[keep.len() - 1]));
    } else {
        assert(pts.take(0) =~= Seq::empty());
    }
}

pub proof fn lemma_split_len(
    m: Measure,
    n: int,
    forced: Seq<usize>,
    eps2: Option<u64>,
)
    requires
        0 <= n,
    ensures
        split_kept(m, n, forced, eps2).len() == n,
{
    if let Some(eps2) = eps2 {
        let keep = flags_of(n, forced);
        lemma_intervals_len(m, n, raised(keep), eps2, keep, raised(keep).len() as int);
    }
}

proof fn lemma_intervals_len(
    m: Measure,
    n: int,
    anchors: Seq<usize>,
    eps2: u64,
    keep: Seq<bool>,
    count: int,
)
    ensures
        intervals_kept(m, n, anchors, eps2, keep, count).len() == keep.len(),
    decreases count,
{
    if count > 0 {
        lemma_intervals_len(m, n, anchors, eps2, keep, count - 1);
    }
}

/// Flags are determined by where they are raised.
pub proof fn lemma_flags_of_raised(keep: Seq<bool>)
    requires
        keep.len() <= usize::MAX,
    ensures
        flags_of(keep.len() as int, raised(keep)) == keep,
{
    lemma_raised(keep);
    assert forall|p: int| 0 <= p < keep.len() implies flags_of(keep.len() as int, raised(keep))[p]
        == #[trigger] keep[p] by {
        if keep[p] {
            let j = choose|j: int| 0 <= j < raised(keep).len() && raised(keep)[j] == p as usize;
            assert(raised(keep)[j] == p);
        }
    }
    assert(flags_of(keep.len() as int, raised(keep)) =~= keep);
}

/// A vertex that RDP keeps is needed: it is farther than the tolerance from the chord
/// between two vertices that stay (or ends) on either side of it, and the farthest one
/// between them, the one that goes first among equals.
pub proof fn law_kept_vertex_is_needed(
    m: Measure,
    run: Seq<usize>,
    first: int,
    last: int,
    eps2: u64,
    p: int,
) -> (ends: (int, int))
    requires
        is_ranking(m.before),
        keepers(m, run, first, last, eps2).contains(p),
    ensures
        first <= ends.0 < p < ends.1 <= last,
        ends.0 == first || keepers(m, run, first, last, eps2).contains(ends.0),
        ends.1 == last || keepers(m, run, first, last, eps2).contains(ends.1),
        (m.dist)(run[p], run[ends.0], run[ends.1]) > eps2,
        forall|q: int|
            ends.0 < q < ends.1 && q != p ==> {
                let d = #[trigger] chord_dist(m, run, ends.0, ends.1, q);
                let most = (m.dist)(run[p], run[ends.0], run[ends.1]);
                d < most || (d == most && goes_first(m, run, p, q))
            },
    decreases last - first,
{
    let best = farthest(m, run, first, last, last);
    let whole = keepers(m, run, first, last, eps2);
    let left = keepers(m, run, first, best.0, eps2);
    let right = keepers(m, run, best.0, last, eps2);
    lemma_farthest_is_max(m, run, first, last, last);
    assert(whole.contains(best.0));
    assert(forall|q: int| #[trigger] whole.contains(q) <==> q == best.0 || left.contains(q) || right.contains(q));
    if p == best.0 {
        assert(chord_dist(m, run, first, last, p) == best.1);
        (first, last)
    } else if left.contains(p) {
        let e = law_kept_vertex_is_needed(m, run, first, best.0, eps2, p);
        assert(whole.contains(e.1));
        e
    } else {
        let e = law_kept_vertex_is_needed(m, run, best.0, last, eps2, p);
        assert(whole.contains(e.0));
        e
    }
}

/// The raised indices as integers: ascending, and exactly those of the raised flags.
proof fn lemma_raised_places<P>(pts: Seq<P>, keep: Seq<bool>) -> (at: Seq<int>)
    requires
        keep.len() == pts.len(),
        keep.len() <= usize::MAX,
    ensures
        at.len() == picked(pts, keep).len(),
        forall|k: int|
            0 <= k < at.len() ==> 0 <= #[trigger] at[k] < pts.len() && picked(pts, keep)[k]
                == pts[at[k]],
        forall|i: int, j: int| 0 <= i < j < at.len() ==> at[i] < at[j],
        forall|p: int| #[trigger] at.contains(p) <==> 0 <= p < keep.len() && keep[p],
{
    lemma_raised(keep);
    lemma_picked_at(pts, keep);
    let r = raised(keep);
    let at = r.map_values(|i: usize| i as int);
    assert forall|p: int| #[trigger] at.contains(p) <==> 0 <= p < keep.len() && keep[p] by {
        if at.contains(p) {
            let k = choose|k: int| 0 <= k < at.len() && at[k] == p;
            assert(keep[r[k] as int]);
        }
        if 0 <= p < keep.len() && keep[p] {
            assert(r.contains(p as usize));
            let k = choose|k: int| 0 <= k < r.len() && r[k] == p as usize;
            assert(at[k] == p);
        }
    }
    at
}

/// Of the points between `l` and `r`, the one at `p` is farthest from the chord between
/// these two, and farther than `eps`; of equally far ones it is the first.
pub open spec fn stands_out<P>(
    m: spec_fn(P, P, P) -> u64,
    pts: Seq<P>,
    l: int,
    p: int,
    r: int,
    eps: u64,
) -> bool {
    &&& l < p < r
    &&& m(pts[p], pts[l], pts[r]) > eps
    &&& forall|q: int|
        l < q < r && q != p ==> m(#[trigger] pts[q], pts[l], pts[r]) < m(pts[p], pts[l], pts[r])
            || (m(pts[q], pts[l], pts[r]) == m(pts[p], pts[l], pts[r]) && p < q)
}

/// What simplification leaves of a closed loop, in full: some of its vertices, in
/// their order, the first one among them. A vertex that is dropped lies within the
/// tolerance of the chord between the vertices that stay on either side of it. A vertex
/// that stays is farther than the tolerance from the chord between two that stay, and
/// farther than any other between these two (than none, among equals, that is visited
/// before it). The loop counts as closed by its first vertex. Without a tolerance, and
/// up to three vertices, all stay.
pub proof fn law_loop_is_simplified<P>(
    m: spec_fn(P, P, P) -> u64,
    pts: Seq<P>,
    eps2: Option<u64>,
) -> (at: Seq<int>)
    requires
        pts.len() < usize::MAX,
    ensures
        ({
            let out = simplified(m, pts, eps2);
            let ring = pts.push(pts[0]);
            let n = pts.len() as int;
            &&& at.len() == out.len()
            &&& forall|k: int| 0 <= k < at.len() ==> 0 <= #[trigger] at[k] < n && out[k] == pts[at[k]]
            &&& forall|i: int, j: int| 0 <= i < j < at.len() ==> at[i] < at[j]
            &&& n > 0 ==> at.len() > 0 && at[0] == 0
            &&& eps2 is None || n <= 3 ==> at.len() == n
            &&& eps2 is Some && n > 3 ==> ({
                let eps = eps2.unwrap();
                &&& forall|k: int, p: int|
                    #![trigger at[k], ring[p]]
                    0 <= k < at.len() && at[k] < p < (if k + 1 < at.len() {
                        at[k + 1]
                    } else {
                        n
                    }) ==> m(
                        ring[p],
                        ring[at[k]],
                        ring[if k + 1 < at.len() {
                            at[k + 1]
                        } else {
                            n
                        }],
                    ) <= eps
                &&& forall|k: int|
                    #![trigger at[k]]
                    0 < k < at.len() ==> at[k] > 0 && exists|l: int, r: int|
                        {
                            &&& 0 <= l
                            &&& r <= n
                            &&& at.contains(l)
                            &&& r == n || at.contains(r)
                            &&& #[trigger] stands_out(m, ring, l, at[k], r, eps)
                        }
            })
        }),
{
    let n = pts.len() as int;
    if eps2 is None || n <= 3 {
        Seq::new(n as nat, |k: int| k)
    } else {
        let eps = eps2.unwrap();
        let ring = pts.push(pts[0]);
        let s = keepers(in_order(by_index(m, ring)), straight_run(n + 1), 0, n, eps);
        let keep = Seq::new(n as nat, |p: int| p == 0 || s.contains(p));
        let at = lemma_raised_places(pts, keep);
        lemma_starts_at_zero(at, keep);
        lemma_loop_drops(m, pts, eps, at);
        lemma_loop_keeps(m, pts, eps, at);
        at
    }
}

proof fn lemma_starts_at_zero(at: Seq<int>, keep: Seq<bool>)
    requires
        keep.len() > 0,
        keep[0],
        forall|i: int, j: int| 0 <= i < j < at.len() ==> at[i] < at[j],
        forall|p: int| #[trigger] at.contains(p) <==> 0 <= p < keep.len() && keep[p],
    ensures
        at.len() > 0,
        at[0] == 0,
{
    assert(at.contains(0));
    let z = choose|z: int| 0 <= z < at.len() && at[z] == 0;
    if z > 0 {
        assert(at[0] < at[z]);
        assert(at.contains(at[0]));
    }
}

/// `at` lists the vertices that simplification leaves.
spec fn lists_kept<P>(m: spec_fn(P, P, P) -> u64, pts: Seq<P>, eps: u64, at: Seq<int>) -> bool {
    let n = pts.len() as int;
    let s = keepers(in_order(by_index(m, pts.push(pts[0]))), straight_run(n + 1), 0, n, eps);
    &&& forall|i: int, j: int| 0 <= i < j < at.len() ==> at[i] < at[j]
    &&& forall|p: int| #[trigger] at.contains(p) <==> 0 <= p < n && (p == 0 || s.contains(p))
}

proof fn lemma_loop_drops<P>(m: spec_fn(P, P, P) -> u64, pts: Seq<P>, eps: u64, at: Seq<int>)
    requires
        3 < pts.len() < usize::MAX,
        lists_kept(m, pts, eps, at),
    ensures
        ({
            let ring = pts.push(pts[0]);
            let n = pts.len() as int;
            forall|k: int, p: int|
                #![trigger at[k], ring[p]]
                0 <= k < at.len() && at[k] < p < (if k + 1 < at.len() {
                    at[k + 1]
                } else {
                    n
                }) ==> m(
                    ring[p],
                    ring[at[k]],
                    ring[if k + 1 < at.len() {
                        at[k + 1]
                    } else {
                        n
                    }],
                ) <= eps
        }),
{
    let n = pts.len() as int;
    let ring = pts.push(pts[0]);
    let im = in_order(by_index(m, ring));
    let run = straight_run(n + 1);
    let s = keepers(im, run, 0, n, eps);
    lemma_keepers_in_range(im, run, 0, n, eps);
    assert forall|k: int, p: int|
        #![trigger at[k], ring[p]]
        0 <= k < at.len() && at[k] < p < (if k + 1 < at.len() {
            at[k + 1]
        } else {
            n
        }) implies m(
        ring[p],
        ring[at[k]],
        ring[if k + 1 < at.len() {
            at[k + 1]
        } else {
            n
        }],
    ) <= eps by {
        let l = at[k];
        let r = if k + 1 < at.len() {
            at[k + 1]
        } else {
            n
        };
        assert(at.contains(l));
        if r < n {
            assert(at.contains(r));
        }
        if k + 1 < at.len() {
            assert(at.contains(at[k + 1]));
        }
        assert forall|q: int| l < q < r implies !#[trigger] s.contains(q) by {
            if s.contains(q) {
                assert(at.contains(q));
                let j = choose|j: int| 0 <= j < at.len() && at[j] == q;
                if j < k {
                    assert(at[j] < at[k]);
                } else if j > k + 1 {
                    assert(at[k + 1] < at[j]);
                }
            }
        }
        law_dropped_within_tolerance(im, run, 0, n, eps, l, p, r);
        assert(run[p] == p && run[l] == l && run[r] == r);
    }
}

proof fn lemma_loop_keeps<P>(m: spec_fn(P, P, P) -> u64, pts: Seq<P>, eps: u64, at: Seq<int>)
    requires
        3 < pts.len() < usize::MAX,
        lists_kept(m, pts, eps, at),
    ensures
        ({
            let ring = pts.push(pts[0]);
            let n = pts.len() as int;
            forall|k: int|
                #![trigger at[k]]
                0 < k < at.len() ==> at[k] > 0 && exists|l: int, r: int|
                    {
                        &&& 0 <= l
                        &&& r <= n
                        &&& at.contains(l)
                        &&& r == n || at.contains(r)
                        &&& #[trigger] stands_out(m, ring, l, at[k], r, eps)
                    }
        }),
{
    let n = pts.len() as int;
    let ring = pts.push(pts[0]);
    let im = in_order(by_index(m, ring));
    let run = straight_run(n + 1);
    let s = keepers(im, run, 0, n, eps);
    lemma_keepers_in_range(im, run, 0, n, eps);
    assert forall|k: int|
        #![trigger at[k]]
        0 < k < at.len() implies at[k] > 0 && exists|l: int, r: int|
        {
            &&& 0 <= l
            &&& r <= n
            &&& at.contains(l)
            &&& r == n || at.contains(r)
            &&& #[trigger] stands_out(m, ring, l, at[k], r, eps)
        } by {
        let p = at[k];
        assert(at[0] < at[k]);
        assert(at.contains(at[0]));
        assert(at.contains(p));
        assert(s.contains(p));
        let (l, r) = law_kept_vertex_is_needed(im, run, 0, n, eps, p);
        assert(at.contains(l));
        if r < n {
            assert(at.contains(r));
        }
        assert(m(ring[p], ring[l], ring[r]) == (im.dist)(run[p], run[l], run[r]));
        assert forall|q: int| l < q < r && q != p implies m(#[trigger] ring[q], ring[l], ring[r])
            < m(ring[p], ring[l], ring[r]) || (m(ring[q], ring[l], ring[r]) == m(
            ring[p],
            ring[l],
            ring[r],
        ) && p < q) by {
            assert(chord_dist(im, run, l, r, q) == m(ring[q], ring[l], ring[r]));
        }
        assert(stands_out(m, ring, l, at[k], r, eps));
    }
}

/// `walk` goes around a loop of `n` vertices, from each one to the next.
pub open spec fn is_walk(n: int, walk: Seq<int>) -> bool {
    &&& forall|t: int| 0 <= t < walk.len() ==> 0 <= #[trigger] walk[t] < n
    &&& forall|s: int, t: int|
        #![trigger walk[s], walk[t]]
        0 <= s < walk.len() && t == s + 1 && t < walk.len() ==> walk[t] == (if walk[s] + 1 == n {
            0
        } else {
            walk[s] + 1
        })
}

/// A stretch of a circular interval is a walk.
proof fn lemma_stretch_is_walk(n: int, a: int, b: int, l: int, r: int) -> (walk: Seq<int>)
    requires
        0 <= a < n <= usize::MAX,
        0 <= b < n,
        0 <= l <= r < circular_run(n, a, b).len(),
    ensures
        is_walk(n, walk),
        walk.len() == r - l + 1,
        forall|t: int| 0 <= t < walk.len() ==> #[trigger] walk[t] == circular_run(n, a, b)[l + t],
{
    let run = circular_run(n, a, b);
    let walk = Seq::new((r - l + 1) as nat, |t: int| run[l + t] as int);
    assert forall|t: int| 0 <= t < walk.len() implies 0 <= #[trigger] walk[t] < n by {
        vstd::arithmetic::div_mod::lemma_mod_bound(a + l + t, n);
    }
    assert forall|s: int, t: int|
        #![trigger walk[s], walk[t]]
        0 <= s < walk.len() && t == s + 1 && t < walk.len() implies walk[t] == (if walk[s] + 1 == n {
        0
    } else {
        walk[s] + 1
    }) by {
        lemma_next_around(n, a, l + s);
        vstd::arithmetic::div_mod::lemma_mod_bound(a + l + s, n);
    }
    walk
}

/// Of the vertices of a walk, the one at `j` is farther from the chord between the ends of
/// the walk than the one at `t`; or as far, and smaller, by its first coordinate and then by
/// its second; or as far and at the same place, and passed before.
pub open spec fn goes_before<P>(
    m: spec_fn(P, P, P) -> u64,
    pts: Seq<P>,
    order: Seq<(int, int)>,
    walk: Seq<int>,
    j: int,
    t: int,
) -> bool {
    let far = m(pts[walk[j]], pts[walk.first()], pts[walk.last()]);
    let other = m(pts[walk[t]], pts[walk.first()], pts[walk.last()]);
    let (a, b) = (order[walk[j]], order[walk[t]]);
    other < far || (other == far && (a.0 < b.0 || (a.0 == b.0 && a.1 < b.1) || (a == b && j < t)))
}

/// What is left of a closed loop with flagged vertices, in full: some of its vertices,
/// in their order, with the flagged ones among them, and with the smallest one where
/// none is flagged. A vertex that is dropped lies within the tolerance of the chord
/// between the vertices that stay on either side of it around the loop. A vertex that
/// stays without need (neither flagged nor the smallest of a loop without flags) is
/// farther than the tolerance from the chord between two vertices that stay, on a walk
/// that passes no flagged vertex, and it goes before every other vertex on that walk.
/// Without a tolerance, and below three vertices, all stay.
pub proof fn law_flagged_loop_is_simplified<P>(
    m: spec_fn(P, P, P) -> u64,
    pts: Seq<P>,
    order: Seq<(int, int)>,
    flags: Seq<bool>,
    eps2: Option<u64>,
) -> (at: Seq<int>)
    requires
        pts.len() <= usize::MAX,
        order.len() == pts.len(),
        flags.len() == pts.len(),
    ensures
        ({
            let out = simplified_keep(m, pts, order, flags, eps2);
            let n = pts.len() as int;
            &&& at.len() == out.len()
            &&& forall|k: int| 0 <= k < at.len() ==> 0 <= #[trigger] at[k] < n && out[k] == pts[at[k]]
            &&& forall|i: int, j: int| 0 <= i < j < at.len() ==> at[i] < at[j]
            &&& forall|p: int| 0 <= p < n && #[trigger] flags[p] ==> at.contains(p)
            &&& eps2 is None || n < 3 ==> at.len() == n
            &&& eps2 is Some && n >= 3 ==> ({
                let eps = eps2.unwrap();
                &&& !flags.contains(true) ==> exists|p: int| #[trigger]
                    at.contains(p) && is_lexmin(order, p)
                &&& forall|p: int|
                    0 <= p < n && !#[trigger] at.contains(p) ==> exists|walk: Seq<int>, j: int|
                        #![trigger walk[j]]
                        {
                            &&& is_walk(n, walk)
                            &&& 0 < j < walk.len() - 1
                            &&& walk[j] == p
                            &&& at.contains(walk.first())
                            &&& at.contains(walk.last())
                            &&& forall|t: int|
                                0 < t < walk.len() - 1 ==> !at.contains(#[trigger] walk[t])
                            &&& m(pts[p], pts[walk.first()], pts[walk.last()]) <= eps
                        }
                &&& forall|p: int| #[trigger]
                    at.contains(p) && !flags[p] && (flags.contains(true) || !is_lexmin(order, p))
                        ==> exists|walk: Seq<int>, j: int|
                        #![trigger walk[j]]
                        {
                            &&& is_walk(n, walk)
                            &&& 0 < j < walk.len() - 1
                            &&& walk[j] == p
                            &&& at.contains(walk.first())
                            &&& at.contains(walk.last())
                            &&& forall|t: int|
                                0 < t < walk.len() - 1 ==> !flags[#[trigger] walk[t]] && (t == j || goes_before(m, pts, order, walk, j, t))
                            &&& m(pts[p], pts[walk.first()], pts[walk.last()]) > eps
                        }
            })
        }),
{
    let n = pts.len() as int;
    if eps2 is None || n < 3 {
        let at = Seq::new(n as nat, |k: int| k);
        assert forall|p: int| 0 <= p < n && #[trigger] flags[p] implies at.contains(p) by {
            assert(at[p] == p);
        }
        at
    } else {
        let eps = eps2.unwrap();
        let im = by_place(by_index(m, pts), order);
        let forced = cut_at(flags, lexmin_of(order));
        let keep = split_kept(im, n, forced, eps2);
        lemma_split_len(im, n, forced, eps2);
        let at = lemma_raised_places(pts, keep);
        lemma_marks(order, flags);
        lemma_marks_stay(im, n, forced, eps);
        lemma_lexmin_exists(order);
        let marks = flags_of(n, forced);
        assert forall|p: int| 0 <= p < n && #[trigger] flags[p] implies at.contains(p) by {
            assert(marks[p]);
        }
        if !flags.contains(true) {
            assert(marks[lexmin_of(order)]);
            assert(at.contains(lexmin_of(order)) && is_lexmin(order, lexmin_of(order)));
        }
        lemma_flagged_drops(m, pts, order, flags, eps, at);
        lemma_flagged_keeps(m, pts, order, flags, eps, at);
        at
    }
}

/// The vertices that a flagged loop is cut at: the flagged ones, or else the smallest.
proof fn lemma_marks(order: Seq<(int, int)>, flags: Seq<bool>)
    requires
        0 < flags.len() <= usize::MAX,
        order.len() == flags.len(),
    ensures
        ({
            let forced = cut_at(flags, lexmin_of(order));
            let marks = flags_of(flags.len() as int, forced);
            &&& raised(marks).len() > 0
            &&& forall|p: int|
                0 <= p < flags.len() ==> #[trigger] marks[p] == (flags[p] || (!flags.contains(true)
                    && p == lexmin_of(order)))
        }),
{
    let n = flags.len() as int;
    let anchor = lexmin_of(order);
    lemma_lexmin_exists(order);
    lemma_raised(flags);
    let forced = cut_at(flags, anchor);
    let marks = flags_of(n, forced);
    lemma_raised(marks);
    if flags.contains(true) {
        let q = choose|q: int| 0 <= q < flags.len() && flags[q] == true;
        assert(flags[q]);
        assert(raised(flags).contains(q as usize));
    } else if raised(flags).len() > 0 {
        assert(flags[raised(flags)[0] as int]);
        assert(flags.contains(true));
    }
    assert forall|p: int| 0 <= p < n implies #[trigger] marks[p] == (flags[p] || (!flags.contains(
        true,
    ) && p == anchor)) by {
        if flags[p] {
            assert(flags.contains(true));
            assert(raised(flags).contains(p as usize));
            let j = choose|j: int| 0 <= j < raised(flags).len() && raised(flags)[j] == p as usize;
            assert(forced[j] == p);
        }
        if marks[p] && raised(flags).len() > 0 {
            let j = choose|j: int| 0 <= j < forced.len() && #[trigger] forced[j] == p;
            assert(flags[raised(flags)[j] as int]);
        }
        if raised(flags).len() == 0 {
            assert(forced[0] == anchor);
        }
    }
    if flags.contains(true) {
        let q = choose|q: int| 0 <= q < flags.len() && flags[q] == true;
        assert(marks[q]);
        assert(raised(marks).contains(q as usize));
    } else {
        assert(marks[anchor]);
        assert(raised(marks).contains(anchor as usize));
    }
}

proof fn lemma_marks_stay(m: Measure, n: int, forced: Seq<usize>, eps: u64)
    requires
        0 <= n <= usize::MAX,
    ensures
        forall|p: int|
            0 <= p < n && #[trigger] flags_of(n, forced)[p] ==> split_kept(m, n, forced, Some(eps))[p],
{
    assert forall|p: int| 0 <= p < n && #[trigger] flags_of(n, forced)[p] implies split_kept(
        m,
        n,
        forced,
        Some(eps),
    )[p] by {
        let j = choose|j: int| 0 <= j < forced.len() && #[trigger] forced[j] == p;
        law_forced_vertices_stay(m, n, forced, Some(eps), j);
    }
}

/// `at` lists the vertices that simplification leaves of a flagged loop.
spec fn lists_flagged<P>(
    m: spec_fn(P, P, P) -> u64,
    pts: Seq<P>,
    order: Seq<(int, int)>,
    flags: Seq<bool>,
    eps: u64,
    at: Seq<int>,
) -> bool {
    let n = pts.len() as int;
    let forced = cut_at(flags, lexmin_of(order));
    let keep = split_kept(by_place(by_index(m, pts), order), n, forced, Some(eps));
    forall|p: int| #[trigger] at.contains(p) <==> 0 <= p < n && keep[p]
}

proof fn lemma_flagged_drops<P>(
    m: spec_fn(P, P, P) -> u64,
    pts: Seq<P>,
    order: Seq<(int, int)>,
    flags: Seq<bool>,
    eps: u64,
    at: Seq<int>,
)
    requires
        3 <= pts.len() <= usize::MAX,
        order.len() == pts.len(),
        flags.len() == pts.len(),
        lists_flagged(m, pts, order, flags, eps, at),
    ensures
        ({
            let n = pts.len() as int;
            forall|p: int|
                0 <= p < n && !#[trigger] at.contains(p) ==> exists|walk: Seq<int>, j: int|
                    #![trigger walk[j]]
                    {
                        &&& is_walk(n, walk)
                        &&& 0 < j < walk.len() - 1
                        &&& walk[j] == p
                        &&& at.contains(walk.first())
                        &&& at.contains(walk.last())
                        &&& forall|t: int|
                            0 < t < walk.len() - 1 ==> !at.contains(#[trigger] walk[t])
                        &&& m(pts[p], pts[walk.first()], pts[walk.last()]) <= eps
                    }
        }),
{
    let n = pts.len() as int;
    assert forall|p: int|
        0 <= p < n && !#[trigger] at.contains(p) implies exists|walk: Seq<int>, j: int|
            #![trigger walk[j]]
            {
                &&& is_walk(n, walk)
                &&& 0 < j < walk.len() - 1
                &&& walk[j] == p
                &&& at.contains(walk.first())
                &&& at.contains(walk.last())
                &&& forall|t: int|
                    0 < t < walk.len() - 1 ==> !at.contains(#[trigger] walk[t])
                &&& m(pts[p], pts[walk.first()], pts[walk.last()]) <= eps
            } by {
        let (walk, j) = lemma_drop_walk(m, pts, order, flags, eps, at, p);
        assert(walk[j] == p);
    }
}

proof fn lemma_drop_walk<P>(
    m: spec_fn(P, P, P) -> u64,
    pts: Seq<P>,
    order: Seq<(int, int)>,
    flags: Seq<bool>,
    eps: u64,
    at: Seq<int>,
    p: int,
) -> (w: (Seq<int>, int))
    requires
        3 <= pts.len() <= usize::MAX,
        order.len() == pts.len(),
        flags.len() == pts.len(),
        lists_flagged(m, pts, order, flags, eps, at),
        0 <= p < pts.len(),
        !at.contains(p),
    ensures
        is_walk(pts.len() as int, w.0),
        0 < w.1 < w.0.len() - 1,
        w.0[w.1] == p,
        at.contains(w.0.first()),
        at.contains(w.0.last()),
        forall|t: int| 0 < t < w.0.len() - 1 ==> !at.contains(#[trigger] w.0[t]),
        m(pts[p], pts[w.0.first()], pts[w.0.last()]) <= eps,
{
    let n = pts.len() as int;
    let im = by_place(by_index(m, pts), order);
    lemma_places_rank(by_index(m, pts), order);
    let forced = cut_at(flags, lexmin_of(order));
    let anchors = raised(flags_of(n, forced));
    lemma_marks(order, flags);
    lemma_marks_stay(im, n, forced, eps);
    lemma_raised(flags_of(n, forced));
    let (idx, j) = lemma_between_anchors(im, n, forced, eps, p);
    let run = interval(n, anchors, idx);
    let last = run.len() - 1;
    let ks = keepers(im, run, 0, last, eps);
    let (l, r) = lemma_around(ks, 0, last, j);
    law_dropped_within_tolerance(im, run, 0, last, eps, l, j, r);
    lemma_interval_ends(n, anchors, idx);
    let next = anchors[(idx + 1) % anchors.len() as int] as int;
    let walk = lemma_stretch_is_walk(n, anchors[idx] as int, next, l, r);
    lemma_end_is_kept(im, n, forced, eps, idx, l);
    lemma_end_is_kept(im, n, forced, eps, idx, r);
    assert(walk[j - l] == p);
    assert(walk[0] == run[l] && walk[r - l] == run[r]);
    assert(walk.first() == run[l] && walk.last() == run[r]);
    assert forall|t: int| 0 < t < walk.len() - 1 implies !at.contains(#[trigger] walk[t]) by {
        law_interval_is_local(im, n, forced, eps, idx, l + t);
        assert(!ks.contains(l + t));
        assert(walk[t] == run[l + t]);
    }
    assert((im.dist)(run[j], run[l], run[r]) == m(pts[p], pts[walk.first()], pts[walk.last()]));
    (walk, j - l)
}

proof fn lemma_flagged_keeps<P>(
    m: spec_fn(P, P, P) -> u64,
    pts: Seq<P>,
    order: Seq<(int, int)>,
    flags: Seq<bool>,
    eps: u64,
    at: Seq<int>,
)
    requires
        3 <= pts.len() <= usize::MAX,
        order.len() == pts.len(),
        flags.len() == pts.len(),
        lists_flagged(m, pts, order, flags, eps, at),
    ensures
        ({
            let n = pts.len() as int;
            forall|p: int| #[trigger]
                at.contains(p) && !flags[p] && (flags.contains(true) || !is_lexmin(order, p))
                    ==> exists|walk: Seq<int>, j: int|
                    #![trigger walk[j]]
                    {
                        &&& is_walk(n, walk)
                        &&& 0 < j < walk.len() - 1
                        &&& walk[j] == p
                        &&& at.contains(walk.first())
                        &&& at.contains(walk.last())
                        &&& forall|t: int|
                            0 < t < walk.len() - 1 ==> !flags[#[trigger] walk[t]] && (t == j || goes_before(m, pts, order, walk, j, t))
                        &&& m(pts[p], pts[walk.first()], pts[walk.last()]) > eps
                    }
        }),
{
    let n = pts.len() as int;
    assert forall|p: int| #[trigger]
        at.contains(p) && !flags[p] && (flags.contains(true) || !is_lexmin(order, p))
            implies exists|walk: Seq<int>, j: int|
            #![trigger walk[j]]
            {
                &&& is_walk(n, walk)
                &&& 0 < j < walk.len() - 1
                &&& walk[j] == p
                &&& at.contains(walk.first())
                &&& at.contains(walk.last())
                &&& forall|t: int|
                    0 < t < walk.len() - 1 ==> !flags[#[trigger] walk[t]] && (t == j || goes_before(m, pts, order, walk, j, t))
                &&& m(pts[p], pts[walk.first()], pts[walk.last()]) > eps
            } by {
        let (walk, j) = lemma_keep_walk(m, pts, order, flags, eps, at, p);
        assert(walk[j] == p);
    }
}

proof fn lemma_keep_walk<P>(
    m: spec_fn(P, P, P) -> u64,
    pts: Seq<P>,
    order: Seq<(int, int)>,
    flags: Seq<bool>,
    eps: u64,
    at: Seq<int>,
    p: int,
) -> (w: (Seq<int>, int))
    requires
        3 <= pts.len() <= usize::MAX,
        order.len() == pts.len(),
        flags.len() == pts.len(),
        lists_flagged(m, pts, order, flags, eps, at),
        at.contains(p),
        !flags[p],
        flags.contains(true) || !is_lexmin(order, p),
    ensures
        is_walk(pts.len() as int, w.0),
        0 < w.1 < w.0.len() - 1,
        w.0[w.1] == p,
        at.contains(w.0.first()),
        at.contains(w.0.last()),
        forall|t: int|
            0 < t < w.0.len() - 1 ==> !flags[#[trigger] w.0[t]] && (t == w.1 || goes_before(m, pts, order, w.0, w.1, t)),
        m(pts[p], pts[w.0.first()], pts[w.0.last()]) > eps,
{
    let n = pts.len() as int;
    let im = by_place(by_index(m, pts), order);
    lemma_places_rank(by_index(m, pts), order);
    let forced = cut_at(flags, lexmin_of(order));
    let marks = flags_of(n, forced);
    let anchors = raised(marks);
    lemma_marks(order, flags);
    lemma_raised(marks);
    lemma_lexmin_exists(order);
    assert(!marks[p]);
    let (idx, j) = lemma_between_anchors(im, n, forced, eps, p);
    let run = interval(n, anchors, idx);
    let last = run.len() - 1;
    let (l, r) = law_kept_vertex_is_needed(im, run, 0, last, eps, j);
    lemma_interval_ends(n, anchors, idx);
    let next = anchors[(idx + 1) % anchors.len() as int] as int;
    let walk = lemma_stretch_is_walk(n, anchors[idx] as int, next, l, r);
    lemma_end_is_kept(im, n, forced, eps, idx, l);
    lemma_end_is_kept(im, n, forced, eps, idx, r);
    assert(walk[j - l] == p);
    assert(walk[0] == run[l] && walk[r - l] == run[r]);
    assert(walk.first() == run[l] && walk.last() == run[r]);
    assert((im.dist)(run[j], run[l], run[r]) == m(pts[p], pts[walk.first()], pts[walk.last()]));
    assert forall|t: int| 0 < t < walk.len() - 1 implies !flags[#[trigger] walk[t]] && (t == j - l || goes_before(m, pts, order, walk, j - l, t)) by {
        assert(walk[t] == run[l + t]);
        assert(chord_dist(im, run, l, r, l + t) == m(
            pts[walk[t]],
            pts[walk.first()],
            pts[walk.last()],
        ));
        lemma_no_anchor_inside(n, anchors, idx, l + t);
        if l + t != j {
            assert(goes_first(im, run, j, l + t) || chord_dist(im, run, l, r, l + t) < (im.dist)(
                run[j],
                run[l],
                run[r],
            ));
        }
        if flags[walk[t]] {
            assert(marks[walk[t]]);
            assert(anchors.contains(walk[t] as usize));
        }
    }
    (walk, j - l)
}

/// The nearest members of `s`, or the ends, on either side of a place that is none.
proof fn lemma_around(s: Set<int>, first: int, last: int, p: int) -> (ends: (int, int))
    requires
        first < p < last,
        !s.contains(p),
    ensures
        first <= ends.0 < p < ends.1 <= last,
        ends.0 == first || s.contains(ends.0),
        ends.1 == last || s.contains(ends.1),
        forall|q: int| ends.0 < q < ends.1 ==> !#[trigger] s.contains(q),
{
    (lemma_below(s, first, p), lemma_above(s, last, p))
}

proof fn lemma_below(s: Set<int>, first: int, p: int) -> (l: int)
    requires
        first < p,
    ensures
        first <= l < p,
        l == first || s.contains(l),
        forall|q: int| l < q < p ==> !#[trigger] s.contains(q),
    decreases p - first,
{
    if p - 1 == first || s.contains(p - 1) {
        p - 1
    } else {
        lemma_below(s, first, p - 1)
    }
}

proof fn lemma_above(s: Set<int>, last: int, p: int) -> (r: int)
    requires
        p < last,
    ensures
        p < r <= last,
        r == last || s.contains(r),
        forall|q: int| p < q < r ==> !#[trigger] s.contains(q),
    decreases last - p,
{
    if p + 1 == last || s.contains(p + 1) {
        p + 1
    } else {
        lemma_above(s, last, p + 1)
    }
}

/// A vertex that is not forced lies inside an interval, and stays there or not.
proof fn lemma_between_anchors(
    m: Measure,
    n: int,
    forced: Seq<usize>,
    eps2: u64,
    p: int,
) -> (at: (int, int))
    requires
        0 <= p < n <= usize::MAX,
        !flags_of(n, forced)[p],
        raised(flags_of(n, forced)).len() > 0,
    ensures
        ({
            let anchors = raised(flags_of(n, forced));
            let run = interval(n, anchors, at.0);
            &&& 0 <= at.0 < anchors.len()
            &&& 0 < at.1 < run.len() - 1
            &&& run[at.1] == p
            &&& split_kept(m, n, forced, Some(eps2))[p] <==> keepers(
                m,
                run,
                0,
                run.len() - 1,
                eps2,
            ).contains(at.1)
        }),
{
    let marks = flags_of(n, forced);
    let anchors = raised(marks);
    lemma_raised(marks);
    assert forall|i: int| 0 <= i < anchors.len() implies #[trigger] anchors[i] < n && anchors[i] != p by {
        assert(marks[anchors[i] as int]);
    }
    let at = lemma_in_some_interval(n, anchors, p);
    law_interval_is_local(m, n, forced, eps2, at.0, at.1);
    at
}

proof fn lemma_interval_ends(n: int, anchors: Seq<usize>, idx: int)
    requires
        0 <= idx < anchors.len(),
        forall|i: int| 0 <= i < anchors.len() ==> #[trigger] anchors[i] < n,
    ensures
        0 <= (idx + 1) % (anchors.len() as int) < anchors.len(),
        interval(n, anchors, idx).len() >= 2,
        interval(n, anchors, idx)[0] == anchors[idx],
        interval(n, anchors, idx)[interval(n, anchors, idx).len() - 1] == anchors[(idx + 1) % (
        anchors.len() as int)],
{
    let k = anchors.len() as int;
    vstd::arithmetic::div_mod::lemma_mod_bound(idx + 1, k);
    let a = anchors[idx] as int;
    let b = anchors[(idx + 1) % k] as int;
    let steps = steps_around(n, a, b);
    lemma_arrives(n, a, b, steps);
    vstd::arithmetic::div_mod::lemma_small_mod(a as nat, n as nat);
}

/// The ends of an interval stay, and the places inside it that RDP keeps.
proof fn lemma_end_is_kept(m: Measure, n: int, forced: Seq<usize>, eps2: u64, idx: int, l: int)
    requires
        0 < n <= usize::MAX,
        0 <= idx < raised(flags_of(n, forced)).len(),
        ({
            let run = interval(n, raised(flags_of(n, forced)), idx);
            &&& 0 <= l < run.len()
            &&& l == 0 || l == run.len() - 1 || keepers(m, run, 0, run.len() - 1, eps2).contains(l)
        }),
    ensures
        ({
            let run = interval(n, raised(flags_of(n, forced)), idx);
            &&& run[l] < n
            &&& split_kept(m, n, forced, Some(eps2))[run[l] as int]
        }),
{
    let marks = flags_of(n, forced);
    let anchors = raised(marks);
    let run = interval(n, anchors, idx);
    lemma_raised(marks);
    lemma_interval_ends(n, anchors, idx);
    if l == 0 || l == run.len() - 1 {
        assert(marks[run[l] as int]);
        let j = choose|j: int| 0 <= j < forced.len() && #[trigger] forced[j] == run[l] as int;
        law_forced_vertices_stay(m, n, forced, Some(eps2), j);
    } else {
        lemma_keepers_in_range(m, run, 0, run.len() - 1, eps2);
        lemma_inside_interval(n, anchors, idx, l);
        law_interval_is_local(m, n, forced, eps2, idx, l);
    }
}

/// No anchor lies inside an interval.
proof fn lemma_no_anchor_inside(n: int, anchors: Seq<usize>, idx: int, j: int)
    requires
        0 <= idx < anchors.len(),
        forall|i: int| 0 <= i < anchors.len() ==> #[trigger] anchors[i] < n <= usize::MAX,
        forall|i: int, k: int| 0 <= i < k < anchors.len() ==> anchors[i] < anchors[k],
        0 < j < interval(n, anchors, idx).len() - 1,
    ensures
        !anchors.contains(interval(n, anchors, idx)[j]),
{
    lemma_inside_interval(n, anchors, idx, j);
    let v = interval(n, anchors, idx)[j];
    if anchors.contains(v) {
        let i = choose|i: int| 0 <= i < anchors.len() && anchors[i] == v;
        if i > idx && idx + 1 < anchors.len() && i > idx + 1 {
            assert(anchors[idx + 1] < anchors[i]);
        }
        if i < idx {
            assert(anchors[i] < anchors[idx]);
        }
        if i > 0 {
            assert(anchors[0] < anchors[i]);
        }
    }
}

/// A run goes once around, from its start to its end: it starts at `a`, each vertex is
/// followed by the next one of the loop, and it stops where it first comes to `b`. From a
/// vertex to itself that is a whole turn.
pub proof fn law_run_goes_around(n: int, a: int, b: int)
    requires
        0 <= a < n <= usize::MAX,
        0 <= b < n,
    ensures
        ({
            let run = circular_run(n, a, b);
            &&& 2 <= run.len() <= n + 1
            &&& run[0] == a
            &&& run.last() == b
            &&& is_walk(n, run.map_values(|v: usize| v as int))
            &&& forall|k: int| 0 < k < run.len() - 1 ==> #[trigger] run[k] != b
        }),
{
    let run = circular_run(n, a, b);
    let total = steps_around(n, a, b);
    let walk = run.map_values(|v: usize| v as int);
    assert forall|k: int| 0 <= k <= total implies #[trigger] run[k] == if a + k < n {
        a + k
    } else {
        a + k - n
    } by {
        if a + k < n {
            vstd::arithmetic::div_mod::lemma_small_mod((a + k) as nat, n as nat);
        } else {
            vstd::arithmetic::div_mod::lemma_fundamental_div_mod_converse(a + k, n, 1, a + k - n);
        }
    }
    assert forall|s: int, t: int|
        #![trigger walk[s], walk[t]]
        0 <= s < walk.len() && t == s + 1 && t < walk.len() implies walk[t] == (if walk[s] + 1 == n {
        0
    } else {
        walk[s] + 1
    }) by {
        assert(run[s] == walk[s] && run[t] == walk[t]);
    }
    assert forall|t: int| 0 <= t < walk.len() implies 0 <= #[trigger] walk[t] < n by {
        assert(run[t] == walk[t]);
    }
}

/// Flags are those that are given: a vertex is flagged where it is in the set, or where its
/// flag is there and raised.
pub proof fn law_flags_are_those_given(pts: Seq<Pt>, set: Set<Pt>, flags: Seq<bool>, n: int, i: int)
    ensures
        members(pts, set).len() == pts.len(),
        0 <= i < pts.len() ==> members(pts, set)[i] == set.contains(pts[i]),
        0 <= n ==> padded(flags, n).len() == n,
        0 <= i < n && i < flags.len() ==> padded(flags, n)[i] == flags[i],
        flags.len() <= i < n ==> !padded(flags, n)[i],
{
}

} // verus!
