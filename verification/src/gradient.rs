//! Gradient detection: which components share a gradient, and which one each
//! component is filled with.
//!
//! The tracer segments a colour-reduced raster, so a smooth ramp of the original
//! falls apart into flat bands. This module accumulates moments per component,
//! merges adjacent components whose union is well modelled by one linear
//! gradient, picks the tighter of the linear and the radial model for each
//! group, and lets concentric radial bands share one radial gradient.
//!
//! The numerical fits themselves belong to the caller, who measures unions, models
//! and shared models as order keys (see the crate documentation). What is decided
//! here is what merges, which fit is accepted and who is filled with it.

use vstd::prelude::*;
use crate::dsu::Dsu;
use crate::moments::{
    law_moments_are_additive, lemma_pixel_position, lemma_region_bounded, lemma_same_selection,
    region_sums, small_sides, sums_of, Moments, Sums,
};
use crate::segment::Segmentation;

verus! {

/// The component `c` alone.
pub open spec fn only(c: int) -> spec_fn(int) -> bool {
    |k: int| k == c
}

/// Pixel `q` lies right of pixel `p` or below it.
pub open spec fn follows(seg: Segmentation, p: int, q: int) -> bool {
    &&& 0 <= p < seg.labels@.len()
    &&& 0 <= q < seg.labels@.len()
    &&& (q == p + 1 && p % (seg.width as int) + 1 < seg.width) || q == p + seg.width
}

/// Pixels `p` and `q` are neighbours and belong to the components `a` and `b`.
pub open spec fn meets(seg: Segmentation, a: int, b: int, p: int, q: int) -> bool {
    &&& follows(seg, p, q)
    &&& (seg.label(p) == a && seg.label(q) == b) || (seg.label(p) == b && seg.label(q) == a)
}

/// The drawn components `a < b` touch along a pixel edge whose first pixel is
/// below `count`.
pub open spec fn touches_below(seg: Segmentation, a: int, b: int, count: int) -> bool {
    &&& 0 <= a < b < seg.num_components
    &&& seg.opaque(a)
    &&& seg.opaque(b)
    &&& exists|p: int, q: int| p < count && #[trigger] meets(seg, a, b, p, q)
}

/// The drawn components `a < b` touch along a pixel edge.
pub open spec fn touches(seg: Segmentation, a: int, b: int) -> bool {
    touches_below(seg, a, b, seg.labels@.len() as int)
}

/// Lexicographic order of pairs.
pub open spec fn pair_less(x: (u32, u32), y: (u32, u32)) -> bool {
    x.0 < y.0 || (x.0 == y.0 && x.1 < y.1)
}

/// `adj` lists the touching pairs of drawn components, each once, in order.
pub open spec fn is_adjacency(seg: Segmentation, adj: Seq<(u32, u32)>) -> bool {
    &&& forall|i: int, j: int| 0 <= i < j < adj.len() ==> pair_less(#[trigger] adj[i], #[trigger] adj[j])
    &&& forall|i: int|
        0 <= i < adj.len() ==> touches(seg, (#[trigger] adj[i]).0 as int, adj[i].1 as int)
    &&& forall|a: u32, b: u32| #[trigger] touches(seg, a as int, b as int) ==> adj.contains((a, b))
}

spec fn ascending(v: Seq<u32>) -> bool {
    forall|i: int, j: int| 0 <= i < j < v.len() ==> v[i] < v[j]
}

/// Adds `b` to an ascending list that may hold it already.
fn insert_ascending(v: &mut Vec<u32>, b: u32)
    requires
        ascending(old(v)@),
    ensures
        ascending(final(v)@),
        forall|x: u32| #[trigger] final(v)@.contains(x) <==> old(v)@.contains(x) || x == b,
{
    let ghost v0 = v@;
    let mut i: usize = v.len();
    while i > 0 && v[i - 1] > b
        invariant
            v@ == v0,
            i <= v.len(),
            ascending(v0),
            forall|k: int| i <= k < v.len() ==> v0[k] > b,
        decreases i,
    {
        i = i - 1;
    }
    if i > 0 && v[i - 1] == b {
        assert(v0[i - 1] == b);
        return;
    }
    v.insert(i, b);
    proof {
        assert forall|x: u32| #[trigger] v@.contains(x) <==> v0.contains(x) || x == b by {
            if v0.contains(x) {
                let k = choose|k: int| 0 <= k < v0.len() && v0[k] == x;
                if k < i {
                    assert(v@[k] == x);
                } else {
                    assert(v@[k + 1] == x);
                }
            }
            if x == b {
                assert(v@[i as int] == x);
            }
            if v@.contains(x) && x != b {
                let k = choose|k: int| 0 <= k < v@.len() && v@[k] == x;
                if k < i {
                    assert(v0[k] == x);
                } else {
                    assert(v0[k - 1] == x);
                }
            }
        }
    }
}

/// The neighbours above `a` that the first `count` pixels show.
spec fn lists_touching(seg: Segmentation, links: Seq<Vec<u32>>, count: int) -> bool {
    &&& links.len() == seg.num_components
    &&& forall|a: int| 0 <= a < links.len() ==> ascending(#[trigger] links[a]@)
    &&& forall|a: int, b: u32|
        0 <= a < links.len() ==> (#[trigger] links[a]@.contains(b) <==> touches_below(
            seg,
            a,
            b as int,
            count,
        ))
}

/// Notes the edge between pixels `p` and `q`.
fn link(seg: &Segmentation, links: &mut Vec<Vec<u32>>, p: usize, q: usize)
    requires
        seg.wf(),
        p < seg.labels@.len(),
        q < seg.labels@.len(),
        seg.opaque(seg.label(p as int)),
        old(links).len() == seg.num_components,
        forall|a: int| 0 <= a < old(links)@.len() ==> ascending(#[trigger] old(links)@[a]@),
    ensures
        final(links).len() == old(links).len(),
        forall|a: int| 0 <= a < final(links)@.len() ==> ascending(#[trigger] final(links)@[a]@),
        forall|a: int, b: u32|
            0 <= a < final(links)@.len() ==> (#[trigger] final(links)@[a]@.contains(b) <==> old(
                links,
            )@[a]@.contains(b) || (a < b && seg.opaque(b as int) && seg.opaque(a) && ((seg.label(
                p as int,
            ) == a && seg.label(q as int) == b) || (seg.label(p as int) == b && seg.label(q as int)
                == a)))),
{
    let c: u32 = seg.labels[p];
    let qc: u32 = seg.labels[q];
    if qc != c && seg.component_color[qc as usize] != 0 {
        let a: u32 = if c < qc { c } else { qc };
        let b: u32 = if c < qc { qc } else { c };
        insert_ascending(&mut links[a as usize], b);
    }
}

/// One pass over the pixels: the moments of each drawn component, and the pairs
/// of drawn components that touch.
fn scan(seg: &Segmentation, original: &[u8]) -> (res: (Vec<Moments>, Vec<(u32, u32)>))
    requires
        seg.wf(),
        small_sides(*seg),
        original@.len() >= seg.width * seg.height * 4,
        seg.num_components > 0,
    ensures
        res.0.len() == seg.num_components,
        forall|c: int|
            0 <= c < seg.num_components ==> (#[trigger] res.0@[c])@ == sums_of(
                *seg,
                original@,
                only(c),
            ),
        is_adjacency(*seg, res.1@),
{
    let nc: usize = seg.num_components;
    let mut mom: Vec<Moments> = Vec::new();
    let mut links: Vec<Vec<u32>> = Vec::new();
    let mut c0: usize = 0;
    while c0 < nc
        invariant
            c0 <= nc == seg.num_components,
            mom.len() == c0,
            links.len() == c0,
            forall|c: int| 0 <= c < c0 ==> (#[trigger] mom@[c])@ == Sums::zero(),
            forall|c: int| 0 <= c < c0 ==> (#[trigger] links@[c])@ == Seq::<u32>::empty(),
        decreases nc - c0,
    {
        mom.push(Moments::zero());
        links.push(Vec::new());
        c0 = c0 + 1;
    }
    let n: usize = seg.labels.len();
    let w: usize = seg.width;
    let mut p: usize = 0;
    let mut x: usize = 0;
    let mut y: usize = 0;
    let limit: usize = original.len();
    proof {
        if n > 0 {
            lemma_pixel_position(*seg, 0);
            vstd::arithmetic::div_mod::lemma_small_mod(0, w as nat);
            vstd::arithmetic::div_mod::lemma_div_of0(w as int);
        }
    }
    while p < n
        invariant
            4 * n <= limit == original@.len(),
            seg.wf(),
            small_sides(*seg),
            original@.len() >= seg.width * seg.height * 4,
            nc == seg.num_components,
            n == seg.labels@.len(),
            w == seg.width,
            p <= n,
            p < n ==> x == p % w && y == p / w,
            mom.len() == nc,
            forall|c: int|
                0 <= c < nc ==> (#[trigger] mom@[c])@ == region_sums(
                    *seg,
                    original@,
                    only(c),
                    p as int,
                ),
            lists_touching(*seg, links@, p as int),
        decreases n - p,
    {
        proof {
            lemma_pixel_position(*seg, p as int);
            assert(seg.labels@[p as int] < seg.num_components);
        }
        let c: usize = seg.labels[p] as usize;
        let ghost mom0 = mom@;
        let ghost links0 = links@;
        if seg.component_color[c] != 0 {
            let rgb: (u8, u8, u8) = (original[p * 4], original[p * 4 + 1], original[p * 4 + 2]);
            let mut m: Moments = mom[c];
            proof {
                lemma_region_bounded(*seg, original@, only(c as int), p as int);
            }
            m.add_pixel(x as u128, y as u128, rgb);
            mom.set(c, m);
            if x + 1 < w {
                proof {
                    lemma_pixel_right(*seg, p as int);
                }
                link(seg, &mut links, p, p + 1);
            }
            let ghost links1 = links@;
            if w < n - p {
                link(seg, &mut links, p, p + w);
            }
            proof {
                assert forall|a: int, b: u32| 0 <= a < nc implies (#[trigger] links@[a]@.contains(b)
                    <==> touches_below(*seg, a, b as int, p + 1)) by {
                    lemma_touch_step(*seg, a, b as int, p as int);
                    assert(links0[a]@.contains(b) <==> touches_below(*seg, a, b as int, p as int));
                    assert(links1[a]@.contains(b) ==> links@[a]@.contains(b));
                    assert(links0[a]@.contains(b) ==> links1[a]@.contains(b));
                }
            }
        } else {
            proof {
                assert forall|a: int, b: u32| 0 <= a < nc implies (#[trigger] links@[a]@.contains(b)
                    <==> touches_below(*seg, a, b as int, p + 1)) by {
                    lemma_touch_step(*seg, a, b as int, p as int);
                    assert(links0[a]@.contains(b) <==> touches_below(*seg, a, b as int, p as int));
                }
            }
        }
        proof {
            lemma_next_pixel(w as int, p as int);
        }
        x = x + 1;
        if x == w {
            x = 0;
            if p + 1 < n {
                y = y + 1;
            }
        }
        p = p + 1;
    }
    let mut adj: Vec<(u32, u32)> = Vec::new();
    let mut a: usize = 0;
    while a < nc
        invariant
            a <= nc == links.len() == seg.num_components,
            lists_touching(*seg, links@, seg.labels@.len() as int),
            forall|i: int, j: int| 0 <= i < j < adj.len() ==> pair_less(#[trigger] adj@[i], #[trigger] adj@[j]),
            forall|i: int|
                0 <= i < adj.len() ==> touches(*seg, (#[trigger] adj@[i]).0 as int, adj@[i].1 as int)
                    && adj@[i].0 < a,
            forall|i: u32, b: u32|
                i < a && #[trigger] touches(*seg, i as int, b as int) ==> adj@.contains((i, b)),
        decreases nc - a,
    {
        let mut k: usize = 0;
        let ghost adj0 = adj@;
        proof {
            if links@[a as int]@.len() > 0 {
                let b = links@[a as int]@[0];
                assert(links@[a as int]@.contains(b));
                assert(touches_below(*seg, a as int, b as int, seg.labels@.len() as int));
            }
        }
        while k < links[a].len()
            invariant
                a < nc == links.len() == seg.num_components,
                k <= links@[a as int]@.len(),
                links@[a as int]@.len() > 0 ==> a < 0x1_0000_0000,
                lists_touching(*seg, links@, seg.labels@.len() as int),
                forall|i: int, j: int| 0 <= i < j < adj.len() ==> pair_less(#[trigger] adj@[i], #[trigger] adj@[j]),
                forall|i: int|
                    0 <= i < adj.len() ==> touches(
                        *seg,
                        (#[trigger] adj@[i]).0 as int,
                        adj@[i].1 as int,
                    ) && (adj@[i].0 < a || (adj@[i].0 == a && exists|t: int|
                        0 <= t < k && #[trigger] links@[a as int]@[t] == adj@[i].1)),
                forall|pr: (u32, u32)| #[trigger] adj0.contains(pr) ==> adj@.contains(pr),
                forall|t: int|
                    0 <= t < k ==> adj@.contains((a as u32, #[trigger] links@[a as int]@[t])),
            decreases links@[a as int]@.len() - k,
        {
            let b: u32 = links[a][k];
            let ghost before = adj@;
            assert(links@[a as int]@.contains(b));
            adj.push((a as u32, b));
            proof {
                assert(adj@[before.len() as int] == (a as u32, b));
                assert forall|pr: (u32, u32)| before.contains(pr) implies adj@.contains(pr) by {
                    let i = choose|i: int| 0 <= i < before.len() && before[i] == pr;
                    assert(adj@[i] == pr);
                }
                assert forall|i: int, j: int| 0 <= i < j < adj.len() implies pair_less(
                    #[trigger] adj@[i],
                    #[trigger] adj@[j],
                ) by {
                    if j == before.len() {
                        assert(before[i] == adj@[i]);
                    } else {
                        assert(before[i] == adj@[i] && before[j] == adj@[j]);
                    }
                }
                assert forall|i: int| 0 <= i < adj.len() implies touches(
                    *seg,
                    (#[trigger] adj@[i]).0 as int,
                    adj@[i].1 as int,
                ) && (adj@[i].0 < a || (adj@[i].0 == a && exists|t: int|
                    0 <= t < k + 1 && #[trigger] links@[a as int]@[t] == adj@[i].1)) by {
                    if i < before.len() {
                        assert(before[i] == adj@[i]);
                        if adj@[i].0 == a {
                            let t = choose|t: int|
                                0 <= t < k && #[trigger] links@[a as int]@[t] == before[i].1;
                            assert(links@[a as int]@[t] == adj@[i].1);
                        }
                    } else {
                        assert(links@[a as int]@[k as int] == adj@[i].1);
                    }
                }
            }
            k = k + 1;
        }
        proof {
            assert forall|i: u32, b: u32|
                i < a + 1 && #[trigger] touches(*seg, i as int, b as int) implies adj@.contains(
                (i, b),
            ) by {
                if i < a {
                    assert(adj0.contains((i, b)));
                } else {
                    assert(links@[a as int]@.contains(b));
                    let t = choose|t: int| 0 <= t < links@[a as int]@.len() && links@[a as int]@[t] == b;
                    assert(adj@.contains((a as u32, links@[a as int]@[t])));
                }
            }
        }
        a = a + 1;
    }
    (mom, adj)
}

proof fn lemma_pixel_right(seg: Segmentation, p: int)
    requires
        seg.wf(),
        0 <= p < seg.labels@.len(),
        p % (seg.width as int) + 1 < seg.width,
    ensures
        p + 1 < seg.labels@.len(),
{
    lemma_pixel_position(seg, p);
    let w = seg.width as int;
    let h = seg.height as int;
    let y = p / w;
    let x = p % w;
    assert((y + 1) * w <= h * w) by (nonlinear_arith)
        requires
            y + 1 <= h,
            w >= 0,
    ;
    assert((y + 1) * w == y * w + w && h * w == w * h) by (nonlinear_arith);
}

proof fn lemma_next_pixel(w: int, p: int)
    requires
        w > 0,
        p >= 0,
    ensures
        p % w + 1 < w ==> (p + 1) % w == p % w + 1 && (p + 1) / w == p / w,
        p % w + 1 == w ==> (p + 1) % w == 0 && (p + 1) / w == p / w + 1,
{
    vstd::arithmetic::div_mod::lemma_fundamental_div_mod(p, w);
    let q = p / w;
    let r = p % w;
    vstd::arithmetic::div_mod::lemma_mod_bound(p, w);
    if r + 1 < w {
        assert(p + 1 == q * w + (r + 1)) by (nonlinear_arith)
            requires
                p == w * q + r,
        ;
        vstd::arithmetic::div_mod::lemma_fundamental_div_mod_converse(p + 1, w, q, r + 1);
    } else {
        assert(p + 1 == (q + 1) * w + 0) by (nonlinear_arith)
            requires
                p == w * q + r,
                r + 1 == w,
        ;
        vstd::arithmetic::div_mod::lemma_fundamental_div_mod_converse(p + 1, w, q + 1, 0);
    }
}

/// What pixel `p` adds to the pairs that touch.
proof fn lemma_touch_step(seg: Segmentation, a: int, b: int, p: int)
    requires
        seg.wf(),
        0 <= p < seg.labels@.len(),
        0 <= a < seg.num_components,
    ensures
        touches_below(seg, a, b, p + 1) <==> touches_below(seg, a, b, p) || (a < b
            < seg.num_components && seg.opaque(a) && seg.opaque(b) && ((p % (seg.width as int) + 1
            < seg.width && p + 1 < seg.labels@.len() && meets(seg, a, b, p, p + 1)) || (p
            + seg.width < seg.labels@.len() && meets(seg, a, b, p, p + seg.width)))),
{
    if touches_below(seg, a, b, p + 1) {
        let (p1, q1) = choose|p1: int, q1: int| p1 < p + 1 && #[trigger] meets(seg, a, b, p1, q1);
        if p1 < p {
            assert(touches_below(seg, a, b, p));
        } else {
            assert(q1 == p + 1 || q1 == p + seg.width);
        }
    }
    if touches_below(seg, a, b, p) {
        let (p1, q1) = choose|p1: int, q1: int| p1 < p && #[trigger] meets(seg, a, b, p1, q1);
        assert(p1 < p + 1 && meets(seg, a, b, p1, q1));
    }
}

/// Every component carries the label of the smallest component of its class.
pub open spec fn is_labelling(l: Seq<int>) -> bool {
    forall|k: int| 0 <= k < l.len() ==> 0 <= #[trigger] l[k] <= k && l[l[k]] == l[k]
}

/// Each component is a class of its own.
pub open spec fn apart(n: int) -> Seq<int> {
    Seq::new(n as nat, |k: int| k)
}

/// `l` with the classes of `a` and `b` united under the smaller label.
pub open spec fn united(l: Seq<int>, a: int, b: int) -> Seq<int> {
    let stays = if l[a] < l[b] {
        l[a]
    } else {
        l[b]
    };
    let goes = if l[a] < l[b] {
        l[b]
    } else {
        l[a]
    };
    Seq::new(
        l.len(),
        |k: int|
            if l[k] == goes {
                stays
            } else {
                l[k]
            },
    )
}

/// The components with the label `c`.
pub open spec fn labelled(l: Seq<int>, c: int) -> spec_fn(int) -> bool {
    |k: int| 0 <= k < l.len() && l[k] == c
}

/// The components of the classes of `a` and `b`.
pub open spec fn either(l: Seq<int>, a: int, b: int) -> spec_fn(int) -> bool {
    |k: int| 0 <= k < l.len() && (l[k] == l[a] || l[k] == l[b])
}

/// The classes after the touching pair `(a, b)` was considered: united where
/// they differ and `fits` accepts the moments of the union.
pub open spec fn considered(
    seg: Segmentation,
    original: Seq<u8>,
    fits: spec_fn(Sums) -> bool,
    l: Seq<int>,
    a: int,
    b: int,
) -> Seq<int> {
    if l[a] != l[b] && fits(sums_of(seg, original, either(l, a, b))) {
        united(l, a, b)
    } else {
        l
    }
}

/// The classes after the first `count` pairs of `adj` were considered in turn.
pub open spec fn one_pass(
    seg: Segmentation,
    original: Seq<u8>,
    fits: spec_fn(Sums) -> bool,
    adj: Seq<(u32, u32)>,
    l: Seq<int>,
    count: int,
) -> Seq<int>
    decreases count,
{
    if count <= 0 {
        l
    } else {
        considered(
            seg,
            original,
            fits,
            one_pass(seg, original, fits, adj, l, count - 1),
            adj[count - 1].0 as int,
            adj[count - 1].1 as int,
        )
    }
}

/// The number of classes with a label below `k`.
pub open spec fn classes(l: Seq<int>, k: int) -> nat
    decreases k,
{
    if k <= 0 {
        0
    } else {
        classes(l, k - 1) + if l[k - 1] == k - 1 {
            1nat
        } else {
            0nat
        }
    }
}

/// The classes after passes over `adj` until one of them unites nothing.
pub open spec fn settled(
    seg: Segmentation,
    original: Seq<u8>,
    fits: spec_fn(Sums) -> bool,
    adj: Seq<(u32, u32)>,
    l: Seq<int>,
) -> Seq<int>
    decreases classes(l, l.len() as int),
{
    let after = one_pass(seg, original, fits, adj, l, adj.len() as int);
    if classes(after, after.len() as int) < classes(l, l.len() as int) {
        settled(seg, original, fits, adj, after)
    } else {
        after
    }
}

/// Labels as integers.
pub open spec fn as_ints(group: Seq<usize>) -> Seq<int> {
    group.map_values(|g: usize| g as int)
}

/// A labelling by smallest members is determined by its classes.
proof fn lemma_labelling_unique(l1: Seq<int>, l2: Seq<int>)
    requires
        is_labelling(l1),
        is_labelling(l2),
        l1.len() == l2.len(),
        forall|x: int, y: int|
            0 <= x < l1.len() && 0 <= y < l1.len() ==> (#[trigger] l1[x] == #[trigger] l1[y]
                <==> l2[x] == l2[y]),
    ensures
        l1 == l2,
{
    assert forall|k: int| 0 <= k < l1.len() implies l1[k] == l2[k] by {
        assert(0 <= l1[k] <= k && l1[l1[k]] == l1[k]);
        assert(0 <= l2[k] <= k && l2[l2[k]] == l2[k]);
        assert(l2[l1[k]] == l2[k]);
        assert(l1[l2[k]] == l1[k]);
        assert(l2[l1[k]] <= l1[k]);
        assert(l1[l2[k]] <= l2[k]);
    }
    assert(l1 =~= l2);
}

/// The smallest member of the class of each element.
fn smallest_members(dsu: &mut Dsu, n: usize) -> (group: Vec<usize>)
    requires
        old(dsu).wf(),
        old(dsu).spec_len() == n,
        forall|x: int| 0 <= x < n ==> 0 <= #[trigger] old(dsu).root(x) < n,
    ensures
        final(dsu).wf(),
        final(dsu).spec_len() == n,
        forall|x: int| 0 <= x < n ==> #[trigger] final(dsu).root(x) == old(dsu).root(x),
        group.len() == n,
        is_labelling(as_ints(group@)),
        forall|x: int, y: int|
            0 <= x < n && 0 <= y < n ==> (#[trigger] as_ints(group@)[x] == #[trigger] as_ints(
                group@,
            )[y] <==> old(dsu).root(x) == old(dsu).root(y)),
{
    let mut first: Vec<Option<usize>> = Vec::new();
    let mut group: Vec<usize> = Vec::new();
    let mut c: usize = 0;
    while c < n
        invariant
            c <= n,
            first.len() == c,
            forall|k: int| 0 <= k < c ==> (#[trigger] first@[k]) is None,
        decreases n - c,
    {
        first.push(None);
        c = c + 1;
    }
    let ghost dsu0 = *dsu;
    c = 0;
    while c < n
        invariant
            c <= n,
            dsu.wf(),
            dsu.spec_len() == n,
            first.len() == n,
            group.len() == c,
            forall|x: int| 0 <= x < n ==> 0 <= #[trigger] dsu0.root(x) < n,
            forall|x: int| 0 <= x < n ==> #[trigger] dsu.root(x) == dsu0.root(x),
            forall|k: int| 0 <= k < c ==> first@[dsu0.root(k)] == Some(#[trigger] group@[k]),
            forall|k: int|
                0 <= k < c ==> #[trigger] group@[k] <= k && group@[group@[k] as int] == group@[k]
                    && dsu0.root(group@[k] as int) == dsu0.root(k),
            forall|r: int|
                0 <= r < n && (#[trigger] first@[r]) is Some ==> first@[r]->0 < c && dsu0.root(
                    first@[r]->0 as int,
                ) == r && group@[first@[r]->0 as int] == first@[r]->0,
        decreases n - c,
    {
        let ghost d1 = *dsu;
        let r: usize = dsu.find(c);
        proof {
            assert forall|x: int| 0 <= x < n implies #[trigger] dsu.root(x) == dsu0.root(x) by {
                assert(dsu.root(x) == d1.root(x));
            }
            assert(d1.root(c as int) == dsu0.root(c as int));
        }
        let seen: Option<usize> = first[r];
        match seen {
            Some(g) => {
                group.push(g);
            },
            None => {
                first.set(r, Some(c));
                group.push(c);
            },
        }
        c = c + 1;
    }
    proof {
        let l = as_ints(group@);
        assert forall|k: int| 0 <= k < l.len() implies 0 <= #[trigger] l[k] <= k && l[l[k]]
            == l[k] by {
            assert(group@[k] <= k);
        }
        assert forall|x: int, y: int| 0 <= x < n && 0 <= y < n implies (#[trigger] l[x]
            == #[trigger] l[y] <==> dsu0.root(x) == dsu0.root(y)) by {
            assert(first@[dsu0.root(x)] == Some(group@[x]));
            assert(first@[dsu0.root(y)] == Some(group@[y]));
            assert(dsu0.root(group@[x] as int) == dsu0.root(x));
            assert(dsu0.root(group@[y] as int) == dsu0.root(y));
        }
    }
    group
}

/// `joins` may be asked about any moments.
pub open spec fn answers<J: Fn(&Moments) -> bool>(joins: J) -> bool {
    forall|m: &Moments| #[trigger] joins.requires((m,))
}

/// `joins` decides the predicate `fits` on the sums.
pub open spec fn decides<J: Fn(&Moments) -> bool>(joins: J, fits: spec_fn(Sums) -> bool) -> bool {
    forall|m: &Moments, b: bool| #[trigger] joins.ensures((m,), b) ==> b == fits(m@)
}

/// The groups of components that share one gradient.
pub struct Groups {
    /// The smallest component of the group that each component is in.
    pub group: Vec<usize>,
    /// The moments of each group, at its smallest component.
    pub moments: Vec<Moments>,
    /// The pairs of drawn components that touch, in order.
    pub adj: Vec<(u32, u32)>,
}

impl Groups {
    /// The labels as integers.
    pub open spec fn labels(&self) -> Seq<int> {
        as_ints(self.group@)
    }

    /// These groups have the moments of their pixels.
    pub open spec fn measured(&self, seg: Segmentation, original: Seq<u8>) -> bool {
        &&& self.group@.len() == seg.num_components
        &&& self.moments@.len() == seg.num_components
        &&& is_labelling(self.labels())
        &&& is_adjacency(seg, self.adj@)
        &&& forall|c: int|
            0 <= c < seg.num_components ==> (#[trigger] self.moments@[c])@ == sums_of(
                seg,
                original,
                labelled(self.labels(), c),
            )
    }
}

proof fn lemma_united(l: Seq<int>, a: int, b: int)
    requires
        is_labelling(l),
        0 <= a < l.len(),
        0 <= b < l.len(),
        l[a] != l[b],
    ensures
        is_labelling(united(l, a, b)),
        united(l, a, b).len() == l.len(),
        classes(united(l, a, b), l.len() as int) + 1 == classes(l, l.len() as int),
        forall|x: int, y: int|
            0 <= x < l.len() && 0 <= y < l.len() ==> (#[trigger] united(l, a, b)[x]
                == #[trigger] united(l, a, b)[y] <==> l[x] == l[y] || ((l[x] == l[a] || l[x]
                == l[b]) && (l[y] == l[a] || l[y] == l[b]))),
{
    let u = united(l, a, b);
    let stays = if l[a] < l[b] {
        l[a]
    } else {
        l[b]
    };
    let goes = if l[a] < l[b] {
        l[b]
    } else {
        l[a]
    };
    assert(l[stays] == stays && l[goes] == goes);
    assert forall|k: int| 0 <= k < u.len() implies 0 <= #[trigger] u[k] <= k && u[u[k]] == u[k] by {
        assert(0 <= l[k] <= k && l[l[k]] == l[k]);
    }
    lemma_classes_drop(l, u, stays, goes, l.len() as int);
}

proof fn lemma_classes_drop(l: Seq<int>, u: Seq<int>, stays: int, goes: int, k: int)
    requires
        is_labelling(l),
        0 <= stays < goes < l.len(),
        l[stays] == stays,
        l[goes] == goes,
        u == Seq::new(
            l.len(),
            |i: int|
                if l[i] == goes {
                    stays
                } else {
                    l[i]
                },
        ),
        0 <= k <= l.len(),
    ensures
        classes(u, k) + if goes < k {
            1nat
        } else {
            0nat
        } == classes(l, k),
    decreases k,
{
    if k > 0 {
        lemma_classes_drop(l, u, stays, goes, k - 1);
        assert(0 <= l[k - 1] <= k - 1);
    }
}

/// The moments of two united classes are the sum of theirs, and the classes that
/// were left alone keep theirs.
proof fn lemma_united_sums(seg: Segmentation, original: Seq<u8>, l: Seq<int>, a: int, b: int)
    requires
        is_labelling(l),
        0 <= a < l.len(),
        0 <= b < l.len(),
        l[a] != l[b],
    ensures
        sums_of(seg, original, either(l, a, b)) == sums_of(seg, original, labelled(l, l[a])).plus(
            sums_of(seg, original, labelled(l, l[b])),
        ),
{
    law_moments_are_additive(
        seg,
        original,
        labelled(l, l[a]),
        labelled(l, l[b]),
        either(l, a, b),
        seg.labels@.len() as int,
    );
}

/// Merges touching components whose union is well modelled by one linear
/// gradient (`joins` decides, from the moments of the union), pass after pass
/// over the touching pairs until nothing merges any more.
pub fn group_components<J: Fn(&Moments) -> bool>(
    seg: &Segmentation,
    original: &[u8],
    joins: &J,
) -> (groups: Groups)
    requires
        seg.wf(),
        small_sides(*seg),
        original@.len() >= seg.width * seg.height * 4,
        seg.num_components > 0,
        answers(*joins),
    ensures
        groups.measured(*seg, original@),
        forall|fits: spec_fn(Sums) -> bool| #[trigger]
            decides(*joins, fits) ==> groups.labels() == settled(
                *seg,
                original@,
                fits,
                groups.adj@,
                apart(seg.num_components as int),
            ),
{
    let nc: usize = seg.num_components;
    let (mut mom, adj) = scan(seg, original);
    let mut dsu = Dsu::new(nc);
    let ghost mut l: Seq<int> = apart(nc as int);
    proof {
        assert forall|c: int| 0 <= c < nc implies (#[trigger] mom@[dsu.root(c)])@ == sums_of(
            *seg,
            original@,
            labelled(l, l[c]),
        ) by {
            lemma_same_selection(
                *seg,
                original@,
                only(c),
                labelled(l, c),
                seg.labels@.len() as int,
            );
        }
    }
    loop
        invariant_except_break
            forall|fits: spec_fn(Sums) -> bool| #[trigger]
                decides(*joins, fits) ==> settled(
                    *seg,
                    original@,
                    fits,
                    adj@,
                    apart(nc as int),
                ) == settled(*seg, original@, fits, adj@, l),
        invariant
            seg.wf(),
            small_sides(*seg),
            nc == seg.num_components,
            answers(*joins),
            is_adjacency(*seg, adj@),
            dsu.wf(),
            dsu.spec_len() == nc,
            mom.len() == nc,
            l.len() == nc,
            is_labelling(l),
            forall|x: int, y: int|
                0 <= x < nc && 0 <= y < nc ==> (#[trigger] dsu.root(x) == #[trigger] dsu.root(y)
                    <==> l[x] == l[y]),
            forall|x: int| 0 <= x < nc ==> 0 <= #[trigger] dsu.root(x) < nc,
            forall|c: int|
                0 <= c < nc ==> (#[trigger] mom@[dsu.root(c)])@ == sums_of(
                    *seg,
                    original@,
                    labelled(l, l[c]),
                ),
        ensures
            forall|fits: spec_fn(Sums) -> bool| #[trigger]
                decides(*joins, fits) ==> settled(
                    *seg,
                    original@,
                    fits,
                    adj@,
                    apart(nc as int),
                ) == l,
        decreases classes(l, nc as int),
    {
        let mut changed: bool = false;
        let ghost l0 = l;
        let mut i: usize = 0;
        while i < adj.len()
            invariant
                i <= adj.len(),
                seg.wf(),
                small_sides(*seg),
                nc == seg.num_components,
                answers(*joins),
                is_adjacency(*seg, adj@),
                dsu.wf(),
                dsu.spec_len() == nc,
                mom.len() == nc,
                l.len() == nc,
                l0.len() == nc,
                is_labelling(l),
                forall|x: int, y: int|
                    0 <= x < nc && 0 <= y < nc ==> (#[trigger] dsu.root(x) == #[trigger] dsu.root(y)
                        <==> l[x] == l[y]),
                forall|x: int| 0 <= x < nc ==> 0 <= #[trigger] dsu.root(x) < nc,
                forall|c: int|
                    0 <= c < nc ==> (#[trigger] mom@[dsu.root(c)])@ == sums_of(
                        *seg,
                        original@,
                        labelled(l, l[c]),
                    ),
                changed <==> classes(l, nc as int) < classes(l0, nc as int),
                classes(l, nc as int) <= classes(l0, nc as int),
                forall|fits: spec_fn(Sums) -> bool| #[trigger]
                    decides(*joins, fits) ==> l == one_pass(
                        *seg,
                        original@,
                        fits,
                        adj@,
                        l0,
                        i as int,
                    ),
            decreases adj.len() - i,
        {
            let (a, b): (u32, u32) = adj[i];
            assert(touches(*seg, adj@[i as int].0 as int, adj@[i as int].1 as int));
            let ghost d0 = dsu;
            let ra: usize = dsu.find(a as usize);
            let ghost d1 = dsu;
            let rb: usize = dsu.find(b as usize);
            proof {
                assert forall|x: int| 0 <= x < nc implies #[trigger] dsu.root(x) == d0.root(x) by {
                    assert(dsu.root(x) == d1.root(x));
                    assert(d1.root(x) == d0.root(x));
                }
                assert(dsu.root(a as int) == ra && dsu.root(b as int) == rb);
                assert(dsu.root(ra as int) == ra) by {
                    assert(d1.root(ra as int) == ra);
                }
                assert(dsu.root(rb as int) == rb);
            }
            if ra != rb {
                let mut u: Moments = mom[ra];
                proof {
                    let n = seg.labels@.len() as int;
                    lemma_united_sums(*seg, original@, l, a as int, b as int);
                    lemma_region_bounded(*seg, original@, labelled(l, l[a as int]), n);
                    lemma_region_bounded(*seg, original@, labelled(l, l[b as int]), n);
                    lemma_region_bounded(*seg, original@, either(l, a as int, b as int), n);
                    assert(mom@[dsu.root(a as int)]@ == sums_of(
                        *seg,
                        original@,
                        labelled(l, l[a as int]),
                    ));
                    assert(mom@[dsu.root(b as int)]@ == sums_of(
                        *seg,
                        original@,
                        labelled(l, l[b as int]),
                    ));
                }
                u.merge(&mom[rb]);
                assert(u@ == sums_of(*seg, original@, either(l, a as int, b as int)));
                if joins(&u) {
                    let ghost before = dsu;
                    let ghost lb = l;
                    let ghost mb = mom@;
                    let r: usize = dsu.union(ra, rb);
                    mom.set(r, u);
                    changed = true;
                    proof {
                        l = united(lb, a as int, b as int);
                        lemma_united(lb, a as int, b as int);
                        assert forall|x: int, y: int| 0 <= x < nc && 0 <= y < nc implies (
                        #[trigger] dsu.root(x) == #[trigger] dsu.root(y) <==> l[x] == l[y]) by {
                            assert(before.root(x) == before.root(y) <==> lb[x] == lb[y]);
                            assert(before.root(x) == before.root(a as int) <==> lb[x]
                                == lb[a as int]);
                            assert(before.root(x) == before.root(b as int) <==> lb[x]
                                == lb[b as int]);
                            assert(before.root(y) == before.root(a as int) <==> lb[y]
                                == lb[a as int]);
                            assert(before.root(y) == before.root(b as int) <==> lb[y]
                                == lb[b as int]);
                        }
                        assert forall|c: int| 0 <= c < nc implies (#[trigger] mom@[dsu.root(c)])@
                            == sums_of(*seg, original@, labelled(l, l[c])) by {
                            assert(before.root(c) == before.root(a as int) <==> lb[c]
                                == lb[a as int]);
                            assert(before.root(c) == before.root(b as int) <==> lb[c]
                                == lb[b as int]);
                            if lb[c] == lb[a as int] || lb[c] == lb[b as int] {
                                assert(dsu.root(c) == r);
                                lemma_same_selection(
                                    *seg,
                                    original@,
                                    either(lb, a as int, b as int),
                                    labelled(l, l[c]),
                                    seg.labels@.len() as int,
                                );
                            } else {
                                assert(dsu.root(c) == before.root(c));
                                assert(mom@[dsu.root(c)] == mb[before.root(c)]);
                                lemma_same_selection(
                                    *seg,
                                    original@,
                                    labelled(lb, lb[c]),
                                    labelled(l, l[c]),
                                    seg.labels@.len() as int,
                                );
                            }
                        }
                        assert forall|x: int| 0 <= x < nc implies 0 <= #[trigger] dsu.root(x)
                            < nc by {
                            assert(0 <= before.root(x) < nc);
                        }
                    }
                }
            }
            i = i + 1;
        }
        if !changed {
            break;
        }
    }
    let ghost dsu0 = dsu;
    let group = smallest_members(&mut dsu, nc);
    proof {
        lemma_labelling_unique(as_ints(group@), l);
    }
    let mut moments: Vec<Moments> = Vec::new();
    let mut c: usize = 0;
    while c < nc
        invariant
            c <= nc == seg.num_components,
            seg.wf(),
            dsu.wf(),
            dsu.spec_len() == nc,
            mom.len() == nc,
            moments.len() == c,
            group.len() == nc,
            l.len() == nc,
            is_labelling(l),
            as_ints(group@) == l,
            forall|x: int| 0 <= x < nc ==> 0 <= #[trigger] dsu0.root(x) < nc,
            forall|x: int| 0 <= x < nc ==> #[trigger] dsu.root(x) == dsu0.root(x),
            forall|x: int|
                0 <= x < nc ==> (#[trigger] mom@[dsu0.root(x)])@ == sums_of(
                    *seg,
                    original@,
                    labelled(l, l[x]),
                ),
            forall|k: int|
                0 <= k < c ==> (#[trigger] moments@[k])@ == sums_of(
                    *seg,
                    original@,
                    labelled(l, k),
                ),
        decreases nc - c,
    {
        let ghost d1 = dsu;
        let r: usize = dsu.find(c);
        proof {
            assert forall|x: int| 0 <= x < nc implies #[trigger] dsu.root(x) == dsu0.root(x) by {
                assert(dsu.root(x) == d1.root(x));
            }
            assert(d1.root(c as int) == dsu0.root(c as int));
            assert(l[c as int] == group@[c as int]);
        }
        if group[c] == c {
            moments.push(mom[r]);
        } else {
            moments.push(Moments::zero());
            proof {
                let sel = labelled(l, c as int);
                assert forall|k: int| 0 <= k < seg.num_components && seg.opaque(k) implies (
                #[trigger] sel(k) <==> nothing()(k)) by {
                    if l[k] == c {
                        assert(l[l[k]] == l[k]);
                    }
                }
                lemma_same_selection(*seg, original@, sel, nothing(), seg.labels@.len() as int);
                lemma_nothing(*seg, original@, seg.labels@.len() as int);
            }
        }
        c = c + 1;
    }
    let groups = Groups { group, moments, adj };
    assert(groups.labels() =~= l);
    groups
}

/// No component at all.
spec fn nothing() -> spec_fn(int) -> bool {
    |k: int| false
}

proof fn lemma_nothing(seg: Segmentation, original: Seq<u8>, count: int)
    ensures
        region_sums(seg, original, nothing(), count) == Sums::zero(),
    decreases count,
{
    if count > 0 {
        lemma_nothing(seg, original, count - 1);
    }
}

/// When a gradient is worth emitting. The spans and residuals are order keys.
#[derive(Clone, Copy, Debug, PartialEq, Eq, Structural)]
pub struct GradientConfig {
    /// No gradient for a (merged) region of fewer pixels than this.
    pub min_area: u32,
    /// The smallest colour span, the largest change of a channel across the
    /// region out of 255, that is not taken for flat (in single precision).
    pub min_delta: u32,
    /// The largest RMS residual, out of 255, of an accepted fit (in double
    /// precision).
    pub max_residual: u64,
}

impl Default for GradientConfig {
    /// At least 64 pixels, a span of 16 and a residual of 12.
    fn default() -> (c: GradientConfig)
        ensures
            c == (GradientConfig {
                min_area: 64,
                min_delta: 0x4180_0000,
                max_residual: 0x4028_0000_0000_0000,
            }),
    {
        GradientConfig {
            min_area: 64,
            min_delta: 0x4180_0000,
            max_residual: 0x4028_0000_0000_0000,
        }
    }
}

/// Order key of the smallest per-channel colour deviation, 2 out of 255, that a
/// union must have. It stops perfectly flat regions of one colour from chaining
/// into giant useless groups.
pub const MERGE_MIN_STD: u64 = 0x4000_0000_0000_0000;

/// What is measured of a union: the order keys of its largest per-channel colour
/// deviation, and of the residual of its linear fit, if it has one.
#[derive(Clone, Copy, Debug, PartialEq, Eq)]
pub struct Spread {
    pub std: u64,
    pub residual: Option<u64>,
}

/// Whether one linear gradient models a union that is not flat.
pub open spec fn mergeable(s: Spread, cfg: GradientConfig) -> bool {
    s.std >= MERGE_MIN_STD && (s.residual matches Some(r) && r <= cfg.max_residual)
}

/// The unions that are merged, where `m` measures them.
pub open spec fn merges(m: spec_fn(Sums) -> Spread, cfg: GradientConfig) -> spec_fn(Sums) -> bool {
    |s: Sums| mergeable(m(s), cfg)
}

/// `spread` computes `m`.
pub open spec fn spreads<J: Fn(&Moments) -> Spread>(spread: J, m: spec_fn(Sums) -> Spread) -> bool {
    forall|s: &Moments, r: Spread| #[trigger] spread.ensures((s,), r) ==> r == m(s@)
}

/// Decides whether two groups merge, by what is measured of their union.
pub fn is_mergeable(s: Spread, cfg: &GradientConfig) -> (b: bool)
    ensures
        b == mergeable(s, *cfg),
{
    s.std >= MERGE_MIN_STD && match s.residual {
        Some(r) => r <= cfg.max_residual,
        None => false,
    }
}

/// A fit: the order keys of its RMS residual and of the colour span it draws.
#[derive(Clone, Copy, Debug, PartialEq, Eq)]
pub struct Measured {
    pub residual: u64,
    pub delta: u32,
}

/// The residual of a fit that is accepted: it is tight, and not flat.
pub open spec fn accepted(fit: Option<Measured>, cfg: GradientConfig) -> Option<u64> {
    match fit {
        Some(f) if f.residual <= cfg.max_residual && f.delta >= cfg.min_delta => Some(f.residual),
        _ => None,
    }
}

/// Accepts a fit that is tight and not flat.
pub fn accept(fit: Option<Measured>, cfg: &GradientConfig) -> (r: Option<u64>)
    ensures
        r == accepted(fit, *cfg),
{
    match fit {
        Some(f) => if f.residual <= cfg.max_residual && f.delta >= cfg.min_delta {
            Some(f.residual)
        } else {
            None
        },
        None => None,
    }
}

/// The two ways in which colour can vary across a group.
#[derive(Clone, Copy, Debug, PartialEq, Eq, Structural)]
pub enum Model {
    /// Along an axis.
    Linear,
    /// With the distance from a centre.
    Radial,
}

/// The fits of a group: linear, then radial.
pub type Fits = (Option<Measured>, Option<Measured>);

/// The tighter of the accepted ones of two fits, the linear one among equals.
pub open spec fn tighter(fits: Fits, cfg: GradientConfig) -> Option<Model> {
    match (accepted(fits.0, cfg), accepted(fits.1, cfg)) {
        (Some(l), Some(r)) => Some(
            if l <= r {
                Model::Linear
            } else {
                Model::Radial
            },
        ),
        (Some(_), None) => Some(Model::Linear),
        (None, Some(_)) => Some(Model::Radial),
        (None, None) => None,
    }
}

/// Picks the tighter of the accepted ones of two fits, the linear one among equals.
pub fn pick_model(fits: Fits, cfg: &GradientConfig) -> (m: Option<Model>)
    ensures
        m == tighter(fits, *cfg),
{
    match (accept(fits.0, cfg), accept(fits.1, cfg)) {
        (Some(l), Some(r)) => {
            if l <= r {
                Some(Model::Linear)
            } else {
                Some(Model::Radial)
            }
        },
        (Some(_), None) => Some(Model::Linear),
        (None, Some(_)) => Some(Model::Radial),
        (None, None) => None,
    }
}

/// The fits of group `c`; none where the list is too short.
pub open spec fn fits_at(fits: Seq<Fits>, c: int) -> Fits {
    if c < fits.len() {
        fits[c]
    } else {
        (None, None)
    }
}

/// The model of each group, at its smallest component: none for a transparent
/// component, for one that is not the smallest of its group, and for a group
/// below the smallest area.
pub open spec fn models_of(
    seg: Segmentation,
    groups: Groups,
    fits: Seq<Fits>,
    cfg: GradientConfig,
) -> Seq<Option<Model>> {
    Seq::new(
        seg.num_components as nat,
        |c: int|
            if seg.opaque(c) && groups.group@[c] == c && groups.moments@[c].n >= cfg.min_area {
                tighter(fits_at(fits, c), cfg)
            } else {
                None
            },
    )
}

/// Decides the model of each group.
pub fn pick_models(
    seg: &Segmentation,
    groups: &Groups,
    fits: &[Fits],
    cfg: &GradientConfig,
) -> (models: Vec<Option<Model>>)
    requires
        seg.wf(),
        groups.group@.len() == seg.num_components,
        groups.moments@.len() == seg.num_components,
    ensures
        models@ == models_of(*seg, *groups, fits@, *cfg),
{
    let mut models: Vec<Option<Model>> = Vec::new();
    let mut c: usize = 0;
    while c < seg.num_components
        invariant
            c <= seg.num_components,
            seg.wf(),
            groups.group@.len() == seg.num_components,
            groups.moments@.len() == seg.num_components,
            models@ == models_of(*seg, *groups, fits@, *cfg).take(c as int),
        decreases seg.num_components - c,
    {
        let m: Option<Model> = if seg.component_color[c] != 0 && groups.group[c] == c
            && groups.moments[c].n >= cfg.min_area as u128 {
            if c < fits.len() {
                pick_model(fits[c], cfg)
            } else {
                None
            }
        } else {
            None
        };
        models.push(m);
        c = c + 1;
        assert(models@ =~= models_of(*seg, *groups, fits@, *cfg).take(c as int));
    }
    assert(models@ =~= models_of(*seg, *groups, fits@, *cfg));
    models
}

/// The touching pair `(a, b)` belongs to two radial groups with close centres.
pub open spec fn radial_edge(
    groups: Groups,
    models: Seq<Option<Model>>,
    near: spec_fn(Sums, Sums) -> bool,
    a: int,
    b: int,
) -> bool {
    let ga = groups.group@[a] as int;
    let gb = groups.group@[b] as int;
    &&& ga != gb
    &&& models[ga] == Some(Model::Radial)
    &&& models[gb] == Some(Model::Radial)
    &&& near(groups.moments@[ga]@, groups.moments@[gb]@)
}

/// Some touching pair belongs to two radial groups with close centres.
pub open spec fn some_radial_edge(
    groups: Groups,
    models: Seq<Option<Model>>,
    near: spec_fn(Sums, Sums) -> bool,
    count: int,
) -> bool {
    exists|i: int|
        0 <= i < count && radial_edge(
            groups,
            models,
            near,
            (#[trigger] groups.adj@[i]).0 as int,
            groups.adj@[i].1 as int,
        )
}

/// The classes of groups after the first `count` touching pairs: groups that a
/// radial edge connects are in one band.
pub open spec fn banded(
    groups: Groups,
    models: Seq<Option<Model>>,
    near: spec_fn(Sums, Sums) -> bool,
    n: int,
    count: int,
) -> Seq<int>
    decreases count,
{
    if count <= 0 {
        apart(n)
    } else {
        let l = banded(groups, models, near, n, count - 1);
        let a = groups.adj@[count - 1].0 as int;
        let b = groups.adj@[count - 1].1 as int;
        let ga = groups.group@[a] as int;
        let gb = groups.group@[b] as int;
        if radial_edge(groups, models, near, a, b) && l[ga] != l[gb] {
            united(l, ga, gb)
        } else {
            l
        }
    }
}

/// `close` may be asked about any two moments.
pub open spec fn compares<C: Fn(&Moments, &Moments) -> bool>(close: C) -> bool {
    forall|a: &Moments, b: &Moments| #[trigger] close.requires((a, b))
}

/// `close` decides the predicate `near` on the sums.
pub open spec fn decides_near<C: Fn(&Moments, &Moments) -> bool>(
    close: C,
    near: spec_fn(Sums, Sums) -> bool,
) -> bool {
    forall|a: &Moments, b: &Moments, r: bool| #[trigger]
        close.ensures((a, b), r) ==> r == near(a@, b@)
}

/// The bands of radial groups that share one centre.
pub struct Bands {
    /// The smallest group of the band that each group is in, at the group's
    /// smallest component.
    pub band: Vec<usize>,
    /// The band of each component whose pixels belong to a radial group.
    pub member: Vec<Option<usize>>,
    /// The moments of each band, at its smallest group.
    pub moments: Vec<Moments>,
    /// Whether any two groups were found to share a centre.
    pub linked: bool,
}

/// The band of component `c`, where it belongs to a radial group.
pub open spec fn band_of(
    seg: Segmentation,
    groups: Groups,
    models: Seq<Option<Model>>,
    l: Seq<int>,
    c: int,
) -> Option<usize> {
    let g = groups.group@[c] as int;
    if seg.opaque(c) && models[g] == Some(Model::Radial) {
        Some(l[g] as usize)
    } else {
        None
    }
}

/// The components in band `b`.
pub open spec fn in_band(member: Seq<Option<usize>>, b: int) -> spec_fn(int) -> bool {
    |k: int| 0 <= k < member.len() && member[k] == Some(b as usize)
}

impl Bands {
    /// The labels as integers.
    pub open spec fn labels(&self) -> Seq<int> {
        as_ints(self.band@)
    }

    /// Every component of a radial group is in the band of its group, and the
    /// bands have the moments of their pixels.
    pub open spec fn measured(
        &self,
        seg: Segmentation,
        original: Seq<u8>,
        groups: Groups,
        models: Seq<Option<Model>>,
    ) -> bool {
        &&& self.band@.len() == seg.num_components
        &&& self.moments@.len() == seg.num_components
        &&& self.member@.len() == seg.num_components
        &&& is_labelling(self.labels())
        &&& forall|c: int|
            0 <= c < seg.num_components ==> #[trigger] self.member@[c] == band_of(
                seg,
                groups,
                models,
                self.labels(),
                c,
            )
        &&& forall|b: int|
            0 <= b < seg.num_components ==> (#[trigger] self.moments@[b])@ == sums_of(
                seg,
                original,
                in_band(self.member@, b),
            )
    }
}

/// The components of radial groups below `c` in band `b`.
spec fn in_band_below(member: Seq<Option<usize>>, g: Seq<int>, b: int, c: int) -> spec_fn(int) -> bool {
    |k: int| 0 <= k < member.len() && member[k] == Some(b as usize) && g[k] < c
}

/// Groups the touching radial groups whose centres are close (`close` decides,
/// from their moments), and sums up the moments of each band.
fn radial_bands<C: Fn(&Moments, &Moments) -> bool>(
    seg: &Segmentation,
    Ghost(original): Ghost<Seq<u8>>,
    groups: &Groups,
    models: &[Option<Model>],
    close: &C,
) -> (bands: Bands)
    requires
        seg.wf(),
        small_sides(*seg),
        groups.measured(*seg, original),
        models@.len() == seg.num_components,
        forall|c: int|
            0 <= c < seg.num_components && #[trigger] models@[c] == Some(Model::Radial)
                ==> seg.opaque(c) && groups.group@[c] == c,
        compares(*close),
    ensures
        bands.measured(*seg, original, *groups, models@),
        forall|near: spec_fn(Sums, Sums) -> bool| #[trigger]
            decides_near(*close, near) ==> bands.labels() == banded(
                *groups,
                models@,
                near,
                seg.num_components as int,
                groups.adj@.len() as int,
            ) && bands.linked == some_radial_edge(
                *groups,
                models@,
                near,
                groups.adj@.len() as int,
            ),
{
    let nc: usize = seg.num_components;
    let mut dsu = Dsu::new(nc);
    let ghost mut l: Seq<int> = apart(nc as int);
    let ghost g = groups.labels();
    let mut linked: bool = false;
    let mut i: usize = 0;
    while i < groups.adj.len()
        invariant
            i <= groups.adj@.len(),
            seg.wf(),
            nc == seg.num_components,
            groups.measured(*seg, original),
            g == groups.labels(),
            models@.len() == nc,
            compares(*close),
            dsu.wf(),
            dsu.spec_len() == nc,
            l.len() == nc,
            is_labelling(l),
            forall|x: int, y: int|
                0 <= x < nc && 0 <= y < nc ==> (#[trigger] dsu.root(x) == #[trigger] dsu.root(y)
                    <==> l[x] == l[y]),
            forall|x: int| 0 <= x < nc ==> 0 <= #[trigger] dsu.root(x) < nc,
            forall|near: spec_fn(Sums, Sums) -> bool| #[trigger]
                decides_near(*close, near) ==> l == banded(
                    *groups,
                    models@,
                    near,
                    nc as int,
                    i as int,
                ) && linked == some_radial_edge(*groups, models@, near, i as int),
        decreases groups.adj@.len() - i,
    {
        let (a, b): (u32, u32) = groups.adj[i];
        proof {
            assert(touches(*seg, groups.adj@[i as int].0 as int, groups.adj@[i as int].1 as int));
            assert(0 <= g[a as int] <= a);
            assert(0 <= g[b as int] <= b);
        }
        let ga: usize = groups.group[a as usize];
        let gb: usize = groups.group[b as usize];
        let ghost linked0 = linked;
        let ma: Option<Model> = models[ga];
        let mb: Option<Model> = models[gb];
        let mut edge: bool = false;
        if ga != gb {
            if let (Some(Model::Radial), Some(Model::Radial)) = (ma, mb) {
                edge = close(&groups.moments[ga], &groups.moments[gb]);
            }
        }
        let ghost ledge = l;
        if edge {
            linked = true;
            let ghost d0 = dsu;
            let ra: usize = dsu.find(ga);
            let ghost d1 = dsu;
            let rb: usize = dsu.find(gb);
            proof {
                assert forall|x: int| 0 <= x < nc implies #[trigger] dsu.root(x) == d0.root(x) by {
                    assert(dsu.root(x) == d1.root(x));
                    assert(d1.root(x) == d0.root(x));
                }
                assert(dsu.root(ga as int) == ra && dsu.root(gb as int) == rb);
                assert(dsu.root(ra as int) == ra) by {
                    assert(d1.root(ra as int) == ra);
                }
                assert(dsu.root(rb as int) == rb);
            }
            let ghost before = dsu;
            let ghost lb = l;
            let _ = dsu.union(ra, rb);
            proof {
                if lb[ga as int] != lb[gb as int] {
                    l = united(lb, ga as int, gb as int);
                    lemma_united(lb, ga as int, gb as int);
                }
                assert forall|x: int, y: int| 0 <= x < nc && 0 <= y < nc implies (
                #[trigger] dsu.root(x) == #[trigger] dsu.root(y) <==> l[x] == l[y]) by {
                    assert(before.root(x) == before.root(y) <==> lb[x] == lb[y]);
                    assert(before.root(x) == before.root(ga as int) <==> lb[x] == lb[ga as int]);
                    assert(before.root(x) == before.root(gb as int) <==> lb[x] == lb[gb as int]);
                    assert(before.root(y) == before.root(ga as int) <==> lb[y] == lb[ga as int]);
                    assert(before.root(y) == before.root(gb as int) <==> lb[y] == lb[gb as int]);
                }
                assert forall|x: int| 0 <= x < nc implies 0 <= #[trigger] dsu.root(x) < nc by {
                    assert(0 <= before.root(x) < nc);
                }
            }
        }
        proof {
            assert forall|near: spec_fn(Sums, Sums) -> bool| #[trigger]
                decides_near(*close, near) implies l == banded(
                *groups,
                models@,
                near,
                nc as int,
                i + 1,
            ) && linked == some_radial_edge(*groups, models@, near, i + 1) by {
                assert(edge == radial_edge(*groups, models@, near, a as int, b as int));
                if some_radial_edge(*groups, models@, near, i as int) {
                    let k = choose|k: int|
                        0 <= k < i && radial_edge(
                            *groups,
                            models@,
                            near,
                            (#[trigger] groups.adj@[k]).0 as int,
                            groups.adj@[k].1 as int,
                        );
                    assert(0 <= k < i + 1);
                }
                if edge {
                    let t = groups.adj@[i as int];
                    assert(radial_edge(*groups, models@, near, t.0 as int, t.1 as int));
                }
            }
        }
        i = i + 1;
    }
    let band = smallest_members(&mut dsu, nc);
    proof {
        lemma_labelling_unique(as_ints(band@), l);
    }
    let mut member: Vec<Option<usize>> = Vec::new();
    let mut moments: Vec<Moments> = Vec::new();
    let mut c: usize = 0;
    while c < nc
        invariant
            c <= nc == seg.num_components,
            seg.wf(),
            groups.measured(*seg, original),
            g == groups.labels(),
            models@.len() == nc,
            band.len() == nc,
            l.len() == nc,
            as_ints(band@) == l,
            member.len() == c,
            moments.len() == c,
            forall|k: int|
                0 <= k < c ==> #[trigger] member@[k] == band_of(*seg, *groups, models@, l, k),
            forall|k: int| 0 <= k < c ==> (#[trigger] moments@[k])@ == Sums::zero(),
        decreases nc - c,
    {
        assert(0 <= g[c as int] <= c);
        let gc: usize = groups.group[c];
        let m: Option<Model> = models[gc];
        assert(l[gc as int] == band@[gc as int]);
        if seg.component_color[c] != 0 {
            match m {
                Some(Model::Radial) => {
                    member.push(Some(band[gc]));
                },
                _ => {
                    member.push(None);
                },
            }
        } else {
            member.push(None);
        }
        moments.push(Moments::zero());
        c = c + 1;
    }
    proof {
        assert forall|b: int| 0 <= b < nc implies (#[trigger] moments@[b])@ == sums_of(
            *seg,
            original,
            in_band_below(member@, g, b, 0),
        ) by {
            let sel = in_band_below(member@, g, b, 0);
            assert forall|k: int| 0 <= k < seg.num_components && seg.opaque(k) implies (
            #[trigger] sel(k) <==> nothing()(k)) by {
                assert(0 <= g[k]);
            }
            lemma_same_selection(*seg, original, sel, nothing(), seg.labels@.len() as int);
            lemma_nothing(*seg, original, seg.labels@.len() as int);
        }
    }
    c = 0;
    while c < nc
        invariant
            c <= nc == seg.num_components,
            seg.wf(),
            small_sides(*seg),
            groups.measured(*seg, original),
            g == groups.labels(),
            models@.len() == nc,
            forall|c: int|
                0 <= c < nc && #[trigger] models@[c] == Some(Model::Radial) ==> seg.opaque(c)
                    && groups.group@[c] == c,
            band.len() == nc,
            l.len() == nc,
            is_labelling(l),
            as_ints(band@) == l,
            member.len() == nc,
            moments.len() == nc,
            forall|k: int|
                0 <= k < nc ==> #[trigger] member@[k] == band_of(*seg, *groups, models@, l, k),
            forall|b: int|
                0 <= b < nc ==> (#[trigger] moments@[b])@ == sums_of(
                    *seg,
                    original,
                    in_band_below(member@, g, b, c as int),
                ),
        decreases nc - c,
    {
        let m: Option<Model> = models[c];
        let ghost before = moments@;
        let mut joined: bool = false;
        let bc: usize = band[c];
        assert(as_ints(band@)[c as int] == bc && l[c as int] <= c);
        if let Some(Model::Radial) = m {
            joined = true;
            let mut u: Moments = moments[bc];
            proof {
                let n = seg.labels@.len() as int;
                let sa = in_band_below(member@, g, bc as int, c as int);
                let sb = labelled(g, c as int);
                let su = in_band_below(member@, g, bc as int, c + 1);
                let sx = |k: int| sa(k) || sb(k);
                assert forall|k: int| 0 <= k < seg.num_components && seg.opaque(k) implies (
                #[trigger] sx(k) <==> su(k)) by {
                    assert(member@[k] == band_of(*seg, *groups, models@, l, k));
                    assert(g[k] == groups.group@[k]);
                }
                lemma_same_selection(*seg, original, sx, su, n);
                law_moments_are_additive(*seg, original, sa, sb, sx, n);
                lemma_region_bounded(*seg, original, sa, n);
                lemma_region_bounded(*seg, original, sb, n);
                lemma_region_bounded(*seg, original, sx, n);
            }
            u.merge(&groups.moments[c]);
            moments.set(bc, u);
        }
        proof {
            assert forall|b: int| 0 <= b < nc implies (#[trigger] moments@[b])@ == sums_of(
                *seg,
                original,
                in_band_below(member@, g, b, c + 1),
            ) by {
                if !joined || b != bc {
                    let s0 = in_band_below(member@, g, b, c as int);
                    let s1 = in_band_below(member@, g, b, c + 1);
                    assert forall|k: int| 0 <= k < seg.num_components && seg.opaque(k) implies (
                    #[trigger] s0(k) <==> s1(k)) by {
                        assert(member@[k] == band_of(*seg, *groups, models@, l, k));
                        assert(g[k] == groups.group@[k]);
                    }
                    lemma_same_selection(*seg, original, s0, s1, seg.labels@.len() as int);
                    assert(moments@[b] == before[b]);
                }
            }
        }
        c = c + 1;
    }
    proof {
        assert forall|b: int| 0 <= b < nc implies (#[trigger] moments@[b])@ == sums_of(
            *seg,
            original,
            in_band(member@, b),
        ) by {
            let s0 = in_band_below(member@, g, b, nc as int);
            let s1 = in_band(member@, b);
            assert forall|k: int| 0 <= k < seg.num_components && seg.opaque(k) implies (
            #[trigger] s0(k) <==> s1(k)) by {
                assert(0 <= g[k] <= k);
            }
            lemma_same_selection(*seg, original, s0, s1, seg.labels@.len() as int);
        }
    }
    Bands { band, member, moments, linked }
}

/// The gradient that a component is filled with, by where it was fitted.
#[derive(Clone, Copy, Debug, PartialEq, Eq, Structural)]
pub enum Gradient {
    /// The linear fit of this group.
    Linear(usize),
    /// The radial fit of this group.
    Radial(usize),
    /// The radial fit that this band shares.
    Shared(usize),
}

/// Whether band `b` has an accepted radial fit of its own and enough pixels.
pub open spec fn band_holds(
    bands: Bands,
    holds: Seq<Option<Measured>>,
    cfg: GradientConfig,
    b: int,
) -> bool {
    b < holds.len() && accepted(holds[b], cfg) is Some && bands.moments@[b].n >= cfg.min_area
}

/// The gradient of component `c`: none for a transparent one and for a group
/// without a model; for a radial group the fit of its band, where that holds.
pub open spec fn gradient_of(
    seg: Segmentation,
    groups: Groups,
    models: Seq<Option<Model>>,
    bands: Bands,
    holds: Seq<Option<Measured>>,
    cfg: GradientConfig,
    c: int,
) -> Option<Gradient> {
    let g = groups.group@[c];
    if !seg.opaque(c) {
        None
    } else {
        match models[g as int] {
            None => None,
            Some(Model::Linear) => Some(Gradient::Linear(g)),
            Some(Model::Radial) => {
                let b = bands.band@[g as int];
                if band_holds(bands, holds, cfg, b as int) {
                    Some(Gradient::Shared(b))
                } else {
                    Some(Gradient::Radial(g))
                }
            },
        }
    }
}

/// Hands every component the gradient of its group, or that of the band its
/// group is in.
fn hand_out(
    seg: &Segmentation,
    groups: &Groups,
    models: &[Option<Model>],
    bands: &Bands,
    holds: &[Option<Measured>],
    cfg: &GradientConfig,
) -> (out: Vec<Option<Gradient>>)
    requires
        seg.wf(),
        groups.group@.len() == seg.num_components,
        is_labelling(groups.labels()),
        models@.len() == seg.num_components,
        bands.band@.len() == seg.num_components,
        bands.moments@.len() == seg.num_components,
        is_labelling(bands.labels()),
    ensures
        out.len() == seg.num_components,
        forall|c: int|
            0 <= c < seg.num_components ==> #[trigger] out@[c] == gradient_of(
                *seg,
                *groups,
                models@,
                *bands,
                holds@,
                *cfg,
                c,
            ),
{
    let mut out: Vec<Option<Gradient>> = Vec::new();
    let mut c: usize = 0;
    while c < seg.num_components
        invariant
            c <= seg.num_components,
            seg.wf(),
            groups.group@.len() == seg.num_components,
            is_labelling(groups.labels()),
            models@.len() == seg.num_components,
            bands.band@.len() == seg.num_components,
            bands.moments@.len() == seg.num_components,
            is_labelling(bands.labels()),
            out.len() == c,
            forall|k: int|
                0 <= k < c ==> #[trigger] out@[k] == gradient_of(
                    *seg,
                    *groups,
                    models@,
                    *bands,
                    holds@,
                    *cfg,
                    k,
                ),
        decreases seg.num_components - c,
    {
        if seg.component_color[c] == 0 {
            out.push(None);
        } else {
            let g: usize = groups.group[c];
            assert(groups.labels()[c as int] == g);
            assert(groups.labels()[c as int] <= c);
            let m: Option<Model> = models[g];
            match m {
                None => {
                    out.push(None);
                },
                Some(Model::Linear) => {
                    out.push(Some(Gradient::Linear(g)));
                },
                Some(Model::Radial) => {
                    let b: usize = bands.band[g];
                    assert(bands.labels()[g as int] == b);
                    assert(bands.labels()[g as int] <= g);
                    if b < holds.len() && accept(holds[b], cfg).is_some() && bands.moments[b].n
                        >= cfg.min_area as u128 {
                        out.push(Some(Gradient::Shared(b)));
                    } else {
                        out.push(Some(Gradient::Radial(g)));
                    }
                },
            }
        }
        c = c + 1;
    }
    out
}

/// The steps that lead to `out`: `groups` are the settled groups, `fits` what the
/// caller measured of them, `bands` the radial groups with a common centre, and
/// `holds` what the caller found when it scanned those again from their centre
/// (nothing where no two groups share one).
pub open spec fn is_fit<J, M, C, R>(
    seg: Segmentation,
    original: Seq<u8>,
    cfg: GradientConfig,
    spread: J,
    measure: M,
    close: C,
    rescan: R,
    groups: Groups,
    fits: Vec<Fits>,
    bands: Bands,
    holds: Vec<Option<Measured>>,
    out: Seq<Option<Gradient>>,
) -> bool where
    J: Fn(&Moments) -> Spread,
    M: Fn(&Groups) -> Vec<Fits>,
    C: Fn(&Moments, &Moments) -> bool,
    R: Fn(&Bands) -> Vec<Option<Measured>>,
 {
    let models = models_of(seg, groups, fits@, cfg);
    &&& groups.measured(seg, original)
    &&& forall|m: spec_fn(Sums) -> Spread| #[trigger]
        spreads(spread, m) ==> groups.labels() == settled(
            seg,
            original,
            merges(m, cfg),
            groups.adj@,
            apart(seg.num_components as int),
        )
    &&& measure.ensures((&groups,), fits)
    &&& bands.measured(seg, original, groups, models)
    &&& forall|near: spec_fn(Sums, Sums) -> bool| #[trigger]
        decides_near(close, near) ==> bands.labels() == banded(
            groups,
            models,
            near,
            seg.num_components as int,
            groups.adj@.len() as int,
        ) && bands.linked == some_radial_edge(groups, models, near, groups.adj@.len() as int)
    &&& bands.linked ==> rescan.ensures((&bands,), holds)
    &&& !bands.linked ==> holds@.len() == 0
    &&& out.len() == seg.num_components
    &&& forall|c: int|
        0 <= c < seg.num_components ==> #[trigger] out[c] == gradient_of(
            seg,
            groups,
            models,
            bands,
            holds@,
            cfg,
            c,
        )
}

/// Decides the gradient of every component of `seg` against the `original`
/// (RGBA) colours, merging touching components that share one. One entry per
/// component; `None` keeps the flat colour.
///
/// `spread` measures a union that may merge, `measure` fits both models to every
/// group, `close` decides whether two groups have a common centre, and `rescan`
/// fits a radial model to every band.
pub fn fit_all<J, M, C, R>(
    seg: &Segmentation,
    original: &[u8],
    cfg: &GradientConfig,
    spread: &J,
    measure: &M,
    close: &C,
    rescan: &R,
) -> (out: Vec<Option<Gradient>>) where
    J: Fn(&Moments) -> Spread,
    M: Fn(&Groups) -> Vec<Fits>,
    C: Fn(&Moments, &Moments) -> bool,
    R: Fn(&Bands) -> Vec<Option<Measured>>,

    requires
        seg.wf(),
        small_sides(*seg),
        seg.width * seg.height * 4 <= usize::MAX,
        forall|m: &Moments| #[trigger] spread.requires((m,)),
        compares(*close),
        forall|g: &Groups| #[trigger] measure.requires((g,)),
        forall|b: &Bands| #[trigger] rescan.requires((b,)),
    ensures
        out.len() == seg.num_components,
        forall|c: int|
            0 <= c < seg.num_components && (!seg.opaque(c) || original@.len() < seg.width
                * seg.height * 4) ==> (#[trigger] out@[c]) is None,
        seg.num_components > 0 && original@.len() >= seg.width * seg.height * 4 ==> exists|
            groups: Groups,
            fits: Vec<Fits>,
            bands: Bands,
            holds: Vec<Option<Measured>>,
        | #[trigger]
            is_fit(
                *seg,
                original@,
                *cfg,
                *spread,
                *measure,
                *close,
                *rescan,
                groups,
                fits,
                bands,
                holds,
                out@,
            ),
{
    let nc: usize = seg.num_components;
    let n: usize = seg.labels.len();
    if nc == 0 || original.len() < n * 4 {
        let mut out: Vec<Option<Gradient>> = Vec::new();
        let mut c: usize = 0;
        while c < nc
            invariant
                c <= nc,
                out.len() == c,
                forall|k: int| 0 <= k < c ==> (#[trigger] out@[k]) is None,
            decreases nc - c,
        {
            out.push(None);
            c = c + 1;
        }
        return out;
    }
    let joins = |m: &Moments| -> (b: bool)
        requires
            spread.requires((m,)),
        ensures
            exists|s: Spread| #[trigger] spread.ensures((m,), s) && b == mergeable(s, *cfg),
        { is_mergeable(spread(m), cfg) };
    let groups = group_components(seg, original, &joins);
    assert forall|m: spec_fn(Sums) -> Spread| #[trigger] spreads(*spread, m) implies decides(
        joins,
        merges(m, *cfg),
    ) by {}
    let fits = measure(&groups);
    let models = pick_models(seg, &groups, &fits, cfg);
    let bands = radial_bands(seg, Ghost(original@), &groups, &models, close);
    let holds: Vec<Option<Measured>> = if bands.linked {
        rescan(&bands)
    } else {
        Vec::new()
    };
    let out = hand_out(seg, &groups, &models, &bands, &holds, cfg);
    assert(is_fit(
        *seg,
        original@,
        *cfg,
        *spread,
        *measure,
        *close,
        *rescan,
        groups,
        fits,
        bands,
        holds,
        out@,
    ));
    out
}

/// `adj` names components of `l` only.
pub open spec fn pairs_in(adj: Seq<(u32, u32)>, n: int) -> bool {
    forall|i: int| 0 <= i < adj.len() ==> (#[trigger] adj[i]).0 < n && adj[i].1 < n
}

proof fn lemma_pass(
    seg: Segmentation,
    original: Seq<u8>,
    fits: spec_fn(Sums) -> bool,
    adj: Seq<(u32, u32)>,
    l: Seq<int>,
    count: int,
)
    requires
        is_labelling(l),
        pairs_in(adj, l.len() as int),
        0 <= count <= adj.len(),
    ensures
        ({
            let after = one_pass(seg, original, fits, adj, l, count);
            &&& is_labelling(after)
            &&& after.len() == l.len()
            &&& classes(after, l.len() as int) <= classes(l, l.len() as int)
            &&& classes(after, l.len() as int) == classes(l, l.len() as int) ==> after == l
        }),
    decreases count,
{
    if count > 0 {
        lemma_pass(seg, original, fits, adj, l, count - 1);
        let before = one_pass(seg, original, fits, adj, l, count - 1);
        let a = adj[count - 1].0 as int;
        let b = adj[count - 1].1 as int;
        if before[a] != before[b] {
            lemma_united(before, a, b);
        }
    }
}

/// Merging goes on until it is done: no touching pair of components is left in
/// different groups whose union one linear gradient would fit.
pub proof fn law_nothing_left_to_merge(
    seg: Segmentation,
    original: Seq<u8>,
    fits: spec_fn(Sums) -> bool,
    adj: Seq<(u32, u32)>,
    l: Seq<int>,
    i: int,
)
    requires
        is_labelling(l),
        pairs_in(adj, l.len() as int),
        0 <= i < adj.len(),
    ensures
        ({
            let s = settled(seg, original, fits, adj, l);
            let a = adj[i].0 as int;
            let b = adj[i].1 as int;
            s[a] == s[b] || !fits(sums_of(seg, original, either(s, a, b)))
        }),
    decreases classes(l, l.len() as int),
{
    let after = one_pass(seg, original, fits, adj, l, adj.len() as int);
    lemma_pass(seg, original, fits, adj, l, adj.len() as int);
    if classes(after, after.len() as int) < classes(l, l.len() as int) {
        law_nothing_left_to_merge(seg, original, fits, adj, after, i);
    } else {
        assert(after == l);
        lemma_idle_pass(seg, original, fits, adj, l, adj.len() as int, i);
        let a = adj[i].0 as int;
        let b = adj[i].1 as int;
        if l[a] != l[b] {
            lemma_united(l, a, b);
        }
    }
}

/// A pass that unites nothing leaves the classes alone at every pair.
proof fn lemma_idle_pass(
    seg: Segmentation,
    original: Seq<u8>,
    fits: spec_fn(Sums) -> bool,
    adj: Seq<(u32, u32)>,
    l: Seq<int>,
    count: int,
    i: int,
)
    requires
        is_labelling(l),
        pairs_in(adj, l.len() as int),
        0 <= i < count <= adj.len(),
        one_pass(seg, original, fits, adj, l, count) == l,
    ensures
        considered(seg, original, fits, l, adj[i].0 as int, adj[i].1 as int) == l,
    decreases count,
{
    lemma_pass(seg, original, fits, adj, l, count - 1);
    let before = one_pass(seg, original, fits, adj, l, count - 1);
    let a = adj[count - 1].0 as int;
    let b = adj[count - 1].1 as int;
    if before[a] != before[b] {
        lemma_united(before, a, b);
    }
    assert(before == l);
    if i < count - 1 {
        lemma_idle_pass(seg, original, fits, adj, l, count - 1, i);
    }
}

/// A transparent component is never merged with another.
pub proof fn law_transparent_stays_alone(
    seg: Segmentation,
    original: Seq<u8>,
    fits: spec_fn(Sums) -> bool,
    adj: Seq<(u32, u32)>,
    c: int,
    k: int,
)
    requires
        seg.wf(),
        is_adjacency(seg, adj),
        0 <= c < seg.num_components,
        0 <= k < seg.num_components,
        !seg.opaque(c),
        k != c,
    ensures
        settled(seg, original, fits, adj, apart(seg.num_components as int))[k] != settled(
            seg,
            original,
            fits,
            adj,
            apart(seg.num_components as int),
        )[c],
{
    assert(pairs_in(adj, seg.num_components as int)) by {
        assert forall|i: int| 0 <= i < adj.len() implies (#[trigger] adj[i]).0
            < seg.num_components && adj[i].1 < seg.num_components by {
            assert(touches(seg, adj[i].0 as int, adj[i].1 as int));
        }
    }
    lemma_settled_alone(seg, original, fits, adj, apart(seg.num_components as int), c, k);
}

proof fn lemma_settled_alone(
    seg: Segmentation,
    original: Seq<u8>,
    fits: spec_fn(Sums) -> bool,
    adj: Seq<(u32, u32)>,
    l: Seq<int>,
    c: int,
    k: int,
)
    requires
        is_adjacency(seg, adj),
        l.len() == seg.num_components,
        is_labelling(l),
        pairs_in(adj, l.len() as int),
        0 <= c < l.len(),
        0 <= k < l.len(),
        !seg.opaque(c),
        k != c,
        forall|j: int| 0 <= j < l.len() && j != c ==> #[trigger] l[j] != l[c],
    ensures
        settled(seg, original, fits, adj, l)[k] != settled(seg, original, fits, adj, l)[c],
    decreases classes(l, l.len() as int),
{
    let after = one_pass(seg, original, fits, adj, l, adj.len() as int);
    lemma_pass(seg, original, fits, adj, l, adj.len() as int);
    lemma_pass_alone(seg, original, fits, adj, l, adj.len() as int, c);
    if classes(after, after.len() as int) < classes(l, l.len() as int) {
        lemma_settled_alone(seg, original, fits, adj, after, c, k);
    }
}

proof fn lemma_pass_alone(
    seg: Segmentation,
    original: Seq<u8>,
    fits: spec_fn(Sums) -> bool,
    adj: Seq<(u32, u32)>,
    l: Seq<int>,
    count: int,
    c: int,
)
    requires
        is_adjacency(seg, adj),
        l.len() == seg.num_components,
        is_labelling(l),
        pairs_in(adj, l.len() as int),
        0 <= count <= adj.len(),
        0 <= c < l.len(),
        !seg.opaque(c),
        forall|j: int| 0 <= j < l.len() && j != c ==> #[trigger] l[j] != l[c],
    ensures
        ({
            let after = one_pass(seg, original, fits, adj, l, count);
            forall|j: int| 0 <= j < l.len() && j != c ==> #[trigger] after[j] != after[c]
        }),
    decreases count,
{
    if count > 0 {
        lemma_pass_alone(seg, original, fits, adj, l, count - 1, c);
        lemma_pass(seg, original, fits, adj, l, count - 1);
        let before = one_pass(seg, original, fits, adj, l, count - 1);
        let after = one_pass(seg, original, fits, adj, l, count);
        let a = adj[count - 1].0 as int;
        let b = adj[count - 1].1 as int;
        assert(touches(seg, adj[count - 1].0 as int, adj[count - 1].1 as int));
        if before[a] != before[b] {
            lemma_united(before, a, b);
            assert(before[a] != before[c] && before[b] != before[c]);
            assert forall|j: int| 0 <= j < l.len() && j != c implies #[trigger] after[j]
                != after[c] by {
                assert(before[j] != before[c]);
            }
        }
    }
}

/// Every drawn member of a group is handed the same gradient.
pub proof fn law_members_share_a_gradient(
    seg: Segmentation,
    groups: Groups,
    models: Seq<Option<Model>>,
    bands: Bands,
    holds: Seq<Option<Measured>>,
    cfg: GradientConfig,
    a: int,
    b: int,
)
    requires
        seg.opaque(a),
        seg.opaque(b),
        groups.group@[a] == groups.group@[b],
    ensures
        gradient_of(seg, groups, models, bands, holds, cfg, a) == gradient_of(
            seg,
            groups,
            models,
            bands,
            holds,
            cfg,
            b,
        ),
{
}

/// Radial groups in one band share its radial gradient, where that holds.
pub proof fn law_bands_share_a_radial(
    seg: Segmentation,
    groups: Groups,
    models: Seq<Option<Model>>,
    bands: Bands,
    holds: Seq<Option<Measured>>,
    cfg: GradientConfig,
    a: int,
    b: int,
)
    requires
        seg.opaque(a),
        seg.opaque(b),
        models[groups.group@[a] as int] == Some(Model::Radial),
        models[groups.group@[b] as int] == Some(Model::Radial),
        bands.band@[groups.group@[a] as int] == bands.band@[groups.group@[b] as int],
        band_holds(bands, holds, cfg, bands.band@[groups.group@[a] as int] as int),
    ensures
        gradient_of(seg, groups, models, bands, holds, cfg, a) == gradient_of(
            seg,
            groups,
            models,
            bands,
            holds,
            cfg,
            b,
        ),
        gradient_of(seg, groups, models, bands, holds, cfg, a) == Some(
            Gradient::Shared(bands.band@[groups.group@[a] as int]),
        ),
{
}

/// What each component is filled with, in terms of what was measured. A drawn
/// component whose group is drawn and large enough is filled with the linear gradient of
/// its own group exactly where the group's linear fit is tight and not flat, and no such
/// radial fit is tighter. Where the radial fit is the tighter one, it is filled with the
/// gradient of its band if that has a fit that is tight and not flat, and pixels enough,
/// else with the radial gradient of its own group. Everything else keeps its colour. So two
/// drawn components of different groups never share a linear or radial gradient.
pub proof fn law_component_gets_the_fit_of_its_group<J, M, C, R>(
    seg: Segmentation,
    original: Seq<u8>,
    cfg: GradientConfig,
    spread: J,
    measure: M,
    close: C,
    rescan: R,
    groups: Groups,
    fits: Vec<Fits>,
    bands: Bands,
    holds: Vec<Option<Measured>>,
    out: Seq<Option<Gradient>>,
    c: int,
    x: usize,
) where
    J: Fn(&Moments) -> Spread,
    M: Fn(&Groups) -> Vec<Fits>,
    C: Fn(&Moments, &Moments) -> bool,
    R: Fn(&Bands) -> Vec<Option<Measured>>,

    requires
        is_fit(
            seg,
            original,
            cfg,
            spread,
            measure,
            close,
            rescan,
            groups,
            fits,
            bands,
            holds,
            out,
        ),
        0 <= c < seg.num_components,
    ensures
        ({
            let g = groups.group@[c];
            let b = bands.band@[g as int];
            let good = |m: Option<Measured>|
                m is Some && m.unwrap().residual <= cfg.max_residual && m.unwrap().delta
                    >= cfg.min_delta;
            let linear = if g < fits@.len() {
                fits@[g as int].0
            } else {
                None
            };
            let radial = if g < fits@.len() {
                fits@[g as int].1
            } else {
                None
            };
            let drawn = seg.opaque(c) && seg.opaque(g as int) && groups.moments@[g as int].n
                >= cfg.min_area;
            let linear_wins = good(linear) && (good(radial) ==> linear.unwrap().residual
                <= radial.unwrap().residual);
            let radial_wins = good(radial) && (good(linear) ==> radial.unwrap().residual
                < linear.unwrap().residual);
            let shared = b < holds@.len() && good(holds@[b as int]) && bands.moments@[b as int].n
                >= cfg.min_area;
            &&& g <= c && groups.group@[g as int] == g
            &&& b <= g && bands.band@[b as int] == b
            &&& out[c] == Some(Gradient::Linear(x)) <==> drawn && linear_wins && x == g
            &&& out[c] == Some(Gradient::Shared(x)) <==> drawn && radial_wins && shared && x == b
            &&& out[c] == Some(Gradient::Radial(x)) <==> drawn && radial_wins && !shared && x == g
            &&& out[c] is None <==> !drawn || (!good(linear) && !good(radial))
        }),
{
    let g = groups.group@[c];
    assert(groups.labels()[c] == g);
    assert(groups.labels()[g as int] == groups.group@[g as int]);
    let b = bands.band@[g as int];
    assert(bands.labels()[g as int] == b);
    assert(bands.labels()[b as int] == bands.band@[b as int]);
}

/// Drawn components of different groups are never filled with the same linear gradient,
/// nor with the same radial gradient of a single group.
pub proof fn law_groups_do_not_share_a_fit(
    seg: Segmentation,
    groups: Groups,
    models: Seq<Option<Model>>,
    bands: Bands,
    holds: Seq<Option<Measured>>,
    cfg: GradientConfig,
    a: int,
    b: int,
    x: usize,
)
    requires
        groups.group@[a] != groups.group@[b],
    ensures
        !(gradient_of(seg, groups, models, bands, holds, cfg, a) == Some(Gradient::Linear(x))
            && gradient_of(seg, groups, models, bands, holds, cfg, b) == Some(Gradient::Linear(x))),
        !(gradient_of(seg, groups, models, bands, holds, cfg, a) == Some(Gradient::Radial(x))
            && gradient_of(seg, groups, models, bands, holds, cfg, b) == Some(Gradient::Radial(x))),
{
}

/// Every class of two or more components fits.
spec fn classes_fit(
    seg: Segmentation,
    original: Seq<u8>,
    fits: spec_fn(Sums) -> bool,
    l: Seq<int>,
) -> bool {
    forall|j: int, k: int|
        0 <= j < k < l.len() && #[trigger] l[j] == #[trigger] l[k] ==> fits(
            sums_of(seg, original, labelled(l, l[k])),
        )
}

proof fn lemma_fitting_pass(
    seg: Segmentation,
    original: Seq<u8>,
    fits: spec_fn(Sums) -> bool,
    adj: Seq<(u32, u32)>,
    l: Seq<int>,
    count: int,
)
    requires
        seg.wf(),
        l.len() == seg.num_components,
        is_labelling(l),
        pairs_in(adj, l.len() as int),
        0 <= count <= adj.len(),
        classes_fit(seg, original, fits, l),
    ensures
        classes_fit(seg, original, fits, one_pass(seg, original, fits, adj, l, count)),
    decreases count,
{
    if count > 0 {
        lemma_fitting_pass(seg, original, fits, adj, l, count - 1);
        lemma_pass(seg, original, fits, adj, l, count - 1);
        let before = one_pass(seg, original, fits, adj, l, count - 1);
        let a = adj[count - 1].0 as int;
        let b = adj[count - 1].1 as int;
        if before[a] != before[b] && fits(sums_of(seg, original, either(before, a, b))) {
            let u = united(before, a, b);
            lemma_united(before, a, b);
            assert forall|j: int, k: int|
                0 <= j < k < u.len() && #[trigger] u[j] == #[trigger] u[k] implies fits(
                sums_of(seg, original, labelled(u, u[k])),
            ) by {
                if u[k] == u[a] {
                    assert forall|c: int|
                        0 <= c < seg.num_components && seg.opaque(c) implies (#[trigger] labelled(
                        u,
                        u[k],
                    )(c) <==> either(before, a, b)(c)) by {}
                    lemma_same_selection(
                        seg,
                        original,
                        labelled(u, u[k]),
                        either(before, a, b),
                        seg.labels@.len() as int,
                    );
                } else {
                    assert(before[j] == before[k]);
                    assert forall|c: int|
                        0 <= c < seg.num_components && seg.opaque(c) implies (#[trigger] labelled(
                        u,
                        u[k],
                    )(c) <==> labelled(before, before[k])(c)) by {}
                    lemma_same_selection(
                        seg,
                        original,
                        labelled(u, u[k]),
                        labelled(before, before[k]),
                        seg.labels@.len() as int,
                    );
                }
            }
        }
    }
}

proof fn lemma_settled_fits(
    seg: Segmentation,
    original: Seq<u8>,
    fits: spec_fn(Sums) -> bool,
    adj: Seq<(u32, u32)>,
    l: Seq<int>,
)
    requires
        seg.wf(),
        l.len() == seg.num_components,
        is_labelling(l),
        pairs_in(adj, l.len() as int),
        classes_fit(seg, original, fits, l),
    ensures
        settled(seg, original, fits, adj, l).len() == l.len(),
        is_labelling(settled(seg, original, fits, adj, l)),
        classes_fit(seg, original, fits, settled(seg, original, fits, adj, l)),
    decreases classes(l, l.len() as int),
{
    let after = one_pass(seg, original, fits, adj, l, adj.len() as int);
    lemma_pass(seg, original, fits, adj, l, adj.len() as int);
    lemma_fitting_pass(seg, original, fits, adj, l, adj.len() as int);
    if classes(after, after.len() as int) < classes(l, l.len() as int) {
        lemma_settled_fits(seg, original, fits, adj, after);
    }
}

/// Nothing is merged without reason: where two components are in one group, the moments
/// of all components of that group together fit.
pub proof fn law_merged_groups_fit(
    seg: Segmentation,
    original: Seq<u8>,
    fits: spec_fn(Sums) -> bool,
    adj: Seq<(u32, u32)>,
    j: int,
    k: int,
)
    requires
        seg.wf(),
        pairs_in(adj, seg.num_components as int),
        0 <= j < k < seg.num_components,
    ensures
        ({
            let s = settled(seg, original, fits, adj, apart(seg.num_components as int));
            &&& s.len() == seg.num_components
            &&& s[k] <= k && s[s[k]] == s[k]
            &&& s[j] == s[k] ==> fits(
                sums_of(seg, original, |c: int| 0 <= c < s.len() && s[c] == s[k]),
            )
        }),
{
    let l = apart(seg.num_components as int);
    lemma_settled_fits(seg, original, fits, adj, l);
    let s = settled(seg, original, fits, adj, l);
    assert(labelled(s, s[k]) =~= (|c: int| 0 <= c < s.len() && s[c] == s[k]));
    assert(0 <= s[k] <= k);
}

proof fn lemma_marked_pass(
    seg: Segmentation,
    original: Seq<u8>,
    fits: spec_fn(Sums) -> bool,
    adj: Seq<(u32, u32)>,
    l: Seq<int>,
    count: int,
    mark: spec_fn(int) -> int,
)
    requires
        is_labelling(l),
        pairs_in(adj, l.len() as int),
        0 <= count <= adj.len(),
        forall|i: int|
            0 <= i < adj.len() ==> mark((#[trigger] adj[i]).0 as int) == mark(adj[i].1 as int),
        forall|x: int, y: int|
            0 <= x < l.len() && 0 <= y < l.len() && #[trigger] l[x] == #[trigger] l[y] ==> mark(x)
                == mark(y),
    ensures
        ({
            let after = one_pass(seg, original, fits, adj, l, count);
            forall|x: int, y: int|
                0 <= x < l.len() && 0 <= y < l.len() && #[trigger] after[x] == #[trigger] after[y]
                    ==> mark(x) == mark(y)
        }),
    decreases count,
{
    if count > 0 {
        lemma_marked_pass(seg, original, fits, adj, l, count - 1, mark);
        lemma_pass(seg, original, fits, adj, l, count - 1);
        let before = one_pass(seg, original, fits, adj, l, count - 1);
        let a = adj[count - 1].0 as int;
        let b = adj[count - 1].1 as int;
        if before[a] != before[b] {
            lemma_united(before, a, b);
            assert(mark(a) == mark(b));
            let u = united(before, a, b);
            assert forall|x: int, y: int|
                0 <= x < l.len() && 0 <= y < l.len() && #[trigger] u[x]
                    == #[trigger] u[y] implies mark(x) == mark(y) by {
                if before[x] != before[y] {
                    assert(before[x] == before[a] || before[x] == before[b]);
                    assert(before[y] == before[a] || before[y] == before[b]);
                }
            }
        }
    }
}

proof fn lemma_marked_settled(
    seg: Segmentation,
    original: Seq<u8>,
    fits: spec_fn(Sums) -> bool,
    adj: Seq<(u32, u32)>,
    l: Seq<int>,
    mark: spec_fn(int) -> int,
)
    requires
        is_labelling(l),
        pairs_in(adj, l.len() as int),
        forall|i: int|
            0 <= i < adj.len() ==> mark((#[trigger] adj[i]).0 as int) == mark(adj[i].1 as int),
        forall|x: int, y: int|
            0 <= x < l.len() && 0 <= y < l.len() && #[trigger] l[x] == #[trigger] l[y] ==> mark(x)
                == mark(y),
    ensures
        ({
            let s = settled(seg, original, fits, adj, l);
            forall|x: int, y: int|
                0 <= x < l.len() && 0 <= y < l.len() && #[trigger] s[x] == #[trigger] s[y]
                    ==> mark(x) == mark(y)
        }),
    decreases classes(l, l.len() as int),
{
    let after = one_pass(seg, original, fits, adj, l, adj.len() as int);
    lemma_pass(seg, original, fits, adj, l, adj.len() as int);
    lemma_marked_pass(seg, original, fits, adj, l, adj.len() as int, mark);
    if classes(after, after.len() as int) < classes(l, l.len() as int) {
        lemma_marked_settled(seg, original, fits, adj, after, mark);
        assert(settled(seg, original, fits, adj, l) == settled(seg, original, fits, adj, after));
    } else {
        assert(settled(seg, original, fits, adj, l) == after);
    }
}

/// Only what touches is merged: whatever is the same on both sides of every touching pair
/// is the same throughout every group.
pub proof fn law_groups_are_connected(
    seg: Segmentation,
    original: Seq<u8>,
    fits: spec_fn(Sums) -> bool,
    adj: Seq<(u32, u32)>,
    mark: spec_fn(int) -> int,
    x: int,
    y: int,
)
    requires
        pairs_in(adj, seg.num_components as int),
        forall|i: int|
            0 <= i < adj.len() ==> mark((#[trigger] adj[i]).0 as int) == mark(adj[i].1 as int),
        0 <= x < seg.num_components,
        0 <= y < seg.num_components,
    ensures
        ({
            let s = settled(seg, original, fits, adj, apart(seg.num_components as int));
            s[x] == s[y] ==> mark(x) == mark(y)
        }),
{
    lemma_marked_settled(seg, original, fits, adj, apart(seg.num_components as int), mark);
}

/// The pass as a fold over the touching pairs.
spec fn merge_step(
    seg: Segmentation,
    original: Seq<u8>,
    fits: spec_fn(Sums) -> bool,
) -> spec_fn(Seq<int>, (u32, u32)) -> Seq<int> {
    |s: Seq<int>, pair: (u32, u32)|
        {
            let a = s[pair.0 as int];
            let b = s[pair.1 as int];
            if a != b && fits(
                sums_of(seg, original, |k: int| 0 <= k < s.len() && (s[k] == a || s[k] == b)),
            ) {
                Seq::new(
                    s.len(),
                    |k: int|
                        if s[k] == a || s[k] == b {
                            if a < b {
                                a
                            } else {
                                b
                            }
                        } else {
                            s[k]
                        },
                )
            } else {
                s
            }
        }
}

proof fn lemma_pass_folds(
    seg: Segmentation,
    original: Seq<u8>,
    fits: spec_fn(Sums) -> bool,
    adj: Seq<(u32, u32)>,
    l: Seq<int>,
    count: int,
)
    requires
        0 <= count <= adj.len(),
    ensures
        one_pass(seg, original, fits, adj, l, count) == adj.take(count).fold_left(
            l,
            merge_step(seg, original, fits),
        ),
    decreases count,
{
    if count > 0 {
        lemma_pass_folds(seg, original, fits, adj, l, count - 1);
        assert(adj.take(count).drop_last() =~= adj.take(count - 1));
        assert(adj.take(count).last() == adj[count - 1]);
        let s = one_pass(seg, original, fits, adj, l, count - 1);
        let x = adj[count - 1].0 as int;
        let y = adj[count - 1].1 as int;
        let a = s[x];
        let b = s[y];
        assert(either(s, x, y) =~= (|k: int| 0 <= k < s.len() && (s[k] == a || s[k] == b)));
        assert(considered(seg, original, fits, s, x, y) =~= merge_step(seg, original, fits)(
            s,
            adj[count - 1],
        ));
    }
}

proof fn lemma_passes(
    seg: Segmentation,
    original: Seq<u8>,
    fits: spec_fn(Sums) -> bool,
    adj: Seq<(u32, u32)>,
    l: Seq<int>,
) -> (passes: Seq<Seq<int>>)
    requires
        is_labelling(l),
        pairs_in(adj, l.len() as int),
    ensures
        passes.len() >= 2,
        passes[0] == l,
        settled(seg, original, fits, adj, l) == passes.last(),
        passes[passes.len() - 2] == passes.last(),
        forall|i: int, j: int|
            #![trigger passes[i], passes[j]]
            0 <= i && j == i + 1 && j < passes.len() ==> passes[j] == adj.fold_left(
                passes[i],
                merge_step(seg, original, fits),
            ),
        forall|i: int, j: int|
            #![trigger passes[i], passes[j]]
            0 <= i && j == i + 1 && j < passes.len() - 1 ==> passes[j] != passes[i],
    decreases classes(l, l.len() as int),
{
    let after = one_pass(seg, original, fits, adj, l, adj.len() as int);
    lemma_pass(seg, original, fits, adj, l, adj.len() as int);
    lemma_pass_folds(seg, original, fits, adj, l, adj.len() as int);
    assert(adj.take(adj.len() as int) =~= adj);
    if classes(after, after.len() as int) < classes(l, l.len() as int) {
        let rest = lemma_passes(seg, original, fits, adj, after);
        let passes = seq![l] + rest;
        assert(after != l);
        assert forall|i: int, j: int|
            #![trigger passes[i], passes[j]]
            0 <= i && j == i + 1 && j < passes.len() implies passes[j] == adj.fold_left(
            passes[i],
            merge_step(seg, original, fits),
        ) by {
            if i > 0 {
                assert(passes[i] == rest[i - 1] && passes[j] == rest[j - 1]);
            }
        }
        assert forall|i: int, j: int|
            #![trigger passes[i], passes[j]]
            0 <= i && j == i + 1 && j < passes.len() - 1 implies passes[j] != passes[i] by {
            if i > 0 {
                assert(passes[i] == rest[i - 1] && passes[j] == rest[j - 1]);
            }
        }
        passes
    } else {
        seq![l, after]
    }
}

/// How the groups come about: pass after pass, in which the touching pairs are taken in
/// their order and two groups are united, under their smaller label, where the moments of
/// both together fit. Passes go on until one changes nothing.
pub proof fn law_groups_settle_pass_by_pass(
    seg: Segmentation,
    original: Seq<u8>,
    fits: spec_fn(Sums) -> bool,
    adj: Seq<(u32, u32)>,
) -> (passes: Seq<Seq<int>>)
    requires
        pairs_in(adj, seg.num_components as int),
    ensures
        ({
            let step = |s: Seq<int>, pair: (u32, u32)|
                {
                    let a = s[pair.0 as int];
                    let b = s[pair.1 as int];
                    if a != b && fits(
                        sums_of(
                            seg,
                            original,
                            |k: int| 0 <= k < s.len() && (s[k] == a || s[k] == b),
                        ),
                    ) {
                        Seq::new(
                            s.len(),
                            |k: int|
                                if s[k] == a || s[k] == b {
                                    if a < b {
                                        a
                                    } else {
                                        b
                                    }
                                } else {
                                    s[k]
                                },
                        )
                    } else {
                        s
                    }
                };
            let n = seg.num_components as nat;
            &&& passes.len() >= 2
            &&& passes[0] == Seq::new(n, |k: int| k)
            &&& settled(seg, original, fits, adj, apart(n as int)) == passes.last()
            &&& passes[passes.len() - 2] == passes.last()
            &&& forall|i: int, j: int|
                #![trigger passes[i], passes[j]]
                0 <= i && j == i + 1 && j < passes.len() ==> passes[j] == adj.fold_left(
                    passes[i],
                    step,
                )
            &&& forall|i: int, j: int|
                #![trigger passes[i], passes[j]]
                0 <= i && j == i + 1 && j < passes.len() - 1 ==> passes[j] != passes[i]
        }),
{
    lemma_passes(seg, original, fits, adj, apart(seg.num_components as int))
}

/// The groups and touching pairs name components below `n`.
pub open spec fn groups_in(groups: Groups, n: int) -> bool {
    &&& groups.group@.len() == n
    &&& pairs_in(groups.adj@, n)
    &&& forall|c: int| 0 <= c < n ==> #[trigger] groups.group@[c] < n
}

proof fn lemma_banded(
    groups: Groups,
    models: Seq<Option<Model>>,
    near: spec_fn(Sums, Sums) -> bool,
    n: int,
    count: int,
)
    requires
        groups_in(groups, n),
        0 <= count <= groups.adj@.len(),
    ensures
        ({
            let l = banded(groups, models, near, n, count);
            &&& l.len() == n
            &&& is_labelling(l)
            &&& forall|i: int|
                0 <= i < count && radial_edge(
                    groups,
                    models,
                    near,
                    (#[trigger] groups.adj@[i]).0 as int,
                    groups.adj@[i].1 as int,
                ) ==> l[groups.group@[groups.adj@[i].0 as int] as int]
                    == l[groups.group@[groups.adj@[i].1 as int] as int]
        }),
    decreases count,
{
    if count > 0 {
        lemma_banded(groups, models, near, n, count - 1);
        let l = banded(groups, models, near, n, count - 1);
        let a = groups.adj@[count - 1].0 as int;
        let b = groups.adj@[count - 1].1 as int;
        let ga = groups.group@[a] as int;
        let gb = groups.group@[b] as int;
        if radial_edge(groups, models, near, a, b) && l[ga] != l[gb] {
            lemma_united(l, ga, gb);
            let u = united(l, ga, gb);
            assert forall|i: int|
                0 <= i < count && radial_edge(
                    groups,
                    models,
                    near,
                    (#[trigger] groups.adj@[i]).0 as int,
                    groups.adj@[i].1 as int,
                ) implies u[groups.group@[groups.adj@[i].0 as int] as int]
                == u[groups.group@[groups.adj@[i].1 as int] as int] by {
                let x = groups.group@[groups.adj@[i].0 as int] as int;
                let y = groups.group@[groups.adj@[i].1 as int] as int;
                assert(0 <= x < n && 0 <= y < n);
                assert(i < count - 1 ==> l[x] == l[y]);
            }
        }
    }
}

proof fn lemma_marked_bands(
    groups: Groups,
    models: Seq<Option<Model>>,
    near: spec_fn(Sums, Sums) -> bool,
    n: int,
    count: int,
    mark: spec_fn(int) -> int,
)
    requires
        groups_in(groups, n),
        0 <= count <= groups.adj@.len(),
        forall|i: int|
            0 <= i < count && radial_edge(
                groups,
                models,
                near,
                (#[trigger] groups.adj@[i]).0 as int,
                groups.adj@[i].1 as int,
            ) ==> mark(groups.group@[groups.adj@[i].0 as int] as int) == mark(
                groups.group@[groups.adj@[i].1 as int] as int,
            ),
    ensures
        ({
            let l = banded(groups, models, near, n, count);
            forall|x: int, y: int|
                0 <= x < n && 0 <= y < n && #[trigger] l[x] == #[trigger] l[y] ==> mark(x) == mark(
                    y,
                )
        }),
    decreases count,
{
    if count > 0 {
        lemma_marked_bands(groups, models, near, n, count - 1, mark);
        lemma_banded(groups, models, near, n, count - 1);
        let l = banded(groups, models, near, n, count - 1);
        let a = groups.adj@[count - 1].0 as int;
        let b = groups.adj@[count - 1].1 as int;
        let ga = groups.group@[a] as int;
        let gb = groups.group@[b] as int;
        if radial_edge(groups, models, near, a, b) && l[ga] != l[gb] {
            lemma_united(l, ga, gb);
            let u = united(l, ga, gb);
            assert(mark(ga) == mark(gb));
            assert forall|x: int, y: int|
                0 <= x < n && 0 <= y < n && #[trigger] u[x] == #[trigger] u[y] implies mark(x)
                == mark(y) by {
                if l[x] != l[y] {
                    assert(l[x] == l[ga] || l[x] == l[gb]);
                    assert(l[y] == l[ga] || l[y] == l[gb]);
                }
            }
        }
    }
}

/// The bands, in full: two touching components of different radial groups with close
/// centres are in one band; whatever is the same across all such pairs is the same
/// throughout every band; and a band goes by the smallest of its groups.
pub proof fn law_bands_join_close_radials(
    groups: Groups,
    models: Seq<Option<Model>>,
    near: spec_fn(Sums, Sums) -> bool,
    n: int,
    mark: spec_fn(int) -> int,
)
    requires
        groups_in(groups, n),
    ensures
        ({
            let l = banded(groups, models, near, n, groups.adj@.len() as int);
            let joined = |i: int|
                {
                    let x = groups.group@[groups.adj@[i].0 as int] as int;
                    let y = groups.group@[groups.adj@[i].1 as int] as int;
                    x != y && models[x] == Some(Model::Radial) && models[y] == Some(Model::Radial)
                        && near(groups.moments@[x]@, groups.moments@[y]@)
                };
            &&& l.len() == n
            &&& forall|k: int| 0 <= k < n ==> 0 <= #[trigger] l[k] <= k && l[l[k]] == l[k]
            &&& forall|i: int|
                0 <= i < groups.adj@.len() && #[trigger] joined(i)
                    ==> l[groups.group@[groups.adj@[i].0 as int] as int]
                    == l[groups.group@[groups.adj@[i].1 as int] as int]
            &&& (forall|i: int|
                0 <= i < groups.adj@.len() && #[trigger] joined(i) ==> mark(
                    groups.group@[groups.adj@[i].0 as int] as int,
                ) == mark(groups.group@[groups.adj@[i].1 as int] as int)) ==> forall|
                x: int,
                y: int,
            |
                0 <= x < n && 0 <= y < n && #[trigger] l[x] == #[trigger] l[y] ==> mark(x) == mark(
                    y,
                )
        }),
{
    let count = groups.adj@.len() as int;
    lemma_banded(groups, models, near, n, count);
    let l = banded(groups, models, near, n, count);
    let joined = |i: int|
        {
            let x = groups.group@[groups.adj@[i].0 as int] as int;
            let y = groups.group@[groups.adj@[i].1 as int] as int;
            x != y && models[x] == Some(Model::Radial) && models[y] == Some(Model::Radial) && near(
                groups.moments@[x]@,
                groups.moments@[y]@,
            )
        };
    assert forall|i: int| 0 <= i < count && #[trigger] joined(i) implies l[groups.group@[groups.adj@[i].0 as int] as int]
        == l[groups.group@[groups.adj@[i].1 as int] as int] by {
        assert(radial_edge(
            groups,
            models,
            near,
            groups.adj@[i].0 as int,
            groups.adj@[i].1 as int,
        ));
    }
    if forall|i: int|
        0 <= i < groups.adj@.len() && #[trigger] joined(i) ==> mark(
            groups.group@[groups.adj@[i].0 as int] as int,
        ) == mark(groups.group@[groups.adj@[i].1 as int] as int) {
        assert forall|i: int|
            0 <= i < count && radial_edge(
                groups,
                models,
                near,
                (#[trigger] groups.adj@[i]).0 as int,
                groups.adj@[i].1 as int,
            ) implies mark(groups.group@[groups.adj@[i].0 as int] as int) == mark(
            groups.group@[groups.adj@[i].1 as int] as int,
        ) by {
            assert(joined(i));
        }
        lemma_marked_bands(groups, models, near, n, count, mark);
    }
}

proof fn lemma_unbanded(
    groups: Groups,
    models: Seq<Option<Model>>,
    near: spec_fn(Sums, Sums) -> bool,
    n: int,
    count: int,
)
    requires
        0 <= count <= groups.adj@.len(),
        !some_radial_edge(groups, models, near, count),
    ensures
        banded(groups, models, near, n, count) == apart(n),
    decreases count,
{
    if count > 0 {
        assert(!radial_edge(
            groups,
            models,
            near,
            groups.adj@[count - 1].0 as int,
            groups.adj@[count - 1].1 as int,
        ));
        assert(!some_radial_edge(groups, models, near, count - 1));
        lemma_unbanded(groups, models, near, n, count - 1);
    }
}

/// Groups are found to share a centre exactly where some band holds two groups.
pub proof fn law_linked_means_a_band_of_two(
    groups: Groups,
    models: Seq<Option<Model>>,
    near: spec_fn(Sums, Sums) -> bool,
    n: int,
)
    requires
        groups_in(groups, n),
    ensures
        ({
            let l = banded(groups, models, near, n, groups.adj@.len() as int);
            some_radial_edge(groups, models, near, groups.adj@.len() as int) <==> exists|
                x: int,
                y: int,
            |
                0 <= x < y < n && #[trigger] l[x] == #[trigger] l[y]
        }),
{
    let count = groups.adj@.len() as int;
    let l = banded(groups, models, near, n, count);
    lemma_banded(groups, models, near, n, count);
    if some_radial_edge(groups, models, near, count) {
        let i = choose|i: int|
            0 <= i < count && radial_edge(
                groups,
                models,
                near,
                (#[trigger] groups.adj@[i]).0 as int,
                groups.adj@[i].1 as int,
            );
        let x = groups.group@[groups.adj@[i].0 as int] as int;
        let y = groups.group@[groups.adj@[i].1 as int] as int;
        assert(0 <= x < n && 0 <= y < n);
        assert(l[x] == l[y] && l[y] == l[x]);
    } else {
        lemma_unbanded(groups, models, near, n, count);
    }
}

/// The touching pairs in terms of the raster: two drawn components touch where a pixel of
/// one lies left of, or above, a pixel of the other.
pub proof fn law_neighbours_touch(seg: Segmentation, adj: Seq<(u32, u32)>, x: int, y: int)
    requires
        seg.wf(),
        is_adjacency(seg, adj),
        0 <= x < seg.width,
        0 <= y < seg.height,
    ensures
        ({
            let w = seg.width as int;
            let here = seg.labels@[y * w + x];
            let right = seg.labels@[y * w + x + 1];
            let below = seg.labels@[(y + 1) * w + x];
            &&& x + 1 < w && here != right && seg.opaque(here as int) && seg.opaque(right as int)
                ==> adj.contains(if here < right {
                (here, right)
            } else {
                (right, here)
            })
            &&& y + 1 < seg.height && here != below && seg.opaque(here as int) && seg.opaque(
                below as int,
            ) ==> adj.contains(if here < below {
                (here, below)
            } else {
                (below, here)
            })
        }),
{
    let w = seg.width as int;
    let h = seg.height as int;
    let p = y * w + x;
    assert(0 <= p < w * h) by (nonlinear_arith)
        requires
            0 <= x < w,
            0 <= y < h,
            p == y * w + x,
    ;
    vstd::arithmetic::div_mod::lemma_fundamental_div_mod_converse(p, w, y, x);
    let here = seg.labels@[p];
    if x + 1 < w {
        lemma_pixel_right(seg, p);
        let right = seg.labels@[p + 1];
        assert(right < seg.num_components);
        let a = if here < right {
            here
        } else {
            right
        };
        let b = if here < right {
            right
        } else {
            here
        };
        if here != right && seg.opaque(here as int) && seg.opaque(right as int) {
            assert(meets(seg, a as int, b as int, p, p + 1));
            assert(touches(seg, a as int, b as int));
        }
    }
    if y + 1 < h {
        assert((y + 1) * w + x == p + w && p + w < w * h) by (nonlinear_arith)
            requires
                0 <= x < w,
                0 <= y < h - 1,
                p == y * w + x,
        ;
        let below = seg.labels@[p + w];
        assert(below < seg.num_components);
        let a = if here < below {
            here
        } else {
            below
        };
        let b = if here < below {
            below
        } else {
            here
        };
        if here != below && seg.opaque(here as int) && seg.opaque(below as int) {
            assert(meets(seg, a as int, b as int, p, p + w));
            assert(touches(seg, a as int, b as int));
        }
    }
}

/// Every listed pair is one of drawn components of which pixels lie side by side: the one
/// at `(x, y)`, and the one right of it or below it.
pub proof fn law_listed_pairs_touch(seg: Segmentation, adj: Seq<(u32, u32)>, i: int) -> (r: (
    int,
    int,
    bool,
))
    requires
        seg.wf(),
        is_adjacency(seg, adj),
        0 <= i < adj.len(),
    ensures
        ({
            let w = seg.width as int;
            let (x, y, right) = r;
            let here = seg.labels@[y * w + x];
            let there = if right {
                seg.labels@[y * w + x + 1]
            } else {
                seg.labels@[(y + 1) * w + x]
            };
            &&& adj[i].0 < adj[i].1 < seg.num_components
            &&& seg.opaque(adj[i].0 as int) && seg.opaque(adj[i].1 as int)
            &&& 0 <= x < w && 0 <= y < seg.height
            &&& right ==> x + 1 < w
            &&& !right ==> y + 1 < seg.height
            &&& (here, there) == adj[i] || (there, here) == adj[i]
            &&& forall|j: int| 0 <= j < adj.len() && j != i ==> #[trigger] adj[j] != adj[i]
        }),
{
    let w = seg.width as int;
    let h = seg.height as int;
    let a = adj[i].0 as int;
    let b = adj[i].1 as int;
    assert(touches(seg, adj[i].0 as int, adj[i].1 as int));
    let (p, q) = choose|p: int, q: int|
        p < seg.labels@.len() && #[trigger] meets(seg, a, b, p, q);
    lemma_pixel_position(seg, p);
    let x = p % w;
    let y = p / w;
    assert forall|j: int| 0 <= j < adj.len() && j != i implies #[trigger] adj[j] != adj[i] by {
        if j < i {
            assert(pair_less(adj[j], adj[i]));
        } else {
            assert(pair_less(adj[i], adj[j]));
        }
    }
    assert((y + 1) * w == y * w + w) by (nonlinear_arith);
    let right = q == p + 1 && x + 1 < w;
    if !right {
        assert(q == p + w);
        assert(y + 1 < h) by (nonlinear_arith)
            requires
                p == y * w + x,
                p + w < w * h,
                0 <= x < w,
        ;
    }
    (x, y, right)
}

/// What merges: a union whose colours deviate by 2 out of 255 or more in some channel, and
/// that has a linear fit within the largest residual.
pub proof fn law_unions_merge_when_colorful_and_tight(s: Spread, cfg: GradientConfig)
    ensures
        mergeable(s, cfg) <==> s.std >= 0x4000_0000_0000_0000 && s.residual is Some
            && s.residual.unwrap() <= cfg.max_residual,
{
}

/// The moments of a group are those of the pixels of all of its components; the moments of a
/// band are those of the pixels of all drawn components whose group is radial and in it.
pub proof fn law_moments_are_those_of_the_members(
    seg: Segmentation,
    original: Seq<u8>,
    groups: Groups,
    models: Seq<Option<Model>>,
    bands: Bands,
    c: int,
)
    requires
        seg.wf(),
        groups.measured(seg, original),
        bands.measured(seg, original, groups, models),
        models.len() == seg.num_components,
        0 <= c < seg.num_components,
    ensures
        groups.moments@[c]@ == sums_of(seg, original, |k: int| groups.group@[k] == c),
        bands.moments@[c]@ == sums_of(
            seg,
            original,
            |k: int|
                models[groups.group@[k] as int] == Some(Model::Radial)
                    && bands.band@[groups.group@[k] as int] == c,
        ),
{
    let n = seg.labels@.len() as int;
    let own = |k: int| groups.group@[k] == c;
    assert forall|k: int| 0 <= k < seg.num_components && seg.opaque(k) implies (#[trigger] labelled(
        groups.labels(),
        c,
    )(k) <==> own(k)) by {
        assert(groups.labels()[k] == groups.group@[k]);
    }
    lemma_same_selection(seg, original, labelled(groups.labels(), c), own, n);
    assert(groups.moments@[c]@ == sums_of(seg, original, labelled(groups.labels(), c)));
    let inside = |k: int|
        models[groups.group@[k] as int] == Some(Model::Radial)
            && bands.band@[groups.group@[k] as int] == c;
    assert forall|k: int| 0 <= k < seg.num_components && seg.opaque(k) implies (#[trigger] in_band(
        bands.member@,
        c,
    )(k) <==> inside(k)) by {
        let g = groups.group@[k] as int;
        assert(groups.labels()[k] == g);
        assert(0 <= g <= k);
        assert(bands.labels()[g] == bands.band@[g]);
        assert(0 <= bands.labels()[g] <= g);
        assert(bands.member@[k] == band_of(seg, groups, models, bands.labels(), k));
    }
    lemma_same_selection(seg, original, in_band(bands.member@, c), inside, n);
    assert(bands.moments@[c]@ == sums_of(seg, original, in_band(bands.member@, c)));
}

/// Where the parts of a fit come from: the groups are those that merging settles on where a
/// union merges that is colourful and tight; the fits are what the caller measured of them;
/// the bands are those of the radial groups with close centres; and the caller scans the
/// bands again exactly where some band holds two groups. Else no band has a fit.
pub proof fn law_fit_rests_on_what_was_measured<J, M, C, R>(
    seg: Segmentation,
    original: Seq<u8>,
    cfg: GradientConfig,
    spread: J,
    measure: M,
    close: C,
    rescan: R,
    groups: Groups,
    fits: Vec<Fits>,
    bands: Bands,
    holds: Vec<Option<Measured>>,
    out: Seq<Option<Gradient>>,
    m: spec_fn(Sums) -> Spread,
    near: spec_fn(Sums, Sums) -> bool,
) where
    J: Fn(&Moments) -> Spread,
    M: Fn(&Groups) -> Vec<Fits>,
    C: Fn(&Moments, &Moments) -> bool,
    R: Fn(&Bands) -> Vec<Option<Measured>>,

    requires
        seg.wf(),
        is_fit(
            seg,
            original,
            cfg,
            spread,
            measure,
            close,
            rescan,
            groups,
            fits,
            bands,
            holds,
            out,
        ),
        spreads(spread, m),
        decides_near(close, near),
    ensures
        ({
            let n = seg.num_components as int;
            let l = banded(
                groups,
                models_of(seg, groups, fits@, cfg),
                near,
                n,
                groups.adj@.len() as int,
            );
            &&& out.len() == n
            &&& is_adjacency(seg, groups.adj@)
            &&& groups.group@.map_values(|g: usize| g as int) == settled(
                seg,
                original,
                |s: Sums|
                    m(s).std >= 0x4000_0000_0000_0000 && m(s).residual is Some && m(
                        s,
                    ).residual.unwrap() <= cfg.max_residual,
                groups.adj@,
                Seq::new(n as nat, |k: int| k),
            )
            &&& measure.ensures((&groups,), fits)
            &&& bands.band@.map_values(|g: usize| g as int) == l
            &&& (exists|x: int, y: int| 0 <= x < y < n && #[trigger] l[x] == #[trigger] l[y])
                ==> rescan.ensures((&bands,), holds)
            &&& !(exists|x: int, y: int| 0 <= x < y < n && #[trigger] l[x] == #[trigger] l[y])
                ==> holds@.len() == 0
        }),
{
    let n = seg.num_components as int;
    let models = models_of(seg, groups, fits@, cfg);
    let tight = |s: Sums|
        m(s).std >= 0x4000_0000_0000_0000 && m(s).residual is Some && m(s).residual.unwrap()
            <= cfg.max_residual;
    assert(merges(m, cfg) =~= tight);
    assert(apart(n) =~= Seq::new(n as nat, |k: int| k));
    assert(groups_in(groups, n)) by {
        assert forall|i: int| 0 <= i < groups.adj@.len() implies (#[trigger] groups.adj@[i]).0 < n
            && groups.adj@[i].1 < n by {
            assert(touches(seg, groups.adj@[i].0 as int, groups.adj@[i].1 as int));
        }
        assert forall|c: int| 0 <= c < n implies #[trigger] groups.group@[c] < n by {
            assert(groups.labels()[c] == groups.group@[c]);
            assert(0 <= groups.labels()[c] <= c);
        }
    }
    law_linked_means_a_band_of_two(groups, models, near, n);
}

} // verus!
