//! Lattice points: sets of them, and the canonical start of a loop.

use std::collections::HashSet;
use vstd::prelude::*;
use crate::simplify::Pt;

verus! {

broadcast use vstd::std_specs::hash::group_hash_axioms;

/// The number that stands for a point in a [`PointSet`].
pub open spec fn point_key(p: Pt) -> int {
    (p.0 + 0x8000_0000) * 0x1_0000_0000 + (p.1 + 0x8000_0000)
}

fn key_of(p: Pt) -> (k: u64)
    ensures
        k == point_key(p),
{
    let x: u64 = (p.0 as i64 + 0x8000_0000) as u64;
    let y: u64 = (p.1 as i64 + 0x8000_0000) as u64;
    x * 0x1_0000_0000 + y
}

/// A set of lattice points, such as the junctions where three or more regions
/// meet.
pub struct PointSet {
    keys: HashSet<u64>,
}

impl View for PointSet {
    type V = Set<Pt>;

    closed spec fn view(&self) -> Set<Pt> {
        Set::new(|p: Pt| self.keys@.contains(point_key(p) as u64))
    }
}

impl PointSet {
    /// The empty set.
    pub fn new() -> (s: PointSet)
        ensures
            s@ == Set::<Pt>::empty(),
    {
        let s = PointSet { keys: HashSet::new() };
        assert(s@ =~= Set::<Pt>::empty());
        s
    }

    /// Adds `p`; says whether it was new.
    pub fn insert(&mut self, p: Pt) -> (fresh: bool)
        ensures
            final(self)@ == old(self)@.insert(p),
            fresh == !old(self)@.contains(p),
    {
        let fresh: bool = self.keys.insert(key_of(p));
        assert(final(self)@ =~= old(self)@.insert(p));
        fresh
    }

    /// Whether `p` is in the set.
    pub fn contains(&self, p: Pt) -> (b: bool)
        ensures
            b == self@.contains(p),
    {
        self.keys.contains(&key_of(p))
    }
}

/// Lexicographic order of integer pairs.
pub open spec fn lex_less(a: (int, int), b: (int, int)) -> bool {
    a.0 < b.0 || (a.0 == b.0 && a.1 < b.1)
}

/// The index of the first of the lexicographically smallest pairs; 0 where
/// there is none.
pub open spec fn is_lexmin(pts: Seq<(int, int)>, best: int) -> bool {
    if pts.len() == 0 {
        best == 0
    } else {
        &&& 0 <= best < pts.len()
        &&& forall|j: int| 0 <= j < pts.len() ==> !lex_less(#[trigger] pts[j], pts[best])
        &&& forall|j: int| 0 <= j < best ==> lex_less(pts[best], #[trigger] pts[j])
    }
}

/// The index of the first of the lexicographically smallest pairs.
pub open spec fn lexmin_of(pts: Seq<(int, int)>) -> int {
    choose|best: int| is_lexmin(pts, best)
}

pub proof fn lemma_lexmin_unique(pts: Seq<(int, int)>, best: int)
    requires
        is_lexmin(pts, best),
    ensures
        lexmin_of(pts) == best,
{
    let other = lexmin_of(pts);
    assert(is_lexmin(pts, other));
    if pts.len() > 0 && other != best {
        assert(!lex_less(pts[other], pts[best]) && !lex_less(pts[best], pts[other]));
    }
}

/// There is a first among the lexicographically smallest pairs.
pub proof fn lemma_lexmin_exists(pts: Seq<(int, int)>)
    ensures
        is_lexmin(pts, lexmin_of(pts)),
    decreases pts.len(),
{
    if pts.len() == 0 {
        assert(is_lexmin(pts, 0));
    } else if pts.len() == 1 {
        assert(is_lexmin(pts, 0));
    } else {
        let front = pts.drop_last();
        lemma_lexmin_exists(front);
        let best = lexmin_of(front);
        let last = pts.len() - 1;
        assert(pts[best] == front[best]);
        assert forall|j: int| 0 <= j < front.len() implies #[trigger] pts[j] == front[j] by {}
        if lex_less(pts[last], pts[best]) {
            assert(is_lexmin(pts, last));
        } else {
            assert(is_lexmin(pts, best));
        }
    }
}

/// The canonical start is a landmark of the geometry: two loops over the same
/// points start at the same point, whatever order they visit them in.
pub proof fn law_lexmin_is_canonical(
    p: Seq<(int, int)>,
    q: Seq<(int, int)>,
    i: int,
    j: int,
)
    requires
        p.len() > 0,
        forall|x: (int, int)| p.contains(x) <==> q.contains(x),
        is_lexmin(p, i),
        is_lexmin(q, j),
    ensures
        p[i] == q[j],
{
    assert(p.contains(p[i]));
    assert(q.contains(p[i]));
    let a = choose|a: int| 0 <= a < q.len() && q[a] == p[i];
    assert(!lex_less(q[a], q[j]));
    assert(q.contains(q[j]));
    assert(p.contains(q[j]));
    let b = choose|b: int| 0 <= b < p.len() && p[b] == q[j];
    assert(!lex_less(p[b], p[i]));
}

/// Lattice points as pairs of integers.
pub open spec fn as_pairs(pts: Seq<Pt>) -> Seq<(int, int)> {
    pts.map_values(|p: Pt| (p.0 as int, p.1 as int))
}

/// Order keys as pairs of integers.
pub open spec fn as_key_pairs(keys: Seq<(i64, i64)>) -> Seq<(int, int)> {
    keys.map_values(|p: (i64, i64)| (p.0 as int, p.1 as int))
}

/// Index of the lexicographically smallest lattice point.
pub fn lexmin_index_i(pts: &[Pt]) -> (best: usize)
    ensures
        is_lexmin(as_pairs(pts@), best as int),
        best == lexmin_of(as_pairs(pts@)),
{
    let mut best: usize = 0;
    let mut i: usize = 1;
    let ghost all = as_pairs(pts@);
    while i < pts.len()
        invariant
            all == as_pairs(pts@),
            1 <= i,
            i <= pts.len() || i == 1,
            pts.len() > 0 ==> best < i <= pts.len() && is_lexmin(all.take(i as int), best as int),
            pts.len() == 0 ==> best == 0,
        decreases pts.len() - i,
    {
        let p: Pt = pts[i];
        let b: Pt = pts[best];
        let ghost front = all.take(i as int);
        let ghost longer = all.take(i + 1);
        assert(longer =~= front.push((p.0 as int, p.1 as int)));
        assert(front[best as int] == (b.0 as int, b.1 as int));
        if p.0 < b.0 || (p.0 == b.0 && p.1 < b.1) {
            best = i;
        }
        i = i + 1;
    }
    if pts.len() > 0 {
        assert(all.take(i as int) =~= all);
    }
    proof {
        lemma_lexmin_unique(all, best as int);
    }
    best
}

/// Index of the lexicographically smallest point, given by the order keys of
/// the coordinates: a seam that does not depend on where a traversal starts.
pub fn lexmin_index(keys: &[(i64, i64)]) -> (best: usize)
    ensures
        is_lexmin(as_key_pairs(keys@), best as int),
        best == lexmin_of(as_key_pairs(keys@)),
{
    let mut best: usize = 0;
    let mut i: usize = 1;
    let ghost all = as_key_pairs(keys@);
    while i < keys.len()
        invariant
            all == as_key_pairs(keys@),
            1 <= i,
            i <= keys.len() || i == 1,
            keys.len() > 0 ==> best < i <= keys.len() && is_lexmin(
                all.take(i as int),
                best as int,
            ),
            keys.len() == 0 ==> best == 0,
        decreases keys.len() - i,
    {
        let p: (i64, i64) = keys[i];
        let b: (i64, i64) = keys[best];
        let ghost front = all.take(i as int);
        let ghost longer = all.take(i + 1);
        assert(longer =~= front.push((p.0 as int, p.1 as int)));
        assert(front[best as int] == (b.0 as int, b.1 as int));
        if p.0 < b.0 || (p.0 == b.0 && p.1 < b.1) {
            best = i;
        }
        i = i + 1;
    }
    if keys.len() > 0 {
        assert(all.take(i as int) =~= all);
    }
    proof {
        lemma_lexmin_unique(all, best as int);
    }
    best
}

/// The first of the smallest pairs, in terms of the coordinates: no other pair has a
/// smaller first one, nor, with the same first one, a smaller second; and none before it
/// is the same.
pub proof fn law_lexmin_is_the_first_of_the_smallest(pts: Seq<(int, int)>, j: int)
    requires
        0 <= j < pts.len(),
    ensures
        ({
            let b = lexmin_of(pts);
            &&& 0 <= b < pts.len()
            &&& pts[b].0 <= pts[j].0
            &&& pts[b].0 == pts[j].0 ==> pts[b].1 <= pts[j].1
            &&& j < b ==> pts[b] != pts[j]
        }),
{
    lemma_lexmin_exists(pts);
    let b = lexmin_of(pts);
    assert(!lex_less(pts[j], pts[b]));
    if j < b {
        assert(lex_less(pts[b], pts[j]));
    }
}

/// A point stands for its own coordinates, a key pair for its own keys, in their order.
pub proof fn law_pairs_are_coordinates(pts: Seq<Pt>, keys: Seq<(i64, i64)>, i: int)
    ensures
        as_pairs(pts).len() == pts.len(),
        as_key_pairs(keys).len() == keys.len(),
        0 <= i < pts.len() ==> as_pairs(pts)[i].0 == pts[i].0 && as_pairs(pts)[i].1 == pts[i].1,
        0 <= i < keys.len() ==> as_key_pairs(keys)[i].0 == keys[i].0 && as_key_pairs(keys)[i].1
            == keys[i].1,
{
}

} // verus!
