//! Union-find with path compression and union by rank.

use vstd::prelude::*;
use vstd::arithmetic::power2::{lemma_pow2_strictly_increases, lemma_pow2_unfold, pow2};

verus! {

/// The root that the parent links lead to from `x`. Ranks rise along the links.
pub open spec fn root_in(parent: Seq<usize>, rank: Seq<u8>, x: int) -> int
    decreases 256 - rank[x],
{
    if 0 <= x < parent.len() && parent[x] != x && parent[x] < parent.len() && rank[x]
        < rank[parent[x] as int] {
        root_in(parent, rank, parent[x] as int)
    } else {
        x
    }
}

/// Whether the parent links lead from `x` past `z`, the two ends included.
pub open spec fn passes_in(parent: Seq<usize>, rank: Seq<u8>, x: int, z: int) -> bool
    decreases 256 - rank[x],
{
    z == x || (0 <= x < parent.len() && parent[x] != x && parent[x] < parent.len() && rank[x]
        < rank[parent[x] as int] && passes_in(parent, rank, parent[x] as int, z))
}

/// The sum of the sizes of the classes whose root is below `k`.
spec fn sizes_below(parent: Seq<usize>, size: Seq<nat>, k: int) -> nat
    decreases k,
{
    if k <= 0 {
        0
    } else {
        sizes_below(parent, size, k - 1) + if parent[k - 1] == k - 1 {
            size[k - 1]
        } else {
            0
        }
    }
}

/// A partition of `0..n`.
pub struct Dsu {
    parent: Vec<usize>,
    rank: Vec<u8>,
    size: Ghost<Seq<nat>>,
}

impl Dsu {
    /// The number of elements.
    pub closed spec fn spec_len(&self) -> nat {
        self.parent@.len()
    }

    /// The representative of the class of `x`.
    pub closed spec fn root(&self, x: int) -> int {
        root_in(self.parent@, self.rank@, x)
    }

    /// The element that `x` links to; a root links to itself.
    pub closed spec fn link(&self, x: int) -> int {
        self.parent@[x] as int
    }

    /// Whether the links lead from `x` past `z`, the two ends included.
    pub closed spec fn passes(&self, x: int, z: int) -> bool {
        passes_in(self.parent@, self.rank@, x, z)
    }

    /// The rank of `x`, by which [`Dsu::union`] picks the root that stays.
    pub closed spec fn rank_of(&self, x: int) -> nat {
        self.rank@[x] as nat
    }

    /// Every link stays inside, ranks rise along the links, and a root of rank
    /// `r` stands for at least `2^r` elements.
    pub closed spec fn wf(&self) -> bool {
        let n = self.parent@.len() as int;
        &&& self.rank@.len() == n
        &&& self.size@.len() == n
        &&& forall|x: int| 0 <= x < n ==> #[trigger] self.parent@[x] < n
        &&& forall|x: int|
            0 <= x < n && #[trigger] self.parent@[x] != x ==> self.rank@[x]
                < self.rank@[self.parent@[x] as int]
        &&& forall|x: int|
            0 <= x < n && self.parent@[x] == x ==> #[trigger] self.size@[x] >= pow2(
                self.rank@[x] as nat,
            )
        &&& sizes_below(self.parent@, self.size@, n) == n
    }

    /// The partition of `0..n` into single elements.
    pub fn new(n: usize) -> (d: Dsu)
        ensures
            d.wf(),
            d.spec_len() == n,
            forall|x: int| 0 <= x < n ==> #[trigger] d.root(x) == x,
            forall|x: int| 0 <= x < n ==> #[trigger] d.link(x) == x,
            forall|x: int| 0 <= x < n ==> #[trigger] d.rank_of(x) == 0,
    {
        let mut parent: Vec<usize> = Vec::new();
        let mut rank: Vec<u8> = Vec::new();
        let mut i: usize = 0;
        while i < n
            invariant
                i <= n,
                parent.len() == i,
                rank.len() == i,
                forall|x: int| 0 <= x < i ==> #[trigger] parent@[x] == x,
                forall|x: int| 0 <= x < i ==> #[trigger] rank@[x] == 0,
            decreases n - i,
        {
            parent.push(i);
            rank.push(0);
            i = i + 1;
        }
        let ghost size = Seq::new(n as nat, |x: int| 1nat);
        proof {
            vstd::arithmetic::power2::lemma2_to64();
            lemma_all_ones(parent@, size, n as int);
        }
        Dsu { parent, rank, size: Ghost(size) }
    }

    /// The representative of the class of `x`. Every element on the way links to it
    /// afterwards; no other link changes.
    pub fn find(&mut self, x: usize) -> (r: usize)
        requires
            old(self).wf(),
            x < old(self).spec_len(),
        ensures
            final(self).wf(),
            final(self).spec_len() == old(self).spec_len(),
            r == old(self).root(x as int),
            r < old(self).spec_len(),
            final(self).root(r as int) == r,
            forall|y: int|
                0 <= y < old(self).spec_len() ==> #[trigger] final(self).link(y) == if old(
                    self,
                ).passes(x as int, y) {
                    r as int
                } else {
                    old(self).link(y)
                },
            forall|y: int|
                0 <= y < old(self).spec_len() ==> #[trigger] final(self).root(y) == old(self).root(y),
            forall|y: int|
                0 <= y < old(self).spec_len() ==> #[trigger] final(self).rank_of(y) == old(
                    self,
                ).rank_of(y),
    {
        let mut r: usize = x;
        let ghost n = self.parent@.len() as int;
        while self.parent[r] != r
            invariant
                self.wf(),
                *self == *old(self),
                n == self.parent@.len(),
                r < n,
                root_in(self.parent@, self.rank@, r as int) == old(self).root(x as int),
            decreases 256 - self.rank@[r as int],
        {
            r = self.parent[r];
        }
        assert(root_in(self.parent@, self.rank@, r as int) == r);
        let mut c: usize = x;
        let ghost links = old(self).parent@;
        let ghost ranks = old(self).rank@;
        while self.parent[c] != r
            invariant
                self.wf(),
                n == self.parent@.len() == old(self).parent@.len(),
                self.rank@ == old(self).rank@,
                r < n,
                c < n,
                self.parent@[r as int] == r,
                root_in(self.parent@, self.rank@, c as int) == r,
                r == old(self).root(x as int),
                links == old(self).parent@,
                ranks == old(self).rank@,
                links_rise(links, ranks),
                links[r as int] == r,
                passes_in(links, ranks, x as int, c as int),
                forall|y: int|
                    0 <= y < n ==> #[trigger] self.parent@[y] == if passes_in(
                        links,
                        ranks,
                        x as int,
                        y,
                    ) && !passes_in(links, ranks, c as int, y) {
                        r
                    } else {
                        links[y]
                    },
                forall|y: int|
                    0 <= y < n ==> #[trigger] root_in(self.parent@, self.rank@, y) == old(
                        self,
                    ).root(y),
            decreases 256 - self.rank@[c as int],
        {
            let nx: usize = self.parent[c];
            let ghost before = self.parent@;
            proof {
                assert(nx != c);
                assert(root_in(before, self.rank@, nx as int) == r);
                lemma_rank_below_root(before, self.rank@, c as int);
            }
            self.parent.set(c, r);
            proof {
                lemma_compress(before, self.parent@, self.rank@, c as int, r as int);
                lemma_sizes_skip(before, self.parent@, self.size@, n);
                assert(nx == links[c as int]);
                lemma_passes_on(links, ranks, x as int, c as int);
                assert forall|y: int| 0 <= y < n implies #[trigger] self.parent@[y] == if passes_in(
                    links,
                    ranks,
                    x as int,
                    y,
                ) && !passes_in(links, ranks, nx as int, y) {
                    r
                } else {
                    links[y]
                } by {
                    if y == c && passes_in(links, ranks, nx as int, y) {
                        lemma_passes_up(links, ranks, nx as int, y);
                    }
                }
            }
            c = nx;
        }
        proof {
            assert forall|y: int| 0 <= y < n implies #[trigger] self.link(y) == if old(
                self,
            ).passes(x as int, y) {
                r as int
            } else {
                old(self).link(y)
            } by {
                assert(links[c as int] == r);
                if passes_in(links, ranks, c as int, y) {
                    reveal_with_fuel(passes_in, 3);
                    assert(y == c || y == r);
                    if y == c {
                        assert(passes_in(links, ranks, x as int, y));
                    } else {
                        lemma_passes_on(links, ranks, x as int, c as int);
                    }
                }
            }
            assert forall|y: int| 0 <= y < n implies #[trigger] self.root(y) == old(self).root(
                y,
            ) by {
                assert(root_in(self.parent@, self.rank@, y) == old(self).root(y));
            }
        }
        r
    }

    /// Unites the classes of the roots `ra` and `rb`; returns the new root.
    pub fn union(&mut self, ra: usize, rb: usize) -> (r: usize)
        requires
            old(self).wf(),
            ra < old(self).spec_len(),
            rb < old(self).spec_len(),
            old(self).root(ra as int) == ra,
            old(self).root(rb as int) == rb,
        ensures
            final(self).wf(),
            final(self).spec_len() == old(self).spec_len(),
            r == if ra != rb && old(self).rank_of(ra as int) < old(self).rank_of(rb as int) {
                rb
            } else {
                ra
            },
            forall|y: int|
                0 <= y < old(self).spec_len() ==> #[trigger] final(self).root(y) == if old(
                    self,
                ).root(y) == ra || old(self).root(y) == rb {
                    r as int
                } else {
                    old(self).root(y)
                },
            forall|y: int|
                0 <= y < old(self).spec_len() ==> #[trigger] final(self).link(y) == if y == ra || y
                    == rb {
                    r as int
                } else {
                    old(self).link(y)
                },
            forall|y: int|
                0 <= y < old(self).spec_len() ==> #[trigger] final(self).rank_of(y) == if y == ra
                    && ra != rb && old(self).rank_of(ra as int) == old(self).rank_of(rb as int) {
                    old(self).rank_of(y) + 1
                } else {
                    old(self).rank_of(y)
                },
    {
        if ra == rb {
            proof {
                lemma_rank_below_root(self.parent@, self.rank@, ra as int);
            }
            return ra;
        }
        let ghost n = self.parent.len() as int;
        let ghost size = self.size@;
        assert(n == self.parent@.len());
        proof {
            lemma_rank_below_root(self.parent@, self.rank@, ra as int);
            lemma_rank_below_root(self.parent@, self.rank@, rb as int);
            lemma_rank_small(self.parent@, self.rank@, size, n, ra as int);
            assert(size[ra as int] >= pow2(self.rank@[ra as int] as nat));
            assert(size[rb as int] >= pow2(self.rank@[rb as int] as nat));
        }
        let ka: u8 = self.rank[ra];
        let kb: u8 = self.rank[rb];
        if ka < kb {
            self.parent.set(ra, rb);
            proof {
                self.size@ = size.update(rb as int, size[ra as int] + size[rb as int]);
                lemma_sizes_link(old(self).parent@, size, ra as int, rb as int, n);
                lemma_link(old(self).parent@, self.parent@, old(self).rank@, self.rank@, ra as int, rb as int);
            }
            rb
        } else {
            self.parent.set(rb, ra);
            if ka == kb {
                self.rank.set(ra, ka + 1);
                proof {
                    lemma_pow2_unfold((ka + 1) as nat);
                }
            }
            proof {
                self.size@ = size.update(ra as int, size[rb as int] + size[ra as int]);
                lemma_sizes_link(old(self).parent@, size, rb as int, ra as int, n);
                lemma_link(old(self).parent@, self.parent@, old(self).rank@, self.rank@, rb as int, ra as int);
            }
            ra
        }
    }
}

proof fn lemma_all_ones(parent: Seq<usize>, size: Seq<nat>, k: int)
    requires
        0 <= k <= parent.len(),
        size.len() == parent.len(),
        forall|x: int| 0 <= x < parent.len() ==> #[trigger] parent[x] == x,
        forall|x: int| 0 <= x < parent.len() ==> #[trigger] size[x] == 1,
    ensures
        sizes_below(parent, size, k) == k,
    decreases k,
{
    if k > 0 {
        lemma_all_ones(parent, size, k - 1);
    }
}

spec fn links_rise(parent: Seq<usize>, rank: Seq<u8>) -> bool {
    &&& rank.len() == parent.len()
    &&& forall|x: int| 0 <= x < parent.len() ==> #[trigger] parent[x] < parent.len()
    &&& forall|x: int|
        0 <= x < parent.len() && #[trigger] parent[x] != x ==> rank[x] < rank[parent[x] as int]
}

/// Ranks rise along the links.
proof fn lemma_passes_up(parent: Seq<usize>, rank: Seq<u8>, x: int, z: int)
    requires
        passes_in(parent, rank, x, z),
    ensures
        z == x || rank[x] < rank[z],
    decreases 256 - rank[x],
{
    if z != x {
        lemma_passes_up(parent, rank, parent[x] as int, z);
    }
}

/// The links lead past the element that one on the way links to.
proof fn lemma_passes_on(parent: Seq<usize>, rank: Seq<u8>, x: int, c: int)
    requires
        links_rise(parent, rank),
        0 <= x < parent.len(),
        0 <= c < parent.len(),
        passes_in(parent, rank, x, c),
    ensures
        passes_in(parent, rank, x, parent[c] as int),
    decreases 256 - rank[x],
{
    if x != c {
        lemma_passes_on(parent, rank, parent[x] as int, c);
    } else if parent[c] != c {
        assert(passes_in(parent, rank, parent[c] as int, parent[c] as int));
    }
}

proof fn lemma_rank_below_root(parent: Seq<usize>, rank: Seq<u8>, x: int)
    requires
        links_rise(parent, rank),
        0 <= x < parent.len(),
    ensures
        0 <= root_in(parent, rank, x) < parent.len(),
        parent[root_in(parent, rank, x)] == root_in(parent, rank, x),
        parent[x] != x ==> rank[x] < rank[root_in(parent, rank, x)],
    decreases 256 - rank[x],
{
    if parent[x] != x {
        lemma_rank_below_root(parent, rank, parent[x] as int);
    }
}

proof fn lemma_compress(p0: Seq<usize>, p1: Seq<usize>, rank: Seq<u8>, c: int, r: int)
    requires
        links_rise(p0, rank),
        0 <= c < p0.len(),
        p0[c] != c,
        0 <= r < p0.len(),
        p0[r] == r,
        root_in(p0, rank, c) == r,
        p1 == p0.update(c, r as usize),
        r <= usize::MAX,
    ensures
        links_rise(p1, rank),
        forall|y: int| 0 <= y < p0.len() ==> #[trigger] root_in(p1, rank, y) == root_in(p0, rank, y),
{
    lemma_rank_below_root(p0, rank, c);
    assert forall|y: int| 0 <= y < p0.len() implies #[trigger] root_in(p1, rank, y) == root_in(
        p0,
        rank,
        y,
    ) by {
        lemma_compress_at(p0, p1, rank, c, r, y);
    }
}

proof fn lemma_compress_at(p0: Seq<usize>, p1: Seq<usize>, rank: Seq<u8>, c: int, r: int, y: int)
    requires
        links_rise(p0, rank),
        links_rise(p1, rank),
        0 <= c < p0.len(),
        p0[c] != c,
        c != r,
        0 <= r < p0.len(),
        p0[r] == r,
        root_in(p0, rank, c) == r,
        p1 == p0.update(c, r as usize),
        r <= usize::MAX,
        0 <= y < p0.len(),
    ensures
        root_in(p1, rank, y) == root_in(p0, rank, y),
    decreases 256 - rank[y],
{
    if y == c {
        assert(root_in(p1, rank, c) == root_in(p1, rank, r));
        assert(root_in(p1, rank, r) == r);
    } else if p0[y] != y {
        lemma_compress_at(p0, p1, rank, c, r, p0[y] as int);
    }
}

proof fn lemma_sizes_skip(p0: Seq<usize>, p1: Seq<usize>, size: Seq<nat>, k: int)
    requires
        0 <= k <= p0.len(),
        p1.len() == p0.len(),
        forall|x: int| 0 <= x < p0.len() ==> (#[trigger] p0[x] == x <==> p1[x] == x),
    ensures
        sizes_below(p1, size, k) == sizes_below(p0, size, k),
    decreases k,
{
    if k > 0 {
        lemma_sizes_skip(p0, p1, size, k - 1);
        assert(p0[k - 1] == k - 1 <==> p1[k - 1] == k - 1);
    }
}

/// A root stands for at most `n` elements, so its rank is below 64.
proof fn lemma_rank_small(parent: Seq<usize>, rank: Seq<u8>, size: Seq<nat>, n: int, x: int)
    requires
        n == parent.len() == size.len() == rank.len(),
        n <= usize::MAX,
        0 <= x < n,
        parent[x] == x,
        size[x] >= pow2(rank[x] as nat),
        sizes_below(parent, size, n) == n,
    ensures
        rank[x] < 64,
{
    lemma_size_in_sum(parent, size, n, x);
    if rank[x] >= 64 {
        vstd::arithmetic::power2::lemma2_to64();
        if rank[x] > 64 {
            lemma_pow2_strictly_increases(64, rank[x] as nat);
        }
        assert(pow2(64) == 0x1_0000_0000_0000_0000) by {
            vstd::arithmetic::power2::lemma2_to64_rest();
        }
    }
}

proof fn lemma_size_in_sum(parent: Seq<usize>, size: Seq<nat>, k: int, x: int)
    requires
        0 <= x < k <= parent.len(),
        parent[x] == x,
    ensures
        size[x] <= sizes_below(parent, size, k),
    decreases k,
{
    if x < k - 1 {
        lemma_size_in_sum(parent, size, k - 1, x);
    }
}

/// Hanging the root `c` under the root `r` moves its size there.
proof fn lemma_sizes_link(parent: Seq<usize>, size: Seq<nat>, c: int, r: int, k: int)
    requires
        0 <= k <= parent.len(),
        size.len() == parent.len(),
        0 <= c < parent.len() <= usize::MAX,
        0 <= r < parent.len(),
        c != r,
        parent[c] == c,
        parent[r] == r,
    ensures
        sizes_below(parent.update(c, r as usize), size.update(r, size[c] + size[r]), k) + if c < k {
            size[c]
        } else {
            0
        } == sizes_below(parent, size, k) + if r < k {
            size[c]
        } else {
            0
        },
    decreases k,
{
    if k > 0 {
        lemma_sizes_link(parent, size, c, r, k - 1);
    }
}

/// Hanging the root `c` under the root `r` sends exactly the class of `c` there.
proof fn lemma_link(
    p0: Seq<usize>,
    p1: Seq<usize>,
    k0: Seq<u8>,
    k1: Seq<u8>,
    c: int,
    r: int,
)
    requires
        links_rise(p0, k0),
        links_rise(p1, k1),
        0 <= c < p0.len(),
        0 <= r < p0.len() <= usize::MAX,
        c != r,
        p0[c] == c,
        p0[r] == r,
        p1 == p0.update(c, r as usize),
    ensures
        forall|y: int|
            0 <= y < p0.len() ==> #[trigger] root_in(p1, k1, y) == if root_in(p0, k0, y) == c {
                r
            } else {
                root_in(p0, k0, y)
            },
{
    assert forall|y: int| 0 <= y < p0.len() implies #[trigger] root_in(p1, k1, y) == if root_in(
        p0,
        k0,
        y,
    ) == c {
        r
    } else {
        root_in(p0, k0, y)
    } by {
        lemma_link_at(p0, p1, k0, k1, c, r, y);
    }
}

proof fn lemma_link_at(
    p0: Seq<usize>,
    p1: Seq<usize>,
    k0: Seq<u8>,
    k1: Seq<u8>,
    c: int,
    r: int,
    y: int,
)
    requires
        links_rise(p0, k0),
        links_rise(p1, k1),
        0 <= c < p0.len(),
        0 <= r < p0.len() <= usize::MAX,
        c != r,
        p0[c] == c,
        p0[r] == r,
        p1 == p0.update(c, r as usize),
        0 <= y < p0.len(),
    ensures
        root_in(p1, k1, y) == if root_in(p0, k0, y) == c {
            r
        } else {
            root_in(p0, k0, y)
        },
    decreases 256 - k0[y],
{
    if y == c {
        assert(root_in(p1, k1, c) == root_in(p1, k1, r));
        assert(root_in(p1, k1, r) == r);
    } else if p0[y] != y {
        lemma_link_at(p0, p1, k0, k1, c, r, p0[y] as int);
    }
}

/// The links lead to the representative: a root is its own, and every other element
/// has that of the element that it links to. Where they lead past is followed link
/// by link.
pub proof fn law_links_lead_to_the_root(d: Dsu, x: int, z: int)
    requires
        d.wf(),
        0 <= x < d.spec_len(),
    ensures
        0 <= d.link(x) < d.spec_len(),
        d.root(x) == if d.link(x) == x {
            x
        } else {
            d.root(d.link(x))
        },
        d.passes(x, z) <==> z == x || (d.link(x) != x && d.passes(d.link(x), z)),
        d.link(d.root(x)) == d.root(x),
{
    lemma_rank_below_root(d.parent@, d.rank@, x);
}

} // verus!
