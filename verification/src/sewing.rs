//! Vertex clustering for tolerance sewing: a union-find forest with path
//! compression and union by rank, and the first-occurrence numbering of the
//! clusters that the sewn mesh uses.
use vstd::prelude::*;
use vstd::arithmetic::power2::{lemma2_to64, lemma_pow2_strictly_increases, lemma_pow2_unfold, pow2};
use crate::exchange::first_key_index;
use crate::topology::TopologyError;

verus! {

/// Parent pointers stay in range and ranks increase strictly towards roots.
pub open spec fn ranks_ok(parent: Seq<usize>, rank: Seq<u8>) -> bool {
    &&& parent.len() == rank.len()
    &&& forall|i: int|
        0 <= i < parent.len() ==> #[trigger] parent[i] < parent.len() && (parent[i] != i ==> rank[i]
            < rank[parent[i] as int])
}

/// Root of the tree that holds `i`.
pub open spec fn root_of(parent: Seq<usize>, rank: Seq<u8>, i: int) -> int
    decreases 256 - rank[i],
    when ranks_ok(parent, rank) && 0 <= i < parent.len()
{
    if parent[i] == i {
        i
    } else {
        root_of(parent, rank, parent[i] as int)
    }
}

/// Sum of the sizes recorded at the roots among the first `k` elements.
pub open spec fn root_total(parent: Seq<usize>, size: Seq<nat>, k: int) -> nat
    decreases k,
{
    if k <= 0 {
        0
    } else {
        root_total(parent, size, k - 1) + if parent[k - 1] == k - 1 {
            size[k - 1]
        } else {
            0nat
        }
    }
}

pub proof fn lemma_root_of(parent: Seq<usize>, rank: Seq<u8>, i: int)
    requires
        ranks_ok(parent, rank),
        0 <= i < parent.len(),
    ensures
        0 <= root_of(parent, rank, i) < parent.len(),
        parent[root_of(parent, rank, i)] == root_of(parent, rank, i),
        parent[i] != i ==> rank[i] < rank[root_of(parent, rank, i)],
        parent[i] != i ==> root_of(parent, rank, i) == root_of(parent, rank, parent[i] as int),
        parent[i] == i ==> root_of(parent, rank, i) == i,
    decreases 256 - rank[i],
{
    if parent[i] != i {
        let p = parent[i] as int;
        assert(parent[i] < parent.len() && rank[i] < rank[p]);
        lemma_root_of(parent, rank, p);
    }
}

pub proof fn lemma_root_of_ranks(parent: Seq<usize>, r1: Seq<u8>, r2: Seq<u8>, i: int)
    requires
        ranks_ok(parent, r1),
        ranks_ok(parent, r2),
        0 <= i < parent.len(),
    ensures
        root_of(parent, r1, i) == root_of(parent, r2, i),
    decreases 256 - r1[i],
{
    if parent[i] != i {
        assert(parent[i] < parent.len() && r1[i] < r1[parent[i] as int]);
        lemma_root_of_ranks(parent, r1, r2, parent[i] as int);
    }
}

/// Pointing a non-root `x` straight at its root keeps every root.
pub proof fn lemma_compress(parent: Seq<usize>, rank: Seq<u8>, x: int, y: int)
    requires
        ranks_ok(parent, rank),
        0 <= x < parent.len(),
        0 <= y < parent.len(),
        parent[x] != x,
    ensures
        ranks_ok(parent.update(x, root_of(parent, rank, x) as usize), rank),
        root_of(parent.update(x, root_of(parent, rank, x) as usize), rank, y) == root_of(
            parent,
            rank,
            y,
        ),
    decreases 256 - rank[y],
{
    let r = root_of(parent, rank, x);
    let p2 = parent.update(x, r as usize);
    lemma_root_of(parent, rank, x);
    assert(ranks_ok(p2, rank)) by {
        assert forall|i: int| 0 <= i < p2.len() implies #[trigger] p2[i] < p2.len() && (p2[i] != i
            ==> rank[i] < rank[p2[i] as int]) by {
            if i != x {
                assert(p2[i] == parent[i]);
            }
        }
    }
    assert(p2[r] == r);
    if y == x {
        lemma_root_of(p2, rank, r);
        lemma_root_of(p2, rank, x);
    } else if parent[y] == y {
        lemma_root_of(p2, rank, y);
    } else {
        assert(parent[y] < parent.len() && rank[y] < rank[parent[y] as int]);
        lemma_compress(parent, rank, x, parent[y] as int);
        lemma_root_of(p2, rank, y);
        lemma_root_of(parent, rank, y);
    }
}

/// Linking root `b` below root `a` (with `a`'s rank raised to `ra`) sends
/// `b`'s tree to `a` and keeps every other root.
pub proof fn lemma_link(parent: Seq<usize>, rank: Seq<u8>, a: int, b: int, ra: u8, y: int)
    requires
        ranks_ok(parent, rank),
        0 <= a < parent.len(),
        0 <= b < parent.len(),
        a != b,
        parent[a] == a,
        parent[b] == b,
        rank[a] <= ra,
        rank[b] < ra,
        0 <= y < parent.len(),
    ensures
        ranks_ok(parent.update(b, a as usize), rank.update(a, ra)),
        root_of(parent.update(b, a as usize), rank.update(a, ra), y) == if root_of(parent, rank, y)
            == b {
            a
        } else {
            root_of(parent, rank, y)
        },
    decreases 256 - rank[y],
{
    let p2 = parent.update(b, a as usize);
    let r2 = rank.update(a, ra);
    assert(ranks_ok(p2, r2)) by {
        assert forall|i: int| 0 <= i < p2.len() implies #[trigger] p2[i] < p2.len() && (p2[i] != i
            ==> r2[i] < r2[p2[i] as int]) by {
            if i != b {
                assert(p2[i] == parent[i]);
                if parent[i] != i {
                    assert(rank[i] < rank[parent[i] as int]);
                }
            }
        }
    }
    lemma_root_of(parent, rank, y);
    if parent[y] == y {
        lemma_root_of(p2, r2, y);
        if y == b {
            lemma_root_of(p2, r2, a);
        }
    } else {
        assert(parent[y] < parent.len() && rank[y] < rank[parent[y] as int]);
        lemma_link(parent, rank, a, b, ra, parent[y] as int);
        lemma_root_of(p2, r2, y);
    }
}

pub proof fn lemma_total_same_roots(p1: Seq<usize>, p2: Seq<usize>, size: Seq<nat>, k: int)
    requires
        forall|i: int| 0 <= i < k ==> (p1[i] == i) == (p2[i] == i),
    ensures
        root_total(p1, size, k) == root_total(p2, size, k),
    decreases k,
{
    if k > 0 {
        lemma_total_same_roots(p1, p2, size, k - 1);
    }
}

pub proof fn lemma_total_bounds_root(parent: Seq<usize>, size: Seq<nat>, k: int, x: int)
    requires
        0 <= x < k,
        parent[x] == x,
    ensures
        size[x] <= root_total(parent, size, k),
    decreases k,
{
    if x < k - 1 {
        lemma_total_bounds_root(parent, size, k - 1, x);
    }
}

pub proof fn lemma_total_link(
    parent: Seq<usize>,
    size: Seq<nat>,
    a: int,
    b: int,
    k: int,
)
    requires
        0 <= a < parent.len(),
        0 <= b < parent.len(),
        a != b,
        parent[a] == a,
        parent[b] == b,
        0 <= k <= parent.len(),
        size.len() == parent.len(),
    ensures
        root_total(parent.update(b, a as usize), size.update(a, size[a] + size[b]), k) + (if b < k {
            size[b]
        } else {
            0
        }) == root_total(parent, size, k) + (if a < k {
            size[b]
        } else {
            0
        }),
    decreases k,
{
    if k > 0 {
        lemma_total_link(parent, size, a, b, k - 1);
    }
}

/// Union-find forest over `0..n`.
pub struct DisjointSets {
    parent: Vec<usize>,
    rank: Vec<u8>,
    size: Ghost<Seq<nat>>,
}

impl View for DisjointSets {
    type V = Seq<int>;

    /// The representative of each element.
    closed spec fn view(&self) -> Seq<int> {
        Seq::new(self.parent@.len(), |i: int| root_of(self.parent@, self.rank@, i))
    }
}

impl DisjointSets {
    /// The forest is well formed: ranks grow towards roots, a root of rank
    /// `r` holds at least `2^r` elements, and the roots' sizes add up to the
    /// number of elements.
    pub closed spec fn wf(&self) -> bool {
        &&& ranks_ok(self.parent@, self.rank@)
        &&& self.size@.len() == self.parent@.len()
        &&& forall|i: int|
            0 <= i < self.parent@.len() && self.parent@[i] == i ==> #[trigger] self.size@[i] >= pow2(
                self.rank@[i] as nat,
            )
        &&& root_total(self.parent@, self.size@, self.parent@.len() as int) == self.parent@.len()
    }

    /// Rank of element `i`: an upper bound on the height of its tree when it
    /// is a root.
    pub closed spec fn rank_of(&self, i: int) -> nat {
        self.rank@[i] as nat
    }

    /// Representatives are elements that represent themselves.
    pub proof fn lemma_representatives(&self)
        requires
            self.wf(),
        ensures
            forall|i: int|
                0 <= i < self@.len() ==> 0 <= #[trigger] self@[i] < self@.len() && self@[self@[i]]
                    == self@[i],
    {
        assert forall|i: int| 0 <= i < self@.len() implies 0 <= #[trigger] self@[i] < self@.len()
            && self@[self@[i]] == self@[i] by {
            lemma_root_of(self.parent@, self.rank@, i);
            let r = root_of(self.parent@, self.rank@, i);
            lemma_root_of(self.parent@, self.rank@, r);
        }
    }

    /// `n` singleton sets.
    pub fn new(size: usize) -> (sets: Self)
        ensures
            sets.wf(),
            sets@ == Seq::new(size as nat, |i: int| i),
    {
        let mut parent: Vec<usize> = Vec::new();
        let mut rank: Vec<u8> = Vec::new();
        let mut i: usize = 0;
        while i < size
            invariant
                0 <= i <= size,
                parent@.len() == i,
                rank@.len() == i,
                forall|j: int| 0 <= j < i ==> parent@[j] == j && rank@[j] == 0,
            decreases size - i,
        {
            parent.push(i);
            rank.push(0);
            i = i + 1;
        }
        let ghost ones = Seq::new(size as nat, |j: int| 1nat);
        let sets = DisjointSets { parent, rank, size: Ghost(ones) };
        proof {
            assert(ranks_ok(sets.parent@, sets.rank@));
            lemma2_to64();
            assert forall|k: int| 0 <= k <= size implies root_total(sets.parent@, ones, k) == k by {
                lemma_total_ones(sets.parent@, ones, k);
            }
            assert forall|j: int| 0 <= j < size implies root_of(sets.parent@, sets.rank@, j) == j by {
                lemma_root_of(sets.parent@, sets.rank@, j);
            }
            assert(sets@ =~= Seq::new(size as nat, |j: int| j));
        }
        sets
    }

    /// Number of elements.
    pub fn len(&self) -> (n: usize)
        ensures
            n == self@.len(),
    {
        self.parent.len()
    }

    /// Representative of `index`, pointing every element on the way
    /// straight at it.
    pub fn find(&mut self, index: usize) -> (root: usize)
        requires
            old(self).wf(),
            index < old(self)@.len(),
        ensures
            final(self).wf(),
            final(self)@ == old(self)@,
            root == old(self)@[index as int],
            forall|i: int| 0 <= i < old(self)@.len() ==> #[trigger] final(self).rank_of(i) == old(self).rank_of(i),
    {
        let ghost p0 = self.parent@;
        let ghost rk = self.rank@;
        let mut x = index;
        proof {
            lemma_root_of(p0, rk, index as int);
        }
        while self.parent[x] != x
            invariant
                self.parent@ == p0,
                self.rank@ == rk,
                ranks_ok(p0, rk),
                0 <= x < p0.len(),
                root_of(p0, rk, x as int) == root_of(p0, rk, index as int),
            decreases 256 - rk[x as int],
        {
            proof {
                lemma_root_of(p0, rk, x as int);
            }
            x = self.parent[x];
        }
        let root = x;
        proof {
            lemma_root_of(p0, rk, x as int);
        }
        let mut y = index;
        while y != root
            invariant
                self.rank@ == rk,
                self.size@ == old(self).size@,
                ranks_ok(self.parent@, rk),
                self.parent@.len() == p0.len(),
                0 <= y < p0.len(),
                0 <= root < p0.len(),
                p0 == old(self).parent@,
                root == root_of(p0, rk, index as int),
                root_of(self.parent@, rk, y as int) == root,
                forall|z: int|
                    0 <= z < p0.len() ==> root_of(self.parent@, rk, z) == #[trigger] root_of(p0, rk, z),
                forall|z: int|
                    0 <= z < p0.len() ==> (#[trigger] self.parent@[z] == z) == (p0[z] == z),
            decreases 256 - rk[y as int],
        {
            let ghost p1 = self.parent@;
            proof {
                lemma_root_of(p1, rk, y as int);
                lemma_root_of(p1, rk, root as int);
            }
            let next = self.parent[y];
            proof {
                assert forall|z: int| 0 <= z < p0.len() implies root_of(
                    p1.update(y as int, root),
                    rk,
                    z,
                ) == root_of(p1, rk, z) by {
                    lemma_compress(p1, rk, y as int, z);
                }
                lemma_compress(p1, rk, y as int, next as int);
                lemma_root_of(p1, rk, next as int);
            }
            self.parent.set(y, root);
            assert(self.parent@ == p1.update(y as int, root));
            y = next;
        }
        proof {
            lemma_total_same_roots(self.parent@, p0, self.size@, p0.len() as int);
            assert(self@ =~= old(self)@);
        }
        root
    }

    /// Merge the sets of `a` and `b`: the deeper tree's root becomes the
    /// root of both.
    pub fn union(&mut self, a: usize, b: usize)
        requires
            old(self).wf(),
            a < old(self)@.len(),
            b < old(self)@.len(),
        ensures
            final(self).wf(),
            final(self)@.len() == old(self)@.len(),
            old(self)@[a as int] == old(self)@[b as int] ==> final(self)@ == old(self)@,
            old(self)@[a as int] != old(self)@[b as int] ==> final(self)@[a as int] == if old(self).rank_of(
                old(self)@[a as int],
            ) < old(self).rank_of(old(self)@[b as int]) {
                old(self)@[b as int]
            } else {
                old(self)@[a as int]
            },
            old(self)@[a as int] != old(self)@[b as int] ==> final(self).rank_of(final(self)@[a as int])
                == if old(self).rank_of(old(self)@[a as int]) == old(self).rank_of(old(self)@[b as int]) {
                old(self).rank_of(old(self)@[a as int]) + 1
            } else {
                old(self).rank_of(final(self)@[a as int])
            },
            forall|i: int|
                0 <= i < old(self)@.len() && i != final(self)@[a as int] ==> #[trigger] final(self).rank_of(i)
                    == old(self).rank_of(i),
            forall|z: int|
                0 <= z < old(self)@.len() ==> #[trigger] final(self)@[z] == if old(self)@[z] == old(
                    self,
                )@[a as int] || old(self)@[z] == old(self)@[b as int] {
                    final(self)@[a as int]
                } else {
                    old(self)@[z]
                },
    {
        let ghost v0 = self@;
        let ghost r0 = self.rank@;
        proof {
            self.lemma_representatives();
        }
        let mut a_root = self.find(a);
        let ghost r1 = self.rank@;
        proof {
            assert forall|x: int| 0 <= x < v0.len() implies #[trigger] r1[x] == r0[x] by {
                assert(self.rank_of(x) == r1[x] as nat);
            }
        }
        let mut b_root = self.find(b);
        let ghost a0 = a_root;
        let ghost b0 = b_root;
        proof {
            assert forall|x: int| 0 <= x < v0.len() implies #[trigger] self.rank@[x] == r0[x] by {
                assert(self.rank_of(x) == self.rank@[x] as nat);
            }
        }
        let ghost pf = self.parent@;
        let ghost rf = self.rank@;
        let ghost sf = self.size@;
        let n = self.parent.len();
        proof {
            self.lemma_representatives();
            lemma_root_of(pf, rf, a_root as int);
            lemma_root_of(pf, rf, b_root as int);
        }
        if a_root == b_root {
            return;
        }
        if self.rank[a_root] < self.rank[b_root] {
            let t = a_root;
            a_root = b_root;
            b_root = t;
        }
        let ra = self.rank[a_root];
        let rb = self.rank[b_root];
        proof {
            lemma_total_bounds_root(pf, sf, n as int, a_root as int);
            lemma_total_bounds_root(pf, sf, n as int, b_root as int);
            lemma2_to64();
            if ra >= 64 {
                if ra > 64 {
                    lemma_pow2_strictly_increases(64, ra as nat);
                }
            }
        }
        assert(ra < 64);
        let new_rank: u8 = if ra == rb {
            ra + 1
        } else {
            ra
        };
        self.parent.set(b_root, a_root);
        self.rank.set(a_root, new_rank);
        self.size = Ghost(sf.update(a_root as int, sf[a_root as int] + sf[b_root as int]));
        proof {
            let p2 = self.parent@;
            let r2 = self.rank@;
            let s2 = self.size@;
            assert(p2 == pf.update(b_root as int, a_root));
            assert(r2 == rf.update(a_root as int, new_rank));
            assert forall|z: int| 0 <= z < n implies root_of(p2, r2, z) == if root_of(pf, rf, z)
                == b_root {
                a_root as int
            } else {
                root_of(pf, rf, z)
            } by {
                lemma_link(pf, rf, a_root as int, b_root as int, new_rank, z);
            }
            lemma_link(pf, rf, a_root as int, b_root as int, new_rank, 0);
            lemma_total_link(pf, sf, a_root as int, b_root as int, n as int);
            assert forall|i: int| 0 <= i < n && p2[i] == i implies #[trigger] s2[i] >= pow2(
                r2[i] as nat,
            ) by {
                if i == a_root {
                    if ra == rb {
                        lemma_pow2_unfold((ra + 1) as nat);
                    }
                } else {
                    assert(pf[i] == i);
                }
            }
            assert(self@[a as int] == root_of(p2, r2, a as int));
            lemma_link(pf, rf, a_root as int, b_root as int, new_rank, a as int);
            assert(root_of(pf, rf, a as int) == v0[a as int]);
            assert(rf[a0 as int] == r0[a0 as int]);
            assert(rf[b0 as int] == r0[b0 as int]);
            assert forall|z: int| 0 <= z < n implies #[trigger] self@[z] == if v0[z] == v0[a as int]
                || v0[z] == v0[b as int] {
                self@[a as int]
            } else {
                v0[z]
            } by {
                lemma_link(pf, rf, a_root as int, b_root as int, new_rank, z);
                lemma_link(pf, rf, a_root as int, b_root as int, new_rank, a as int);
            }
        }
    }
}

/// `x` and `y` are joined by the chain of `pairs`: the equivalence that
/// merging the two elements of each pair in turn produces.
pub open spec fn joined(pairs: Seq<(usize, usize)>, x: int, y: int) -> bool
    decreases pairs.len(),
{
    if pairs.len() == 0 {
        x == y
    } else {
        let a = pairs.last().0 as int;
        let b = pairs.last().1 as int;
        let p = pairs.drop_last();
        joined(p, x, y) || (joined(p, x, a) && joined(p, b, y)) || (joined(p, x, b) && joined(
            p,
            a,
            y,
        ))
    }
}

/// `x` is the first element of its cluster.
pub open spec fn first_in_cluster(pairs: Seq<(usize, usize)>, x: int) -> bool {
    forall|y: int| 0 <= y < x ==> !joined(pairs, x, y)
}

/// Number of clusters that start before `k`.
pub open spec fn clusters_before(pairs: Seq<(usize, usize)>, k: int) -> nat
    decreases k,
{
    if k <= 0 {
        0
    } else {
        clusters_before(pairs, k - 1) + if first_in_cluster(pairs, k - 1) {
            1nat
        } else {
            0nat
        }
    }
}

/// `map` numbers the clusters of `pairs` over `0..n` in order of their
/// first element.
pub open spec fn is_cluster_numbering(map: Seq<usize>, pairs: Seq<(usize, usize)>, n: nat) -> bool {
    &&& map.len() == n
    &&& forall|x: int, y: int|
        0 <= x < n && 0 <= y < n ==> (#[trigger] map[x] == #[trigger] map[y] <==> joined(
            pairs,
            x,
            y,
        ))
    &&& forall|x: int| 0 <= x < n && first_in_cluster(pairs, x) ==> #[trigger] map[x] == clusters_before(pairs, x)
    &&& forall|x: int| 0 <= x < n ==> #[trigger] map[x] < clusters_before(pairs, n as int)
}

/// Some vertex below `n` is in cluster `c`.
pub open spec fn cluster_used(map: Seq<usize>, n: nat, c: int) -> bool {
    exists|x: int| 0 <= x < n && map[x] == c
}

/// Every cluster number below `count` has a vertex.
pub open spec fn every_cluster_used(map: Seq<usize>, n: nat, count: nat) -> bool {
    forall|c: int| 0 <= c < count ==> #[trigger] cluster_used(map, n, c)
}

/// Each pair is in range.
pub open spec fn pairs_in_range(pairs: Seq<(usize, usize)>, n: nat) -> bool {
    forall|k: int| 0 <= k < pairs.len() ==> #[trigger] pairs[k].0 < n && pairs[k].1 < n
}

/// Cluster the vertices `0..vertex_count` by merging the two vertices of
/// each pair; the clusters are numbered in order of their first vertex.
/// Returns the cluster of each vertex and the number of clusters.
pub fn sew_vertex_map(vertex_count: usize, close_pairs: &[(usize, usize)]) -> (r: (Vec<usize>, usize))
    requires
        pairs_in_range(close_pairs@, vertex_count as nat),
    ensures
        is_cluster_numbering(r.0@, close_pairs@, vertex_count as nat),
        r.1 == clusters_before(close_pairs@, vertex_count as int),
        r.1 <= vertex_count,
        every_cluster_used(r.0@, vertex_count as nat, r.1 as nat),
{
    let n = vertex_count;
    let ghost pairs = close_pairs@;
    let mut sets = DisjointSets::new(n);
    let mut k: usize = 0;
    assert(pairs.subrange(0, 0) =~= Seq::<(usize, usize)>::empty());
    while k < close_pairs.len()
        invariant
            0 <= k <= pairs.len(),
            pairs == close_pairs@,
            pairs_in_range(pairs, n as nat),
            sets.wf(),
            sets@.len() == n,
            forall|x: int, y: int|
                0 <= x < n && 0 <= y < n ==> (#[trigger] sets@[x] == #[trigger] sets@[y] <==> joined(
                    pairs.subrange(0, k as int),
                    x,
                    y,
                )),
        decreases pairs.len() - k,
    {
        let (a, b) = close_pairs[k];
        assert(pairs[k as int] == (a, b));
        assert(a < n && b < n);
        let ghost old_view = sets@;
        proof {
            sets.lemma_representatives();
        }
        sets.union(a, b);
        proof {
            let p = pairs.subrange(0, k as int);
            let q = pairs.subrange(0, k + 1);
            assert(q.drop_last() =~= p);
            assert(q.last() == (a, b));
            assert forall|x: int, y: int| 0 <= x < n && 0 <= y < n implies (#[trigger] sets@[x]
                == #[trigger] sets@[y] <==> joined(q, x, y)) by {
                assert(old_view[x] == old_view[x]);
                assert(joined(p, x, a as int) == (old_view[x] == old_view[a as int]));
                assert(joined(p, x, b as int) == (old_view[x] == old_view[b as int]));
                assert(joined(p, b as int, y) == (old_view[b as int] == old_view[y]));
                assert(joined(p, a as int, y) == (old_view[a as int] == old_view[y]));
                assert(joined(p, x, y) == (old_view[x] == old_view[y]));
            }
        }
        k = k + 1;
    }
    assert(pairs.subrange(0, k as int) =~= pairs);
    let ghost v = sets@;
    let mut table: Vec<(usize, usize)> = Vec::new();
    let mut map: Vec<usize> = Vec::new();
    let mut count: usize = 0;
    let ghost mut entry_of: Seq<int> = Seq::empty();
    let mut index: usize = 0;
    while index < n
        invariant
            0 <= index <= n,
            sets.wf(),
            sets@ == v,
            v.len() == n,
            forall|x: int, y: int|
                0 <= x < n && 0 <= y < n ==> (#[trigger] v[x] == #[trigger] v[y] <==> joined(pairs, x, y)),
            map@.len() == index,
            count == clusters_before(pairs, index as int),
            count <= index,
            entry_of.len() == index,
            forall|y: int|
                0 <= y < index ==> 0 <= #[trigger] entry_of[y] < table@.len() && table@[entry_of[y]].0
                    == v[y] && table@[entry_of[y]].1 == map@[y],
            forall|j: int|
                0 <= j < table@.len() ==> exists|y: int|
                    0 <= y < index && v[y] == #[trigger] table@[j].0 && map@[y] == table@[j].1,
            forall|x: int, y: int|
                0 <= x < index && 0 <= y < index ==> (#[trigger] map@[x] == #[trigger] map@[y] <==> v[x]
                    == v[y]),
            forall|x: int|
                0 <= x < index && first_in_cluster(pairs, x) ==> #[trigger] map@[x] == clusters_before(
                    pairs,
                    x,
                ),
            forall|x: int| 0 <= x < index ==> #[trigger] map@[x] < count,
        decreases n - index,
    {
        let root = sets.find(index);
        assert(root == v[index as int]);
        match first_key_index(table.as_slice(), root) {
            Some(j) => {
                let label = table[j].1;
                let ghost y0 = choose|y: int|
                    0 <= y < index && v[y] == table@[j as int].0 && map@[y] == table@[j as int].1;
                map.push(label);
                proof {
                    entry_of = entry_of.push(j as int);
                    assert(joined(pairs, index as int, y0));
                    assert(!first_in_cluster(pairs, index as int));
                    assert forall|x: int, y: int|
                        0 <= x < index + 1 && 0 <= y < index + 1 implies (#[trigger] map@[x]
                        == #[trigger] map@[y] <==> v[x] == v[y]) by {
                        if x == index {
                            assert(map@[x] == map@[y0]);
                        }
                        if y == index {
                            assert(map@[y] == map@[y0]);
                        }
                    }
                    assert forall|jj: int| 0 <= jj < table@.len() implies exists|y: int|
                        0 <= y < index + 1 && v[y] == #[trigger] table@[jj].0 && map@[y]
                            == table@[jj].1 by {
                        let w = choose|y: int|
                            0 <= y < index && v[y] == table@[jj].0 && map@[y] == table@[jj].1;
                        assert(map@[w] == table@[jj].1);
                    }
                }
            },
            None => {
                proof {
                    assert forall|y: int| 0 <= y < index implies !joined(pairs, index as int, y) by {
                        assert(table@[entry_of[y]].0 == v[y]);
                    }
                    assert(first_in_cluster(pairs, index as int));
                }
                let ghost t0 = table@;
                table.push((root, count));
                map.push(count);
                proof {
                    entry_of = entry_of.push(t0.len() as int);
                    assert forall|x: int, y: int|
                        0 <= x < index + 1 && 0 <= y < index + 1 implies (#[trigger] map@[x]
                        == #[trigger] map@[y] <==> v[x] == v[y]) by {
                        if x == index && y < index {
                            assert(table@[entry_of[y]].0 == v[y]);
                        }
                        if y == index && x < index {
                            assert(table@[entry_of[x]].0 == v[x]);
                        }
                    }
                    assert forall|jj: int| 0 <= jj < table@.len() implies exists|y: int|
                        0 <= y < index + 1 && v[y] == #[trigger] table@[jj].0 && map@[y]
                            == table@[jj].1 by {
                        if jj < t0.len() {
                            let w = choose|y: int|
                                0 <= y < index && v[y] == t0[jj].0 && map@[y] == t0[jj].1;
                            assert(map@[w] == table@[jj].1);
                        } else {
                            assert(map@[index as int] == table@[jj].1);
                        }
                    }
                }
                count = count + 1;
            },
        }
        index = index + 1;
    }
    proof {
        assert forall|c: int| 0 <= c < count implies #[trigger] cluster_used(map@, n as nat, c) by {
            lemma_cluster_starts(pairs, n as int, c);
            let x = choose|x: int| 0 <= x < n && first_in_cluster(pairs, x) && clusters_before(pairs, x) == c;
            assert(map@[x] == c);
        }
    }
    (map, count)
}

/// Every cluster number below `clusters_before(pairs, k)` is that of a
/// first element below `k`.
proof fn lemma_cluster_starts(pairs: Seq<(usize, usize)>, k: int, c: int)
    requires
        0 <= c < clusters_before(pairs, k),
    ensures
        exists|x: int| 0 <= x < k && first_in_cluster(pairs, x) && clusters_before(pairs, x) == c,
    decreases k,
{
    if k > 0 {
        if c < clusters_before(pairs, k - 1) {
            lemma_cluster_starts(pairs, k - 1, c);
        } else {
            assert(first_in_cluster(pairs, k - 1));
            assert(clusters_before(pairs, k - 1) == c);
        }
    }
}

/// Combinatorial result of sewing a triangle mesh.
#[derive(Clone, Debug, PartialEq, Eq)]
pub struct SewnTopology {
    /// Cluster of each input vertex.
    pub vertex_map: Vec<usize>,
    /// Number of clusters, that is of output vertices.
    pub output_vertices: usize,
    /// Input vertices merged into another vertex.
    pub merged_vertices: usize,
    /// Triangles over the clusters.
    pub triangles: Vec<[usize; 3]>,
    /// Triangles dropped because they collapsed.
    pub removed_degenerate_triangles: usize,
}

/// Sew `vertex_count` vertices by the close pairs and rewrite the
/// triangles over the clusters. Every cluster number is used; the merged
/// count is the input count minus the cluster count.
pub fn sew_mesh_topology(vertex_count: usize, close_pairs: &[(usize, usize)], triangles: &[[usize; 3]]) -> (r:
    Result<SewnTopology, TopologyError>)
    requires
        pairs_in_range(close_pairs@, vertex_count as nat),
    ensures
        match r {
            Ok(t) => {
                &&& is_cluster_numbering(t.vertex_map@, close_pairs@, vertex_count as nat)
                &&& t.output_vertices == clusters_before(close_pairs@, vertex_count as int)
                &&& t.output_vertices <= vertex_count
                &&& every_cluster_used(t.vertex_map@, vertex_count as nat, t.output_vertices as nat)
                &&& t.merged_vertices == vertex_count - t.output_vertices
                &&& sewn_triangles(t.vertex_map@, triangles@) == Ok::<(Seq<[usize; 3]>, nat), usize>(
                    (t.triangles@, t.removed_degenerate_triangles as nat),
                )
            },
            Err(e) => exists|map: Seq<usize>|
                #[trigger] is_cluster_numbering(map, close_pairs@, vertex_count as nat) && (
                sewn_triangles(map, triangles@) is Err) && e == TopologyError::InvalidVertex(
                    sewn_triangles(map, triangles@)->Err_0,
                ),
        },
{
    let (vertex_map, output_vertices) = sew_vertex_map(vertex_count, close_pairs);
    let sewn = sew_triangles(&vertex_map, triangles);
    match sewn {
        Ok((tris, removed)) => Ok(
            SewnTopology {
                vertex_map,
                output_vertices,
                merged_vertices: vertex_count - output_vertices,
                triangles: tris,
                removed_degenerate_triangles: removed,
            },
        ),
        Err(e) => Err(e),
    }
}

/// The sewn triangles of `tris` under `map` and the number of triangles
/// that collapsed, or the first corner without a vertex.
pub open spec fn sewn_triangles(map: Seq<usize>, tris: Seq<[usize; 3]>) -> Result<
    (Seq<[usize; 3]>, nat),
    usize,
>
    decreases tris.len(),
{
    if tris.len() == 0 {
        Ok((seq![], 0))
    } else {
        match sewn_triangles(map, tris.drop_last()) {
            Err(v) => Err(v),
            Ok((out, removed)) => {
                let t = tris.last();
                if t[0] >= map.len() {
                    Err(t[0])
                } else if t[1] >= map.len() {
                    Err(t[1])
                } else if t[2] >= map.len() {
                    Err(t[2])
                } else {
                    let s = [map[t[0] as int], map[t[1] as int], map[t[2] as int]];
                    if s[0] == s[1] || s[1] == s[2] || s[2] == s[0] {
                        Ok((out, removed + 1))
                    } else {
                        Ok((out.push(s), removed))
                    }
                }
            },
        }
    }
}

/// Rewrite triangles through the sewn vertex map, dropping those that
/// collapse; returns the kept triangles and the number dropped.
pub fn sew_triangles(vertex_map: &[usize], triangles: &[[usize; 3]]) -> (r: Result<
    (Vec<[usize; 3]>, usize),
    TopologyError,
>)
    ensures
        match sewn_triangles(vertex_map@, triangles@) {
            Ok((out, removed)) => r matches Ok((v, c)) && v@ == out && c == removed,
            Err(v) => r == Err::<(Vec<[usize; 3]>, usize), TopologyError>(
                TopologyError::InvalidVertex(v),
            ),
        },
{
    let ghost tris = triangles@;
    let mut out: Vec<[usize; 3]> = Vec::new();
    let mut removed: usize = 0;
    let mut i: usize = 0;
    assert(tris.subrange(0, 0) =~= Seq::<[usize; 3]>::empty());
    while i < triangles.len()
        invariant
            0 <= i <= tris.len(),
            tris == triangles@,
            removed <= i,
            sewn_triangles(vertex_map@, tris.subrange(0, i as int)) == Ok::<
                (Seq<[usize; 3]>, nat),
                usize,
            >((out@, removed as nat)),
        decreases tris.len() - i,
    {
        let t = triangles[i];
        let ghost pre = tris.subrange(0, i + 1);
        assert(pre.drop_last() =~= tris.subrange(0, i as int));
        assert(pre.last() == t);
        let mut k: usize = 0;
        while k < 3
            invariant
                0 <= k <= 3,
                0 <= i < tris.len(),
                tris == triangles@,
                t == tris[i as int],
                pre == tris.subrange(0, i + 1),
                pre.drop_last() == tris.subrange(0, i as int),
                pre.last() == t,
                sewn_triangles(vertex_map@, tris.subrange(0, i as int)) == Ok::<
                    (Seq<[usize; 3]>, nat),
                    usize,
                >((out@, removed as nat)),
                forall|q: int| 0 <= q < k ==> t[q] < vertex_map@.len(),
            decreases 3 - k,
        {
            if t[k] >= vertex_map.len() {
                proof {
                    assert(sewn_triangles(vertex_map@, pre) == Err::<(Seq<[usize; 3]>, nat), usize>(
                        t[k as int],
                    ));
                    lemma_sewn_prefix_error(vertex_map@, tris, i as int + 1, t[k as int]);
                }
                return Err(TopologyError::InvalidVertex(t[k]));
            }
            k = k + 1;
        }
        let s = [vertex_map[t[0]], vertex_map[t[1]], vertex_map[t[2]]];
        if s[0] == s[1] || s[1] == s[2] || s[2] == s[0] {
            removed = removed + 1;
        } else {
            out.push(s);
        }
        i = i + 1;
    }
    assert(tris.subrange(0, i as int) =~= tris);
    Ok((out, removed))
}

pub proof fn lemma_sewn_prefix_error(map: Seq<usize>, tris: Seq<[usize; 3]>, k: int, v: usize)
    requires
        0 <= k <= tris.len(),
        sewn_triangles(map, tris.subrange(0, k)) == Err::<(Seq<[usize; 3]>, nat), usize>(v),
    ensures
        sewn_triangles(map, tris) == Err::<(Seq<[usize; 3]>, nat), usize>(v),
    decreases tris.len() - k,
{
    if k < tris.len() {
        let pre = tris.subrange(0, k + 1);
        assert(pre.drop_last() =~= tris.subrange(0, k));
        lemma_sewn_prefix_error(map, tris, k + 1, v);
    } else {
        assert(tris.subrange(0, k) =~= tris);
    }
}

/// Every element is joined with itself.
pub proof fn lemma_joined_reflexive(pairs: Seq<(usize, usize)>, x: int)
    ensures
        joined(pairs, x, x),
    decreases pairs.len(),
{
    if pairs.len() > 0 {
        lemma_joined_reflexive(pairs.drop_last(), x);
    }
}

/// Later pairs never separate what earlier pairs joined.
pub proof fn lemma_joined_extends(pairs: Seq<(usize, usize)>, k: int, x: int, y: int)
    requires
        0 <= k <= pairs.len(),
        joined(pairs.subrange(0, k), x, y),
    ensures
        joined(pairs, x, y),
    decreases pairs.len() - k,
{
    if k < pairs.len() {
        let q = pairs.subrange(0, k + 1);
        assert(q.drop_last() =~= pairs.subrange(0, k));
        lemma_joined_extends(pairs, k + 1, x, y);
    } else {
        assert(pairs.subrange(0, k) =~= pairs);
    }
}

/// Sewing puts the two vertices of every close pair in one cluster.
pub proof fn lemma_close_pairs_share_cluster(
    map: Seq<usize>,
    pairs: Seq<(usize, usize)>,
    n: nat,
    k: int,
)
    requires
        is_cluster_numbering(map, pairs, n),
        pairs_in_range(pairs, n),
        0 <= k < pairs.len(),
    ensures
        map[pairs[k].0 as int] == map[pairs[k].1 as int],
{
    let a = pairs[k].0 as int;
    let b = pairs[k].1 as int;
    let q = pairs.subrange(0, k + 1);
    lemma_joined_reflexive(q.drop_last(), a);
    lemma_joined_reflexive(q.drop_last(), b);
    assert(q.last() == pairs[k]);
    assert(joined(q, a, b));
    assert(pairs.subrange(0, k + 1) == q);
    lemma_joined_extends(pairs, k + 1, a, b);
    assert(pairs[k].0 < n && pairs[k].1 < n);
}

/// Every input triangle is either kept, with three distinct sewn corners,
/// or counted as removed.
pub proof fn lemma_sewn_triangles_account(map: Seq<usize>, tris: Seq<[usize; 3]>)
    ensures
        sewn_triangles(map, tris) matches Ok((out, removed)) ==> sewn_counts_ok(out, removed, tris.len()),
    decreases tris.len(),
{
    if tris.len() > 0 {
        lemma_sewn_triangles_account(map, tris.drop_last());
        match sewn_triangles(map, tris.drop_last()) {
            Ok((out, removed)) => {
                let t = tris.last();
                if t[0] < map.len() && t[1] < map.len() && t[2] < map.len() {
                    let s = [map[t[0] as int], map[t[1] as int], map[t[2] as int]];
                    if !(s[0] == s[1] || s[1] == s[2] || s[2] == s[0]) {
                        let o2 = out.push(s);
                        assert(sewn_triangles(map, tris) == Ok::<(Seq<[usize; 3]>, nat), usize>(
                            (o2, removed),
                        ));
                        assert forall|j: int| 0 <= j < o2.len() implies distinct_corners(
                            #[trigger] o2[j],
                        ) by {
                            if j < out.len() {
                                assert(o2[j] == out[j]);
                                assert(distinct_corners(out[j]));
                            } else {
                                assert(o2[j] == s);
                            }
                        }
                        assert(sewn_counts_ok(o2, removed, tris.len()));
                    } else {
                        assert(sewn_triangles(map, tris) == Ok::<(Seq<[usize; 3]>, nat), usize>(
                            (out, removed + 1),
                        ));
                        assert(sewn_counts_ok(out, removed + 1, tris.len()));
                    }
                }
            },
            Err(_) => {},
        }
    }
}

/// The sewn triangles account for all `total` input triangles and each has
/// three distinct corners.
pub open spec fn sewn_counts_ok(out: Seq<[usize; 3]>, removed: nat, total: nat) -> bool {
    &&& out.len() + removed == total
    &&& forall|j: int| 0 <= j < out.len() ==> distinct_corners(#[trigger] out[j])
}

/// A triangle with three distinct corners.
pub open spec fn distinct_corners(t: [usize; 3]) -> bool {
    t[0] != t[1] && t[1] != t[2] && t[2] != t[0]
}

pub proof fn lemma_total_ones(parent: Seq<usize>, ones: Seq<nat>, k: int)
    requires
        0 <= k <= parent.len(),
        ones.len() == parent.len(),
        forall|j: int| 0 <= j < parent.len() ==> parent[j] == j && ones[j] == 1,
    ensures
        root_total(parent, ones, k) == k,
    decreases k,
{
    if k > 0 {
        lemma_total_ones(parent, ones, k - 1);
    }
}

} // verus!
