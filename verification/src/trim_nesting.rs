//! Nesting of the trim loops of one face. Loops are compared by the rank of
//! their enclosed area (equal areas, equal ranks) and by whether the
//! interior probe of one loop lies inside or on another; from those the
//! library picks each loop's parent, counts its depth and checks that inner
//! loops sit directly in the outer loop.
use vstd::prelude::*;
use crate::topology::{FaceId, TopologyError, TrimLoopKind};

verus! {

/// The containment table as rows of booleans: `rows(contains)[c][i]` holds
/// when the probe of loop `i` lies inside or on loop `c`.
pub open spec fn rows(contains: Seq<Vec<bool>>) -> Seq<Seq<bool>> {
    contains.map_values(|row: Vec<bool>| row@)
}

/// Loop `c` may contain loop `child`: it is another loop, its area is
/// strictly larger, and the probe of `child` lies inside or on `c`.
pub open spec fn may_contain(ranks: Seq<u64>, contains: Seq<Seq<bool>>, child: int, c: int) -> bool {
    &&& 0 <= c < ranks.len()
    &&& c != child
    &&& ranks[c] > ranks[child]
    &&& contains[c][child]
}

/// `p` is the parent of `child`: of the loops that may contain `child`, it
/// has the smallest area, and no earlier loop has an area that small.
pub open spec fn is_nesting_parent(ranks: Seq<u64>, contains: Seq<Seq<bool>>, child: int, p: int) -> bool {
    &&& may_contain(ranks, contains, child, p)
    &&& forall|c: int| #[trigger] may_contain(ranks, contains, child, c) ==> ranks[p] <= ranks[c]
    &&& forall|c: int| 0 <= c < p && #[trigger] may_contain(ranks, contains, child, c) ==> ranks[c] > ranks[p]
}

/// The rank and containment tables describe `n` loops.
pub open spec fn nesting_input_ok(ranks: Seq<u64>, contains: Seq<Seq<bool>>) -> bool {
    &&& contains.len() == ranks.len()
    &&& forall|c: int| 0 <= c < contains.len() ==> (#[trigger] contains[c]).len() == ranks.len()
}

/// Every parent link is in range and goes to a loop of strictly larger rank.
pub open spec fn parents_ascend(parents: Seq<Option<usize>>, ranks: Seq<u64>) -> bool {
    &&& parents.len() == ranks.len()
    &&& forall|i: int|
        0 <= i < parents.len() ==> match #[trigger] parents[i] {
            Some(p) => p < ranks.len() && ranks[p as int] > ranks[i],
            None => true,
        }
}

/// Number of parent links followed from loop `i` until a loop without a
/// parent.
pub open spec fn chain_depth(parents: Seq<Option<usize>>, ranks: Seq<u64>, i: int) -> nat
    decreases u64::MAX - (if 0 <= i < ranks.len() { ranks[i] as int } else { 0 }),
{
    if 0 <= i < parents.len() && i < ranks.len() {
        match parents[i] {
            Some(p) => if p < ranks.len() && ranks[p as int] > ranks[i] {
                1 + chain_depth(parents, ranks, p as int)
            } else {
                0
            },
            None => 0,
        }
    } else {
        0
    }
}

/// Number of loops below `k` whose rank is strictly above `r`.
pub open spec fn count_above(ranks: Seq<u64>, r: u64, k: int) -> nat
    decreases k,
{
    if k <= 0 {
        0
    } else {
        count_above(ranks, r, k - 1) + if ranks[k - 1] > r {
            1nat
        } else {
            0nat
        }
    }
}

proof fn lemma_count_above_bounds(ranks: Seq<u64>, r: u64, k: int)
    requires
        0 <= k,
    ensures
        count_above(ranks, r, k) <= k,
    decreases k,
{
    if k > 0 {
        lemma_count_above_bounds(ranks, r, k - 1);
    }
}

proof fn lemma_count_above_strict(ranks: Seq<u64>, lo: u64, hi: u64, p: int, k: int)
    requires
        0 <= k <= ranks.len(),
        lo < hi,
        0 <= p < ranks.len(),
        ranks[p] > lo,
        ranks[p] <= hi,
    ensures
        count_above(ranks, hi, k) + (if p < k { 1int } else { 0int }) <= count_above(ranks, lo, k),
    decreases k,
{
    if k > 0 {
        lemma_count_above_strict(ranks, lo, hi, p, k - 1);
    }
}

proof fn lemma_chain_depth_bound(parents: Seq<Option<usize>>, ranks: Seq<u64>, i: int)
    requires
        parents_ascend(parents, ranks),
        0 <= i < ranks.len(),
    ensures
        chain_depth(parents, ranks, i) <= count_above(ranks, ranks[i], ranks.len() as int),
    decreases u64::MAX - ranks[i],
{
    match parents[i] {
        Some(p) => {
            lemma_chain_depth_bound(parents, ranks, p as int);
            lemma_count_above_strict(ranks, ranks[i], ranks[p as int], p as int, ranks.len() as int);
        },
        None => {},
    }
}

/// Pick the parent of every loop: the loop of smallest area among those
/// that may contain it, the first such loop on ties, or none.
pub fn trim_loop_parents(ranks: &[u64], contains: &[Vec<bool>]) -> (parents: Vec<Option<usize>>)
    requires
        nesting_input_ok(ranks@, rows(contains@)),
    ensures
        parents_chosen(ranks@, rows(contains@), parents@),
{
    let ghost table = rows(contains@);
    let n = ranks.len();
    let mut parents: Vec<Option<usize>> = Vec::new();
    let mut child: usize = 0;
    while child < n
        invariant
            n == ranks@.len(),
            table == rows(contains@),
            nesting_input_ok(ranks@, table),
            child <= n,
            parents@.len() == child,
            forall|i: int|
                0 <= i < child ==> match #[trigger] parents@[i] {
                    Some(p) => is_nesting_parent(ranks@, table, i, p as int),
                    None => forall|c: int| !may_contain(ranks@, table, i, c),
                },
        decreases n - child,
    {
        let mut best: Option<usize> = None;
        let mut candidate: usize = 0;
        while candidate < n
            invariant
                n == ranks@.len(),
                table == rows(contains@),
                nesting_input_ok(ranks@, table),
                child < n,
                candidate <= n,
                match best {
                    Some(p) => {
                        &&& p < candidate
                        &&& may_contain(ranks@, table, child as int, p as int)
                        &&& forall|c: int|
                            0 <= c < candidate && #[trigger] may_contain(ranks@, table, child as int, c)
                                ==> ranks@[p as int] <= ranks@[c]
                        &&& forall|c: int|
                            0 <= c < p && #[trigger] may_contain(ranks@, table, child as int, c)
                                ==> ranks@[c] > ranks@[p as int]
                    },
                    None => forall|c: int|
                        0 <= c < candidate ==> !#[trigger] may_contain(ranks@, table, child as int, c),
                },
            decreases n - candidate,
        {
            proof {
                assert(table[candidate as int] == contains@[candidate as int]@);
            }
            if candidate != child && ranks[candidate] > ranks[child] && contains[candidate][child] {
                let better = match best {
                    Some(p) => ranks[candidate] < ranks[p],
                    None => true,
                };
                if better {
                    best = Some(candidate);
                }
            }
            candidate += 1;
        }
        proof {
            match best {
                Some(p) => {
                    assert forall|c: int| #[trigger] may_contain(ranks@, table, child as int, c) implies ranks@[p as int]
                        <= ranks@[c] by {
                        assert(0 <= c < candidate);
                    }
                },
                None => {
                    assert forall|c: int| !#[trigger] may_contain(ranks@, table, child as int, c) by {
                        if may_contain(ranks@, table, child as int, c) {
                            assert(0 <= c < candidate);
                        }
                    }
                },
            }
        }
        parents.push(best);
        child += 1;
    }
    parents
}

/// Number of parent links followed from loop `index` to a top-level loop.
pub fn nesting_depth(index: usize, parents: &[Option<usize>], ranks: &[u64]) -> (depth: usize)
    requires
        parents_ascend(parents@, ranks@),
        index < ranks@.len(),
    ensures
        depth == chain_depth(parents@, ranks@, index as int),
{
    let n = ranks.len();
    let mut depth: usize = 0;
    let mut cursor: usize = index;
    proof {
        lemma_chain_depth_bound(parents@, ranks@, index as int);
        lemma_count_above_bounds(ranks@, ranks@[index as int], n as int);
    }
    loop
        invariant
            n == ranks@.len(),
            parents_ascend(parents@, ranks@),
            index < n,
            cursor < n,
            ranks@[cursor as int] >= ranks@[index as int],
            depth + chain_depth(parents@, ranks@, cursor as int) == chain_depth(parents@, ranks@, index as int),
            chain_depth(parents@, ranks@, index as int) <= n,
        decreases u64::MAX - ranks@[cursor as int],
    {
        match parents[cursor] {
            Some(p) => {
                depth += 1;
                cursor = p;
            },
            None => {
                return depth;
            },
        }
    }
}

/// The depth of every loop, in loop order.
pub fn trim_loop_depths(parents: &[Option<usize>], ranks: &[u64]) -> (depths: Vec<usize>)
    requires
        parents_ascend(parents@, ranks@),
    ensures
        depths@.len() == ranks@.len(),
        forall|i: int| 0 <= i < depths@.len() ==> #[trigger] depths@[i] == chain_depth(parents@, ranks@, i),
{
    let mut depths: Vec<usize> = Vec::new();
    let mut i: usize = 0;
    while i < ranks.len()
        invariant
            parents_ascend(parents@, ranks@),
            i <= ranks@.len(),
            depths@.len() == i,
            forall|j: int| 0 <= j < i ==> #[trigger] depths@[j] == chain_depth(parents@, ranks@, j),
        decreases ranks@.len() - i,
    {
        depths.push(nesting_depth(i, parents, ranks));
        i += 1;
    }
    depths
}

/// Loop `i` is nested as its role asks: an outer loop is top level with
/// depth zero, an inner loop has a parent that is an outer loop.
pub open spec fn nesting_ok(
    kinds: Seq<TrimLoopKind>,
    parents: Seq<Option<usize>>,
    depths: Seq<usize>,
    i: int,
) -> bool {
    match kinds[i] {
        TrimLoopKind::Outer => parents[i] is None && depths[i] == 0,
        TrimLoopKind::Inner => match parents[i] {
            Some(p) => kinds[p as int] == TrimLoopKind::Outer,
            None => false,
        },
    }
}

/// Loop `i` is the first loop that is not nested as its role asks.
pub open spec fn first_bad_nesting(
    kinds: Seq<TrimLoopKind>,
    parents: Seq<Option<usize>>,
    depths: Seq<usize>,
    i: int,
) -> bool {
    &&& 0 <= i < kinds.len()
    &&& !nesting_ok(kinds, parents, depths, i)
    &&& forall|j: int| 0 <= j < i ==> nesting_ok(kinds, parents, depths, j)
}

/// `Ok` when every loop is nested as its role asks, else
/// `InvalidTrimLoopNesting` with the first loop that is not.
pub open spec fn nesting_result(
    face: FaceId,
    kinds: Seq<TrimLoopKind>,
    parents: Seq<Option<usize>>,
    depths: Seq<usize>,
) -> Result<(), TopologyError> {
    if forall|i: int| 0 <= i < kinds.len() ==> nesting_ok(kinds, parents, depths, i) {
        Ok(())
    } else {
        Err(
            TopologyError::InvalidTrimLoopNesting(
                face,
                (choose|i: int| #[trigger] first_bad_nesting(kinds, parents, depths, i)) as usize,
            ),
        )
    }
}

/// Check, in loop order, that every loop is nested as its role asks.
pub fn check_trim_loop_nesting(
    face: FaceId,
    kinds: &[TrimLoopKind],
    parents: &[Option<usize>],
    depths: &[usize],
) -> (r: Result<(), TopologyError>)
    requires
        parents@.len() == kinds@.len(),
        depths@.len() == kinds@.len(),
        forall|i: int|
            0 <= i < parents@.len() ==> match #[trigger] parents@[i] {
                Some(p) => p < kinds@.len(),
                None => true,
            },
    ensures
        r == nesting_result(face, kinds@, parents@, depths@),
{
    let mut i: usize = 0;
    while i < kinds.len()
        invariant
            parents@.len() == kinds@.len(),
            depths@.len() == kinds@.len(),
            forall|j: int|
                0 <= j < parents@.len() ==> match #[trigger] parents@[j] {
                    Some(p) => p < kinds@.len(),
                    None => true,
                },
            i <= kinds@.len(),
            forall|j: int| 0 <= j < i ==> nesting_ok(kinds@, parents@, depths@, j),
        decreases kinds@.len() - i,
    {
        let ok = match kinds[i] {
            TrimLoopKind::Outer => parents[i].is_none() && depths[i] == 0,
            TrimLoopKind::Inner => match parents[i] {
                Some(p) => kinds[p] == TrimLoopKind::Outer,
                None => false,
            },
        };
        if !ok {
            proof {
                assert(first_bad_nesting(kinds@, parents@, depths@, i as int));
                let c = choose|c: int| #[trigger] first_bad_nesting(kinds@, parents@, depths@, c);
                if c < i {
                    assert(nesting_ok(kinds@, parents@, depths@, c));
                } else if c > i {
                    assert(nesting_ok(kinds@, parents@, depths@, i as int));
                }
            }
            return Err(TopologyError::InvalidTrimLoopNesting(face, i));
        }
        i += 1;
    }
    Ok(())
}

/// `parents` gives every loop its parent as `trim_loop_parents` picks it.
pub open spec fn parents_chosen(
    ranks: Seq<u64>,
    table: Seq<Seq<bool>>,
    parents: Seq<Option<usize>>,
) -> bool {
    &&& parents.len() == ranks.len()
    &&& forall|i: int|
        0 <= i < ranks.len() ==> match #[trigger] parents[i] {
            Some(p) => is_nesting_parent(ranks, table, i, p as int),
            None => forall|c: int| !may_contain(ranks, table, i, c),
        }
}

/// The depth of every loop under the parent links `parents`.
pub open spec fn depths_of(parents: Seq<Option<usize>>, ranks: Seq<u64>) -> Seq<usize> {
    Seq::new(ranks.len(), |j: int| chain_depth(parents, ranks, j) as usize)
}

/// Pick parents, count depths and check the nesting of the trim loops of
/// `face`, whose roles are `kinds`.
pub fn validate_trim_loop_nesting(
    face: FaceId,
    kinds: &[TrimLoopKind],
    ranks: &[u64],
    contains: &[Vec<bool>],
) -> (r: Result<(), TopologyError>)
    requires
        kinds@.len() == ranks@.len(),
        nesting_input_ok(ranks@, rows(contains@)),
    ensures
        exists|parents: Seq<Option<usize>>| #[trigger] parents_chosen(ranks@, rows(contains@), parents),
        forall|parents: Seq<Option<usize>>|
            #[trigger] parents_chosen(ranks@, rows(contains@), parents)
                ==> r == nesting_result(face, kinds@, parents, depths_of(parents, ranks@)),
{
    let parents = trim_loop_parents(ranks, contains);
    let ghost table = rows(contains@);
    proof {
        assert forall|i: int| 0 <= i < parents@.len() implies match #[trigger] parents@[i] {
            Some(p) => p < ranks@.len() && ranks@[p as int] > ranks@[i],
            None => true,
        } by {
            match parents@[i] {
                Some(p) => {
                    assert(is_nesting_parent(ranks@, table, i, p as int));
                },
                None => {},
            }
        }
    }
    let depths = trim_loop_depths(&parents, ranks);
    let r = check_trim_loop_nesting(face, kinds, &parents, &depths);
    proof {
        assert(depths_of(parents@, ranks@) =~= depths@);
        assert(parents_chosen(ranks@, table, parents@));
        assert forall|ps: Seq<Option<usize>>| #[trigger] parents_chosen(ranks@, table, ps) implies r
            == nesting_result(face, kinds@, ps, depths_of(ps, ranks@)) by {
            lemma_parents_unique(ranks@, table, ps, parents@);
        }
    }
    r
}

/// The parent of each loop is determined by the ranks and the containment
/// table: two parent tables that both follow the rule are equal.
pub proof fn lemma_parents_unique(
    ranks: Seq<u64>,
    table: Seq<Seq<bool>>,
    a: Seq<Option<usize>>,
    b: Seq<Option<usize>>,
)
    requires
        parents_chosen(ranks, table, a),
        parents_chosen(ranks, table, b),
    ensures
        a == b,
{
    assert forall|i: int| 0 <= i < ranks.len() implies a[i] == b[i] by {
        match (a[i], b[i]) {
            (Some(p), Some(q)) => {
                assert(is_nesting_parent(ranks, table, i, p as int));
                assert(is_nesting_parent(ranks, table, i, q as int));
                assert(may_contain(ranks, table, i, p as int));
                assert(may_contain(ranks, table, i, q as int));
                if p < q {
                    assert(ranks[p as int] > ranks[q as int]);
                } else if q < p {
                    assert(ranks[q as int] > ranks[p as int]);
                }
            },
            (Some(p), None) => {
                assert(may_contain(ranks, table, i, p as int));
            },
            (None, Some(q)) => {
                assert(may_contain(ranks, table, i, q as int));
            },
            (None, None) => {},
        }
    }
    assert(a =~= b);
}

/// Once the nesting of a face's trim loops checks out, every outer loop is
/// at depth zero and every inner loop at depth one.
pub proof fn lemma_valid_nesting_depths(
    face: FaceId,
    kinds: Seq<TrimLoopKind>,
    ranks: Seq<u64>,
    table: Seq<Seq<bool>>,
    parents: Seq<Option<usize>>,
)
    requires
        kinds.len() == ranks.len(),
        parents_chosen(ranks, table, parents),
        nesting_result(face, kinds, parents, depths_of(parents, ranks)) is Ok,
    ensures
        forall|i: int|
            0 <= i < kinds.len() ==> #[trigger] depths_of(parents, ranks)[i] == (if kinds[i]
                == TrimLoopKind::Outer {
                0usize
            } else {
                1usize
            }),
{
    let depths = depths_of(parents, ranks);
    assert forall|i: int| 0 <= i < kinds.len() implies #[trigger] depths_of(parents, ranks)[i] == (if kinds[i]
        == TrimLoopKind::Outer {
        0usize
    } else {
        1usize
    }) by {
        assert(nesting_ok(kinds, parents, depths, i));
        match parents[i] {
            Some(p) => {
                assert(is_nesting_parent(ranks, table, i, p as int));
                assert(nesting_ok(kinds, parents, depths, p as int));
                assert(chain_depth(parents, ranks, p as int) == 0);
                assert(chain_depth(parents, ranks, i) == 1);
            },
            None => {},
        }
    }
}

} // verus!
