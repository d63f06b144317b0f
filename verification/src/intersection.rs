//! Vocabulary of curve/surface intersection results, and the stitching of
//! intersection segments, once their endpoints are welded to vertex
//! numbers, into curves.
use vstd::prelude::*;

verus! {

/// Curve/surface hit kind.
#[derive(Clone, Copy, Debug, PartialEq, Eq, Structural)]
pub enum HitKind {
    /// The curve crosses the surface.
    Crossing,
    /// The curve is tangent or nearly tangent to the surface.
    Tangent,
}

/// First edge of `edges` not yet visited.
pub open spec fn first_unvisited(edges: Seq<usize>, visited: Seq<bool>) -> Option<usize>
    decreases edges.len(),
{
    if edges.len() == 0 {
        None
    } else if !visited[edges[0] as int] {
        Some(edges[0])
    } else {
        first_unvisited(edges.drop_first(), visited)
    }
}

/// The first edge at `vertex`, in adjacency order, that is not visited.
pub fn next_unvisited_edge(vertex: usize, adjacency: &[Vec<usize>], visited: &[bool]) -> (r: Option<
    usize,
>)
    requires
        vertex < adjacency@.len(),
        forall|k: int|
            0 <= k < adjacency@[vertex as int]@.len() ==> #[trigger] adjacency@[vertex as int]@[k]
                < visited@.len(),
    ensures
        r == first_unvisited(adjacency@[vertex as int]@, visited@),
{
    let edges = &adjacency[vertex];
    let ghost e = edges@;
    let mut k: usize = 0;
    assert(e.subrange(0, e.len() as int) =~= e);
    while k < edges.len()
        invariant
            0 <= k <= e.len(),
            e == edges@,
            e == adjacency@[vertex as int]@,
            forall|q: int| 0 <= q < e.len() ==> #[trigger] e[q] < visited@.len(),
            first_unvisited(e, visited@) == first_unvisited(e.subrange(k as int, e.len() as int), visited@),
        decreases e.len() - k,
    {
        let ghost tail = e.subrange(k as int, e.len() as int);
        assert(tail[0] == e[k as int]);
        assert(tail.drop_first() =~= e.subrange(k + 1, e.len() as int));
        let edge = edges[k];
        if !visited[edge] {
            return Some(edge);
        }
        k = k + 1;
    }
    assert(e.subrange(k as int, e.len() as int) =~= Seq::<usize>::empty());
    None
}

/// The edges kept from the first `k` segments, and for each the segment it
/// came from: a segment that joins a vertex to itself, or repeats a kept
/// edge in either direction, is skipped.
pub open spec fn graph_edges_prefix(segments: Seq<(usize, usize)>, k: int) -> (Seq<(usize, usize)>, Seq<usize>)
    decreases k,
{
    if k <= 0 {
        (Seq::empty(), Seq::empty())
    } else {
        let prev = graph_edges_prefix(segments, k - 1);
        let s = segments[k - 1];
        if s.0 == s.1 || exists|j: int|
            0 <= j < prev.0.len() && (#[trigger] prev.0[j] == s || prev.0[j] == (s.1, s.0)) {
            prev
        } else {
            (prev.0.push(s), prev.1.push((k - 1) as usize))
        }
    }
}

/// Deduplicated graph edges.
#[derive(Clone, Debug, PartialEq, Eq)]
pub struct GraphEdges {
    /// End vertices of each edge.
    pub ends: Vec<(usize, usize)>,
    /// The segment each edge came from.
    pub segments: Vec<usize>,
}

/// Turn welded segments into graph edges, in segment order, skipping
/// segments that join a vertex to itself or repeat an edge in either
/// direction.
pub fn graph_edges(segments: &[(usize, usize)]) -> (g: GraphEdges)
    ensures
        g.ends@ == graph_edges_prefix(segments@, segments@.len() as int).0,
        g.segments@ == graph_edges_prefix(segments@, segments@.len() as int).1,
{
    let mut ends: Vec<(usize, usize)> = Vec::new();
    let mut from: Vec<usize> = Vec::new();
    let mut k: usize = 0;
    while k < segments.len()
        invariant
            k <= segments@.len(),
            ends@ == graph_edges_prefix(segments@, k as int).0,
            from@ == graph_edges_prefix(segments@, k as int).1,
        decreases segments@.len() - k,
    {
        let s = segments[k];
        let mut repeated = s.0 == s.1;
        if !repeated {
            let mut j: usize = 0;
            while j < ends.len()
                invariant
                    j <= ends@.len(),
                    s.0 != s.1,
                    repeated == exists|q: int| 0 <= q < j && (#[trigger] ends@[q] == s || ends@[q] == (s.1, s.0)),
                decreases ends@.len() - j,
            {
                let e = ends[j];
                if (e.0 == s.0 && e.1 == s.1) || (e.0 == s.1 && e.1 == s.0) {
                    assert(ends@[j as int] == s || ends@[j as int] == (s.1, s.0));
                    repeated = true;
                }
                j += 1;
            }
        }
        if !repeated {
            ends.push(s);
            from.push(k);
        }
        k += 1;
    }
    GraphEdges { ends, segments: from }
}

/// The edges at vertex `v`, in edge order; an edge is listed once for each
/// of its ends at `v`.
pub open spec fn incident(ends: Seq<(usize, usize)>, v: int) -> Seq<usize>
    decreases ends.len(),
{
    if ends.len() == 0 {
        Seq::empty()
    } else {
        let i = (ends.len() - 1) as usize;
        let e = ends.last();
        let a = if e.0 == v { incident(ends.drop_last(), v).push(i) } else { incident(ends.drop_last(), v) };
        if e.1 == v { a.push(i) } else { a }
    }
}

/// Every edge end is a vertex below `vertex_count`.
pub open spec fn ends_in_range(ends: Seq<(usize, usize)>, vertex_count: nat) -> bool {
    forall|i: int| 0 <= i < ends.len() ==> (#[trigger] ends[i]).0 < vertex_count && ends[i].1 < vertex_count
}

proof fn lemma_incident_in_range(ends: Seq<(usize, usize)>, v: int)
    ensures
        forall|k: int| 0 <= k < incident(ends, v).len() ==> #[trigger] incident(ends, v)[k] < ends.len(),
    decreases ends.len(),
{
    if ends.len() > 0 {
        let i = (ends.len() - 1) as usize;
        let e = ends.last();
        let r = incident(ends.drop_last(), v);
        lemma_incident_in_range(ends.drop_last(), v);
        let a = if e.0 == v { r.push(i) } else { r };
        assert(forall|k: int| 0 <= k < a.len() ==> #[trigger] a[k] < ends.len());
        let b = if e.1 == v { a.push(i) } else { a };
        assert(forall|k: int| 0 <= k < b.len() ==> #[trigger] b[k] < ends.len());
        assert(b == incident(ends, v));
    }
}

/// The edges at each vertex below `vertex_count`.
pub fn edge_adjacency(vertex_count: usize, ends: &[(usize, usize)]) -> (adj: Vec<Vec<usize>>)
    requires
        ends_in_range(ends@, vertex_count as nat),
    ensures
        adj@.len() == vertex_count,
        forall|v: int| 0 <= v < vertex_count ==> (#[trigger] adj@[v])@ == incident(ends@, v),
{
    let mut adj: Vec<Vec<usize>> = Vec::new();
    let mut v: usize = 0;
    while v < vertex_count
        invariant
            v <= vertex_count,
            adj@.len() == v,
            forall|u: int| 0 <= u < v ==> (#[trigger] adj@[u])@ == Seq::<usize>::empty(),
        decreases vertex_count - v,
    {
        adj.push(Vec::new());
        v += 1;
    }
    let mut i: usize = 0;
    while i < ends.len()
        invariant
            ends_in_range(ends@, vertex_count as nat),
            i <= ends@.len(),
            adj@.len() == vertex_count,
            forall|u: int| 0 <= u < vertex_count ==> (#[trigger] adj@[u])@ == incident(ends@.subrange(0, i as int), u),
        decreases ends@.len() - i,
    {
        let e = ends[i];
        let ghost before = adj@;
        let ghost pre = ends@.subrange(0, i as int);
        let ghost next = ends@.subrange(0, i + 1);
        proof {
            assert(next.drop_last() =~= pre);
            assert(next.last() == e);
        }
        let mut row = Vec::new();
        std::mem::swap(&mut row, &mut adj[e.0]);
        row.push(i);
        adj.set(e.0, row);
        let ghost mid = adj@;
        let mut row2 = Vec::new();
        std::mem::swap(&mut row2, &mut adj[e.1]);
        row2.push(i);
        adj.set(e.1, row2);
        proof {
            assert forall|u: int| 0 <= u < vertex_count implies (#[trigger] adj@[u])@ == incident(next, u) by {
                if u == e.0 as int {
                    assert(mid[u]@ == before[u]@.push(i));
                }
                if u == e.1 as int {
                    assert(adj@[u]@ == mid[u]@.push(i));
                } else {
                    assert(adj@[u] == mid[u]);
                }
                if u != e.0 as int {
                    assert(mid[u] == before[u]);
                }
            }
        }
        i += 1;
    }
    proof {
        assert(ends@.subrange(0, i as int) =~= ends@);
    }
    adj
}

/// The adjacency lists as sequences.
pub open spec fn adj_view(adjacency: Seq<Vec<usize>>) -> Seq<Seq<usize>> {
    adjacency.map_values(|row: Vec<usize>| row@)
}

/// Edge ends are vertices of the adjacency, adjacency entries are edges,
/// and there is one visited flag per edge.
pub open spec fn graph_ok(ends: Seq<(usize, usize)>, adj: Seq<Seq<usize>>, flags: nat) -> bool {
    &&& ends_in_range(ends, adj.len())
    &&& forall|v: int, k: int| 0 <= v < adj.len() && 0 <= k < adj[v].len() ==> #[trigger] adj[v][k] < ends.len()
    &&& flags == ends.len()
}

/// The end of edge `e` away from `v`.
pub open spec fn other_end(e: (usize, usize), v: usize) -> usize {
    if e.0 == v {
        e.1
    } else {
        e.0
    }
}

/// A walk from `current`, about to take edge `next`, that stops on an edge
/// already visited, on reaching `start` again, or where no unvisited edge
/// is left: (vertices reached, edges taken, visited flags after).
pub open spec fn walk_from(
    ends: Seq<(usize, usize)>,
    adj: Seq<Seq<usize>>,
    visited: Seq<bool>,
    start: usize,
    current: usize,
    next: Option<usize>,
    fuel: nat,
) -> (Seq<usize>, Seq<usize>, Seq<bool>)
    decreases fuel,
{
    match next {
        Some(e) => if fuel == 0 || visited[e as int] {
            (Seq::empty(), Seq::empty(), visited)
        } else {
            let vis = visited.update(e as int, true);
            let cur = other_end(ends[e as int], current);
            if cur == start {
                (seq![cur], seq![e], vis)
            } else {
                let rest = walk_from(
                    ends,
                    adj,
                    vis,
                    start,
                    cur,
                    first_unvisited(adj[cur as int], vis),
                    (fuel - 1) as nat,
                );
                (seq![cur] + rest.0, seq![e] + rest.1, rest.2)
            }
        },
        None => (Seq::empty(), Seq::empty(), visited),
    }
}

/// Number of set flags.
pub open spec fn true_count(flags: Seq<bool>) -> nat
    decreases flags.len(),
{
    if flags.len() == 0 {
        0
    } else {
        true_count(flags.drop_last()) + if flags.last() {
            1nat
        } else {
            0nat
        }
    }
}

proof fn lemma_true_count_bound(flags: Seq<bool>)
    ensures
        true_count(flags) <= flags.len(),
    decreases flags.len(),
{
    if flags.len() > 0 {
        lemma_true_count_bound(flags.drop_last());
    }
}

proof fn lemma_true_count_set(flags: Seq<bool>, i: int)
    requires
        0 <= i < flags.len(),
        !flags[i],
    ensures
        true_count(flags.update(i, true)) == true_count(flags) + 1,
    decreases flags.len(),
{
    let up = flags.update(i, true);
    if i == flags.len() - 1 {
        assert(up.drop_last() =~= flags.drop_last());
    } else {
        assert(up.drop_last() =~= flags.drop_last().update(i, true));
        lemma_true_count_set(flags.drop_last(), i);
    }
}

proof fn lemma_first_unvisited(edges: Seq<usize>, visited: Seq<bool>)
    requires
        forall|k: int| 0 <= k < edges.len() ==> #[trigger] edges[k] < visited.len(),
    ensures
        first_unvisited(edges, visited) matches Some(e) ==> edges.contains(e) && !visited[e as int],
    decreases edges.len(),
{
    if edges.len() > 0 && visited[edges[0] as int] {
        lemma_first_unvisited(edges.drop_first(), visited);
        if first_unvisited(edges, visited) is Some {
            let e = first_unvisited(edges, visited)->Some_0;
            let k = choose|k: int| 0 <= k < edges.drop_first().len() && edges.drop_first()[k] == e;
            assert(edges[k + 1] == e);
        }
    } else if edges.len() > 0 {
        assert(edges[0] == edges[0]);
    }
}

proof fn lemma_walk_marks(
    ends: Seq<(usize, usize)>,
    adj: Seq<Seq<usize>>,
    visited: Seq<bool>,
    start: usize,
    current: usize,
    next: Option<usize>,
    fuel: nat,
)
    requires
        graph_ok(ends, adj, visited.len()),
        current < adj.len(),
        next matches Some(e) ==> e < ends.len(),
    ensures
        ({
            let r = walk_from(ends, adj, visited, start, current, next, fuel);
            &&& r.2.len() == visited.len()
            &&& true_count(r.2) >= true_count(visited)
            &&& (next matches Some(e) && fuel > 0 && !visited[e as int]) ==> true_count(r.2) > true_count(
                visited,
            ) && r.1.len() > 0 && r.0.len() > 0
        }),
    decreases fuel,
{
    match next {
        Some(e) => {
            if fuel > 0 && !visited[e as int] {
                let vis = visited.update(e as int, true);
                lemma_true_count_set(visited, e as int);
                let cur = other_end(ends[e as int], current);
                if cur != start {
                    assert(forall|k: int| 0 <= k < adj[cur as int].len() ==> #[trigger] adj[cur as int][k] < vis.len());
                    lemma_first_unvisited(adj[cur as int], vis);
                    let nx = first_unvisited(adj[cur as int], vis);
                    if nx is Some {
                        let f = nx->Some_0;
                        let k = choose|k: int| 0 <= k < adj[cur as int].len() && adj[cur as int][k] == f;
                        assert(adj[cur as int][k] < ends.len());
                    }
                    lemma_walk_marks(ends, adj, vis, start, cur, nx, (fuel - 1) as nat);
                }
            }
        },
        None => {},
    }
}

/// Walk from `start` along `first_edge`, marking each edge taken, until the
/// walk comes back to `start` or finds no unvisited edge.
pub fn walk_edges(
    start: usize,
    first_edge: usize,
    ends: &[(usize, usize)],
    adjacency: &[Vec<usize>],
    visited: &mut Vec<bool>,
) -> (w: (Vec<usize>, Vec<usize>))
    requires
        graph_ok(ends@, adj_view(adjacency@), old(visited)@.len()),
        start < adjacency@.len(),
        first_edge < ends@.len(),
    ensures
        ({
            let r = walk_from(
                ends@,
                adj_view(adjacency@),
                old(visited)@,
                start,
                start,
                Some(first_edge),
                (old(visited)@.len() + 1) as nat,
            );
            &&& w.0@ == seq![start] + r.0
            &&& w.1@ == r.1
            &&& final(visited)@ == r.2
        }),
{
    let ghost adj = adj_view(adjacency@);
    let ghost vis0 = visited@;
    let ghost fuel0 = (vis0.len() + 1) as nat;
    let ghost whole = walk_from(ends@, adj, vis0, start, start, Some(first_edge), fuel0);
    let mut points: Vec<usize> = Vec::new();
    points.push(start);
    let mut taken: Vec<usize> = Vec::new();
    let mut current = start;
    let mut next_edge: Option<usize> = Some(first_edge);
    let ghost mut fuel = fuel0;
    proof {
        lemma_true_count_bound(vis0);
        assert(points@.subrange(1, points@.len() as int) =~= Seq::<usize>::empty());
        assert(taken@ =~= Seq::<usize>::empty());
        assert(whole.0 =~= points@.subrange(1, points@.len() as int) + whole.0);
        assert(whole.1 =~= taken@ + whole.1);
    }
    loop
        invariant
            adj == adj_view(adjacency@),
            vis0 == old(visited)@,
            graph_ok(ends@, adj, visited@.len()),
            visited@.len() == vis0.len(),
            fuel0 == vis0.len() + 1,
            current < adjacency@.len(),
            start < adjacency@.len(),
            next_edge matches Some(e) ==> e < ends@.len(),
            fuel + true_count(visited@) == fuel0 + true_count(vis0),
            true_count(visited@) <= visited@.len(),
            points@.len() >= 1,
            points@[0] == start,
            whole == walk_from(ends@, adj, vis0, start, start, Some(first_edge), fuel0),
            ({
                let rest = walk_from(ends@, adj, visited@, start, current, next_edge, fuel);
                &&& whole.0 == points@.subrange(1, points@.len() as int) + rest.0
                &&& whole.1 == taken@ + rest.1
                &&& whole.2 == rest.2
            }),
        decreases fuel,
    {
        let e = match next_edge {
            Some(e) => e,
            None => {
                proof {
                    assert(points@ =~= seq![start] + points@.subrange(1, points@.len() as int));
                    assert(whole.0 =~= points@.subrange(1, points@.len() as int));
                    assert(whole.1 =~= taken@);
                    assert(whole.2 == visited@);
                    assert(points@ == seq![start] + whole.0);
                }
                return (points, taken);
            },
        };
        if visited[e] {
            proof {
                assert(points@ =~= seq![start] + points@.subrange(1, points@.len() as int));
                assert(whole.0 =~= points@.subrange(1, points@.len() as int));
                assert(whole.1 =~= taken@);
            }
            return (points, taken);
        }
        let ghost before = visited@;
        let ghost old_points = points@;
        let ghost old_taken = taken@;
        let ghost old_current = current;
        proof {
            lemma_true_count_set(before, e as int);
            lemma_true_count_bound(before.update(e as int, true));
            assert(fuel > 0);
        }
        visited.set(e, true);
        taken.push(e);
        let edge = ends[e];
        current = if edge.0 == current {
            edge.1
        } else {
            edge.0
        };
        points.push(current);
        proof {
            assert(visited@ == before.update(e as int, true));
            assert(current == other_end(ends@[e as int], old_current));
            assert(points@.subrange(1, points@.len() as int) =~= old_points.subrange(1, old_points.len() as int).push(current));
            assert(adjacency@[current as int]@ == adj[current as int]);
        }
        next_edge = next_unvisited_edge(current, adjacency, visited.as_slice());
        proof {
            fuel = (fuel - 1) as nat;
            lemma_first_unvisited(adj[current as int], visited@);
            if next_edge is Some {
                let f = next_edge->Some_0;
                let k = choose|k: int| 0 <= k < adj[current as int].len() && adj[current as int][k] == f;
                assert(adj[current as int][k] < ends@.len());
            }
        }
        if current == start {
            proof {
                let old_rest = walk_from(ends@, adj, before, start, old_current, Some(e), (fuel + 1) as nat);
                assert(old_rest.0 == seq![current]);
                assert(old_rest.1 == seq![e]);
                assert(old_rest.2 == visited@);
                assert(points@ =~= seq![start] + points@.subrange(1, points@.len() as int));
                assert(whole.0 =~= points@.subrange(1, points@.len() as int));
                assert(whole.1 =~= taken@);
                assert(whole.2 == visited@);
            }
            return (points, taken);
        }
        proof {
            let rest = walk_from(ends@, adj, visited@, start, current, next_edge, fuel);
            assert(whole.0 =~= points@.subrange(1, points@.len() as int) + rest.0);
            assert(whole.1 =~= taken@ + rest.1);
        }
    }
}

/// The walks as sequences.
pub open spec fn walks_view(walks: Seq<(Vec<usize>, Vec<usize>)>) -> Seq<(Seq<usize>, Seq<usize>)> {
    walks.map_values(|w: (Vec<usize>, Vec<usize>)| (w.0@, w.1@))
}

/// A walk is kept when it reaches at least one vertex past its start.
pub open spec fn kept_walk(walk: (Seq<usize>, Seq<usize>)) -> Seq<(Seq<usize>, Seq<usize>)> {
    if walk.0.len() >= 2 {
        seq![walk]
    } else {
        Seq::empty()
    }
}

/// Walks started at vertex `s` for as long as an unvisited edge is left at
/// it: (walks kept, visited flags after).
pub open spec fn walks_at(
    ends: Seq<(usize, usize)>,
    adj: Seq<Seq<usize>>,
    visited: Seq<bool>,
    s: usize,
    fuel: nat,
) -> (Seq<(Seq<usize>, Seq<usize>)>, Seq<bool>)
    decreases fuel,
{
    if fuel == 0 {
        (Seq::empty(), visited)
    } else {
        match first_unvisited(adj[s as int], visited) {
            None => (Seq::empty(), visited),
            Some(e) => {
                let w = walk_from(ends, adj, visited, s, s, Some(e), (visited.len() + 1) as nat);
                let rest = walks_at(ends, adj, w.2, s, (fuel - 1) as nat);
                (kept_walk((seq![s] + w.0, w.1)) + rest.0, rest.1)
            },
        }
    }
}

/// First pass: from each vertex `s` on whose edge count is not two, in
/// vertex order, the walks that start there.
pub open spec fn open_walks(
    ends: Seq<(usize, usize)>,
    adj: Seq<Seq<usize>>,
    visited: Seq<bool>,
    s: int,
) -> (Seq<(Seq<usize>, Seq<usize>)>, Seq<bool>)
    decreases adj.len() - s,
{
    if s < 0 || s >= adj.len() {
        (Seq::empty(), visited)
    } else if adj[s].len() == 2 {
        open_walks(ends, adj, visited, s + 1)
    } else {
        let r = walks_at(ends, adj, visited, s as usize, (visited.len() + 1) as nat);
        let rest = open_walks(ends, adj, r.1, s + 1);
        (r.0 + rest.0, rest.1)
    }
}

/// Second pass: from each edge `e` on still unvisited, in edge order, the
/// walk from its first end along it.
pub open spec fn closed_walks(
    ends: Seq<(usize, usize)>,
    adj: Seq<Seq<usize>>,
    visited: Seq<bool>,
    e: int,
) -> Seq<(Seq<usize>, Seq<usize>)>
    decreases ends.len() - e,
{
    if e < 0 || e >= ends.len() {
        Seq::empty()
    } else if visited[e] {
        closed_walks(ends, adj, visited, e + 1)
    } else {
        let s = ends[e].0;
        let w = walk_from(ends, adj, visited, s, s, Some(e as usize), (visited.len() + 1) as nat);
        kept_walk((seq![s] + w.0, w.1)) + closed_walks(ends, adj, w.2, e + 1)
    }
}

/// All walks of the graph: the open ones, then the closed ones.
pub open spec fn stitched_walks(ends: Seq<(usize, usize)>, adj: Seq<Seq<usize>>) -> Seq<
    (Seq<usize>, Seq<usize>),
> {
    let first = open_walks(ends, adj, Seq::new(ends.len(), |i: int| false), 0);
    first.0 + closed_walks(ends, adj, first.1, 0)
}

/// Stitch the graph into walks: first from every vertex whose edge count
/// is not two, then around what is left. Each walk is its vertices and the
/// edges taken between them.
pub fn stitch_walks(ends: &[(usize, usize)], adjacency: &[Vec<usize>]) -> (walks: Vec<(Vec<usize>, Vec<usize>)>)
    requires
        graph_ok(ends@, adj_view(adjacency@), ends@.len()),
    ensures
        walks_view(walks@) == stitched_walks(ends@, adj_view(adjacency@)),
{
    let ghost adj = adj_view(adjacency@);
    let n = ends.len();
    let mut visited: Vec<bool> = Vec::new();
    let mut i: usize = 0;
    while i < n
        invariant
            i <= n,
            n == ends@.len(),
            visited@ == Seq::new(i as nat, |j: int| false),
        decreases n - i,
    {
        visited.push(false);
        i += 1;
        proof {
            assert(visited@ =~= Seq::new(i as nat, |j: int| false));
        }
    }
    let ghost first = open_walks(ends@, adj, visited@, 0);
    let mut walks: Vec<(Vec<usize>, Vec<usize>)> = Vec::new();
    let mut s: usize = 0;
    proof {
        assert(first.0 =~= walks_view(walks@) + first.0);
    }
    while s < adjacency.len()
        invariant
            adj == adj_view(adjacency@),
            graph_ok(ends@, adj, visited@.len()),
            n == ends@.len(),
            s <= adjacency@.len(),
            first.0 == walks_view(walks@) + open_walks(ends@, adj, visited@, s as int).0,
            first.1 == open_walks(ends@, adj, visited@, s as int).1,
            first == open_walks(ends@, adj, Seq::new(n as nat, |j: int| false), 0),
        decreases adjacency@.len() - s,
    {
        if adjacency[s].len() != 2 {
            let ghost vis_s = visited@;
            let ghost before = walks_view(walks@);
            let ghost r = walks_at(ends@, adj, vis_s, s, (vis_s.len() + 1) as nat);
            let ghost mut fuel = (vis_s.len() + 1) as nat;
            proof {
                lemma_true_count_bound(vis_s);
                assert(r.0 =~= walks_view(walks@).subrange(before.len() as int, walks@.len() as int) + r.0);
            }
            loop
                invariant
                    adj == adj_view(adjacency@),
                    graph_ok(ends@, adj, visited@.len()),
                    visited@.len() == vis_s.len(),
                    n == ends@.len(),
                    s < adjacency@.len(),
                    fuel + true_count(visited@) >= vis_s.len() + 1 + true_count(vis_s),
                    true_count(visited@) <= visited@.len(),
                    true_count(vis_s) <= vis_s.len(),
                    walks_view(walks@).len() >= before.len(),
                    walks_view(walks@).subrange(0, before.len() as int) == before,
                    r == walks_at(ends@, adj, vis_s, s, (vis_s.len() + 1) as nat),
                    r.0 == walks_view(walks@).subrange(before.len() as int, walks@.len() as int) + walks_at(
                        ends@,
                        adj,
                        visited@,
                        s,
                        fuel,
                    ).0,
                    r.1 == walks_at(ends@, adj, visited@, s, fuel).1,
                ensures
                    graph_ok(ends@, adj, visited@.len()),
                    walks_view(walks@).len() >= before.len(),
                    walks_view(walks@).subrange(0, before.len() as int) == before,
                    r.0 == walks_view(walks@).subrange(before.len() as int, walks@.len() as int),
                    r.1 == visited@,
                decreases fuel,
            {
                proof {
                    assert(adjacency@[s as int]@ == adj[s as int]);
                }
                let next = next_unvisited_edge(s, adjacency, visited.as_slice());
                let e = match next {
                    Some(e) => e,
                    None => {
                        proof {
                            let tail = walks_at(ends@, adj, visited@, s, fuel);
                            assert(tail.0 == Seq::<(Seq<usize>, Seq<usize>)>::empty());
                            assert(tail.1 == visited@);
                            assert(r.0 =~= walks_view(walks@).subrange(before.len() as int, walks@.len() as int));
                        }
                        break;
                    },
                };
                proof {
                    lemma_first_unvisited(adj[s as int], visited@);
                    let k = choose|k: int| 0 <= k < adj[s as int].len() && adj[s as int][k] == e;
                    assert(adj[s as int][k] < ends@.len());
                    lemma_walk_marks(ends@, adj, visited@, s, s, Some(e), (visited@.len() + 1) as nat);
                    assert(fuel > 0);
                }
                let ghost vis_before = visited@;
                let ghost walks_before = walks_view(walks@);
                let w = walk_edges(s, e, ends, adjacency, &mut visited);
                proof {
                    lemma_true_count_bound(visited@);
                }
                if w.0.len() >= 2 {
                    walks.push(w);
                }
                proof {
                    let ww = walk_from(ends@, adj, vis_before, s, s, Some(e), (vis_before.len() + 1) as nat);
                    let rest = walks_at(ends@, adj, visited@, s, (fuel - 1) as nat);
                    assert(walks_at(ends@, adj, vis_before, s, fuel).0 == kept_walk((seq![s] + ww.0, ww.1)) + rest.0);
                    if w.0.len() >= 2 {
                        assert(walks_view(walks@) =~= walks_before.push((w.0@, w.1@)));
                    } else {
                        assert(walks_view(walks@) =~= walks_before);
                    }
                    assert(walks_view(walks@).subrange(0, before.len() as int) =~= before);
                    assert(walks_view(walks@).subrange(before.len() as int, walks@.len() as int) =~= walks_before.subrange(
                        before.len() as int,
                        walks_before.len() as int,
                    ) + kept_walk((seq![s] + ww.0, ww.1)));
                    fuel = (fuel - 1) as nat;
                }
            }
            proof {
                assert(walks_view(walks@) =~= before + walks_view(walks@).subrange(before.len() as int, walks@.len() as int));
            }
        }
        s += 1;
    }
    let ghost tail = closed_walks(ends@, adj, visited@, 0);
    let ghost head = walks_view(walks@);
    let mut e: usize = 0;
    proof {
        assert(first.0 =~= head);
    }
    while e < n
        invariant
            adj == adj_view(adjacency@),
            graph_ok(ends@, adj, visited@.len()),
            n == ends@.len(),
            e <= n,
            walks_view(walks@).len() >= head.len(),
            walks_view(walks@).subrange(0, head.len() as int) == head,
            tail == walks_view(walks@).subrange(head.len() as int, walks@.len() as int) + closed_walks(
                ends@,
                adj,
                visited@,
                e as int,
            ),
        decreases n - e,
    {
        if !visited[e] {
            let start = ends[e].0;
            proof {
                assert(ends_in_range(ends@, adj.len()));
                assert(ends@[e as int].0 < adj.len());
            }
            let ghost vis_before = visited@;
            let ghost walks_before = walks_view(walks@);
            let w = walk_edges(start, e, ends, adjacency, &mut visited);
            proof {
                lemma_walk_marks(ends@, adj, vis_before, start, start, Some(e), (vis_before.len() + 1) as nat);
            }
            if w.0.len() >= 2 {
                walks.push(w);
            }
            proof {
                if w.0.len() >= 2 {
                    assert(walks_view(walks@) =~= walks_before.push((w.0@, w.1@)));
                } else {
                    assert(walks_view(walks@) =~= walks_before);
                }
                assert(walks_view(walks@).subrange(0, head.len() as int) =~= head);
                assert(walks_view(walks@).subrange(head.len() as int, walks@.len() as int) =~= walks_before.subrange(
                    head.len() as int,
                    walks_before.len() as int,
                ) + kept_walk((w.0@, w.1@)));
            }
        }
        e += 1;
    }
    proof {
        assert(walks_view(walks@) =~= head + walks_view(walks@).subrange(head.len() as int, walks@.len() as int));
        assert(closed_walks(ends@, adj, visited@, n as int) == Seq::<(Seq<usize>, Seq<usize>)>::empty());
    }
    walks
}

/// Stitch welded segments into curves: deduplicate them into graph edges
/// over `vertex_count` vertices, then walk the graph.
pub fn stitch_segment_graph(vertex_count: usize, segments: &[(usize, usize)]) -> (r: (GraphEdges, Vec<
    (Vec<usize>, Vec<usize>),
>))
    requires
        ends_in_range(segments@, vertex_count as nat),
    ensures
        r.0.ends@ == graph_edges_prefix(segments@, segments@.len() as int).0,
        r.0.segments@ == graph_edges_prefix(segments@, segments@.len() as int).1,
        walks_view(r.1@) == stitched_walks(
            r.0.ends@,
            Seq::new(vertex_count as nat, |v: int| incident(r.0.ends@, v)),
        ),
{
    let edges = graph_edges(segments);
    proof {
        lemma_graph_edges_from(segments@, segments@.len() as int, vertex_count as nat);
    }
    let adjacency = edge_adjacency(vertex_count, &edges.ends);
    proof {
        let adj = adj_view(adjacency@);
        assert(adj =~= Seq::new(vertex_count as nat, |v: int| incident(edges.ends@, v)));
        assert forall|v: int, k: int| 0 <= v < adj.len() && 0 <= k < adj[v].len() implies #[trigger] adj[v][k]
            < edges.ends@.len() by {
            lemma_incident_in_range(edges.ends@, v);
            assert(adj[v] == incident(edges.ends@, v));
        }
    }
    let walks = stitch_walks(&edges.ends, &adjacency);
    proof {
        assert(adj_view(adjacency@) =~= Seq::new(vertex_count as nat, |v: int| incident(edges.ends@, v)));
    }
    (edges, walks)
}

proof fn lemma_graph_edges_from(segments: Seq<(usize, usize)>, k: int, vertex_count: nat)
    requires
        ends_in_range(segments, vertex_count),
        0 <= k <= segments.len(),
    ensures
        ends_in_range(graph_edges_prefix(segments, k).0, vertex_count),
    decreases k,
{
    if k > 0 {
        lemma_graph_edges_from(segments, k - 1, vertex_count);
        let prev = graph_edges_prefix(segments, k - 1);
        let s = segments[k - 1];
        assert(s.0 < vertex_count && s.1 < vertex_count);
        let pushed = prev.0.push(s);
        assert(ends_in_range(pushed, vertex_count)) by {
            assert forall|i: int| 0 <= i < pushed.len() implies (#[trigger] pushed[i]).0 < vertex_count && pushed[i].1
                < vertex_count by {
                if i < prev.0.len() {
                    assert(pushed[i] == prev.0[i]);
                }
            }
        }
    }
}

} // verus!
