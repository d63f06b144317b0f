//! What stitching promises of its walks: each follows its edges from vertex
//! to vertex, and together they take every edge of the graph exactly once.
use vstd::prelude::*;
use crate::intersection::{
    closed_walks, ends_in_range, first_unvisited, graph_ok, incident, kept_walk, open_walks,
    other_end, stitched_walks, walk_from, walks_at,
};

verus! {

/// Edge `e` joins vertices `a` and `b`, in either direction.
pub open spec fn joins(e: (usize, usize), a: usize, b: usize) -> bool {
    (e.0 == a && e.1 == b) || (e.1 == a && e.0 == b)
}

/// `points` is a walk along `edges`: one vertex more than edges, and each
/// edge joins the vertices before and after it.
pub open spec fn is_trail(ends: Seq<(usize, usize)>, points: Seq<usize>, edges: Seq<usize>) -> bool {
    &&& points.len() == edges.len() + 1
    &&& forall|k: int|
        0 <= k < edges.len() ==> #[trigger] edges[k] < ends.len() && joins(
            ends[edges[k] as int],
            points[k],
            points[k + 1],
        )
}

/// Every edge listed at a vertex has that vertex as an end.
pub open spec fn adjacency_sound(ends: Seq<(usize, usize)>, adj: Seq<Seq<usize>>) -> bool {
    forall|v: int, k: int|
        0 <= v < adj.len() && 0 <= k < adj[v].len() ==> (ends[#[trigger] adj[v][k] as int].0 == v
            || ends[adj[v][k] as int].1 == v)
}

/// The edges taken by the walks, walk after walk.
pub open spec fn taken_edges(walks: Seq<(Seq<usize>, Seq<usize>)>) -> Seq<usize>
    decreases walks.len(),
{
    if walks.len() == 0 {
        Seq::empty()
    } else {
        taken_edges(walks.drop_last()) + walks.last().1
    }
}

/// Going from flags `before` to flags `after` set exactly the edges in
/// `taken`, each once, and cleared none.
pub open spec fn marks_exactly(before: Seq<bool>, after: Seq<bool>, taken: Seq<usize>) -> bool {
    &&& after.len() == before.len()
    &&& taken.no_duplicates()
    &&& forall|x: int| 0 <= x < before.len() && before[x] ==> #[trigger] after[x]
    &&& forall|x: usize|
        #[trigger] taken.contains(x) <==> (x < before.len() && !before[x as int] && after[x as int])
}

/// Every walk is a trail.
pub open spec fn all_trails(ends: Seq<(usize, usize)>, walks: Seq<(Seq<usize>, Seq<usize>)>) -> bool {
    forall|i: int| 0 <= i < walks.len() ==> is_trail(ends, (#[trigger] walks[i]).0, walks[i].1)
}

/// The flags after the second pass of stitching.
pub open spec fn closed_walks_flags(
    ends: Seq<(usize, usize)>,
    adj: Seq<Seq<usize>>,
    visited: Seq<bool>,
    e: int,
) -> Seq<bool>
    decreases ends.len() - e,
{
    if e < 0 || e >= ends.len() {
        visited
    } else if visited[e] {
        closed_walks_flags(ends, adj, visited, e + 1)
    } else {
        let s = ends[e].0;
        let w = walk_from(ends, adj, visited, s, s, Some(e as usize), (visited.len() + 1) as nat);
        closed_walks_flags(ends, adj, w.2, e + 1)
    }
}

proof fn lemma_marks_nothing(v: Seq<bool>)
    ensures
        marks_exactly(v, v, Seq::empty()),
{
}

proof fn lemma_marks_chain(a: Seq<bool>, b: Seq<bool>, c: Seq<bool>, t1: Seq<usize>, t2: Seq<usize>)
    requires
        marks_exactly(a, b, t1),
        marks_exactly(b, c, t2),
    ensures
        marks_exactly(a, c, t1 + t2),
{
    let t = t1 + t2;
    assert forall|x: usize| #[trigger] t.contains(x) <==> (x < a.len() && !a[x as int] && c[x as int]) by {
        if t.contains(x) {
            let k = choose|k: int| 0 <= k < t.len() && t[k] == x;
            if k < t1.len() {
                assert(t1.contains(x));
            } else {
                assert(t2[k - t1.len()] == x);
                assert(t2.contains(x));
            }
        }
        if x < a.len() && !a[x as int] && c[x as int] {
            if b[x as int] {
                assert(t1.contains(x));
                let k = choose|k: int| 0 <= k < t1.len() && t1[k] == x;
                assert(t[k] == x);
            } else {
                assert(t2.contains(x));
                let k = choose|k: int| 0 <= k < t2.len() && t2[k] == x;
                assert(t[t1.len() + k] == x);
            }
        }
    }
    assert forall|i: int, j: int| 0 <= i < t.len() && 0 <= j < t.len() && i != j implies t[i] != t[j] by {
        if i < t1.len() && j < t1.len() {
        } else if i >= t1.len() && j >= t1.len() {
            assert(t[i] == t2[i - t1.len()]);
            assert(t[j] == t2[j - t1.len()]);
        } else if i < t1.len() {
            assert(t1.contains(t[i]));
            assert(t2[j - t1.len()] == t[j]);
            assert(t2.contains(t[j]));
        } else {
            assert(t1.contains(t[j]));
            assert(t2[i - t1.len()] == t[i]);
            assert(t2.contains(t[i]));
        }
    }
}

proof fn lemma_marks_one(v: Seq<bool>, e: usize)
    requires
        e < v.len(),
        !v[e as int],
    ensures
        marks_exactly(v, v.update(e as int, true), seq![e]),
{
    let t = seq![e];
    assert forall|x: usize| #[trigger] t.contains(x) <==> (x < v.len() && !v[x as int] && v.update(
        e as int,
        true,
    )[x as int]) by {
        if t.contains(x) {
            let k = choose|k: int| 0 <= k < t.len() && t[k] == x;
            assert(k == 0);
        }
        if x == e {
            assert(t[0] == x);
        }
    }
}

proof fn lemma_walk_law(
    ends: Seq<(usize, usize)>,
    adj: Seq<Seq<usize>>,
    visited: Seq<bool>,
    start: usize,
    current: usize,
    next: Option<usize>,
    fuel: nat,
)
    requires
        graph_ok(ends, adj, visited.len()),
        adjacency_sound(ends, adj),
        current < adj.len(),
        next matches Some(e) ==> e < ends.len() && (ends[e as int].0 == current || ends[e as int].1 == current),
    ensures
        ({
            let r = walk_from(ends, adj, visited, start, current, next, fuel);
            &&& marks_exactly(visited, r.2, r.1)
            &&& is_trail(ends, seq![current] + r.0, r.1)
            &&& r.0.len() == r.1.len()
            &&& next matches Some(e) ==> (fuel > 0 && !visited[e as int] ==> r.1.len() > 0 && r.1[0] == e)
        }),
    decreases fuel,
{
    let r = walk_from(ends, adj, visited, start, current, next, fuel);
    match next {
        Some(e) => {
            if fuel == 0 || visited[e as int] {
                lemma_marks_nothing(visited);
                assert(seq![current] + r.0 =~= seq![current]);
            } else {
                let vis = visited.update(e as int, true);
                let cur = other_end(ends[e as int], current);
                lemma_marks_one(visited, e);
                assert(ends[e as int].0 < adj.len() && ends[e as int].1 < adj.len());
                if cur == start {
                    let pts = seq![current] + r.0;
                    assert(pts =~= seq![current, cur]);
                    assert(joins(ends[e as int], current, cur));
                } else {
                    let nx = first_unvisited(adj[cur as int], vis);
                    lemma_first_unvisited_in(adj[cur as int], vis);
                    if nx is Some {
                        let f = nx->Some_0;
                        let k = choose|k: int| 0 <= k < adj[cur as int].len() && adj[cur as int][k] == f;
                        assert(adj[cur as int][k] < ends.len());
                        assert(ends[adj[cur as int][k] as int].0 == cur || ends[adj[cur as int][k] as int].1 == cur);
                    }
                    lemma_walk_law(ends, adj, vis, start, cur, nx, (fuel - 1) as nat);
                    let rest = walk_from(ends, adj, vis, start, cur, nx, (fuel - 1) as nat);
                    lemma_marks_chain(visited, vis, rest.2, seq![e], rest.1);
                    assert(r.1 == seq![e] + rest.1);
                    let pts = seq![current] + r.0;
                    let inner = seq![cur] + rest.0;
                    assert(pts =~= seq![current] + inner);
                    assert forall|k: int| 0 <= k < r.1.len() implies #[trigger] r.1[k] < ends.len() && joins(
                        ends[r.1[k] as int],
                        pts[k],
                        pts[k + 1],
                    ) by {
                        if k == 0 {
                            assert(r.1[0] == e);
                            assert(pts[0] == current);
                            assert(pts[1] == cur);
                        } else {
                            assert(r.1[k] == rest.1[k - 1]);
                            assert(pts[k] == inner[k - 1]);
                            assert(pts[k + 1] == inner[k]);
                        }
                    }
                }
            }
        },
        None => {
            lemma_marks_nothing(visited);
            assert(seq![current] + r.0 =~= seq![current]);
        },
    }
}

proof fn lemma_first_unvisited_in(edges: Seq<usize>, visited: Seq<bool>)
    ensures
        first_unvisited(edges, visited) matches Some(e) ==> edges.contains(e) && !visited[e as int],
    decreases edges.len(),
{
    if edges.len() > 0 {
        if visited[edges[0] as int] {
            lemma_first_unvisited_in(edges.drop_first(), visited);
            if first_unvisited(edges, visited) is Some {
                let e = first_unvisited(edges, visited)->Some_0;
                let k = choose|k: int| 0 <= k < edges.drop_first().len() && edges.drop_first()[k] == e;
                assert(edges[k + 1] == e);
            }
        } else {
            assert(edges[0] == edges[0]);
        }
    }
}

proof fn lemma_taken_concat(a: Seq<(Seq<usize>, Seq<usize>)>, b: Seq<(Seq<usize>, Seq<usize>)>)
    ensures
        taken_edges(a + b) == taken_edges(a) + taken_edges(b),
    decreases b.len(),
{
    if b.len() == 0 {
        assert(a + b =~= a);
        assert(taken_edges(b) =~= Seq::<usize>::empty());
        assert(taken_edges(a) + taken_edges(b) =~= taken_edges(a));
    } else {
        lemma_taken_concat(a, b.drop_last());
        assert((a + b).drop_last() =~= a + b.drop_last());
        assert(taken_edges(a) + taken_edges(b) =~= taken_edges(a) + taken_edges(b.drop_last()) + b.last().1);
    }
}

proof fn lemma_kept_walk_law(
    ends: Seq<(usize, usize)>,
    adj: Seq<Seq<usize>>,
    visited: Seq<bool>,
    s: usize,
    e: usize,
)
    requires
        graph_ok(ends, adj, visited.len()),
        adjacency_sound(ends, adj),
        s < adj.len(),
        e < ends.len(),
        ends[e as int].0 == s || ends[e as int].1 == s,
    ensures
        ({
            let w = walk_from(ends, adj, visited, s, s, Some(e), (visited.len() + 1) as nat);
            let kept = kept_walk((seq![s] + w.0, w.1));
            &&& marks_exactly(visited, w.2, taken_edges(kept))
            &&& all_trails(ends, kept)
            &&& !visited[e as int] ==> w.2[e as int]
        }),
{
    let w = walk_from(ends, adj, visited, s, s, Some(e), (visited.len() + 1) as nat);
    lemma_walk_law(ends, adj, visited, s, s, Some(e), (visited.len() + 1) as nat);
    let walk = (seq![s] + w.0, w.1);
    let kept = kept_walk(walk);
    let none = Seq::<(Seq<usize>, Seq<usize>)>::empty();
    assert(taken_edges(none) == Seq::<usize>::empty());
    if walk.0.len() >= 2 {
        assert(kept =~= seq![walk]);
        assert(kept.drop_last() =~= none);
        assert(taken_edges(kept) == taken_edges(none) + w.1);
        assert(taken_edges(kept) =~= w.1);
    } else {
        assert(w.1.len() == 0);
        assert(w.1 =~= Seq::<usize>::empty());
        assert(kept == none);
        assert(taken_edges(kept) =~= w.1);
    }
    if !visited[e as int] {
        assert(w.1[0] == e);
        assert(w.1.contains(e));
    }
}

proof fn lemma_walks_at_law(
    ends: Seq<(usize, usize)>,
    adj: Seq<Seq<usize>>,
    visited: Seq<bool>,
    s: usize,
    fuel: nat,
)
    requires
        graph_ok(ends, adj, visited.len()),
        adjacency_sound(ends, adj),
        s < adj.len(),
    ensures
        ({
            let r = walks_at(ends, adj, visited, s, fuel);
            &&& marks_exactly(visited, r.1, taken_edges(r.0))
            &&& all_trails(ends, r.0)
        }),
    decreases fuel,
{
    let r = walks_at(ends, adj, visited, s, fuel);
    if fuel == 0 || first_unvisited(adj[s as int], visited) is None {
        lemma_marks_nothing(visited);
        assert(taken_edges(r.0) =~= Seq::<usize>::empty());
    } else {
        let e = first_unvisited(adj[s as int], visited)->Some_0;
        lemma_first_unvisited_in(adj[s as int], visited);
        let k = choose|k: int| 0 <= k < adj[s as int].len() && adj[s as int][k] == e;
        assert(adj[s as int][k] < ends.len());
        let w = walk_from(ends, adj, visited, s, s, Some(e), (visited.len() + 1) as nat);
        let kept = kept_walk((seq![s] + w.0, w.1));
        lemma_kept_walk_law(ends, adj, visited, s, e);
        lemma_walks_at_law(ends, adj, w.2, s, (fuel - 1) as nat);
        let rest = walks_at(ends, adj, w.2, s, (fuel - 1) as nat);
        lemma_taken_concat(kept, rest.0);
        lemma_marks_chain(visited, w.2, rest.1, taken_edges(kept), taken_edges(rest.0));
        assert(r.0 == kept + rest.0);
        assert forall|i: int| 0 <= i < r.0.len() implies is_trail(ends, (#[trigger] r.0[i]).0, r.0[i].1) by {
            if i < kept.len() {
                assert(r.0[i] == kept[i]);
            } else {
                assert(r.0[i] == rest.0[i - kept.len()]);
            }
        }
    }
}

proof fn lemma_open_walks_law(ends: Seq<(usize, usize)>, adj: Seq<Seq<usize>>, visited: Seq<bool>, s: int)
    requires
        graph_ok(ends, adj, visited.len()),
        adjacency_sound(ends, adj),
    ensures
        ({
            let r = open_walks(ends, adj, visited, s);
            &&& marks_exactly(visited, r.1, taken_edges(r.0))
            &&& all_trails(ends, r.0)
        }),
    decreases adj.len() - s,
{
    let r = open_walks(ends, adj, visited, s);
    if s < 0 || s >= adj.len() {
        lemma_marks_nothing(visited);
        assert(taken_edges(r.0) =~= Seq::<usize>::empty());
    } else if adj[s].len() == 2 {
        lemma_open_walks_law(ends, adj, visited, s + 1);
    } else {
        let a = walks_at(ends, adj, visited, s as usize, (visited.len() + 1) as nat);
        lemma_walks_at_law(ends, adj, visited, s as usize, (visited.len() + 1) as nat);
        lemma_open_walks_law(ends, adj, a.1, s + 1);
        let rest = open_walks(ends, adj, a.1, s + 1);
        lemma_taken_concat(a.0, rest.0);
        lemma_marks_chain(visited, a.1, rest.1, taken_edges(a.0), taken_edges(rest.0));
        assert forall|i: int| 0 <= i < r.0.len() implies is_trail(ends, (#[trigger] r.0[i]).0, r.0[i].1) by {
            if i < a.0.len() {
                assert(r.0[i] == a.0[i]);
            } else {
                assert(r.0[i] == rest.0[i - a.0.len()]);
            }
        }
    }
}

proof fn lemma_closed_walks_law(ends: Seq<(usize, usize)>, adj: Seq<Seq<usize>>, visited: Seq<bool>, e: int)
    requires
        ends.len() <= usize::MAX,
        graph_ok(ends, adj, visited.len()),
        adjacency_sound(ends, adj),
        0 <= e,
    ensures
        ({
            let ws = closed_walks(ends, adj, visited, e);
            let flags = closed_walks_flags(ends, adj, visited, e);
            &&& marks_exactly(visited, flags, taken_edges(ws))
            &&& all_trails(ends, ws)
            &&& forall|x: int| e <= x < ends.len() ==> #[trigger] flags[x]
        }),
    decreases ends.len() - e,
{
    let ws = closed_walks(ends, adj, visited, e);
    let flags = closed_walks_flags(ends, adj, visited, e);
    if e >= ends.len() {
        lemma_marks_nothing(visited);
        assert(taken_edges(ws) =~= Seq::<usize>::empty());
    } else if visited[e] {
        lemma_closed_walks_law(ends, adj, visited, e + 1);
    } else {
        let s = ends[e].0;
        assert(s < adj.len());
        let w = walk_from(ends, adj, visited, s, s, Some(e as usize), (visited.len() + 1) as nat);
        let kept = kept_walk((seq![s] + w.0, w.1));
        lemma_kept_walk_law(ends, adj, visited, s, e as usize);
        lemma_closed_walks_law(ends, adj, w.2, e + 1);
        let rest = closed_walks(ends, adj, w.2, e + 1);
        lemma_taken_concat(kept, rest);
        lemma_marks_chain(visited, w.2, flags, taken_edges(kept), taken_edges(rest));
        assert(ws == kept + rest);
        assert forall|i: int| 0 <= i < ws.len() implies is_trail(ends, (#[trigger] ws[i]).0, ws[i].1) by {
            if i < kept.len() {
                assert(ws[i] == kept[i]);
            } else {
                assert(ws[i] == rest[i - kept.len()]);
            }
        }
    }
}

proof fn lemma_incident_sound(ends: Seq<(usize, usize)>, v: int)
    requires
        ends.len() <= usize::MAX,
    ensures
        forall|k: int|
            0 <= k < incident(ends, v).len() ==> #[trigger] incident(ends, v)[k] < ends.len() && (ends[incident(
                ends,
                v,
            )[k] as int].0 == v || ends[incident(ends, v)[k] as int].1 == v),
    decreases ends.len(),
{
    if ends.len() > 0 {
        let i = (ends.len() - 1) as usize;
        let e = ends.last();
        let r = incident(ends.drop_last(), v);
        lemma_incident_sound(ends.drop_last(), v);
        assert(forall|k: int| 0 <= k < r.len() ==> ends[r[k] as int] == ends.drop_last()[r[k] as int]);
        let a = if e.0 == v { r.push(i) } else { r };
        let b = if e.1 == v { a.push(i) } else { a };
        assert(b == incident(ends, v));
        assert forall|k: int| 0 <= k < b.len() implies #[trigger] b[k] < ends.len() && (ends[b[k] as int].0 == v
            || ends[b[k] as int].1 == v) by {
            assert(ends[i as int] == e);
            if k < r.len() {
                assert(b[k] == r[k]);
                assert(a[k] == r[k]);
            } else if k < a.len() {
                assert(b[k] == a[k]);
                assert(e.0 == v);
                assert(a[k] == i);
            } else {
                assert(e.1 == v);
                assert(b[k] == i);
            }
        }
    }
}

/// Stitching walks every edge of the graph exactly once: the edges taken by
/// all walks together are each edge once, and every walk follows its edges
/// from vertex to vertex.
pub proof fn lemma_stitching_takes_each_edge_once(ends: Seq<(usize, usize)>, vertex_count: nat)
    requires
        ends.len() <= usize::MAX,
        ends_in_range(ends, vertex_count),
    ensures
        ({
            let ws = stitched_walks(ends, Seq::new(vertex_count, |v: int| incident(ends, v)));
            &&& all_trails(ends, ws)
            &&& taken_edges(ws).no_duplicates()
            &&& forall|x: usize| #[trigger] taken_edges(ws).contains(x) <==> x < ends.len()
        }),
{
    let adj = Seq::new(vertex_count, |v: int| incident(ends, v));
    assert forall|v: int, k: int| 0 <= v < adj.len() && 0 <= k < adj[v].len() implies #[trigger] adj[v][k]
        < ends.len() && (ends[adj[v][k] as int].0 == v || ends[adj[v][k] as int].1 == v) by {
        lemma_incident_sound(ends, v);
    }
    let init = Seq::new(ends.len(), |i: int| false);
    assert(graph_ok(ends, adj, init.len()));
    let first = open_walks(ends, adj, init, 0);
    lemma_open_walks_law(ends, adj, init, 0);
    let second = closed_walks(ends, adj, first.1, 0);
    let flags = closed_walks_flags(ends, adj, first.1, 0);
    lemma_closed_walks_law(ends, adj, first.1, 0);
    lemma_marks_chain(init, first.1, flags, taken_edges(first.0), taken_edges(second));
    lemma_taken_concat(first.0, second);
    let ws = first.0 + second;
    assert(ws == stitched_walks(ends, adj));
    assert forall|i: int| 0 <= i < ws.len() implies is_trail(ends, (#[trigger] ws[i]).0, ws[i].1) by {
        if i < first.0.len() {
            assert(ws[i] == first.0[i]);
        } else {
            assert(ws[i] == second[i - first.0.len()]);
        }
    }
    assert forall|x: usize| #[trigger] taken_edges(ws).contains(x) <==> x < ends.len() by {
        if x < ends.len() {
            assert(flags[x as int]);
        }
    }
}

} // verus!
