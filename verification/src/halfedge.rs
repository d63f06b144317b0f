//! Half-edge construction from indexed triangles and half-edge link checks.
use vstd::prelude::*;
use crate::identity::{fresh_identity, lemma_fresh_identity_valid, TopologyIdentity};
use crate::topology::{EdgeId, FaceId, HalfEdge, HalfEdgeId, Shell, TopologyError, VertexId};

verus! {

/// Origin of half-edge `h` in a triangle list: corner `h % 3` of triangle `h / 3`.
pub open spec fn he_origin(tris: Seq<[usize; 3]>, h: int) -> usize {
    tris[h / 3][h % 3]
}

/// Destination of half-edge `h`: the next corner of the same triangle.
pub open spec fn he_dest(tris: Seq<[usize; 3]>, h: int) -> usize {
    tris[h / 3][(h % 3 + 1) % 3]
}

/// Some half-edge below `limit` runs from `o` to `d`.
pub open spec fn directed_in(tris: Seq<[usize; 3]>, limit: int, o: usize, d: usize) -> bool {
    exists|g: int| 0 <= g < limit && #[trigger] he_origin(tris, g) == o && he_dest(tris, g) == d
}

/// The error that triangle `f` raises when it is appended after triangles
/// `0..f`: an out-of-range corner, a repeated corner, or a directed edge
/// already used by an earlier triangle.
pub open spec fn triangle_error(tris: Seq<[usize; 3]>, vertex_count: nat, f: int) -> Option<
    TopologyError,
> {
    let t = tris[f];
    if t[0] >= vertex_count {
        Some(TopologyError::InvalidVertex(t[0]))
    } else if t[1] >= vertex_count {
        Some(TopologyError::InvalidVertex(t[1]))
    } else if t[2] >= vertex_count {
        Some(TopologyError::InvalidVertex(t[2]))
    } else if t[0] == t[1] || t[1] == t[2] || t[2] == t[0] {
        Some(TopologyError::DegenerateTriangle(f as usize))
    } else if directed_in(tris, 3 * f, t[0], t[1]) {
        Some(TopologyError::DuplicateDirectedEdge(t[0], t[1]))
    } else if directed_in(tris, 3 * f, t[1], t[2]) {
        Some(TopologyError::DuplicateDirectedEdge(t[1], t[2]))
    } else if directed_in(tris, 3 * f, t[2], t[0]) {
        Some(TopologyError::DuplicateDirectedEdge(t[2], t[0]))
    } else {
        None
    }
}

/// The first triangle error at or after triangle `f`.
pub open spec fn first_triangle_error(tris: Seq<[usize; 3]>, vertex_count: nat, f: int) -> Option<
    TopologyError,
>
    decreases tris.len() - f,
{
    if f < 0 || f >= tris.len() {
        None
    } else {
        match triangle_error(tris, vertex_count, f) {
            Some(e) => Some(e),
            None => first_triangle_error(tris, vertex_count, f + 1),
        }
    }
}

/// Half-edge `h` has a reverse half-edge somewhere in the mesh.
pub open spec fn has_reverse(tris: Seq<[usize; 3]>, h: int) -> bool {
    directed_in(tris, 3 * tris.len() as int, he_dest(tris, h), he_origin(tris, h))
}

/// Index arithmetic for corner `i` of triangle `f`: position `3 * f + i`.
pub proof fn lemma_he_index(f: int, i: int)
    requires
        0 <= f,
        0 <= i < 3,
    ensures
        (3 * f + i) / 3 == f,
        (3 * f + i) % 3 == i,
{
    assert((3 * f + i) / 3 == f) by (nonlinear_arith)
        requires
            0 <= f,
            0 <= i < 3,
    ;
    assert((3 * f + i) % 3 == i) by (nonlinear_arith)
        requires
            0 <= f,
            0 <= i < 3,
    ;
}

/// Out-adjacency lists index every half-edge below `hcount` by origin.
pub open spec fn adjacency_ok(
    out: Seq<Vec<(usize, usize)>>,
    tris: Seq<[usize; 3]>,
    hcount: int,
) -> bool {
    &&& forall|v: int, k: int|
        0 <= v < out.len() && 0 <= k < out[v]@.len() ==> {
            let (d, h) = #[trigger] out[v]@[k];
            &&& 0 <= h < hcount
            &&& he_origin(tris, h as int) == v
            &&& he_dest(tris, h as int) == d
        }
    &&& forall|g: int|
        0 <= g < hcount ==> out[#[trigger] he_origin(tris, g) as int]@.contains(
            (he_dest(tris, g), g as usize),
        )
}

fn find_directed(out: &Vec<Vec<(usize, usize)>>, o: usize, d: usize) -> (r: Option<usize>)
    requires
        o < out@.len(),
    ensures
        r matches Some(h) ==> exists|k: int| 0 <= k < out@[o as int]@.len() && out@[o as int]@[k] == (d, h),
        r is None ==> forall|k: int| 0 <= k < out@[o as int]@.len() ==> out@[o as int]@[k].0 != d,
{
    let list = &out[o];
    let mut k: usize = 0;
    while k < list.len()
        invariant
            list@ == out@[o as int]@,
            k <= list@.len(),
            forall|j: int| 0 <= j < k ==> list@[j].0 != d,
        decreases list@.len() - k,
    {
        let (dest, h) = list[k];
        if dest == d {
            assert(list@[k as int] == (d, h));
            return Some(h);
        }
        k += 1;
    }
    None
}


/// Position of the next half-edge in the same triangle.
pub open spec fn next_of(h: int) -> int {
    3 * (h / 3) + (h % 3 + 1) % 3
}

/// Position of the previous half-edge in the same triangle.
pub open spec fn prev_of(h: int) -> int {
    3 * (h / 3) + (h % 3 + 2) % 3
}

/// Half-edge record for corner `h` before twins and edges are assigned.
pub open spec fn initial_halfedge(tris: Seq<[usize; 3]>, h: int) -> HalfEdge {
    HalfEdge {
        origin: he_origin(tris, h),
        twin: None,
        next: next_of(h) as usize,
        prev: prev_of(h) as usize,
        face: (h / 3) as usize,
        edge: usize::MAX,
    }
}

/// Each vertex records its first outgoing half-edge below `limit`, or none.
pub open spec fn vertex_halfedges_ok(vh: Seq<Option<usize>>, tris: Seq<[usize; 3]>, limit: int) -> bool {
    forall|v: int|
        0 <= v < vh.len() ==> match #[trigger] vh[v] {
            Some(g) => {
                &&& 0 <= g < limit
                &&& he_origin(tris, g as int) == v
                &&& forall|g2: int| 0 <= g2 < g ==> #[trigger] he_origin(tris, g2) != v
            },
            None => forall|g2: int| 0 <= g2 < limit ==> #[trigger] he_origin(tris, g2) != v,
        }
}

/// The corners of triangles `0..f` are in range and pairwise distinct per triangle.
pub open spec fn corners_ok(tris: Seq<[usize; 3]>, vertex_count: nat, f: int) -> bool {
    forall|g: int|
        0 <= g < f ==> {
            let t = #[trigger] tris[g];
            &&& t[0] < vertex_count
            &&& t[1] < vertex_count
            &&& t[2] < vertex_count
            &&& t[0] != t[1]
            &&& t[1] != t[2]
            &&& t[2] != t[0]
        }
}

/// State of the first construction phase after `hcount` half-edges.
pub open spec fn phase_one_ok(
    halfedges: Seq<HalfEdge>,
    out: Seq<Vec<(usize, usize)>>,
    vh: Seq<Option<usize>>,
    tris: Seq<[usize; 3]>,
    vertex_count: nat,
    hcount: int,
) -> bool {
    &&& halfedges.len() == hcount
    &&& out.len() == vertex_count
    &&& vh.len() == vertex_count
    &&& forall|g: int| 0 <= g < hcount ==> #[trigger] halfedges[g] == initial_halfedge(tris, g)
    &&& adjacency_ok(out, tris, hcount)
    &&& vertex_halfedges_ok(vh, tris, hcount)
}

fn add_halfedge(
    triangles: &[[usize; 3]],
    vertex_count: usize,
    f: usize,
    i: usize,
    halfedges: &mut Vec<HalfEdge>,
    out: &mut Vec<Vec<(usize, usize)>>,
    vh: &mut Vec<Option<usize>>,
) -> (r: Result<(), TopologyError>)
    requires
        i < 3,
        f < triangles@.len(),
        3 * triangles@.len() <= usize::MAX,
        corners_ok(triangles@, vertex_count as nat, f + 1),
        phase_one_ok(old(halfedges)@, old(out)@, old(vh)@, triangles@, vertex_count as nat, 3 * f + i),
    ensures
        ({
            let o = triangles@[f as int][i as int];
            let d = triangles@[f as int][((i + 1) % 3) as int];
            &&& r is Err ==> r == Err::<(), TopologyError>(TopologyError::DuplicateDirectedEdge(o, d))
                && directed_in(triangles@, 3 * f, o, d)
            &&& r is Ok ==> !directed_in(triangles@, 3 * f, o, d) && phase_one_ok(
                final(halfedges)@,
                final(out)@,
                final(vh)@,
                triangles@,
                vertex_count as nat,
                3 * f + i + 1,
            )
        }),
{
    let tris = Ghost(triangles@);
    let tri = triangles[f];
    let o = tri[i];
    let d = tri[(i + 1) % 3];
    let h = 3 * f + i;
    proof {
        lemma_he_index(f as int, i as int);
        assert(he_origin(tris@, h as int) == o);
        assert(he_dest(tris@, h as int) == d);
    }
    if let Some(g) = find_directed(out, o, d) {
        proof {
            let k = choose|k: int| 0 <= k < out@[o as int]@.len() && out@[o as int]@[k] == (d, g);
            assert(out@[o as int]@[k] == (d, g));
            if g >= 3 * f {
                let j = g - 3 * f;
                lemma_he_index(f as int, j);
                assert(tris@[f as int][j] == o);
                assert(tris@[f as int][(j + 1) % 3] == d);
                assert(tris@[f as int] == tri);
            }
            assert(directed_in(tris@, 3 * f, o, d));
        }
        return Err(TopologyError::DuplicateDirectedEdge(o, d));
    }
    proof {
        if directed_in(tris@, 3 * f, o, d) {
            let g = choose|g: int| 0 <= g < 3 * f && #[trigger] he_origin(tris@, g) == o && he_dest(tris@, g) == d;
            assert(out@[o as int]@.contains((d, g as usize)));
            let k = choose|k: int| 0 <= k < out@[o as int]@.len() && out@[o as int]@[k] == (d, g as usize);
            assert(out@[o as int]@[k].0 == d);
        }
    }
    if vh[o].is_none() {
        vh.set(o, Some(h));
    }
    let ghost old_out = out@;
    let he = HalfEdge {
        origin: o,
        twin: None,
        next: 3 * f + (i + 1) % 3,
        prev: 3 * f + (i + 2) % 3,
        face: f,
        edge: usize::MAX,
    };
    halfedges.push(he);
    out[o].push((d, h));
    proof {
        assert(out@[o as int]@ == old_out[o as int]@.push((d, h)));
        assert(out@.len() == old_out.len());
        assert(forall|v: int| 0 <= v < out@.len() && v != o ==> out@[v] == old_out[v]);
        assert(he == initial_halfedge(tris@, h as int));
        assert forall|g: int| 0 <= g < h + 1 implies #[trigger] halfedges@[g] == initial_halfedge(tris@, g) by {
            if g < h {
                assert(halfedges@[g] == old(halfedges)@[g]);
            }
        }
        assert forall|v: int, k: int|
            0 <= v < out@.len() && 0 <= k < out@[v]@.len() implies {
                let (dd, hh) = #[trigger] out@[v]@[k];
                &&& 0 <= hh < h + 1
                &&& he_origin(tris@, hh as int) == v
                &&& he_dest(tris@, hh as int) == dd
            } by {
            if v != o || k < old_out[v]@.len() {
                assert(out@[v]@[k] == old_out[v]@[k]);
            }
        }
        assert forall|g: int| 0 <= g < h + 1 implies out@[#[trigger] he_origin(tris@, g) as int]@.contains(
            (he_dest(tris@, g), g as usize),
        ) by {
            if g < h {
                let ov = he_origin(tris@, g) as int;
                assert(old_out[ov]@.contains((he_dest(tris@, g), g as usize)));
                let k = choose|k: int| 0 <= k < old_out[ov]@.len() && old_out[ov]@[k] == (he_dest(tris@, g), g as usize);
                assert(out@[ov]@[k] == old_out[ov]@[k]);
            } else {
                assert(g == h);
                let k = old_out[o as int]@.len() as int;
                assert(out@[o as int]@[k] == (d, h));
            }
        }
        assert forall|v: int| 0 <= v < vh@.len() implies match #[trigger] vh@[v] {
            Some(g) => {
                &&& 0 <= g < h + 1
                &&& he_origin(tris@, g as int) == v
                &&& forall|g2: int| 0 <= g2 < g ==> #[trigger] he_origin(tris@, g2) != v
            },
            None => forall|g2: int| 0 <= g2 < h + 1 ==> #[trigger] he_origin(tris@, g2) != v,
        } by {
            if v != o {
                assert(vh@[v] == old(vh)@[v]);
                match vh@[v] {
                    Some(g) => {},
                    None => {
                        assert forall|g2: int| 0 <= g2 < h + 1 implies #[trigger] he_origin(tris@, g2) != v by {
                            if g2 < h {
                            } else {
                                assert(g2 == h);
                            }
                        }
                    },
                }
            }
        }
    }
    Ok(())
}


proof fn lemma_first_error_from_prefix(tris: Seq<[usize; 3]>, vertex_count: nat, f: int)
    requires
        0 <= f <= tris.len(),
        forall|g: int| 0 <= g < f ==> triangle_error(tris, vertex_count, g) is None,
    ensures
        first_triangle_error(tris, vertex_count, 0) == first_triangle_error(tris, vertex_count, f),
    decreases f,
{
    if f > 0 {
        lemma_first_error_from_prefix(tris, vertex_count, f - 1);
        assert(triangle_error(tris, vertex_count, f - 1) is None);
    }
}

proof fn lemma_first_error_none(tris: Seq<[usize; 3]>, vertex_count: nat, f: int)
    requires
        0 <= f <= tris.len(),
        first_triangle_error(tris, vertex_count, f) is None,
    ensures
        forall|g: int| f <= g < tris.len() ==> triangle_error(tris, vertex_count, g) is None,
    decreases tris.len() - f,
{
    if f < tris.len() {
        lemma_first_error_none(tris, vertex_count, f + 1);
    }
}

/// Build the half-edge records, vertex hints and out-adjacency for all
/// triangles, stopping at the first triangle error.
fn build_phase_one(triangles: &[[usize; 3]], vertex_count: usize) -> (r: Result<
    (Vec<HalfEdge>, Vec<Vec<(usize, usize)>>, Vec<Option<usize>>),
    TopologyError,
>)
    requires
        3 * triangles@.len() <= usize::MAX,
    ensures
        match r {
            Ok((halfedges, out, vh)) => {
                &&& first_triangle_error(triangles@, vertex_count as nat, 0) is None
                &&& phase_one_ok(
                    halfedges@,
                    out@,
                    vh@,
                    triangles@,
                    vertex_count as nat,
                    3 * triangles@.len() as int,
                )
            },
            Err(e) => first_triangle_error(triangles@, vertex_count as nat, 0) == Some(e),
        },
{
    let ghost tris = triangles@;
    let ghost nv = vertex_count as nat;
    let mut out: Vec<Vec<(usize, usize)>> = Vec::new();
    let mut vh: Vec<Option<usize>> = Vec::new();
    let mut v: usize = 0;
    while v < vertex_count
        invariant
            v <= vertex_count,
            out@.len() == v,
            vh@.len() == v,
            forall|j: int| 0 <= j < v ==> (#[trigger] out@[j])@.len() == 0,
            forall|j: int| 0 <= j < v ==> (#[trigger] vh@[j]) is None,
        decreases vertex_count - v,
    {
        out.push(Vec::new());
        vh.push(None);
        v += 1;
    }
    let mut halfedges: Vec<HalfEdge> = Vec::new();
    assert(phase_one_ok(halfedges@, out@, vh@, tris, nv, 0));
    let mut f: usize = 0;
    while f < triangles.len()
        invariant
            tris == triangles@,
            nv == vertex_count as nat,
            f <= tris.len(),
            3 * tris.len() <= usize::MAX,
            corners_ok(tris, nv, f as int),
            phase_one_ok(halfedges@, out@, vh@, tris, nv, 3 * f),
            forall|g: int| 0 <= g < f ==> triangle_error(tris, nv, g) is None,
        decreases tris.len() - f,
    {
        proof {
            lemma_first_error_from_prefix(tris, nv, f as int);
        }
        let tri = triangles[f];
        if tri[0] >= vertex_count {
            return Err(TopologyError::InvalidVertex(tri[0]));
        }
        if tri[1] >= vertex_count {
            return Err(TopologyError::InvalidVertex(tri[1]));
        }
        if tri[2] >= vertex_count {
            return Err(TopologyError::InvalidVertex(tri[2]));
        }
        if tri[0] == tri[1] || tri[1] == tri[2] || tri[2] == tri[0] {
            return Err(TopologyError::DegenerateTriangle(f));
        }
        assert(corners_ok(tris, nv, f + 1)) by {
            assert forall|g: int| 0 <= g < f + 1 implies {
                let t = #[trigger] tris[g];
                &&& t[0] < nv
                &&& t[1] < nv
                &&& t[2] < nv
                &&& t[0] != t[1]
                &&& t[1] != t[2]
                &&& t[2] != t[0]
            } by {
                if g == f {
                    assert(tris[g] == tri);
                }
            }
        }
        let r0 = add_halfedge(triangles, vertex_count, f, 0, &mut halfedges, &mut out, &mut vh);
        if let Err(e) = r0 {
            return Err(e);
        }
        let r1 = add_halfedge(triangles, vertex_count, f, 1, &mut halfedges, &mut out, &mut vh);
        if let Err(e) = r1 {
            return Err(e);
        }
        let r2 = add_halfedge(triangles, vertex_count, f, 2, &mut halfedges, &mut out, &mut vh);
        if let Err(e) = r2 {
            return Err(e);
        }
        assert(triangle_error(tris, nv, f as int) is None);
        f += 1;
    }
    proof {
        lemma_first_error_from_prefix(tris, nv, f as int);
    }
    Ok((halfedges, out, vh))
}


/// Half-edge `t` runs opposite to half-edge `h`.
pub open spec fn reverse_of(tris: Seq<[usize; 3]>, h: int, t: int) -> bool {
    &&& 0 <= t < 3 * tris.len()
    &&& he_origin(tris, t) == he_dest(tris, h)
    &&& he_dest(tris, t) == he_origin(tris, h)
}

/// The first half-edge at or after `h` that has no reverse half-edge.
pub open spec fn first_missing_reverse(tris: Seq<[usize; 3]>, h: int) -> Option<int>
    decreases 3 * tris.len() - h,
{
    if h < 0 || h >= 3 * tris.len() {
        None
    } else if !has_reverse(tris, h) {
        Some(h)
    } else {
        first_missing_reverse(tris, h + 1)
    }
}

/// The error that building a closed half-edge mesh from `tris` reports, if
/// any: the first triangle error in triangle order, otherwise a boundary edge
/// at the first half-edge (in half-edge order) that has no reverse.
pub open spec fn construction_error(tris: Seq<[usize; 3]>, vertex_count: nat) -> Option<
    TopologyError,
> {
    match first_triangle_error(tris, vertex_count, 0) {
        Some(e) => Some(e),
        None => match first_missing_reverse(tris, 0) {
            Some(g) => Some(TopologyError::BoundaryEdge(he_origin(tris, g), he_dest(tris, g))),
            None => None,
        },
    }
}

proof fn lemma_next_prev(tris: Seq<[usize; 3]>, h: int)
    requires
        0 <= h < 3 * tris.len(),
    ensures
        0 <= next_of(h) < 3 * tris.len(),
        0 <= prev_of(h) < 3 * tris.len(),
        next_of(h) / 3 == h / 3,
        prev_of(h) / 3 == h / 3,
        next_of(h) != h,
        prev_of(h) != h,
        next_of(prev_of(h)) == h,
        prev_of(next_of(h)) == h,
        he_origin(tris, next_of(h)) == he_dest(tris, h),
        he_dest(tris, prev_of(h)) == he_origin(tris, h),
{
    let f = h / 3;
    let i = h % 3;
    assert(h == 3 * f + i && 0 <= i < 3 && 0 <= f < tris.len()) by (nonlinear_arith)
        requires
            0 <= h < 3 * tris.len(),
            f == h / 3,
            i == h % 3,
    ;
    lemma_he_index(f, (i + 1) % 3);
    lemma_he_index(f, (i + 2) % 3);
    lemma_he_index(f, i);
    let n = 3 * f + (i + 1) % 3;
    let p = 3 * f + (i + 2) % 3;
    assert(next_of(h) == n);
    assert(prev_of(h) == p);
    assert(n / 3 == f && n % 3 == (i + 1) % 3);
    assert(p / 3 == f && p % 3 == (i + 2) % 3);
    assert(next_of(p) == 3 * f + ((i + 2) % 3 + 1) % 3);
    assert(prev_of(n) == 3 * f + ((i + 1) % 3 + 2) % 3);
    assert(3 * f + 3 <= 3 * tris.len());
}

proof fn lemma_missing_reverse_from_prefix(tris: Seq<[usize; 3]>, h: int)
    requires
        0 <= h <= 3 * tris.len(),
        forall|g: int| 0 <= g < h ==> has_reverse(tris, g),
    ensures
        first_missing_reverse(tris, 0) == first_missing_reverse(tris, h),
    decreases h,
{
    if h > 0 {
        lemma_missing_reverse_from_prefix(tris, h - 1);
    }
}

/// Half-edge records after twins were assigned below `limit`.
pub open spec fn twins_ok(halfedges: Seq<HalfEdge>, tris: Seq<[usize; 3]>, limit: int) -> bool {
    &&& halfedges.len() == 3 * tris.len()
    &&& forall|g: int|
        0 <= g < 3 * tris.len() ==> {
            let he = #[trigger] halfedges[g];
            let init = initial_halfedge(tris, g);
            &&& he.origin == init.origin
            &&& he.next == init.next
            &&& he.prev == init.prev
            &&& he.face == init.face
            &&& he.edge == init.edge
            &&& g < limit ==> (he.twin matches Some(t) && reverse_of(tris, g, t as int))
            &&& g >= limit ==> he.twin is None
        }
}

fn assign_twins(
    triangles: &[[usize; 3]],
    halfedges: &mut Vec<HalfEdge>,
    out: &Vec<Vec<(usize, usize)>>,
) -> (r: Result<(), TopologyError>)
    requires
        3 * triangles@.len() <= usize::MAX,
        old(halfedges)@.len() == 3 * triangles@.len(),
        forall|g: int|
            0 <= g < 3 * triangles@.len() ==> #[trigger] old(halfedges)@[g] == initial_halfedge(
                triangles@,
                g,
            ),
        adjacency_ok(out@, triangles@, 3 * triangles@.len() as int),
        forall|g: int| 0 <= g < 3 * triangles@.len() ==> #[trigger] he_origin(triangles@, g) < out@.len(),
        forall|g: int| 0 <= g < 3 * triangles@.len() ==> #[trigger] he_dest(triangles@, g) < out@.len(),
    ensures
        match r {
            Ok(()) => first_missing_reverse(triangles@, 0) is None && twins_ok(
                final(halfedges)@,
                triangles@,
                3 * triangles@.len() as int,
            ),
            Err(e) => first_missing_reverse(triangles@, 0) matches Some(g) && e
                == TopologyError::BoundaryEdge(he_origin(triangles@, g), he_dest(triangles@, g)),
        },
{
    let ghost tris = triangles@;
    let hcount = halfedges.len();
    let mut h: usize = 0;
    assert(twins_ok(halfedges@, tris, 0));
    while h < hcount
        invariant
            tris == triangles@,
            hcount == 3 * tris.len(),
            h <= hcount,
            twins_ok(halfedges@, tris, h as int),
            adjacency_ok(out@, tris, hcount as int),
            forall|g: int| 0 <= g < hcount ==> #[trigger] he_origin(tris, g) < out@.len(),
            forall|g: int| 0 <= g < hcount ==> #[trigger] he_dest(tris, g) < out@.len(),
            forall|g: int| 0 <= g < h ==> has_reverse(tris, g),
        decreases hcount - h,
    {
        proof {
            lemma_next_prev(tris, h as int);
            lemma_missing_reverse_from_prefix(tris, h as int);
        }
        let he = halfedges[h];
        let o = he.origin;
        let nx = he.next;
        let d = halfedges[nx].origin;
        assert(o == he_origin(tris, h as int));
        assert(d == he_dest(tris, h as int));
        match find_directed(out, d, o) {
            None => {
                proof {
                    if has_reverse(tris, h as int) {
                        let g = choose|g: int| 0 <= g < 3 * tris.len() && #[trigger] he_origin(tris, g) == d && he_dest(tris, g) == o;
                        assert(out@[he_origin(tris, g) as int]@.contains((he_dest(tris, g), g as usize)));
                        let k = choose|k: int| 0 <= k < out@[d as int]@.len() && out@[d as int]@[k] == (o, g as usize);
                        assert(out@[d as int]@[k].0 == o);
                    }
                }
                return Err(TopologyError::BoundaryEdge(o, d));
            },
            Some(t) => {
                proof {
                    let k = choose|k: int| 0 <= k < out@[d as int]@.len() && out@[d as int]@[k] == (o, t);
                    assert(out@[d as int]@[k] == (o, t));
                    assert(reverse_of(tris, h as int, t as int));
                    assert(has_reverse(tris, h as int));
                }
                let mut updated = he;
                updated.twin = Some(t);
                halfedges.set(h, updated);
                h += 1;
            },
        }
    }
    proof {
        lemma_missing_reverse_from_prefix(tris, h as int);
    }
    Ok(())
}


/// Twin index recorded on half-edge `g`.
pub open spec fn twin_index(halfedges: Seq<HalfEdge>, g: int) -> int {
    halfedges[g].twin.unwrap() as int
}

proof fn lemma_triangle_facts(tris: Seq<[usize; 3]>, vertex_count: nat, h: int)
    requires
        first_triangle_error(tris, vertex_count, 0) is None,
        0 <= h < 3 * tris.len(),
    ensures
        he_origin(tris, h) != he_dest(tris, h),
        he_origin(tris, h) < vertex_count,
        he_dest(tris, h) < vertex_count,
{
    lemma_first_error_none(tris, vertex_count, 0);
    let f = h / 3;
    let i = h % 3;
    assert(h == 3 * f + i && 0 <= i < 3 && 0 <= f < tris.len()) by (nonlinear_arith)
        requires
            0 <= h < 3 * tris.len(),
            f == h / 3,
            i == h % 3,
    ;
    assert(triangle_error(tris, vertex_count, f) is None);
}

proof fn lemma_directed_unique(tris: Seq<[usize; 3]>, vertex_count: nat, g1: int, g2: int)
    requires
        first_triangle_error(tris, vertex_count, 0) is None,
        0 <= g1 < g2 < 3 * tris.len(),
    ensures
        !(he_origin(tris, g1) == he_origin(tris, g2) && he_dest(tris, g1) == he_dest(tris, g2)),
{
    lemma_first_error_none(tris, vertex_count, 0);
    let f = g2 / 3;
    let i = g2 % 3;
    assert(g2 == 3 * f + i && 0 <= i < 3 && 0 <= f < tris.len()) by (nonlinear_arith)
        requires
            0 <= g2 < 3 * tris.len(),
            f == g2 / 3,
            i == g2 % 3,
    ;
    assert(triangle_error(tris, vertex_count, f) is None);
    let t = tris[f];
    if he_origin(tris, g1) == he_origin(tris, g2) && he_dest(tris, g1) == he_dest(tris, g2) {
        if g1 < 3 * f {
            assert(he_origin(tris, g2) == t[i]);
            assert(he_dest(tris, g2) == t[(i + 1) % 3]);
            assert(directed_in(tris, 3 * f, t[i], t[(i + 1) % 3]));
        } else {
            let j = g1 - 3 * f;
            lemma_he_index(f, j);
            assert(he_origin(tris, g1) == t[j]);
        }
    }
}

proof fn lemma_twin_involution(halfedges: Seq<HalfEdge>, tris: Seq<[usize; 3]>, vertex_count: nat, h: int)
    requires
        first_triangle_error(tris, vertex_count, 0) is None,
        twins_ok(halfedges, tris, 3 * tris.len() as int),
        0 <= h < 3 * tris.len(),
    ensures
        0 <= twin_index(halfedges, h) < 3 * tris.len(),
        twin_index(halfedges, h) != h,
        twin_index(halfedges, twin_index(halfedges, h)) == h,
{
    let t = twin_index(halfedges, h);
    assert(reverse_of(tris, h, t));
    let t2 = twin_index(halfedges, t);
    assert(reverse_of(tris, t, t2));
    lemma_triangle_facts(tris, vertex_count, h);
    if t2 < h {
        lemma_directed_unique(tris, vertex_count, t2, h);
    } else if t2 > h {
        lemma_directed_unique(tris, vertex_count, h, t2);
    }
}

/// State of the edge-numbering phase after half-edges `0..h` were visited.
pub open spec fn edges_phase_ok(
    hes: Seq<HalfEdge>,
    twinned: Seq<HalfEdge>,
    eh: Seq<usize>,
    h: int,
) -> bool {
    &&& hes.len() == twinned.len()
    &&& forall|g: int|
        0 <= g < hes.len() ==> (#[trigger] hes[g]) == (HalfEdge { edge: hes[g].edge, ..twinned[g] })
    &&& forall|g: int|
        0 <= g < hes.len() ==> ((#[trigger] hes[g]).edge != usize::MAX <==> (g < h
            || twin_index(twinned, g) < h))
    &&& forall|g: int|
        0 <= g < hes.len() && (#[trigger] hes[g]).edge != usize::MAX ==> {
            &&& hes[g].edge < eh.len()
            &&& eh[hes[g].edge as int] as int == if g < twin_index(twinned, g) {
                g
            } else {
                twin_index(twinned, g)
            }
        }
    &&& forall|e: int|
        0 <= e < eh.len() ==> (#[trigger] eh[e]) < h && eh[e] < twin_index(twinned, eh[e] as int)
    &&& forall|a: int, b: int| 0 <= a < b < eh.len() ==> eh[a] < eh[b]
    &&& eh.len() <= h
}

fn assign_edges(
    triangles: &[[usize; 3]],
    vertex_count: usize,
    halfedges: &mut Vec<HalfEdge>,
) -> (r: Result<Vec<EdgeId>, TopologyError>)
    requires
        3 * triangles@.len() <= usize::MAX,
        first_triangle_error(triangles@, vertex_count as nat, 0) is None,
        twins_ok(old(halfedges)@, triangles@, 3 * triangles@.len() as int),
    ensures
        r matches Ok(eh) && edges_phase_ok(
            final(halfedges)@,
            old(halfedges)@,
            eh@,
            3 * triangles@.len() as int,
        ) && 2 * eh@.len() == 3 * triangles@.len(),
{
    let ghost tris = triangles@;
    let ghost nv = vertex_count as nat;
    let ghost twinned = halfedges@;
    let hcount = halfedges.len();
    let mut eh: Vec<EdgeId> = Vec::new();
    let ghost mut assigned: Set<int> = Set::empty();
    let mut h: usize = 0;
    while h < hcount
        invariant
            tris == triangles@,
            nv == vertex_count as nat,
            first_triangle_error(tris, nv, 0) is None,
            twins_ok(twinned, tris, 3 * tris.len() as int),
            hcount == 3 * tris.len(),
            hcount == twinned.len(),
            h <= hcount,
            edges_phase_ok(halfedges@, twinned, eh@, h as int),
            assigned.finite(),
            assigned.len() == 2 * eh@.len(),
            forall|g: int|
                assigned.contains(g) <==> 0 <= g < hcount && (#[trigger] halfedges@[g]).edge
                    != usize::MAX,
        decreases hcount - h,
    {
        proof {
            lemma_twin_involution(twinned, tris, nv, h as int);
        }
        let he = halfedges[h];
        if he.edge == usize::MAX {
            let t = match he.twin {
                Some(t) => t,
                None => {
                    proof {
                        assert(twinned[h as int].twin is Some);
                    }
                    return Err(TopologyError::BoundaryEdge(he.origin, he.origin));
                },
            };
            assert(t as int == twin_index(twinned, h as int));
            let te = halfedges[t];
            if te.edge != usize::MAX {
                proof {
                    lemma_twin_involution(twinned, tris, nv, t as int);
                }
                let dest = halfedges[he.next].origin;
                return Err(TopologyError::NonManifoldEdge(he.origin, dest));
            }
            proof {
                lemma_twin_involution(twinned, tris, nv, t as int);
            }
            let e = eh.len();
            let mut updated = he;
            updated.edge = e;
            halfedges.set(h, updated);
            let mut updated_twin = te;
            updated_twin.edge = e;
            halfedges.set(t, updated_twin);
            let ghost old_eh = eh@;
            eh.push(h);
            proof {
                assert(!assigned.contains(h as int));
                assert(!assigned.contains(t as int));
                assigned = assigned.insert(h as int).insert(t as int);
                assert forall|g: int| 0 <= g < halfedges@.len() implies ((#[trigger] halfedges@[g]).edge
                    != usize::MAX <==> (g < h + 1 || twin_index(twinned, g) < h + 1)) by {
                    if g != h && g != t {
                        lemma_twin_involution(twinned, tris, nv, g);
                        if twin_index(twinned, g) == h {
                            assert(twin_index(twinned, twin_index(twinned, g)) == g);
                        }
                    }
                }
                assert forall|g: int|
                    0 <= g < halfedges@.len() && (#[trigger] halfedges@[g]).edge != usize::MAX implies {
                        &&& halfedges@[g].edge < eh@.len()
                        &&& eh@[halfedges@[g].edge as int] as int == if g < twin_index(twinned, g) {
                            g
                        } else {
                            twin_index(twinned, g)
                        }
                    } by {
                }
            }
        } else {
            proof {
                assert forall|g: int| 0 <= g < halfedges@.len() implies ((#[trigger] halfedges@[g]).edge
                    != usize::MAX <==> (g < h + 1 || twin_index(twinned, g) < h + 1)) by {
                    if twin_index(twinned, g) == h {
                        lemma_twin_involution(twinned, tris, nv, g);
                    }
                }
            }
        }
        h += 1;
    }
    proof {
        assert forall|g: int| #[trigger] assigned.contains(g) == vstd::set_lib::set_int_range(0, hcount as int).contains(g) by {
            if 0 <= g < hcount {
                assert(halfedges@[g].edge != usize::MAX);
            }
        }
        assert(assigned =~= vstd::set_lib::set_int_range(0, hcount as int));
        vstd::set_lib::lemma_int_range(0, hcount as int);
    }
    Ok(eh)
}


/// Index-only half-edge topology of a closed triangle mesh: per-vertex
/// outgoing half-edge hints, half-edge records, one representative
/// half-edge per undirected edge, one half-edge per face, shells and the
/// persistent identity.
#[derive(Clone, Debug, PartialEq, Eq)]
pub struct HalfEdgeMesh {
    /// One outgoing half-edge per vertex, when the vertex is used.
    pub vertex_halfedges: Vec<Option<HalfEdgeId>>,
    /// Half-edges; triangle `f` owns half-edges `3f`, `3f + 1`, `3f + 2`.
    pub halfedges: Vec<HalfEdge>,
    /// Representative half-edge of each undirected edge.
    pub edge_halfedges: Vec<HalfEdgeId>,
    /// First half-edge of each face.
    pub face_halfedges: Vec<HalfEdgeId>,
    /// Shells.
    pub shells: Vec<Shell>,
    /// Persistent ids and mutation history.
    pub identity: TopologyIdentity,
}

/// `m` is the half-edge mesh built from `tris` over `vertex_count` vertices:
/// half-edge `h` starts at corner `h % 3` of triangle `h / 3`, links to the
/// next and previous corner of the same triangle, has as twin the half-edge
/// running the opposite way, and belongs to the edge whose representative
/// is the smaller of the two; edges are numbered in increasing order of
/// their representatives; faces start at half-edge `3f`; one shell holds
/// every face; and every id is freshly allocated.
pub open spec fn mesh_built_from(m: HalfEdgeMesh, tris: Seq<[usize; 3]>, vertex_count: nat) -> bool {
    let hcount = 3 * tris.len();
    &&& construction_error(tris, vertex_count) is None
    &&& m.vertex_halfedges@.len() == vertex_count
    &&& vertex_halfedges_ok(m.vertex_halfedges@, tris, hcount as int)
    &&& m.halfedges@.len() == hcount
    &&& forall|h: int|
        0 <= h < hcount ==> {
            let he = #[trigger] m.halfedges@[h];
            &&& he.origin == he_origin(tris, h)
            &&& he.next == next_of(h)
            &&& he.prev == prev_of(h)
            &&& he.face == h / 3
            &&& he.twin matches Some(t) && reverse_of(tris, h, t as int)
            &&& he.edge < m.edge_halfedges@.len()
            &&& m.edge_halfedges@[he.edge as int] as int == if h < twin_index(m.halfedges@, h) {
                h
            } else {
                twin_index(m.halfedges@, h)
            }
        }
    &&& forall|e: int|
        0 <= e < m.edge_halfedges@.len() ==> (#[trigger] m.edge_halfedges@[e]) < twin_index(
            m.halfedges@,
            m.edge_halfedges@[e] as int,
        )
    &&& forall|a: int, b: int| 0 <= a < b < m.edge_halfedges@.len() ==> m.edge_halfedges@[a] < m.edge_halfedges@[b]
    &&& 2 * m.edge_halfedges@.len() == hcount
    &&& m.face_halfedges@ == Seq::new(tris.len(), |f: int| (3 * f) as usize)
    &&& m.shells@.len() == 1
    &&& m.shells@[0].faces@ == Seq::new(tris.len(), |f: int| f as usize)
    &&& m.identity@ == fresh_identity(
        vertex_count,
        hcount,
        hcount / 2,
        0,
        tris.len(),
        1,
    )
}

impl HalfEdgeMesh {
    /// Construct the closed half-edge topology of an indexed triangle mesh
    /// over `vertex_count` vertices.
    ///
    /// Triangles are checked in order for out-of-range corners, repeated
    /// corners and directed edges already used by an earlier triangle; then
    /// every half-edge must have a reverse half-edge, otherwise the first
    /// half-edge without one is reported as a boundary edge.
    pub fn from_triangles(vertex_count: usize, triangles: &[[usize; 3]]) -> (r: Result<
        HalfEdgeMesh,
        TopologyError,
    >)
        requires
            3 * triangles@.len() <= usize::MAX,
            2 + vertex_count + 3 * triangles@.len() + (3 * triangles@.len()) / 2 + triangles@.len()
                <= u64::MAX,
        ensures
            r is Err <==> construction_error(triangles@, vertex_count as nat) is Some,
            r matches Err(e) ==> construction_error(triangles@, vertex_count as nat) == Some(e),
            r matches Ok(m) ==> mesh_built_from(m, triangles@, vertex_count as nat),
    {
        let ghost tris = triangles@;
        let (mut halfedges, out, vh) = match build_phase_one(triangles, vertex_count) {
            Ok(parts) => parts,
            Err(e) => return Err(e),
        };
        proof {
            assert forall|g: int| 0 <= g < 3 * tris.len() implies #[trigger] he_origin(tris, g) < out@.len() by {
                lemma_triangle_facts(tris, vertex_count as nat, g);
            }
            assert forall|g: int| 0 <= g < 3 * tris.len() implies #[trigger] he_dest(tris, g) < out@.len() by {
                lemma_triangle_facts(tris, vertex_count as nat, g);
            }
        }
        match assign_twins(triangles, &mut halfedges, &out) {
            Ok(()) => {},
            Err(e) => return Err(e),
        }
        let ghost twinned = halfedges@;
        let edge_halfedges = match assign_edges(triangles, vertex_count, &mut halfedges) {
            Ok(eh) => eh,
            Err(e) => return Err(e),
        };
        let triangle_count = triangles.len();
        let mut face_halfedges: Vec<HalfEdgeId> = Vec::new();
        let mut shell_faces: Vec<FaceId> = Vec::new();
        let mut f: usize = 0;
        while f < triangle_count
            invariant
                triangle_count == tris.len(),
                3 * triangle_count <= usize::MAX,
                f <= triangle_count,
                face_halfedges@ == Seq::new(f as nat, |g: int| (3 * g) as usize),
                shell_faces@ == Seq::new(f as nat, |g: int| g as usize),
            decreases triangle_count - f,
        {
            face_halfedges.push(3 * f);
            shell_faces.push(f);
            f += 1;
            assert(face_halfedges@ =~= Seq::new(f as nat, |g: int| (3 * g) as usize));
            assert(shell_faces@ =~= Seq::new(f as nat, |g: int| g as usize));
        }
        let mut shells: Vec<Shell> = Vec::new();
        shells.push(Shell { faces: shell_faces });
        let hcount = halfedges.len();
        let identity = TopologyIdentity::from_counts(
            vertex_count,
            hcount,
            hcount / 2,
            0,
            triangle_count,
            1,
        );
        let m = HalfEdgeMesh {
            vertex_halfedges: vh,
            halfedges,
            edge_halfedges,
            face_halfedges,
            shells,
            identity,
        };
        proof {
            assert forall|h: int| 0 <= h < 3 * tris.len() implies {
                let he = #[trigger] m.halfedges@[h];
                &&& he.origin == he_origin(tris, h)
                &&& he.next == next_of(h)
                &&& he.prev == prev_of(h)
                &&& he.face == h / 3
                &&& he.twin matches Some(t) && reverse_of(tris, h, t as int)
                &&& he.edge < m.edge_halfedges@.len()
                &&& m.edge_halfedges@[he.edge as int] as int == if h < twin_index(m.halfedges@, h) {
                    h
                } else {
                    twin_index(m.halfedges@, h)
                }
            } by {
                assert(m.halfedges@[h] == (HalfEdge { edge: m.halfedges@[h].edge, ..twinned[h] }));
                assert(twin_index(m.halfedges@, h) == twin_index(twinned, h));
            }
            assert forall|e: int| 0 <= e < m.edge_halfedges@.len() implies (#[trigger] m.edge_halfedges@[e])
                < twin_index(m.halfedges@, m.edge_halfedges@[e] as int) by {
                let r = m.edge_halfedges@[e] as int;
                assert(m.halfedges@[r] == (HalfEdge { edge: m.halfedges@[r].edge, ..twinned[r] }));
            }
        }
        Ok(m)
    }
}

/// Every `next`, `prev` and `twin` link of the half-edges is in range.
pub open spec fn links_in_range(hes: Seq<HalfEdge>) -> bool {
    forall|h: int|
        0 <= h < hes.len() ==> {
            &&& (#[trigger] hes[h]).next < hes.len()
            &&& hes[h].prev < hes.len()
            &&& hes[h].twin matches Some(t) ==> t < hes.len()
        }
}

/// True when every `next`, `prev` and `twin` link of the half-edges is in
/// range.
pub fn halfedge_links_in_range(halfedges: &[HalfEdge]) -> (r: bool)
    ensures
        r == links_in_range(halfedges@),
{
    let n = halfedges.len();
    let mut h: usize = 0;
    while h < n
        invariant
            n == halfedges@.len(),
            h <= n,
            forall|g: int|
                0 <= g < h ==> {
                    &&& (#[trigger] halfedges@[g]).next < n
                    &&& halfedges@[g].prev < n
                    &&& halfedges@[g].twin matches Some(t) ==> t < n
                },
        decreases n - h,
    {
        let he = halfedges[h];
        if he.next >= n || he.prev >= n {
            return false;
        }
        match he.twin {
            Some(t) => {
                if t >= n {
                    return false;
                }
            },
            None => {},
        }
        h += 1;
    }
    true
}

/// The link error of half-edge `h`: its `next` or `prev` neighbour does not
/// point back, it has no twin (a boundary edge), or its twin's twin is not `h`.
pub open spec fn link_error(hes: Seq<HalfEdge>, h: int) -> Option<TopologyError> {
    let he = hes[h];
    if hes[he.next as int].prev != h || hes[he.prev as int].next != h {
        Some(TopologyError::BrokenHalfEdge(h as usize))
    } else {
        match he.twin {
            None => Some(TopologyError::BoundaryEdge(he.origin, hes[he.next as int].origin)),
            Some(t) => if hes[t as int].twin != Some(h as usize) {
                Some(TopologyError::BrokenHalfEdge(h as usize))
            } else {
                None
            },
        }
    }
}

/// The first link error at or after half-edge `h`.
pub open spec fn first_link_error(hes: Seq<HalfEdge>, h: int) -> Option<TopologyError>
    decreases hes.len() - h,
{
    if h < 0 || h >= hes.len() {
        None
    } else {
        match link_error(hes, h) {
            Some(e) => Some(e),
            None => first_link_error(hes, h + 1),
        }
    }
}

proof fn lemma_link_error_from_prefix(hes: Seq<HalfEdge>, h: int)
    requires
        0 <= h <= hes.len(),
        forall|g: int| 0 <= g < h ==> link_error(hes, g) is None,
    ensures
        first_link_error(hes, 0) == first_link_error(hes, h),
    decreases h,
{
    if h > 0 {
        lemma_link_error_from_prefix(hes, h - 1);
    }
}

/// Every half-edge `h` is the `prev` of its `next` and the `next` of its
/// `prev`, has a twin, and its twin's twin is `h`.
pub open spec fn links_consistent(hes: Seq<HalfEdge>) -> bool {
    forall|h: int|
        0 <= h < hes.len() ==> {
            &&& hes[(#[trigger] hes[h]).next as int].prev == h
            &&& hes[hes[h].prev as int].next == h
            &&& hes[h].twin is Some
            &&& hes[hes[h].twin->Some_0 as int].twin == Some(h as usize)
        }
}

proof fn lemma_first_link_error_none(hes: Seq<HalfEdge>, k: int)
    requires
        0 <= k <= hes.len(),
    ensures
        first_link_error(hes, k) is None <==> forall|h: int| k <= h < hes.len() ==> #[trigger] link_error(hes, h) is None,
    decreases hes.len() - k,
{
    if k < hes.len() {
        lemma_first_link_error_none(hes, k + 1);
        if first_link_error(hes, k) is None {
            assert forall|h: int| k <= h < hes.len() implies #[trigger] link_error(hes, h) is None by {
                if h > k {
                }
            }
        }
    }
}

/// Link validation accepts exactly the half-edge arrays whose links are
/// consistent: `next`/`prev` point back, and every twin link is present and
/// symmetric.
pub proof fn lemma_link_validation_exact(hes: Seq<HalfEdge>)
    requires
        links_in_range(hes),
    ensures
        first_link_error(hes, 0) is None <==> links_consistent(hes),
{
    lemma_first_link_error_none(hes, 0);
    if first_link_error(hes, 0) is None {
        assert forall|h: int| 0 <= h < hes.len() implies {
            &&& hes[(#[trigger] hes[h]).next as int].prev == h
            &&& hes[hes[h].prev as int].next == h
            &&& hes[h].twin is Some
            &&& hes[hes[h].twin->Some_0 as int].twin == Some(h as usize)
        } by {
            assert(link_error(hes, h) is None);
        }
    } else {
        let h = choose|h: int| 0 <= h < hes.len() && !(#[trigger] link_error(hes, h) is None);
        assert(!links_consistent(hes)) by {
            if links_consistent(hes) {
                assert(hes[hes[h].next as int].prev == h);
            }
        }
    }
}

/// Check `next`/`prev` consistency and twin symmetry of every half-edge, in
/// half-edge order.
pub fn validate_halfedge_links(halfedges: &[HalfEdge]) -> (r: Result<(), TopologyError>)
    requires
        links_in_range(halfedges@),
    ensures
        r == match first_link_error(halfedges@, 0) {
            Some(e) => Err::<(), TopologyError>(e),
            None => Ok(()),
        },
        r is Ok <==> links_consistent(halfedges@),
{
    proof {
        lemma_link_validation_exact(halfedges@);
    }
    let mut h: usize = 0;
    while h < halfedges.len()
        invariant
            links_in_range(halfedges@),
            h <= halfedges@.len(),
            forall|g: int| 0 <= g < h ==> link_error(halfedges@, g) is None,
        decreases halfedges@.len() - h,
    {
        proof {
            lemma_link_error_from_prefix(halfedges@, h as int);
        }
        let he = halfedges[h];
        if halfedges[he.next].prev != h || halfedges[he.prev].next != h {
            return Err(TopologyError::BrokenHalfEdge(h));
        }
        match he.twin {
            None => {
                let dest = halfedges[he.next].origin;
                return Err(TopologyError::BoundaryEdge(he.origin, dest));
            },
            Some(t) => {
                if halfedges[t].twin != Some(h) {
                    return Err(TopologyError::BrokenHalfEdge(h));
                }
            },
        }
        h += 1;
    }
    proof {
        lemma_link_error_from_prefix(halfedges@, h as int);
    }
    Ok(())
}


/// Number of half-edges without a twin.
pub open spec fn boundary_count(hes: Seq<HalfEdge>) -> nat
    decreases hes.len(),
{
    if hes.len() == 0 {
        0
    } else {
        boundary_count(hes.drop_last()) + if hes.last().twin is None {
            1nat
        } else {
            0nat
        }
    }
}

/// The boundary count is zero exactly when every half-edge has a twin, and
/// it counts every half-edge when none has one.
pub proof fn lemma_boundary_count_extremes(hes: Seq<HalfEdge>)
    ensures
        boundary_count(hes) == 0 <==> forall|h: int| 0 <= h < hes.len() ==> (#[trigger] hes[h]).twin is Some,
        (forall|h: int| 0 <= h < hes.len() ==> (#[trigger] hes[h]).twin is None) ==> boundary_count(hes)
            == hes.len(),
        boundary_count(hes) <= hes.len(),
    decreases hes.len(),
{
    if hes.len() > 0 {
        let p = hes.drop_last();
        lemma_boundary_count_extremes(p);
        assert forall|h: int| 0 <= h < p.len() implies #[trigger] p[h] == hes[h] by {}
        if boundary_count(hes) == 0 {
            assert forall|h: int| 0 <= h < hes.len() implies (#[trigger] hes[h]).twin is Some by {
                if h < p.len() {
                    assert(p[h] == hes[h]);
                }
            }
        }
        if forall|h: int| 0 <= h < hes.len() ==> (#[trigger] hes[h]).twin is Some {
            assert forall|h: int| 0 <= h < p.len() implies (#[trigger] p[h]).twin is Some by {
                assert(p[h] == hes[h]);
            }
        }
        if forall|h: int| 0 <= h < hes.len() ==> (#[trigger] hes[h]).twin is None {
            assert forall|h: int| 0 <= h < p.len() implies (#[trigger] p[h]).twin is None by {
                assert(p[h] == hes[h]);
            }
        }
    }
}

/// Count half-edges that lack a twin.
pub fn boundary_halfedge_count(halfedges: &[HalfEdge]) -> (n: usize)
    ensures
        n == boundary_count(halfedges@),
        n == 0 <==> forall|h: int| 0 <= h < halfedges@.len() ==> (#[trigger] halfedges@[h]).twin is Some,
        n <= halfedges@.len(),
{
    proof {
        lemma_boundary_count_extremes(halfedges@);
    }
    let mut count: usize = 0;
    let mut h: usize = 0;
    while h < halfedges.len()
        invariant
            h <= halfedges@.len(),
            count == boundary_count(halfedges@.subrange(0, h as int)),
            count <= h,
        decreases halfedges@.len() - h,
    {
        proof {
            assert(halfedges@.subrange(0, h + 1).drop_last() =~= halfedges@.subrange(0, h as int));
        }
        if halfedges[h].twin.is_none() {
            count += 1;
        }
        h += 1;
    }
    assert(halfedges@.subrange(0, h as int) =~= halfedges@);
    count
}

/// Vertices met by following `next` twice from half-edge `start`.
pub open spec fn face_corner_vertices(hes: Seq<HalfEdge>, start: int) -> [usize; 3] {
    let b = hes[start].next as int;
    let c = hes[b].next as int;
    [hes[start].origin, hes[b].origin, hes[c].origin]
}

/// Return the vertex ids around the triangular face that starts at
/// half-edge `start`.
pub fn face_vertices(halfedges: &[HalfEdge], start: HalfEdgeId) -> (r: [VertexId; 3])
    requires
        links_in_range(halfedges@),
        start < halfedges@.len(),
    ensures
        r == face_corner_vertices(halfedges@, start as int),
{
    let a = start;
    let b = halfedges[a].next;
    let c = halfedges[b].next;
    [halfedges[a].origin, halfedges[b].origin, halfedges[c].origin]
}

/// Return the vertex triple of every face, in face order.
pub fn face_triangles(halfedges: &[HalfEdge], face_halfedges: &[HalfEdgeId]) -> (r: Vec<[usize; 3]>)
    requires
        links_in_range(halfedges@),
        forall|f: int| 0 <= f < face_halfedges@.len() ==> #[trigger] face_halfedges@[f] < halfedges@.len(),
    ensures
        r@.len() == face_halfedges@.len(),
        forall|f: int| 0 <= f < r@.len() ==> #[trigger] r@[f] == face_corner_vertices(halfedges@, face_halfedges@[f] as int),
{
    let mut out: Vec<[usize; 3]> = Vec::new();
    let mut f: usize = 0;
    while f < face_halfedges.len()
        invariant
            links_in_range(halfedges@),
            forall|g: int| 0 <= g < face_halfedges@.len() ==> #[trigger] face_halfedges@[g] < halfedges@.len(),
            f <= face_halfedges@.len(),
            out@.len() == f,
            forall|g: int| 0 <= g < f ==> #[trigger] out@[g] == face_corner_vertices(halfedges@, face_halfedges@[g] as int),
        decreases face_halfedges@.len() - f,
    {
        out.push(face_vertices(halfedges, face_halfedges[f]));
        f += 1;
    }
    out
}

/// Return the endpoint vertex ids of an edge: the origin of its
/// representative half-edge and the origin of that half-edge's successor,
/// or `None` when an index is out of range.
pub fn edge_vertices(halfedges: &[HalfEdge], edge_halfedges: &[HalfEdgeId], edge: EdgeId) -> (r:
    Option<(VertexId, VertexId)>)
    ensures
        r == (if edge < edge_halfedges@.len() && edge_halfedges@[edge as int] < halfedges@.len()
            && halfedges@[edge_halfedges@[edge as int] as int].next < halfedges@.len() {
            let h = edge_halfedges@[edge as int] as int;
            Some((halfedges@[h].origin, halfedges@[halfedges@[h].next as int].origin))
        } else {
            None::<(VertexId, VertexId)>
        }),
{
    if edge >= edge_halfedges.len() {
        return None;
    }
    let h = edge_halfedges[edge];
    if h >= halfedges.len() {
        return None;
    }
    let next = halfedges[h].next;
    if next >= halfedges.len() {
        return None;
    }
    Some((halfedges[h].origin, halfedges[next].origin))
}

/// Euler characteristic `V - E + F`.
pub fn euler_characteristic(vertices: usize, edges: usize, faces: usize) -> (chi: isize)
    requires
        vertices <= isize::MAX,
        edges <= isize::MAX,
        faces <= isize::MAX,
        vertices - edges + faces <= isize::MAX,
    ensures
        chi == vertices - edges + faces,
{
    vertices as isize - edges as isize + faces as isize
}

/// Genus estimate for a single closed orientable shell: `(2 - chi) / 2`
/// when there is exactly one shell and `2 - chi` is even, otherwise `None`.
pub fn genus(shells: usize, chi: isize) -> (g: Option<isize>)
    requires
        chi > isize::MIN + 2,
    ensures
        g == (if shells == 1 && (2 - chi) % 2 == 0 {
            Some(((2 - chi) / 2) as isize)
        } else {
            None::<isize>
        }),
{
    if shells != 1 {
        return None;
    }
    let twice = 2 - chi;
    if twice % 2 == 0 {
        Some(twice / 2)
    } else {
        None
    }
}


proof fn lemma_no_boundary(hes: Seq<HalfEdge>)
    requires
        forall|h: int| 0 <= h < hes.len() ==> (#[trigger] hes[h]).twin is Some,
    ensures
        boundary_count(hes) == 0,
    decreases hes.len(),
{
    if hes.len() > 0 {
        let d = hes.drop_last();
        assert forall|h: int| 0 <= h < d.len() implies (#[trigger] d[h]).twin is Some by {
            assert(d[h] == hes[h]);
        }
        lemma_no_boundary(d);
        assert(hes.last() == hes[hes.len() - 1]);
    }
}

/// A mesh built from triangles is a closed, consistent half-edge mesh:
/// every link is in range, every half-edge's `next` and `prev` point back
/// to it, every half-edge has a twin whose twin is itself (so there are no
/// boundary half-edges), following `next` around face `f` visits the corners
/// of triangle `f` in order, and the persistent identity is valid for the
/// mesh's sizes.
#[verifier::spinoff_prover]
#[verifier::rlimit(40)]
pub proof fn lemma_built_mesh_is_closed(m: HalfEdgeMesh, tris: Seq<[usize; 3]>, vertex_count: nat)
    requires
        mesh_built_from(m, tris, vertex_count),
        2 + vertex_count + 3 * tris.len() + (3 * tris.len()) / 2 + tris.len() <= u64::MAX,
    ensures
        links_in_range(m.halfedges@),
        first_link_error(m.halfedges@, 0) is None,
        boundary_count(m.halfedges@) == 0,
        m.identity@.is_valid_for(
            vertex_count,
            m.halfedges@.len(),
            m.edge_halfedges@.len(),
            0,
            m.face_halfedges@.len(),
            m.shells@.len(),
        ),
        forall|f: int|
            0 <= f < tris.len() ==> face_corner_vertices(m.halfedges@, #[trigger] m.face_halfedges@[f] as int)
                == tris[f],
{
    let hes = m.halfedges@;
    let hcount = 3 * tris.len();
    assert(first_triangle_error(tris, vertex_count, 0) is None);
    assert forall|h: int| 0 <= h < hes.len() implies {
        &&& (#[trigger] hes[h]).next < hes.len()
        &&& hes[h].prev < hes.len()
        &&& hes[h].twin matches Some(t) ==> t < hes.len()
    } by {
        lemma_next_prev(tris, h);
    }
    assert forall|h: int| 0 <= h < hes.len() implies #[trigger] link_error(hes, h) is None by {
        lemma_next_prev(tris, h);
        let t = twin_index(hes, h);
        assert(reverse_of(tris, h, t));
        let t2 = twin_index(hes, t);
        assert(reverse_of(tris, t, t2));
        lemma_triangle_facts(tris, vertex_count, h);
        if t2 < h {
            lemma_directed_unique(tris, vertex_count, t2, h);
        } else if t2 > h {
            lemma_directed_unique(tris, vertex_count, h, t2);
        }
        assert(hes[next_of(h)].prev == prev_of(next_of(h)));
        assert(hes[prev_of(h)].next == next_of(prev_of(h)));
    }
    lemma_link_error_from_prefix(hes, hes.len() as int);
    lemma_no_boundary(hes);
    lemma_fresh_identity_valid(vertex_count, hcount, hcount / 2, 0, tris.len(), 1);
    assert forall|f: int| 0 <= f < tris.len() implies face_corner_vertices(
        hes,
        #[trigger] m.face_halfedges@[f] as int,
    ) == tris[f] by {
        let a = 3 * f;
        assert(m.face_halfedges@[f] == a);
        lemma_he_index(f, 0);
        lemma_he_index(f, 1);
        lemma_he_index(f, 2);
        lemma_next_prev(tris, a);
        lemma_next_prev(tris, a + 1);
        assert(next_of(a) == a + 1);
        assert(next_of(a + 1) == a + 2);
    }
}

/// Outcome of validating a half-edge mesh over `vertex_count` vertices and
/// `split_edge_count` staged split edges: the identity must fit the
/// topology sizes, every link must be in range, and the links must be
/// consistent and closed.
pub open spec fn mesh_validation(m: HalfEdgeMesh, vertex_count: nat, split_edge_count: nat) -> Result<(), TopologyError> {
    if m.identity@.revision == u64::MAX || !m.identity@.is_valid_for(
        vertex_count,
        m.halfedges@.len(),
        m.edge_halfedges@.len(),
        split_edge_count,
        m.face_halfedges@.len(),
        m.shells@.len(),
    ) {
        Err(TopologyError::InvalidPersistentIdentity)
    } else if !links_in_range(m.halfedges@) {
        Err(TopologyError::BrokenHalfEdge(m.halfedges@.len() as usize))
    } else {
        match first_link_error(m.halfedges@, 0) {
            Some(e) => Err(e),
            None => Ok(()),
        }
    }
}

impl HalfEdgeMesh {
    /// Validate persistent identity against the mesh's sizes, then the
    /// range and consistency of every half-edge link.
    pub fn validate(&self, vertex_count: usize, split_edge_count: usize) -> (r: Result<(), TopologyError>)
        ensures
            r == mesh_validation(*self, vertex_count as nat, split_edge_count as nat),
            r is Ok ==> links_in_range(self.halfedges@) && links_consistent(self.halfedges@),
    {
        if self.identity.revision() == u64::MAX {
            return Err(TopologyError::InvalidPersistentIdentity);
        }
        let checked = self.identity.validate_persistent_identity(
            vertex_count,
            self.halfedges.len(),
            self.edge_halfedges.len(),
            split_edge_count,
            self.face_halfedges.len(),
            self.shells.len(),
        );
        if checked.is_err() {
            return Err(TopologyError::InvalidPersistentIdentity);
        }
        if !halfedge_links_in_range(&self.halfedges) {
            return Err(TopologyError::BrokenHalfEdge(self.halfedges.len()));
        }
        validate_halfedge_links(&self.halfedges)
    }
}

} // verus!
