//! Euler operators for constructive B-rep topology.
//!
//! The builder tracks polygonal face loops and Euler counts over vertex
//! positions of any type `P`; its make operators are `MVFS` (make vertex,
//! face, shell), `MEV` (make edge and vertex) and `MEF` (make edge and face).
use vstd::prelude::*;
use crate::halfedge::{
    construction_error, directed_in, first_missing_reverse, first_triangle_error, has_reverse,
    he_dest, he_origin, mesh_built_from, triangle_error, HalfEdgeMesh,
};
use crate::topology::{FaceId, TopologyError, VertexId};

verus! {

/// Construction edge identifier.
pub type EulerEdgeId = usize;

/// Construction shell identifier.
pub type EulerShellId = usize;

/// Stable counts for the Euler construction state.
#[derive(Clone, Copy, Debug, PartialEq, Eq, Structural)]
pub struct EulerCounts {
    /// Number of vertices.
    pub vertices: usize,
    /// Number of edges.
    pub edges: usize,
    /// Number of faces.
    pub faces: usize,
    /// Number of shells.
    pub shells: usize,
}

impl EulerCounts {
    /// Euler characteristic `V - E + F`.
    pub fn euler_characteristic(self) -> (chi: isize)
        requires
            self.vertices <= isize::MAX,
            self.edges <= isize::MAX,
            self.faces <= isize::MAX,
            self.vertices - self.edges + self.faces <= isize::MAX,
        ensures
            chi == self.vertices - self.edges + self.faces,
    {
        self.vertices as isize - self.edges as isize + self.faces as isize
    }
}

/// Error returned by Euler construction operators.
#[derive(Clone, Copy, Debug, PartialEq, Eq, Structural)]
pub enum EulerError {
    /// `MVFS` can only be called on an empty builder.
    BuilderAlreadyInitialized,
    /// An operator requiring an initialized shell was called too early.
    EmptyBuilder,
    /// Face id is not present.
    InvalidFace(FaceId),
    /// Vertex id is not present.
    InvalidVertex(VertexId),
    /// A vertex is not in the requested face loop.
    VertexNotInFace {
        /// Face that was searched.
        face: FaceId,
        /// Vertex that was not found.
        vertex: VertexId,
    },
    /// A requested edge already exists.
    EdgeAlreadyExists(VertexId, VertexId),
    /// `MEF` cannot split or close the requested loop.
    DegenerateFaceSplit,
    /// Conversion to a half-edge solid found an open construction face.
    OpenConstructionFace(FaceId),
    /// Final half-edge topology validation failed.
    Topology(TopologyError),
}

/// Undirected construction edge with ordered endpoints.
#[derive(Clone, Copy, Debug, PartialEq, Eq, Structural)]
pub struct EdgeKey {
    /// Smaller endpoint.
    pub a: VertexId,
    /// Larger endpoint.
    pub b: VertexId,
}

impl EdgeKey {
    /// Key of the undirected edge between `a` and `b`.
    pub fn new(a: VertexId, b: VertexId) -> (k: Self)
        ensures
            k == edge_key(a, b),
    {
        if a <= b {
            Self { a, b }
        } else {
            Self { a: b, b: a }
        }
    }
}

/// Key of the undirected edge between `a` and `b`: endpoints in increasing order.
pub open spec fn edge_key(a: usize, b: usize) -> EdgeKey {
    if a <= b {
        EdgeKey { a, b }
    } else {
        EdgeKey { a: b, b: a }
    }
}

/// Vertices of `l` walking forward cyclically from position `start` to
/// position `end`, both included.
pub open spec fn cyclic_path_spec(l: Seq<usize>, start: int, end: int) -> Seq<usize> {
    if start <= end {
        l.subrange(start, end + 1)
    } else {
        l.subrange(start, l.len() as int) + l.subrange(0, end + 1)
    }
}

/// Loops produced when `MEF` joins positions `pf` and `pt` of loop `l`: the
/// retained loop for the old face and the loop of the new face, or `None`
/// when neither cyclic path between them has at least three vertices. When
/// both paths are long enough the old face keeps the `pt`-to-`pf` path and
/// the new face gets the `pf`-to-`pt` path; when only one is, the new face
/// gets that path and the old face keeps it reversed.
pub open spec fn mef_loops(l: Seq<usize>, pf: int, pt: int) -> Option<(Seq<usize>, Seq<usize>)> {
    let from_to = cyclic_path_spec(l, pf, pt);
    let to_from = cyclic_path_spec(l, pt, pf);
    if from_to.len() >= 3 && to_from.len() >= 3 {
        Some((to_from, from_to))
    } else if from_to.len() >= 3 {
        Some((from_to.reverse(), from_to))
    } else if to_from.len() >= 3 {
        Some((to_from.reverse(), to_from))
    } else {
        None
    }
}

/// Fan triangulation of one loop from its first vertex.
pub open spec fn fan(l: Seq<usize>) -> Seq<[usize; 3]> {
    Seq::new((l.len() - 2) as nat, |i: int| [l[0], l[i + 1], l[i + 2]])
}

/// Fan triangulations of all loops, in face order.
pub open spec fn fan_all(faces: Seq<Seq<usize>>) -> Seq<[usize; 3]>
    decreases faces.len(),
{
    if faces.len() == 0 {
        Seq::empty()
    } else {
        fan_all(faces.drop_last()) + fan(faces.last())
    }
}

/// The first face at or after `f` whose loop has fewer than three vertices.
pub open spec fn first_open_face(faces: Seq<Seq<usize>>, f: int) -> Option<int>
    decreases faces.len() - f,
{
    if f < 0 || f >= faces.len() {
        None
    } else if faces[f].len() < 3 {
        Some(f)
    } else {
        first_open_face(faces, f + 1)
    }
}

proof fn lemma_open_face_from_prefix(faces: Seq<Seq<usize>>, f: int)
    requires
        0 <= f <= faces.len(),
        forall|g: int| 0 <= g < f ==> (#[trigger] faces[g]).len() >= 3,
    ensures
        first_open_face(faces, 0) == first_open_face(faces, f),
    decreases f,
{
    if f > 0 {
        lemma_open_face_from_prefix(faces, f - 1);
    }
}

/// First position of `v` in `l` (the length of `l` when absent).
pub open spec fn first_position(l: Seq<usize>, v: usize) -> int
    decreases l.len(),
{
    if l.len() == 0 {
        0
    } else if l[0] == v {
        0
    } else {
        1 + first_position(l.drop_first(), v)
    }
}

proof fn lemma_cyclic_path_members(l: Seq<usize>, s: int, e: int)
    requires
        0 <= s < l.len(),
        0 <= e < l.len(),
    ensures
        forall|k: int| 0 <= k < cyclic_path_spec(l, s, e).len() ==> l.contains(
            #[trigger] cyclic_path_spec(l, s, e)[k],
        ),
{
    let p = cyclic_path_spec(l, s, e);
    assert forall|k: int| 0 <= k < p.len() implies l.contains(#[trigger] p[k]) by {
        if s <= e {
            assert(p[k] == l[s + k]);
        } else if k < l.len() - s {
            assert(p[k] == l[s + k]);
        } else {
            assert(p[k] == l[k - (l.len() - s)]);
        }
    }
}

/// `first_position` is the least index holding `v`.
pub proof fn lemma_first_position(l: Seq<usize>, v: usize)
    requires
        l.contains(v),
    ensures
        0 <= first_position(l, v) < l.len(),
        l[first_position(l, v)] == v,
        forall|q: int| 0 <= q < first_position(l, v) ==> l[q] != v,
    decreases l.len(),
{
    if l[0] != v {
        let k = choose|k: int| 0 <= k < l.len() && l[k] == v;
        assert(l.drop_first()[k - 1] == v);
        lemma_first_position(l.drop_first(), v);
        assert forall|q: int| 0 <= q < first_position(l, v) implies l[q] != v by {
            if q > 0 {
                assert(l[q] == l.drop_first()[q - 1]);
            }
        }
    }
}

/// Mathematical value of an [`EulerBuilder`].
pub struct EulerBuilderView<P> {
    /// Vertex positions.
    pub points: Seq<P>,
    /// Construction edges.
    pub edges: Seq<EdgeKey>,
    /// Face loops of vertex ids.
    pub faces: Seq<Seq<VertexId>>,
    /// Number of shells.
    pub shells: usize,
}

impl<P> EulerBuilderView<P> {
    /// `V - E + F`.
    pub open spec fn euler_characteristic(self) -> int {
        self.points.len() - self.edges.len() + self.faces.len()
    }

    /// Count invariant of a single-shell construction: an empty builder has
    /// no entities, and otherwise `V - E + F = 2S`.
    pub open spec fn satisfies_euler_invariant(self) -> bool {
        if self.shells == 0 {
            self.points.len() == 0 && self.edges.len() == 0 && self.faces.len() == 0
        } else {
            self.euler_characteristic() == 2 * self.shells
        }
    }

    /// Structural well-formedness: at most one shell, the Euler count
    /// invariant, edges are distinct keys over existing vertices, and every
    /// face loop names existing vertices.
    pub open spec fn wf(self) -> bool {
        &&& self.shells <= 1
        &&& self.satisfies_euler_invariant()
        &&& forall|e: int|
            0 <= e < self.edges.len() ==> (#[trigger] self.edges[e]).a <= self.edges[e].b
                && self.edges[e].b < self.points.len()
        &&& self.edges.no_duplicates()
        &&& forall|f: int, k: int|
            0 <= f < self.faces.len() && 0 <= k < self.faces[f].len() ==> #[trigger] self.faces[f][k]
                < self.points.len()
    }
}

/// Mutable Euler-operator construction state.
#[derive(Clone, Debug, PartialEq)]
pub struct EulerBuilder<P> {
    vertices: Vec<P>,
    edges: Vec<EdgeKey>,
    faces: Vec<Vec<VertexId>>,
    shells: usize,
}

impl<P> View for EulerBuilder<P> {
    type V = EulerBuilderView<P>;

    closed spec fn view(&self) -> EulerBuilderView<P> {
        EulerBuilderView {
            points: self.vertices@,
            edges: self.edges@,
            faces: self.faces@.map_values(|l: Vec<VertexId>| l@),
            shells: self.shells,
        }
    }
}

fn cyclic_path(loop_vertices: &[VertexId], start: usize, end: usize) -> (out: Vec<VertexId>)
    requires
        start < loop_vertices@.len(),
        end < loop_vertices@.len(),
    ensures
        out@ == cyclic_path_spec(loop_vertices@, start as int, end as int),
{
    let ghost l = loop_vertices@;
    let ghost full = cyclic_path_spec(l, start as int, end as int);
    let n = loop_vertices.len();
    let mut out: Vec<VertexId> = Vec::new();
    let mut index = start;
    let ghost mut k: int = 0;
    loop
        invariant_except_break
            0 <= k < full.len(),
            out@ == full.subrange(0, k),
            index < n,
            index == if start + k < n {
                start + k
            } else {
                start + k - n
            },
        invariant
            l == loop_vertices@,
            n == l.len(),
            start < n,
            end < n,
            full == cyclic_path_spec(l, start as int, end as int),
        ensures
            out@ == full,
        decreases full.len() - k,
    {
        assert(full[k] == l[index as int]);
        out.push(loop_vertices[index]);
        assert(out@ == full.subrange(0, k + 1));
        if index == end {
            assert(k == full.len() - 1);
            assert(full.subrange(0, k + 1) == full);
            break;
        }
        index = if index + 1 == n {
            0
        } else {
            index + 1
        };
        proof {
            k = k + 1;
        }
    }
    out
}

fn reversed(vertices: &Vec<VertexId>) -> (out: Vec<VertexId>)
    ensures
        out@ == vertices@.reverse(),
{
    let mut out: Vec<VertexId> = Vec::new();
    let mut i = vertices.len();
    while i > 0
        invariant
            i <= vertices@.len(),
            out@ == vertices@.subrange(i as int, vertices@.len() as int).reverse(),
        decreases i,
    {
        i -= 1;
        out.push(vertices[i]);
        assert(vertices@.subrange(i as int, vertices@.len() as int).reverse() =~= vertices@.subrange(
            (i + 1) as int,
            vertices@.len() as int,
        ).reverse().push(vertices@[i as int]));
    }
    assert(vertices@.subrange(0, vertices@.len() as int) =~= vertices@);
    out
}


/// The builder after `MVFS` of `point` on an empty builder: one vertex, one
/// shell and one face loop holding that vertex.
pub open spec fn mvfs_view<P>(point: P) -> EulerBuilderView<P> {
    EulerBuilderView {
        points: seq![point],
        edges: Seq::<EdgeKey>::empty(),
        faces: seq![seq![0usize]],
        shells: 1,
    }
}

/// The builder after a successful `MEV` of `point` from `from` on `face`:
/// the new vertex enters the loop right after the first occurrence of
/// `from`, and the edge from `from` to it is recorded.
pub open spec fn mev_view<P>(o: EulerBuilderView<P>, face: usize, from: usize, point: P) -> EulerBuilderView<P> {
    let v = o.points.len();
    let l = o.faces[face as int];
    EulerBuilderView {
        points: o.points.push(point),
        edges: o.edges.push(EdgeKey { a: from, b: v as usize }),
        faces: o.faces.update(face as int, l.insert(first_position(l, from) + 1, v as usize)),
        shells: o.shells,
    }
}

/// The builder after a successful `MEF` joining `from` and `to` on `face`,
/// where the old face keeps the loop `retained` and a new face receives
/// `new_loop`.
pub open spec fn mef_view<P>(
    o: EulerBuilderView<P>,
    face: usize,
    from: usize,
    to: usize,
    retained: Seq<usize>,
    new_loop: Seq<usize>,
) -> EulerBuilderView<P> {
    EulerBuilderView {
        edges: o.edges.push(edge_key(from, to)),
        faces: o.faces.update(face as int, retained).push(new_loop),
        ..o
    }
}

impl<P> EulerBuilder<P> {
    /// Create an empty Euler builder.
    pub fn new() -> (b: Self)
        ensures
            b@.points.len() == 0,
            b@.edges.len() == 0,
            b@.faces.len() == 0,
            b@.shells == 0,
            b@.wf(),
    {
        let b = Self { vertices: Vec::new(), edges: Vec::new(), faces: Vec::new(), shells: 0 };
        assert(b@.faces =~= Seq::<Seq<VertexId>>::empty());
        b
    }

    /// Make vertex, face, shell: seed an empty builder with one vertex, one
    /// shell and one face loop holding that vertex.
    pub fn mvfs(&mut self, point: P) -> (r: Result<(VertexId, FaceId, EulerShellId), EulerError>)
        requires
            old(self)@.wf(),
        ensures
            final(self)@.wf(),
            final(self)@.satisfies_euler_invariant(),
            old(self)@.points.len() != 0 || old(self)@.edges.len() != 0 || old(self)@.faces.len() != 0
                ==> r == Err::<(VertexId, FaceId, EulerShellId), EulerError>(
                EulerError::BuilderAlreadyInitialized,
            ) && final(self)@ == old(self)@,
            old(self)@.points.len() == 0 && old(self)@.edges.len() == 0 && old(self)@.faces.len()
                == 0 ==> r == Ok::<(VertexId, FaceId, EulerShellId), EulerError>((0, 0, 0))
                && final(self)@ == mvfs_view(point),
    {
        if self.vertices.len() != 0 || self.edges.len() != 0 || self.faces.len() != 0 {
            return Err(EulerError::BuilderAlreadyInitialized);
        }
        self.vertices.push(point);
        let mut first: Vec<VertexId> = Vec::new();
        first.push(0);
        self.faces.push(first);
        self.shells = 1;
        proof {
            assert(self@.points =~= seq![point]);
            assert(self@.faces[0] =~= seq![0usize]);
            assert(self@.faces =~= seq![seq![0usize]]);
            assert(self@.edges =~= Seq::<EdgeKey>::empty());
        }
        Ok((0, 0, 0))
    }

    fn ensure_initialized(&self) -> (r: Result<(), EulerError>)
        ensures
            r == if self@.shells == 0 {
                Err::<(), EulerError>(EulerError::EmptyBuilder)
            } else {
                Ok(())
            },
    {
        if self.shells == 0 {
            Err(EulerError::EmptyBuilder)
        } else {
            Ok(())
        }
    }

    fn ensure_vertex(&self, vertex: VertexId) -> (r: Result<(), EulerError>)
        ensures
            r == if vertex < self@.points.len() {
                Ok::<(), EulerError>(())
            } else {
                Err(EulerError::InvalidVertex(vertex))
            },
    {
        if vertex < self.vertices.len() {
            Ok(())
        } else {
            Err(EulerError::InvalidVertex(vertex))
        }
    }

    fn vertex_position(&self, face: FaceId, vertex: VertexId) -> (r: Result<usize, EulerError>)
        ensures
            face >= self@.faces.len() ==> r == Err::<usize, EulerError>(EulerError::InvalidFace(face)),
            face < self@.faces.len() && !self@.faces[face as int].contains(vertex) ==> r == Err::<
                usize,
                EulerError,
            >(EulerError::VertexNotInFace { face, vertex }),
            face < self@.faces.len() && self@.faces[face as int].contains(vertex) ==> r == Ok::<
                usize,
                EulerError,
            >(first_position(self@.faces[face as int], vertex) as usize),
    {
        assert(self@.faces.len() == self.faces@.len());
        if face >= self.faces.len() {
            return Err(EulerError::InvalidFace(face));
        }
        let face_loop = &self.faces[face];
        assert(face_loop@ == self@.faces[face as int]);
        let mut k: usize = 0;
        while k < face_loop.len()
            invariant
                face < self@.faces.len(),
                face_loop@ == self@.faces[face as int],
                k <= face_loop@.len(),
                forall|q: int| 0 <= q < k ==> face_loop@[q] != vertex,
            decreases face_loop@.len() - k,
        {
            if face_loop[k] == vertex {
                proof {
                    let l = face_loop@;
                    assert(l.contains(vertex));
                    lemma_first_position(l, vertex);
                    let p = first_position(l, vertex);
                    if p < k {
                        assert(l[p] != vertex);
                    } else if p > k {
                        assert(l[k as int] != vertex);
                    }
                }
                return Ok(k);
            }
            k += 1;
        }
        Err(EulerError::VertexNotInFace { face, vertex })
    }

    fn edge_exists(&self, a: VertexId, b: VertexId) -> (r: bool)
        ensures
            r == self@.edges.contains(edge_key(a, b)),
    {
        let key = EdgeKey::new(a, b);
        let mut i: usize = 0;
        while i < self.edges.len()
            invariant
                i <= self.edges@.len(),
                key == edge_key(a, b),
                forall|j: int| 0 <= j < i ==> self.edges@[j] != key,
            decreases self.edges@.len() - i,
        {
            if self.edges[i] == key {
                assert(self.edges@[i as int] == key);
                return true;
            }
            i += 1;
        }
        false
    }

    fn add_edge(&mut self, a: VertexId, b: VertexId) -> (r: Result<EulerEdgeId, EulerError>)
        ensures
            old(self)@.edges.contains(edge_key(a, b)) ==> r == Err::<EulerEdgeId, EulerError>(
                EulerError::EdgeAlreadyExists(a, b),
            ) && final(self)@ == old(self)@,
            !old(self)@.edges.contains(edge_key(a, b)) ==> r == Ok::<EulerEdgeId, EulerError>(
                old(self)@.edges.len() as usize,
            ) && final(self)@ == (EulerBuilderView {
                edges: old(self)@.edges.push(edge_key(a, b)),
                ..old(self)@
            }),
    {
        if self.edge_exists(a, b) {
            return Err(EulerError::EdgeAlreadyExists(a, b));
        }
        let key = EdgeKey::new(a, b);
        let edge = self.edges.len();
        self.edges.push(key);
        Ok(edge)
    }

    /// Make edge and vertex: append a vertex at `point`, insert it into the
    /// loop of `face` right after the first occurrence of `from`, and record
    /// the edge `from`-new vertex.
    pub fn mev(&mut self, face: FaceId, from: VertexId, point: P) -> (r: Result<VertexId, EulerError>)
        requires
            old(self)@.wf(),
        ensures
            final(self)@.wf(),
            final(self)@.satisfies_euler_invariant(),
            r is Err ==> final(self)@ == old(self)@,
            old(self)@.shells == 0 ==> r == Err::<VertexId, EulerError>(EulerError::EmptyBuilder),
            old(self)@.shells != 0 && from >= old(self)@.points.len() ==> r == Err::<
                VertexId,
                EulerError,
            >(EulerError::InvalidVertex(from)),
            old(self)@.shells != 0 && from < old(self)@.points.len() && face >= old(
                self,
            )@.faces.len() ==> r == Err::<VertexId, EulerError>(EulerError::InvalidFace(face)),
            old(self)@.shells != 0 && from < old(self)@.points.len() && face < old(
                self,
            )@.faces.len() && !old(self)@.faces[face as int].contains(from) ==> r == Err::<
                VertexId,
                EulerError,
            >(EulerError::VertexNotInFace { face, vertex: from }),
            old(self)@.shells != 0 && from < old(self)@.points.len() && face < old(
                self,
            )@.faces.len() && old(self)@.faces[face as int].contains(from) ==> {
                &&& r == Ok::<VertexId, EulerError>(old(self)@.points.len() as usize)
                &&& final(self)@ == mev_view(old(self)@, face, from, point)
            },
    {
        self.ensure_initialized()?;
        self.ensure_vertex(from)?;
        let insert_after = self.vertex_position(face, from)?;
        let ghost old_view = self@;
        proof {
            lemma_first_position(old_view.faces[face as int], from);
            assert(self.faces@[face as int]@ == old_view.faces[face as int]);
        }
        let new_vertex = self.vertices.len();
        self.vertices.push(point);
        proof {
            assert(!old_view.edges.contains(edge_key(from, new_vertex))) by {
                if old_view.edges.contains(edge_key(from, new_vertex)) {
                    let e = choose|e: int| 0 <= e < old_view.edges.len() && old_view.edges[e] == edge_key(from, new_vertex);
                    assert(old_view.edges[e].b < old_view.points.len());
                }
            }
        }
        let added = self.add_edge(from, new_vertex);
        assert(added is Ok);
        let mut face_loop: Vec<VertexId> = Vec::new();
        std::mem::swap(&mut face_loop, &mut self.faces[face]);
        assert(face_loop@ == old_view.faces[face as int]);
        let loop_len = face_loop.len();
        assert(insert_after as int == first_position(old_view.faces[face as int], from));
        assert(insert_after < loop_len);
        face_loop.insert(insert_after + 1, new_vertex);
        self.faces.set(face, face_loop);
        proof {
            let l = old_view.faces[face as int];
            let nl = l.insert(first_position(l, from) + 1, new_vertex);
            assert(self.faces@[face as int]@ == nl);
            assert(self@.faces =~= old_view.faces.update(face as int, nl));
            assert(self@.points =~= old_view.points.push(point));
            let nv = self@;
            assert forall|f: int, k: int|
                0 <= f < nv.faces.len() && 0 <= k < nv.faces[f].len() implies #[trigger] nv.faces[f][k]
                    < nv.points.len() by {
                if f != face {
                    assert(nv.faces[f] == old_view.faces[f]);
                } else {
                    if k < first_position(l, from) + 1 {
                        assert(nv.faces[f][k] == l[k]);
                    } else if k > first_position(l, from) + 1 {
                        assert(nv.faces[f][k] == l[k - 1]);
                    }
                }
            }
            assert(nv.edges.no_duplicates()) by {
                assert forall|i: int, j: int| 0 <= i < nv.edges.len() && 0 <= j < nv.edges.len() && i != j implies nv.edges[i] != nv.edges[j] by {
                    if i < old_view.edges.len() && j < old_view.edges.len() {
                    } else if i < old_view.edges.len() {
                        assert(nv.edges[i].b < old_view.points.len());
                    } else {
                        assert(nv.edges[j].b < old_view.points.len());
                    }
                }
            }
        }
        Ok(new_vertex)
    }

    /// Make edge and face: join `from` and `to`, two distinct vertices of the
    /// loop of `face`, by a new edge; the old face keeps one loop and a new
    /// face receives the other (see [`mef_loops`]).
    pub fn mef(&mut self, face: FaceId, from: VertexId, to: VertexId) -> (r: Result<FaceId, EulerError>)
        requires
            old(self)@.wf(),
        ensures
            final(self)@.wf(),
            final(self)@.satisfies_euler_invariant(),
            r is Err ==> final(self)@ == old(self)@,
            ({
                let o = old(self)@;
                let nv = o.points.len();
                if o.shells == 0 {
                    r == Err::<FaceId, EulerError>(EulerError::EmptyBuilder)
                } else if from >= nv {
                    r == Err::<FaceId, EulerError>(EulerError::InvalidVertex(from))
                } else if to >= nv {
                    r == Err::<FaceId, EulerError>(EulerError::InvalidVertex(to))
                } else if from == to {
                    r == Err::<FaceId, EulerError>(EulerError::DegenerateFaceSplit)
                } else if o.edges.contains(edge_key(from, to)) {
                    r == Err::<FaceId, EulerError>(EulerError::EdgeAlreadyExists(from, to))
                } else if face >= o.faces.len() {
                    r == Err::<FaceId, EulerError>(EulerError::InvalidFace(face))
                } else if !o.faces[face as int].contains(from) {
                    r == Err::<FaceId, EulerError>(EulerError::VertexNotInFace { face, vertex: from })
                } else if !o.faces[face as int].contains(to) {
                    r == Err::<FaceId, EulerError>(EulerError::VertexNotInFace { face, vertex: to })
                } else {
                    let l = o.faces[face as int];
                    match mef_loops(l, first_position(l, from), first_position(l, to)) {
                        None => r == Err::<FaceId, EulerError>(EulerError::DegenerateFaceSplit),
                        Some((retained, new_loop)) => {
                            &&& r == Ok::<FaceId, EulerError>(o.faces.len() as usize)
                            &&& final(self)@ == mef_view(o, face, from, to, retained, new_loop)
                        },
                    }
                }
            }),
    {
        self.ensure_initialized()?;
        self.ensure_vertex(from)?;
        self.ensure_vertex(to)?;
        if from == to {
            return Err(EulerError::DegenerateFaceSplit);
        }
        if self.edge_exists(from, to) {
            return Err(EulerError::EdgeAlreadyExists(from, to));
        }
        let from_pos = self.vertex_position(face, from)?;
        let to_pos = self.vertex_position(face, to)?;
        let ghost o = self@;
        let ghost l = o.faces[face as int];
        proof {
            lemma_first_position(l, from);
            lemma_first_position(l, to);
            assert(self.faces@[face as int]@ == l);
        }
        let loop_len = self.faces[face].len();
        assert(loop_len == l.len());
        assert(from_pos as int == first_position(l, from));
        assert(to_pos as int == first_position(l, to));
        let loop_vertices = self.faces[face].as_slice();
        let from_to = cyclic_path(loop_vertices, from_pos, to_pos);
        let to_from = cyclic_path(loop_vertices, to_pos, from_pos);
        let (retained_loop, new_loop) = if from_to.len() >= 3 && to_from.len() >= 3 {
            (to_from, from_to)
        } else if from_to.len() >= 3 {
            (reversed(&from_to), from_to)
        } else if to_from.len() >= 3 {
            (reversed(&to_from), to_from)
        } else {
            return Err(EulerError::DegenerateFaceSplit);
        };
        let ghost retained_view = retained_loop@;
        let ghost new_view = new_loop@;
        assert(mef_loops(l, from_pos as int, to_pos as int) == Some((retained_view, new_view)));
        proof {
            lemma_cyclic_path_members(l, from_pos as int, to_pos as int);
            lemma_cyclic_path_members(l, to_pos as int, from_pos as int);
            assert forall|k: int| 0 <= k < retained_view.len() implies l.contains(#[trigger] retained_view[k]) by {
                let a = cyclic_path_spec(l, from_pos as int, to_pos as int);
                let b = cyclic_path_spec(l, to_pos as int, from_pos as int);
                if retained_view == b {
                    assert(l.contains(b[k]));
                } else if retained_view == a.reverse() {
                    assert(retained_view[k] == a[a.len() - 1 - k]);
                    assert(l.contains(a[a.len() - 1 - k]));
                } else {
                    assert(retained_view[k] == b[b.len() - 1 - k]);
                    assert(l.contains(b[b.len() - 1 - k]));
                }
            }
        }
        let added = self.add_edge(from, to);
        assert(added is Ok);
        self.faces.set(face, retained_loop);
        let new_face = self.faces.len();
        self.faces.push(new_loop);
        proof {
            let n = self@;
            assert(n.faces =~= o.faces.update(face as int, retained_view).push(new_view));
            assert(n.points == o.points);
            assert(n == (EulerBuilderView {
                edges: o.edges.push(edge_key(from, to)),
                faces: o.faces.update(face as int, retained_view).push(new_view),
                ..o
            }));
            assert forall|f: int, k: int|
                0 <= f < n.faces.len() && 0 <= k < n.faces[f].len() implies #[trigger] n.faces[f][k]
                    < n.points.len() by {
                if f == face {
                    assert(l.contains(retained_view[k]));
                    let j = choose|j: int| 0 <= j < l.len() && l[j] == retained_view[k];
                    assert(o.faces[face as int][j] < o.points.len());
                } else if f == o.faces.len() {
                    assert(l.contains(new_view[k]));
                    let j = choose|j: int| 0 <= j < l.len() && l[j] == new_view[k];
                    assert(o.faces[face as int][j] < o.points.len());
                } else {
                    assert(n.faces[f] == o.faces[f]);
                }
            }
            assert(n.edges.no_duplicates()) by {
                assert forall|i: int, j: int| 0 <= i < n.edges.len() && 0 <= j < n.edges.len() && i != j implies n.edges[i] != n.edges[j] by {
                    if i < o.edges.len() && j < o.edges.len() {
                    } else if i < o.edges.len() {
                        assert(o.edges.contains(o.edges[i]));
                    } else {
                        assert(o.edges.contains(o.edges[j]));
                    }
                }
            }
        }
        Ok(new_face)
    }


    /// Return current construction counts.
    pub fn counts(&self) -> (c: EulerCounts)
        ensures
            c.vertices == self@.points.len(),
            c.edges == self@.edges.len(),
            c.faces == self@.faces.len(),
            c.shells == self@.shells,
    {
        EulerCounts {
            vertices: self.vertices.len(),
            edges: self.edges.len(),
            faces: self.faces.len(),
            shells: self.shells,
        }
    }

    /// True when the construction state satisfies the Euler count invariant.
    pub fn satisfies_euler_invariant(&self) -> (r: bool)
        requires
            self@.points.len() <= isize::MAX,
            self@.edges.len() <= isize::MAX,
            self@.faces.len() <= isize::MAX,
            self@.points.len() - self@.edges.len() + self@.faces.len() <= isize::MAX,
            2 * self@.shells <= isize::MAX,
        ensures
            r == self@.satisfies_euler_invariant(),
    {
        if self.shells == 0 {
            return self.vertices.len() == 0 && self.edges.len() == 0 && self.faces.len() == 0;
        }
        self.counts().euler_characteristic() == 2 * self.shells as isize
    }

    /// Borrow a construction face loop.
    pub fn face_loop(&self, face: FaceId) -> (r: Result<&[VertexId], EulerError>)
        ensures
            face < self@.faces.len() ==> (r matches Ok(l) && l@ == self@.faces[face as int]),
            face >= self@.faces.len() ==> r == Err::<&[VertexId], EulerError>(
                EulerError::InvalidFace(face),
            ),
    {
        if face < self.faces.len() {
            Ok(self.faces[face].as_slice())
        } else {
            Err(EulerError::InvalidFace(face))
        }
    }

    /// Borrow construction vertices.
    pub fn vertices(&self) -> (r: &[P])
        ensures
            r@ == self@.points,
    {
        self.vertices.as_slice()
    }

    /// Fan-triangulate every construction face from its first vertex, in
    /// face order; every face must have at least three vertices.
    pub fn triangulate(&self) -> (r: Result<Vec<[usize; 3]>, EulerError>)
        ensures
            self@.shells == 0 ==> r == Err::<Vec<[usize; 3]>, EulerError>(EulerError::EmptyBuilder),
            self@.shells != 0 ==> match first_open_face(self@.faces, 0) {
                Some(f) => r == Err::<Vec<[usize; 3]>, EulerError>(
                    EulerError::OpenConstructionFace(f as usize),
                ),
                None => r matches Ok(t) && t@ == fan_all(self@.faces),
            },
    {
        self.ensure_initialized()?;
        let ghost faces = self@.faces;
        let mut triangles: Vec<[usize; 3]> = Vec::new();
        let mut face_id: usize = 0;
        while face_id < self.faces.len()
            invariant
                self@.shells != 0,
                faces == self@.faces,
                faces.len() == self.faces@.len(),
                face_id <= faces.len(),
                forall|g: int| 0 <= g < face_id ==> (#[trigger] faces[g]).len() >= 3,
                triangles@ == fan_all(faces.subrange(0, face_id as int)),
            decreases faces.len() - face_id,
        {
            let face = &self.faces[face_id];
            assert(face@ == faces[face_id as int]);
            if face.len() < 3 {
                proof {
                    lemma_open_face_from_prefix(faces, face_id as int);
                }
                return Err(EulerError::OpenConstructionFace(face_id));
            }
            let ghost before = triangles@;
            let mut i: usize = 1;
            while i < face.len() - 1
                invariant
                    face_id < faces.len(),
                    face@ == faces[face_id as int],
                    face@.len() >= 3,
                    1 <= i <= face@.len() - 1,
                    triangles@ == before + fan(face@).subrange(0, i - 1),
                decreases face@.len() - i,
            {
                triangles.push([face[0], face[i], face[i + 1]]);
                i += 1;
                assert(triangles@ =~= before + fan(face@).subrange(0, i - 1));
            }
            proof {
                assert(fan(face@).subrange(0, i - 1) =~= fan(face@));
                let pre = faces.subrange(0, face_id + 1);
                assert(pre.drop_last() =~= faces.subrange(0, face_id as int));
                assert(pre.last() == face@);
            }
            face_id += 1;
        }
        proof {
            lemma_open_face_from_prefix(faces, face_id as int);
            assert(faces.subrange(0, face_id as int) =~= faces);
        }
        Ok(triangles)
    }

    /// Fan-triangulate the construction and build its closed half-edge
    /// topology over the construction vertices.
    pub fn to_solid_topology(&self) -> (r: Result<HalfEdgeMesh, EulerError>)
        requires
            3 * fan_all(self@.faces).len() <= usize::MAX,
            2 + self@.points.len() + 3 * fan_all(self@.faces).len() + (3 * fan_all(
                self@.faces,
            ).len()) / 2 + fan_all(self@.faces).len() <= u64::MAX,
        ensures
            self@.shells == 0 ==> r == Err::<HalfEdgeMesh, EulerError>(EulerError::EmptyBuilder),
            self@.shells != 0 ==> match first_open_face(self@.faces, 0) {
                Some(f) => r == Err::<HalfEdgeMesh, EulerError>(
                    EulerError::OpenConstructionFace(f as usize),
                ),
                None => match construction_error(fan_all(self@.faces), self@.points.len()) {
                    Some(e) => r == Err::<HalfEdgeMesh, EulerError>(EulerError::Topology(e)),
                    None => r matches Ok(m) && mesh_built_from(
                        m,
                        fan_all(self@.faces),
                        self@.points.len(),
                    ),
                },
            },
    {
        let triangles = self.triangulate()?;
        match HalfEdgeMesh::from_triangles(self.vertices.len(), triangles.as_slice()) {
            Ok(m) => Ok(m),
            Err(e) => Err(EulerError::Topology(e)),
        }
    }

}

/// The two triangles of the sheet that [`lemma_triangle_sheet`] builds.
pub open spec fn sheet_triangles() -> Seq<[usize; 3]> {
    seq![[2usize, 1, 0], [0usize, 1, 2]]
}

/// A triangle sheet built from any three points (`MVFS` at `p0`, `MEV` from
/// vertex 0 to `p1` and from vertex 1 to `p2` on face 0, then `MEF` from
/// vertex 2 to vertex 0 on face 0) passes every check of the operators,
/// keeps `V - E + F = 2` in a well-formed builder, and triangulates into two
/// opposite triangles from which a closed half-edge mesh builds without
/// error.
#[verifier::spinoff_prover]
#[verifier::rlimit(40)]
pub proof fn lemma_triangle_sheet<P>(p0: P, p1: P, p2: P)
    ensures
        ({
            let b1 = mvfs_view(p0);
            let b2 = mev_view(b1, 0, 0, p1);
            let b3 = mev_view(b2, 0, 1, p2);
            let l = b3.faces[0];
            let b4 = mef_view(b3, 0, 2, 0, seq![2usize, 1, 0], seq![0usize, 1, 2]);
            &&& b1.wf() && b2.wf() && b3.wf() && b4.wf()
            &&& b1.shells != 0 && 0 < b1.points.len() && 0 < b1.faces.len() && b1.faces[0].contains(0)
            &&& b2.shells != 0 && 1 < b2.points.len() && 0 < b2.faces.len() && b2.faces[0].contains(1)
            &&& b3.shells != 0 && 2 < b3.points.len() && !b3.edges.contains(edge_key(2, 0))
            &&& 0 < b3.faces.len() && l.contains(2) && l.contains(0)
            &&& mef_loops(l, first_position(l, 2), first_position(l, 0)) == Some(
                (seq![2usize, 1, 0], seq![0usize, 1, 2]),
            )
            &&& b4.points == seq![p0, p1, p2]
            &&& b4.euler_characteristic() == 2
            &&& first_open_face(b4.faces, 0) is None
            &&& fan_all(b4.faces) == sheet_triangles()
            &&& construction_error(sheet_triangles(), 3) is None
        }),
{
    let b1 = mvfs_view(p0);
    let b2 = mev_view(b1, 0, 0, p1);
    let b3 = mev_view(b2, 0, 1, p2);
    assert(b1.faces[0] == seq![0usize]);
    assert(b1.faces[0][0] == 0);
    assert(first_position(b1.faces[0], 0) == 0);
    assert(b2.faces[0] =~= seq![0usize, 1]);
    assert(b2.faces[0][1] == 1);
    assert(first_position(seq![0usize, 1].drop_first(), 1) == 0) by {
        assert(seq![0usize, 1].drop_first() =~= seq![1usize]);
    }
    assert(first_position(b2.faces[0], 1) == 1);
    let l = b3.faces[0];
    assert(l =~= seq![0usize, 1, 2]);
    assert(l[2] == 2 && l[0] == 0);
    assert(first_position(l, 0) == 0);
    assert(first_position(l.drop_first().drop_first(), 2) == 0) by {
        assert(l.drop_first().drop_first() =~= seq![2usize]);
    }
    assert(first_position(l.drop_first(), 2) == 1) by {
        assert(l.drop_first() =~= seq![1usize, 2]);
    }
    assert(first_position(l, 2) == 2);
    assert(cyclic_path_spec(l, 2, 0) =~= seq![2usize, 0]);
    assert(cyclic_path_spec(l, 0, 2) =~= seq![0usize, 1, 2]);
    assert(seq![0usize, 1, 2].reverse() =~= seq![2usize, 1, 0]);
    let b4 = mef_view(b3, 0, 2, 0, seq![2usize, 1, 0], seq![0usize, 1, 2]);
    assert(b2.edges =~= seq![EdgeKey { a: 0, b: 1 }]);
    assert(b3.edges =~= seq![EdgeKey { a: 0, b: 1 }, EdgeKey { a: 1, b: 2 }]);
    assert(edge_key(2, 0) == EdgeKey { a: 0, b: 2 });
    assert(!b3.edges.contains(edge_key(2, 0))) by {
        if b3.edges.contains(edge_key(2, 0)) {
            let k = choose|k: int| 0 <= k < b3.edges.len() && b3.edges[k] == edge_key(2, 0);
            assert(k == 0 || k == 1);
        }
    }
    assert(b4.edges =~= seq![EdgeKey { a: 0, b: 1 }, EdgeKey { a: 1, b: 2 }, EdgeKey { a: 0, b: 2 }]);
    assert(b4.faces =~= seq![seq![2usize, 1, 0], seq![0usize, 1, 2]]);
    assert(b1.points =~= seq![p0]);
    assert(b4.points =~= seq![p0, p1, p2]);
    assert(b1.edges.no_duplicates());
    assert(b2.edges.no_duplicates());
    assert(b3.edges.no_duplicates());
    assert(b4.edges.no_duplicates());
    // the loops
    let faces = b4.faces;
    assert(first_open_face(faces, 2) is None);
    assert(first_open_face(faces, 1) is None);
    assert(first_open_face(faces, 0) is None);
    assert(faces.drop_last() =~= seq![seq![2usize, 1, 0]]);
    assert(faces.drop_last().drop_last() =~= Seq::<Seq<usize>>::empty());
    assert(fan(seq![2usize, 1, 0]) =~= seq![[2usize, 1, 0]]);
    assert(fan(seq![0usize, 1, 2]) =~= seq![[0usize, 1, 2]]);
    assert(fan_all(faces.drop_last().drop_last()) =~= Seq::<[usize; 3]>::empty());
    assert(faces.drop_last().last() =~= seq![2usize, 1, 0]);
    assert(faces.last() =~= seq![0usize, 1, 2]);
    assert(fan_all(faces.drop_last()) =~= seq![[2usize, 1, 0]]);
    assert(fan_all(faces) =~= sheet_triangles());
    lemma_sheet_builds();
}

/// The two opposite triangles of the sheet raise no construction error.
#[verifier::spinoff_prover]
#[verifier::rlimit(40)]
proof fn lemma_sheet_builds()
    ensures
        construction_error(sheet_triangles(), 3) is None,
{
    let tris = sheet_triangles();
    assert(tris[0] == [2usize, 1, 0] && tris[1] == [0usize, 1, 2]);
    // the half-edges: 2->1, 1->0, 0->2, 0->1, 1->2, 2->0
    assert(he_origin(tris, 0) == 2 && he_dest(tris, 0) == 1);
    assert(he_origin(tris, 1) == 1 && he_dest(tris, 1) == 0);
    assert(he_origin(tris, 2) == 0 && he_dest(tris, 2) == 2);
    assert(he_origin(tris, 3) == 0 && he_dest(tris, 3) == 1);
    assert(he_origin(tris, 4) == 1 && he_dest(tris, 4) == 2);
    assert(he_origin(tris, 5) == 2 && he_dest(tris, 5) == 0);
    assert forall|g: int| 0 <= g < 3 implies !(he_origin(tris, g) == 0 && he_dest(tris, g) == 1)
        && !(he_origin(tris, g) == 1 && he_dest(tris, g) == 2) && !(he_origin(tris, g) == 2
        && he_dest(tris, g) == 0) by {
        assert(g == 0 || g == 1 || g == 2);
    }
    assert(!directed_in(tris, 0, 2, 1));
    assert(!directed_in(tris, 0, 1, 0));
    assert(!directed_in(tris, 0, 0, 2));
    assert(!directed_in(tris, 3, 0, 1));
    assert(!directed_in(tris, 3, 1, 2));
    assert(!directed_in(tris, 3, 2, 0));
    assert(triangle_error(tris, 3, 0) is None);
    assert(triangle_error(tris, 3, 1) is None);
    assert(first_triangle_error(tris, 3, 2) is None);
    assert(first_triangle_error(tris, 3, 1) is None);
    assert(first_triangle_error(tris, 3, 0) is None);
    assert(has_reverse(tris, 0)) by {
        assert(he_origin(tris, 4) == he_dest(tris, 0) && he_dest(tris, 4) == he_origin(tris, 0));
    }
    assert(has_reverse(tris, 1)) by {
        assert(he_origin(tris, 3) == he_dest(tris, 1) && he_dest(tris, 3) == he_origin(tris, 1));
    }
    assert(has_reverse(tris, 2)) by {
        assert(he_origin(tris, 5) == he_dest(tris, 2) && he_dest(tris, 5) == he_origin(tris, 2));
    }
    assert(has_reverse(tris, 3)) by {
        assert(he_origin(tris, 1) == he_dest(tris, 3) && he_dest(tris, 1) == he_origin(tris, 3));
    }
    assert(has_reverse(tris, 4)) by {
        assert(he_origin(tris, 0) == he_dest(tris, 4) && he_dest(tris, 0) == he_origin(tris, 4));
    }
    assert(has_reverse(tris, 5)) by {
        assert(he_origin(tris, 2) == he_dest(tris, 5) && he_dest(tris, 2) == he_origin(tris, 5));
    }
    assert(first_missing_reverse(tris, 6) is None);
    assert(first_missing_reverse(tris, 5) is None);
    assert(first_missing_reverse(tris, 4) is None);
    assert(first_missing_reverse(tris, 3) is None);
    assert(first_missing_reverse(tris, 2) is None);
    assert(first_missing_reverse(tris, 1) is None);
    assert(first_missing_reverse(tris, 0) is None);
}

} // verus!
