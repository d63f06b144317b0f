//! Persistent topology identity: monotonic serial allocation, per-entity id
//! tables and the revision-ordered mutation history.
use vstd::prelude::*;
use crate::topology::{
    HistoryEventView, PersistentId, PersistentTopologyKind, TopologyError, TopologyHistoryEvent,
    TopologyOperation, TopologyRevisionId, VertexId, HalfEdgeId, EdgeId, SplitEdgeId, FaceId,
};

verus! {

/// Mathematical value of a [`TopologyIdentity`].
pub struct IdentityView {
    /// Persistent ids of the snapshot vertices.
    pub vertices: Seq<PersistentId>,
    /// Persistent ids of the snapshot half-edges.
    pub halfedges: Seq<PersistentId>,
    /// Persistent ids of the snapshot edges.
    pub edges: Seq<PersistentId>,
    /// Persistent ids of the staged split edges.
    pub split_edges: Seq<PersistentId>,
    /// Persistent ids of the snapshot faces.
    pub faces: Seq<PersistentId>,
    /// Persistent ids of the shells.
    pub shells: Seq<PersistentId>,
    /// Serial that the next allocated id receives.
    pub next_serial: u64,
    /// Current revision.
    pub revision: u64,
    /// History events in storage order.
    pub history: Seq<HistoryEventView>,
}

impl IdentityView {
    /// Every live id, in storage order: vertices, half-edges, edges, split
    /// edges, faces, shells.
    pub open spec fn all_ids(self) -> Seq<PersistentId> {
        self.vertices + self.halfedges + self.edges + self.split_edges + self.faces + self.shells
    }

    /// The id tables have the given lengths.
    pub open spec fn counts_match(
        self,
        vertices: nat,
        halfedges: nat,
        edges: nat,
        split_edges: nat,
        faces: nat,
        shells: nat,
    ) -> bool {
        &&& self.vertices.len() == vertices
        &&& self.halfedges.len() == halfedges
        &&& self.edges.len() == edges
        &&& self.split_edges.len() == split_edges
        &&& self.faces.len() == faces
        &&& self.shells.len() == shells
    }

    /// Each id table holds distinct live ids of its own kind.
    pub open spec fn tables_well_formed(self) -> bool {
        &&& ids_well_formed(self.vertices, PersistentTopologyKind::Vertex, self.next_serial)
        &&& ids_well_formed(self.halfedges, PersistentTopologyKind::HalfEdge, self.next_serial)
        &&& ids_well_formed(self.edges, PersistentTopologyKind::Edge, self.next_serial)
        &&& ids_well_formed(self.split_edges, PersistentTopologyKind::SplitEdge, self.next_serial)
        &&& ids_well_formed(self.faces, PersistentTopologyKind::Face, self.next_serial)
        &&& ids_well_formed(self.shells, PersistentTopologyKind::Shell, self.next_serial)
    }

    /// The identity is consistent with topology arrays of the given sizes:
    /// table lengths match, tables hold distinct live ids of their own kind,
    /// history revisions run `1, 2, ...` in order, every id an event names is
    /// live, and the current revision is the number of events.
    pub open spec fn is_valid_for(
        self,
        vertices: nat,
        halfedges: nat,
        edges: nat,
        split_edges: nat,
        faces: nat,
        shells: nat,
    ) -> bool {
        &&& self.counts_match(vertices, halfedges, edges, split_edges, faces, shells)
        &&& self.tables_well_formed()
        &&& history_well_formed(self.history, self.next_serial)
        &&& self.revision == self.history.len()
    }
}

/// A persistent id was allocated before `next_serial` and is not the null serial.
pub open spec fn live_serial(id: PersistentId, next_serial: u64) -> bool {
    0 < id.serial && id.serial < next_serial
}

/// All ids in the sequence are live.
pub open spec fn ids_live(ids: Seq<PersistentId>, next_serial: u64) -> bool {
    forall|i: int| 0 <= i < ids.len() ==> live_serial(#[trigger] ids[i], next_serial)
}

/// All ids have the given kind, are live, and are pairwise distinct.
pub open spec fn ids_well_formed(
    ids: Seq<PersistentId>,
    kind: PersistentTopologyKind,
    next_serial: u64,
) -> bool {
    &&& forall|i: int| 0 <= i < ids.len() ==> (#[trigger] ids[i]).kind == kind
    &&& ids_live(ids, next_serial)
    &&& ids.no_duplicates()
}

/// An event stands at position `index` of the history and names only live ids.
pub open spec fn event_well_formed(event: HistoryEventView, index: int, next_serial: u64) -> bool {
    &&& event.revision == index + 1
    &&& ids_live(event.created, next_serial)
    &&& ids_live(event.modified, next_serial)
    &&& ids_live(event.deleted, next_serial)
    &&& ids_live(event.parents, next_serial)
}

/// Every event is well formed at its position.
pub open spec fn history_well_formed(history: Seq<HistoryEventView>, next_serial: u64) -> bool {
    forall|i: int| 0 <= i < history.len() ==> event_well_formed(#[trigger] history[i], i, next_serial)
}

/// `count` ids of one kind with consecutive serials starting at `start`.
pub open spec fn serial_run(kind: PersistentTopologyKind, start: int, count: nat) -> Seq<
    PersistentId,
> {
    Seq::new(count, |i: int| PersistentId { kind, serial: (start + i) as u64 })
}

/// The identity of a freshly constructed triangle-mesh solid: serials are
/// handed out from 1 upwards in table order, and the history holds one
/// construction event that creates every id.
pub open spec fn fresh_identity(
    vertices: nat,
    halfedges: nat,
    edges: nat,
    split_edges: nat,
    faces: nat,
    shells: nat,
) -> IdentityView {
    let s1: int = 1 + vertices as int;
    let s2: int = s1 + halfedges;
    let s3: int = s2 + edges;
    let s4: int = s3 + split_edges;
    let s5: int = s4 + faces;
    let s6: int = s5 + shells;
    let tables = IdentityView {
        vertices: serial_run(PersistentTopologyKind::Vertex, 1, vertices),
        halfedges: serial_run(PersistentTopologyKind::HalfEdge, s1, halfedges),
        edges: serial_run(PersistentTopologyKind::Edge, s2, edges),
        split_edges: serial_run(PersistentTopologyKind::SplitEdge, s3, split_edges),
        faces: serial_run(PersistentTopologyKind::Face, s4, faces),
        shells: serial_run(PersistentTopologyKind::Shell, s5, shells),
        next_serial: s6 as u64,
        revision: 1,
        history: Seq::empty(),
    };
    IdentityView {
        history: seq![
            HistoryEventView {
                revision: 1,
                operation: TopologyOperation::ConstructTriangleMesh,
                created: tables.all_ids(),
                modified: Seq::empty(),
                deleted: Seq::empty(),
                parents: Seq::empty(),
            },
        ],
        ..tables
    }
}

/// The identity after one more event has been appended.
pub open spec fn recorded(
    old: IdentityView,
    operation: TopologyOperation,
    created: Seq<PersistentId>,
    modified: Seq<PersistentId>,
    deleted: Seq<PersistentId>,
    parents: Seq<PersistentId>,
) -> IdentityView {
    IdentityView {
        revision: (old.revision + 1) as u64,
        history: old.history.push(
            HistoryEventView {
                revision: (old.revision + 1) as u64,
                operation,
                created,
                modified,
                deleted,
                parents,
            },
        ),
        ..old
    }
}

/// Persistent ids and mutation history for one solid snapshot.
#[derive(Clone, Debug, PartialEq, Eq)]
pub struct TopologyIdentity {
    vertices: Vec<PersistentId>,
    halfedges: Vec<PersistentId>,
    edges: Vec<PersistentId>,
    split_edges: Vec<PersistentId>,
    faces: Vec<PersistentId>,
    shells: Vec<PersistentId>,
    next_serial: u64,
    revision: TopologyRevisionId,
    history: Vec<TopologyHistoryEvent>,
}

impl View for TopologyIdentity {
    type V = IdentityView;

    closed spec fn view(&self) -> IdentityView {
        IdentityView {
            vertices: self.vertices@,
            halfedges: self.halfedges@,
            edges: self.edges@,
            split_edges: self.split_edges@,
            faces: self.faces@,
            shells: self.shells@,
            next_serial: self.next_serial,
            revision: self.revision,
            history: self.history@.map_values(|e: TopologyHistoryEvent| e@),
        }
    }
}

fn get_id(ids: &Vec<PersistentId>, index: usize) -> (r: Option<PersistentId>)
    ensures
        r == (if index < ids@.len() { Some(ids@[index as int]) } else { None::<PersistentId> }),
{
    if index < ids.len() {
        Some(ids[index])
    } else {
        None
    }
}

fn append_ids(out: &mut Vec<PersistentId>, ids: &Vec<PersistentId>)
    ensures
        final(out)@ == old(out)@ + ids@,
{
    let mut i: usize = 0;
    while i < ids.len()
        invariant
            i <= ids@.len(),
            out@ == old(out)@ + ids@.subrange(0, i as int),
        decreases ids@.len() - i,
    {
        out.push(ids[i]);
        i += 1;
        assert(ids@.subrange(0, i as int) == ids@.subrange(0, (i - 1) as int).push(ids@[i - 1]));
    }
    assert(ids@.subrange(0, i as int) == ids@);
}

impl TopologyIdentity {
    /// Construct identity records for a new triangle-mesh solid.
    pub fn from_counts(
        vertices: usize,
        halfedges: usize,
        edges: usize,
        split_edges: usize,
        faces: usize,
        shells: usize,
    ) -> (identity: Self)
        requires
            1 + vertices + halfedges + edges + split_edges + faces + shells <= u64::MAX,
        ensures
            identity@ == fresh_identity(
                vertices as nat,
                halfedges as nat,
                edges as nat,
                split_edges as nat,
                faces as nat,
                shells as nat,
            ),
    {
        let mut identity = Self {
            vertices: Vec::new(),
            halfedges: Vec::new(),
            edges: Vec::new(),
            split_edges: Vec::new(),
            faces: Vec::new(),
            shells: Vec::new(),
            next_serial: 1,
            revision: 0,
            history: Vec::new(),
        };
        identity.vertices = identity.allocate_many(PersistentTopologyKind::Vertex, vertices);
        identity.halfedges = identity.allocate_many(PersistentTopologyKind::HalfEdge, halfedges);
        identity.edges = identity.allocate_many(PersistentTopologyKind::Edge, edges);
        identity.split_edges = identity.allocate_many(
            PersistentTopologyKind::SplitEdge,
            split_edges,
        );
        identity.faces = identity.allocate_many(PersistentTopologyKind::Face, faces);
        identity.shells = identity.allocate_many(PersistentTopologyKind::Shell, shells);
        let created = identity.all_ids();
        identity.record(
            TopologyOperation::ConstructTriangleMesh,
            created,
            Vec::new(),
            Vec::new(),
            Vec::new(),
        );
        proof {
            let f = fresh_identity(
                vertices as nat,
                halfedges as nat,
                edges as nat,
                split_edges as nat,
                faces as nat,
                shells as nat,
            );
            assert(identity@.vertices == f.vertices);
            assert(identity@.halfedges == f.halfedges);
            assert(identity@.edges == f.edges);
            assert(identity@.split_edges == f.split_edges);
            assert(identity@.faces == f.faces);
            assert(identity@.shells == f.shells);
            assert(identity@.history =~= f.history);
        }
        identity
    }

    /// Current topology revision.
    pub fn revision(&self) -> (r: TopologyRevisionId)
        ensures
            r == self@.revision,
    {
        self.revision
    }

    /// Serial that the next allocated id receives.
    pub fn next_serial(&self) -> (r: u64)
        ensures
            r == self@.next_serial,
    {
        self.next_serial
    }

    /// Persistent history events in revision order.
    pub fn history(&self) -> (r: &[TopologyHistoryEvent])
        ensures
            r@.map_values(|e: TopologyHistoryEvent| e@) == self@.history,
    {
        self.history.as_slice()
    }

    /// Persistent vertex id for a snapshot vertex index.
    pub fn vertex(&self, vertex: VertexId) -> (r: Option<PersistentId>)
        ensures
            r == (if vertex < self@.vertices.len() {
                Some(self@.vertices[vertex as int])
            } else {
                None::<PersistentId>
            }),
    {
        get_id(&self.vertices, vertex)
    }

    /// Persistent half-edge id for a snapshot half-edge index.
    pub fn halfedge(&self, halfedge: HalfEdgeId) -> (r: Option<PersistentId>)
        ensures
            r == (if halfedge < self@.halfedges.len() {
                Some(self@.halfedges[halfedge as int])
            } else {
                None::<PersistentId>
            }),
    {
        get_id(&self.halfedges, halfedge)
    }

    /// Persistent edge id for a snapshot edge index.
    pub fn edge(&self, edge: EdgeId) -> (r: Option<PersistentId>)
        ensures
            r == (if edge < self@.edges.len() {
                Some(self@.edges[edge as int])
            } else {
                None::<PersistentId>
            }),
    {
        get_id(&self.edges, edge)
    }

    /// Persistent staged split-edge id for a snapshot split-edge index.
    pub fn split_edge(&self, split_edge: SplitEdgeId) -> (r: Option<PersistentId>)
        ensures
            r == (if split_edge < self@.split_edges.len() {
                Some(self@.split_edges[split_edge as int])
            } else {
                None::<PersistentId>
            }),
    {
        get_id(&self.split_edges, split_edge)
    }

    /// Number of faces the identity tracks.
    pub fn face_count(&self) -> (n: usize)
        ensures
            n == self@.faces.len(),
    {
        self.faces.len()
    }

    /// Number of staged split edges the identity tracks.
    pub fn split_edge_count(&self) -> (n: usize)
        ensures
            n == self@.split_edges.len(),
    {
        self.split_edges.len()
    }

    /// Persistent face id for a snapshot face index.
    pub fn face(&self, face: FaceId) -> (r: Option<PersistentId>)
        ensures
            r == (if face < self@.faces.len() {
                Some(self@.faces[face as int])
            } else {
                None::<PersistentId>
            }),
    {
        get_id(&self.faces, face)
    }

    /// Persistent shell id for a snapshot shell index.
    pub fn shell(&self, shell: usize) -> (r: Option<PersistentId>)
        ensures
            r == (if shell < self@.shells.len() {
                Some(self@.shells[shell as int])
            } else {
                None::<PersistentId>
            }),
    {
        get_id(&self.shells, shell)
    }

    /// Return every live persistent id in deterministic storage order.
    pub fn all_ids(&self) -> (ids: Vec<PersistentId>)
        ensures
            ids@ == self@.all_ids(),
    {
        let mut ids = Vec::new();
        append_ids(&mut ids, &self.vertices);
        append_ids(&mut ids, &self.halfedges);
        append_ids(&mut ids, &self.edges);
        append_ids(&mut ids, &self.split_edges);
        append_ids(&mut ids, &self.faces);
        append_ids(&mut ids, &self.shells);
        assert(ids@ =~= self@.all_ids());
        ids
    }

    /// Allocate `count` fresh ids of one kind.
    pub fn allocate_many(&mut self, kind: PersistentTopologyKind, count: usize) -> (ids: Vec<
        PersistentId,
    >)
        requires
            old(self)@.next_serial + count <= u64::MAX,
        ensures
            ids@ == serial_run(kind, old(self)@.next_serial as int, count as nat),
            final(self)@ == (IdentityView {
                next_serial: (old(self)@.next_serial + count) as u64,
                ..old(self)@
            }),
    {
        let mut ids = Vec::new();
        let mut i: usize = 0;
        while i < count
            invariant
                i <= count,
                old(self)@.next_serial + count <= u64::MAX,
                ids@ == serial_run(kind, old(self)@.next_serial as int, i as nat),
                self@ == (IdentityView {
                    next_serial: (old(self)@.next_serial + i) as u64,
                    ..old(self)@
                }),
            decreases count - i,
        {
            let id = self.allocate(kind);
            ids.push(id);
            i += 1;
            assert(ids@ =~= serial_run(kind, old(self)@.next_serial as int, i as nat));
        }
        ids
    }

    /// Allocate one fresh id of the given kind.
    pub fn allocate(&mut self, kind: PersistentTopologyKind) -> (id: PersistentId)
        requires
            old(self)@.next_serial < u64::MAX,
        ensures
            id == (PersistentId { kind, serial: old(self)@.next_serial }),
            final(self)@ == (IdentityView {
                next_serial: (old(self)@.next_serial + 1) as u64,
                ..old(self)@
            }),
    {
        let id = PersistentId::new(kind, self.next_serial);
        self.next_serial = self.next_serial + 1;
        id
    }

    /// Allocate a fresh split-edge id and append it to the split-edge table.
    pub fn allocate_split_edge(&mut self) -> (id: PersistentId)
        requires
            old(self)@.next_serial < u64::MAX,
        ensures
            id == (PersistentId {
                kind: PersistentTopologyKind::SplitEdge,
                serial: old(self)@.next_serial,
            }),
            final(self)@ == (IdentityView {
                split_edges: old(self)@.split_edges.push(id),
                next_serial: (old(self)@.next_serial + 1) as u64,
                ..old(self)@
            }),
    {
        let id = self.allocate(PersistentTopologyKind::SplitEdge);
        self.split_edges.push(id);
        id
    }

    /// Append a history event and advance the revision.
    pub fn record(
        &mut self,
        operation: TopologyOperation,
        created: Vec<PersistentId>,
        modified: Vec<PersistentId>,
        deleted: Vec<PersistentId>,
        parents: Vec<PersistentId>,
    )
        requires
            old(self)@.revision < u64::MAX,
        ensures
            final(self)@ == recorded(
                old(self)@,
                operation,
                created@,
                modified@,
                deleted@,
                parents@,
            ),
    {
        self.revision = self.revision + 1;
        let event = TopologyHistoryEvent {
            revision: self.revision,
            operation,
            created,
            modified,
            deleted,
            parents,
        };
        let ghost old_history = self.history@;
        self.history.push(event);
        proof {
            assert(self.history@.map_values(|e: TopologyHistoryEvent| e@) =~= old_history.map_values(
                |e: TopologyHistoryEvent| e@,
            ).push(event@));
        }
    }
}


fn ids_live_exec(ids: &Vec<PersistentId>, next_serial: u64) -> (ok: bool)
    ensures
        ok == ids_live(ids@, next_serial),
{
    let mut i: usize = 0;
    while i < ids.len()
        invariant
            i <= ids@.len(),
            forall|a: int| 0 <= a < i ==> live_serial(#[trigger] ids@[a], next_serial),
        decreases ids@.len() - i,
    {
        let id = ids[i];
        if id.serial == 0 || id.serial >= next_serial {
            return false;
        }
        i += 1;
    }
    true
}

/// Check that a slice of persistent ids holds distinct live ids of `kind`.
pub fn validate_persistent_id_slice(
    ids: &[PersistentId],
    kind: PersistentTopologyKind,
    next_serial: u64,
) -> (r: Result<(), TopologyError>)
    ensures
        r is Ok <==> ids_well_formed(ids@, kind, next_serial),
        r is Err ==> r == Err::<(), TopologyError>(TopologyError::InvalidPersistentIdentity),
{
    let mut i: usize = 0;
    while i < ids.len()
        invariant
            i <= ids@.len(),
            forall|a: int| 0 <= a < i ==> (#[trigger] ids@[a]).kind == kind,
            forall|a: int| 0 <= a < i ==> live_serial(#[trigger] ids@[a], next_serial),
            forall|a: int, b: int| 0 <= a < b < i ==> ids@[a] != ids@[b],
        decreases ids@.len() - i,
    {
        let id = ids[i];
        if id.kind != kind || id.serial == 0 || id.serial >= next_serial {
            return Err(TopologyError::InvalidPersistentIdentity);
        }
        let mut j: usize = 0;
        while j < i
            invariant
                j <= i,
                i < ids@.len(),
                id == ids@[i as int],
                forall|b: int| 0 <= b < j ==> ids@[b] != id,
            decreases i - j,
        {
            if ids[j] == id {
                return Err(TopologyError::InvalidPersistentIdentity);
            }
            j += 1;
        }
        i += 1;
    }
    Ok(())
}

impl TopologyIdentity {
    /// Validate persistent ids and history bookkeeping against topology
    /// arrays of the given sizes.
    pub fn validate_persistent_identity(
        &self,
        vertices: usize,
        halfedges: usize,
        edges: usize,
        split_edges: usize,
        faces: usize,
        shells: usize,
    ) -> (r: Result<(), TopologyError>)
        requires
            self@.revision < u64::MAX,
        ensures
            r is Ok <==> self@.is_valid_for(
                vertices as nat,
                halfedges as nat,
                edges as nat,
                split_edges as nat,
                faces as nat,
                shells as nat,
            ),
            r is Err ==> r == Err::<(), TopologyError>(TopologyError::InvalidPersistentIdentity),
    {
        if self.vertices.len() != vertices || self.halfedges.len() != halfedges
            || self.edges.len() != edges || self.split_edges.len() != split_edges
            || self.faces.len() != faces || self.shells.len() != shells {
            return Err(TopologyError::InvalidPersistentIdentity);
        }
        validate_persistent_id_slice(
            self.vertices.as_slice(),
            PersistentTopologyKind::Vertex,
            self.next_serial,
        )?;
        validate_persistent_id_slice(
            self.halfedges.as_slice(),
            PersistentTopologyKind::HalfEdge,
            self.next_serial,
        )?;
        validate_persistent_id_slice(
            self.edges.as_slice(),
            PersistentTopologyKind::Edge,
            self.next_serial,
        )?;
        validate_persistent_id_slice(
            self.split_edges.as_slice(),
            PersistentTopologyKind::SplitEdge,
            self.next_serial,
        )?;
        validate_persistent_id_slice(
            self.faces.as_slice(),
            PersistentTopologyKind::Face,
            self.next_serial,
        )?;
        validate_persistent_id_slice(
            self.shells.as_slice(),
            PersistentTopologyKind::Shell,
            self.next_serial,
        )?;
        let ghost hist = self@.history;
        let mut k: usize = 0;
        while k < self.history.len()
            invariant
                k <= self.history@.len(),
                hist == self@.history,
                hist.len() == self.history@.len(),
                forall|i: int| 0 <= i < k ==> event_well_formed(#[trigger] hist[i], i, self@.next_serial),
            decreases self.history@.len() - k,
        {
            let event = &self.history[k];
            assert(hist[k as int] == event@);
            if event.revision != (k as u64) + 1 {
                return Err(TopologyError::InvalidPersistentIdentity);
            }
            if !ids_live_exec(&event.created, self.next_serial)
                || !ids_live_exec(&event.modified, self.next_serial)
                || !ids_live_exec(&event.deleted, self.next_serial)
                || !ids_live_exec(&event.parents, self.next_serial) {
                return Err(TopologyError::InvalidPersistentIdentity);
            }
            k += 1;
        }
        if self.revision != self.history.len() as u64 {
            return Err(TopologyError::InvalidPersistentIdentity);
        }
        Ok(())
    }
}

/// No kind in the sequence equals `kind`.
pub open spec fn kind_absent(ids: Seq<PersistentId>, kind: PersistentTopologyKind) -> bool {
    forall|i: int| 0 <= i < ids.len() ==> (#[trigger] ids[i]).kind != kind
}

proof fn lemma_concat_distinct_kinds(
    s1: Seq<PersistentId>,
    s2: Seq<PersistentId>,
    kind: PersistentTopologyKind,
)
    requires
        s1.no_duplicates(),
        s2.no_duplicates(),
        kind_absent(s1, kind),
        forall|i: int| 0 <= i < s2.len() ==> (#[trigger] s2[i]).kind == kind,
    ensures
        (s1 + s2).no_duplicates(),
{
    let s = s1 + s2;
    assert forall|i: int, j: int| 0 <= i < s.len() && 0 <= j < s.len() && i != j implies s[i]
        != s[j] by {
        if i < s1.len() && j >= s1.len() {
            assert(s[j] == s2[j - s1.len()]);
            assert(s[i] == s1[i]);
        } else if i >= s1.len() && j < s1.len() {
            assert(s[i] == s2[i - s1.len()]);
            assert(s[j] == s1[j]);
        } else if i < s1.len() && j < s1.len() {
            assert(s[i] == s1[i] && s[j] == s1[j]);
        } else {
            assert(s[i] == s2[i - s1.len()] && s[j] == s2[j - s1.len()]);
        }
    }
}

proof fn lemma_kind_absent_concat(
    s1: Seq<PersistentId>,
    s2: Seq<PersistentId>,
    kind: PersistentTopologyKind,
)
    requires
        kind_absent(s1, kind),
        kind_absent(s2, kind),
    ensures
        kind_absent(s1 + s2, kind),
{
    assert forall|i: int| 0 <= i < (s1 + s2).len() implies (#[trigger] (s1 + s2)[i]).kind != kind by {
        if i < s1.len() {
            assert((s1 + s2)[i] == s1[i]);
        } else {
            assert((s1 + s2)[i] == s2[i - s1.len()]);
        }
    }
}

proof fn lemma_ids_live_concat(s1: Seq<PersistentId>, s2: Seq<PersistentId>, next_serial: u64)
    requires
        ids_live(s1, next_serial),
        ids_live(s2, next_serial),
    ensures
        ids_live(s1 + s2, next_serial),
{
    assert forall|i: int| 0 <= i < (s1 + s2).len() implies live_serial(
        #[trigger] (s1 + s2)[i],
        next_serial,
    ) by {
        if i < s1.len() {
            assert((s1 + s2)[i] == s1[i]);
        } else {
            assert((s1 + s2)[i] == s2[i - s1.len()]);
        }
    }
}

proof fn lemma_kind_absent_of_kind(
    ids: Seq<PersistentId>,
    kind: PersistentTopologyKind,
    other: PersistentTopologyKind,
)
    requires
        forall|i: int| 0 <= i < ids.len() ==> (#[trigger] ids[i]).kind == kind,
        kind != other,
    ensures
        kind_absent(ids, other),
{
}

/// A table set whose tables hold distinct ids of their own kinds yields a
/// duplicate-free, live `all_ids` sequence.
pub proof fn lemma_well_formed_tables_have_unique_ids(view: IdentityView)
    requires
        view.tables_well_formed(),
    ensures
        view.all_ids().no_duplicates(),
        ids_live(view.all_ids(), view.next_serial),
        view.all_ids().len() == view.vertices.len() + view.halfedges.len() + view.edges.len()
            + view.split_edges.len() + view.faces.len() + view.shells.len(),
{
    let p1 = view.vertices;
    let p2 = p1 + view.halfedges;
    let p3 = p2 + view.edges;
    let p4 = p3 + view.split_edges;
    let p5 = p4 + view.faces;
    let p6 = p5 + view.shells;
    lemma_kind_absent_of_kind(view.vertices, PersistentTopologyKind::Vertex, PersistentTopologyKind::HalfEdge);
    lemma_concat_distinct_kinds(p1, view.halfedges, PersistentTopologyKind::HalfEdge);

    lemma_kind_absent_of_kind(view.vertices, PersistentTopologyKind::Vertex, PersistentTopologyKind::Edge);
    lemma_kind_absent_of_kind(view.halfedges, PersistentTopologyKind::HalfEdge, PersistentTopologyKind::Edge);
    lemma_kind_absent_concat(p1, view.halfedges, PersistentTopologyKind::Edge);
    lemma_concat_distinct_kinds(p2, view.edges, PersistentTopologyKind::Edge);

    lemma_kind_absent_of_kind(view.vertices, PersistentTopologyKind::Vertex, PersistentTopologyKind::SplitEdge);
    lemma_kind_absent_of_kind(view.halfedges, PersistentTopologyKind::HalfEdge, PersistentTopologyKind::SplitEdge);
    lemma_kind_absent_of_kind(view.edges, PersistentTopologyKind::Edge, PersistentTopologyKind::SplitEdge);
    lemma_kind_absent_concat(p1, view.halfedges, PersistentTopologyKind::SplitEdge);
    lemma_kind_absent_concat(p2, view.edges, PersistentTopologyKind::SplitEdge);
    lemma_concat_distinct_kinds(p3, view.split_edges, PersistentTopologyKind::SplitEdge);

    lemma_kind_absent_of_kind(view.vertices, PersistentTopologyKind::Vertex, PersistentTopologyKind::Face);
    lemma_kind_absent_of_kind(view.halfedges, PersistentTopologyKind::HalfEdge, PersistentTopologyKind::Face);
    lemma_kind_absent_of_kind(view.edges, PersistentTopologyKind::Edge, PersistentTopologyKind::Face);
    lemma_kind_absent_of_kind(view.split_edges, PersistentTopologyKind::SplitEdge, PersistentTopologyKind::Face);
    lemma_kind_absent_concat(p1, view.halfedges, PersistentTopologyKind::Face);
    lemma_kind_absent_concat(p2, view.edges, PersistentTopologyKind::Face);
    lemma_kind_absent_concat(p3, view.split_edges, PersistentTopologyKind::Face);
    lemma_concat_distinct_kinds(p4, view.faces, PersistentTopologyKind::Face);

    lemma_kind_absent_of_kind(view.vertices, PersistentTopologyKind::Vertex, PersistentTopologyKind::Shell);
    lemma_kind_absent_of_kind(view.halfedges, PersistentTopologyKind::HalfEdge, PersistentTopologyKind::Shell);
    lemma_kind_absent_of_kind(view.edges, PersistentTopologyKind::Edge, PersistentTopologyKind::Shell);
    lemma_kind_absent_of_kind(view.split_edges, PersistentTopologyKind::SplitEdge, PersistentTopologyKind::Shell);
    lemma_kind_absent_of_kind(view.faces, PersistentTopologyKind::Face, PersistentTopologyKind::Shell);
    lemma_kind_absent_concat(p1, view.halfedges, PersistentTopologyKind::Shell);
    lemma_kind_absent_concat(p2, view.edges, PersistentTopologyKind::Shell);
    lemma_kind_absent_concat(p3, view.split_edges, PersistentTopologyKind::Shell);
    lemma_kind_absent_concat(p4, view.faces, PersistentTopologyKind::Shell);
    lemma_concat_distinct_kinds(p5, view.shells, PersistentTopologyKind::Shell);

    lemma_ids_live_concat(p1, view.halfedges, view.next_serial);
    lemma_ids_live_concat(p2, view.edges, view.next_serial);
    lemma_ids_live_concat(p3, view.split_edges, view.next_serial);
    lemma_ids_live_concat(p4, view.faces, view.next_serial);
    lemma_ids_live_concat(p5, view.shells, view.next_serial);
}

proof fn lemma_serial_run_well_formed(
    kind: PersistentTopologyKind,
    start: int,
    count: nat,
    next_serial: u64,
)
    requires
        1 <= start,
        start + count <= next_serial,
    ensures
        ids_well_formed(serial_run(kind, start, count), kind, next_serial),
{
    let s = serial_run(kind, start, count);
    assert forall|i: int, j: int| 0 <= i < s.len() && 0 <= j < s.len() && i != j implies s[i]
        != s[j] by {
        assert(s[i].serial == start + i);
        assert(s[j].serial == start + j);
    }
    assert forall|i: int| 0 <= i < s.len() implies live_serial(#[trigger] s[i], next_serial) by {
        assert(s[i].serial == start + i);
    }
}

/// The identity of a freshly constructed solid is valid for the counts it was
/// made with, and its ids are pairwise distinct.
pub proof fn lemma_fresh_identity_valid(
    vertices: nat,
    halfedges: nat,
    edges: nat,
    split_edges: nat,
    faces: nat,
    shells: nat,
)
    requires
        1 + vertices + halfedges + edges + split_edges + faces + shells <= u64::MAX,
    ensures
        fresh_identity(vertices, halfedges, edges, split_edges, faces, shells).is_valid_for(
            vertices,
            halfedges,
            edges,
            split_edges,
            faces,
            shells,
        ),
        fresh_identity(vertices, halfedges, edges, split_edges, faces, shells).all_ids().no_duplicates(),
        fresh_identity(vertices, halfedges, edges, split_edges, faces, shells).all_ids().len()
            == vertices + halfedges + edges + split_edges + faces + shells,
{
    let f = fresh_identity(vertices, halfedges, edges, split_edges, faces, shells);
    let ns = f.next_serial;
    let s1: int = 1 + vertices as int;
    let s2: int = s1 + halfedges;
    let s3: int = s2 + edges;
    let s4: int = s3 + split_edges;
    let s5: int = s4 + faces;
    lemma_serial_run_well_formed(PersistentTopologyKind::Vertex, 1, vertices, ns);
    lemma_serial_run_well_formed(PersistentTopologyKind::HalfEdge, s1, halfedges, ns);
    lemma_serial_run_well_formed(PersistentTopologyKind::Edge, s2, edges, ns);
    lemma_serial_run_well_formed(PersistentTopologyKind::SplitEdge, s3, split_edges, ns);
    lemma_serial_run_well_formed(PersistentTopologyKind::Face, s4, faces, ns);
    lemma_serial_run_well_formed(PersistentTopologyKind::Shell, s5, shells, ns);
    lemma_well_formed_tables_have_unique_ids(f);
    assert(event_well_formed(f.history[0], 0, ns));
}

/// Recording an event that names only live ids keeps an identity valid for
/// the same topology sizes, advances the revision by one and leaves every
/// id table unchanged.
pub proof fn lemma_record_preserves_validity(
    old: IdentityView,
    operation: TopologyOperation,
    created: Seq<PersistentId>,
    modified: Seq<PersistentId>,
    deleted: Seq<PersistentId>,
    parents: Seq<PersistentId>,
    vertices: nat,
    halfedges: nat,
    edges: nat,
    split_edges: nat,
    faces: nat,
    shells: nat,
)
    requires
        old.is_valid_for(vertices, halfedges, edges, split_edges, faces, shells),
        old.revision < u64::MAX,
        ids_live(created, old.next_serial),
        ids_live(modified, old.next_serial),
        ids_live(deleted, old.next_serial),
        ids_live(parents, old.next_serial),
    ensures
        recorded(old, operation, created, modified, deleted, parents).is_valid_for(
            vertices,
            halfedges,
            edges,
            split_edges,
            faces,
            shells,
        ),
        recorded(old, operation, created, modified, deleted, parents).all_ids() == old.all_ids(),
        recorded(old, operation, created, modified, deleted, parents).revision == old.revision + 1,
{
    let n = recorded(old, operation, created, modified, deleted, parents);
    assert forall|i: int| 0 <= i < n.history.len() implies event_well_formed(
        #[trigger] n.history[i],
        i,
        n.next_serial,
    ) by {
        if i < old.history.len() {
            assert(n.history[i] == old.history[i]);
        }
    }
}

/// Allocating a staged split-edge id keeps an identity valid once the split
/// edge is counted, and the new id is distinct from every existing id.
pub proof fn lemma_split_allocation_preserves_validity(
    old: IdentityView,
    vertices: nat,
    halfedges: nat,
    edges: nat,
    split_edges: nat,
    faces: nat,
    shells: nat,
)
    requires
        old.is_valid_for(vertices, halfedges, edges, split_edges, faces, shells),
        1 <= old.next_serial < u64::MAX,
    ensures
        ({
            let id = PersistentId {
                kind: PersistentTopologyKind::SplitEdge,
                serial: old.next_serial,
            };
            let n = IdentityView {
                split_edges: old.split_edges.push(id),
                next_serial: (old.next_serial + 1) as u64,
                ..old
            };
            &&& n.is_valid_for(vertices, halfedges, edges, split_edges + 1, faces, shells)
            &&& !old.all_ids().contains(id)
        }),
{
    let id = PersistentId { kind: PersistentTopologyKind::SplitEdge, serial: old.next_serial };
    let n = IdentityView {
        split_edges: old.split_edges.push(id),
        next_serial: (old.next_serial + 1) as u64,
        ..old
    };
    lemma_well_formed_tables_have_unique_ids(old);
    let s = n.split_edges;
    assert forall|i: int, j: int| 0 <= i < s.len() && 0 <= j < s.len() && i != j implies s[i]
        != s[j] by {
        if i < old.split_edges.len() && j < old.split_edges.len() {
            assert(s[i] == old.split_edges[i] && s[j] == old.split_edges[j]);
        } else if i < old.split_edges.len() {
            assert(s[i] == old.split_edges[i]);
            assert(live_serial(old.split_edges[i], old.next_serial));
        } else {
            assert(s[j] == old.split_edges[j]);
            assert(live_serial(old.split_edges[j], old.next_serial));
        }
    }
    assert forall|i: int| 0 <= i < s.len() implies live_serial(#[trigger] s[i], n.next_serial)
        && s[i].kind == PersistentTopologyKind::SplitEdge by {
        if i < old.split_edges.len() {
            assert(s[i] == old.split_edges[i]);
            assert(live_serial(old.split_edges[i], old.next_serial));
            assert(old.split_edges[i].kind == PersistentTopologyKind::SplitEdge);
        } else {
            assert(i == old.split_edges.len());
            assert(s[i] == id);
            assert(id.serial < n.next_serial);
        }
    }
    assert(ids_well_formed(n.split_edges, PersistentTopologyKind::SplitEdge, n.next_serial));
    assert(ids_live(n.vertices, n.next_serial));
    assert(ids_live(n.halfedges, n.next_serial));
    assert(ids_live(n.edges, n.next_serial));
    assert(ids_live(n.faces, n.next_serial));
    assert(ids_live(n.shells, n.next_serial));
    assert forall|i: int| 0 <= i < n.history.len() implies event_well_formed(
        #[trigger] n.history[i],
        i,
        n.next_serial,
    ) by {
        assert(event_well_formed(old.history[i], i, old.next_serial));
    }
    if old.all_ids().contains(id) {
        let k = choose|k: int| 0 <= k < old.all_ids().len() && old.all_ids()[k] == id;
        assert(live_serial(old.all_ids()[k], old.next_serial));
    }
}

} // verus!
