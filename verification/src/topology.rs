//! Identifier types, persistent ids, history records, half-edge records and
//! topology errors shared by the construction and validation layers.
use vstd::prelude::*;

verus! {

/// Vertex identifier.
pub type VertexId = usize;

/// Half-edge identifier.
pub type HalfEdgeId = usize;

/// Edge identifier.
pub type EdgeId = usize;

/// Face identifier.
pub type FaceId = usize;

/// Split-edge identifier for staged face-splitting wires.
pub type SplitEdgeId = usize;

/// Persistent topology revision identifier.
pub type TopologyRevisionId = u64;

/// Kind tag carried by a persistent topological id.
#[derive(Clone, Copy, Debug, PartialEq, Eq, Hash, Structural)]
pub enum PersistentTopologyKind {
    /// Vertex identity.
    Vertex,
    /// Directed half-edge identity.
    HalfEdge,
    /// Undirected edge identity.
    Edge,
    /// Staged split-edge identity.
    SplitEdge,
    /// Face identity.
    Face,
    /// Shell identity.
    Shell,
}

/// Stable id for a topological entity across local topology edits.
///
/// `VertexId`, `EdgeId` and `FaceId` are compact snapshot indices; a
/// `PersistentId` is the longer-lived identity that survives metadata edits,
/// trim edits and staged split creation.
#[derive(Clone, Copy, Debug, PartialEq, Eq, Hash, Structural)]
pub struct PersistentId {
    /// Entity kind.
    pub kind: PersistentTopologyKind,
    /// Monotonic serial number within the owning solid history.
    pub serial: u64,
}

impl PersistentId {
    /// Construct a persistent id from a kind and serial.
    pub fn new(kind: PersistentTopologyKind, serial: u64) -> (id: Self)
        ensures
            id.kind == kind,
            id.serial == serial,
    {
        Self { kind, serial }
    }
}

/// Topology operation recorded in a solid's history.
#[derive(Clone, Copy, Debug, PartialEq, Eq, Structural)]
pub enum TopologyOperation {
    /// Solid was constructed from an indexed triangle mesh.
    ConstructTriangleMesh,
    /// Solid was constructed after tolerance-aware sewing.
    SewTriangleMesh,
    /// A face support surface was replaced.
    SetFaceSurface,
    /// Face trim loops were replaced.
    SetFaceTrimLoops,
    /// An edge's model-space curve was replaced.
    SetEdgeCurve,
    /// A face-side p-curve was replaced.
    SetTrimCurve,
    /// Face p-curves were generated from model-space edge curves.
    GenerateFacePcurves,
    /// A staged split edge was installed on two faces.
    SplitFacesWithCurves,
    /// A trim-ready intersection curve was promoted to face topology.
    InstallTrimReadyFaceCurve,
}

/// One persistent-history event for a topology mutation.
#[derive(Clone, Debug, PartialEq, Eq)]
pub struct TopologyHistoryEvent {
    /// Revision after the event was applied.
    pub revision: TopologyRevisionId,
    /// Operation that produced the event.
    pub operation: TopologyOperation,
    /// New persistent entities created by the event.
    pub created: Vec<PersistentId>,
    /// Existing persistent entities modified by the event.
    pub modified: Vec<PersistentId>,
    /// Persistent entities retired by the event.
    pub deleted: Vec<PersistentId>,
    /// Source entities used to derive created or modified topology.
    pub parents: Vec<PersistentId>,
}

/// Mathematical value of a history event: its revision, operation and id lists.
pub struct HistoryEventView {
    /// Revision after the event was applied.
    pub revision: u64,
    /// Operation that produced the event.
    pub operation: TopologyOperation,
    /// New persistent entities created by the event.
    pub created: Seq<PersistentId>,
    /// Existing persistent entities modified by the event.
    pub modified: Seq<PersistentId>,
    /// Persistent entities retired by the event.
    pub deleted: Seq<PersistentId>,
    /// Source entities used to derive created or modified topology.
    pub parents: Seq<PersistentId>,
}

impl View for TopologyHistoryEvent {
    type V = HistoryEventView;

    open spec fn view(&self) -> HistoryEventView {
        HistoryEventView {
            revision: self.revision,
            operation: self.operation,
            created: self.created@,
            modified: self.modified@,
            deleted: self.deleted@,
            parents: self.parents@,
        }
    }
}

/// Directed edge around a face.
#[derive(Clone, Copy, Debug, PartialEq, Eq, Structural)]
pub struct HalfEdge {
    /// Origin vertex.
    pub origin: VertexId,
    /// Opposite half-edge, if the mesh is closed.
    pub twin: Option<HalfEdgeId>,
    /// Next half-edge in the face loop.
    pub next: HalfEdgeId,
    /// Previous half-edge in the face loop.
    pub prev: HalfEdgeId,
    /// Incident face.
    pub face: FaceId,
    /// Undirected edge.
    pub edge: EdgeId,
}

/// Connected boundary shell.
#[derive(Clone, Debug, PartialEq, Eq)]
pub struct Shell {
    /// Faces in the shell.
    pub faces: Vec<FaceId>,
}

/// Stable topology counts used by golden reference models and diagnostics.
#[derive(Clone, Copy, Debug, PartialEq, Eq, Structural)]
pub struct TopologyCounts {
    /// Number of vertices.
    pub vertices: usize,
    /// Number of undirected edges.
    pub edges: usize,
    /// Number of half-edges.
    pub halfedges: usize,
    /// Number of faces.
    pub faces: usize,
    /// Number of shells.
    pub shells: usize,
    /// Number of triangular face loops.
    pub triangles: usize,
    /// Number of half-edges without a twin.
    pub boundary_halfedges: usize,
}

/// Trim-loop winding in a face parameter domain.
#[derive(Clone, Copy, Debug, PartialEq, Eq, Structural)]
pub enum TrimLoopOrientation {
    /// Positive signed area in UV space.
    CounterClockwise,
    /// Negative signed area in UV space.
    Clockwise,
    /// Certified zero area.
    Degenerate,
    /// The interval area test could not certify a sign.
    Uncertain,
}

/// Boundary side of a finite surface parameter domain.
#[derive(Clone, Copy, Debug, PartialEq, Eq, Structural)]
pub enum SurfaceBoundary {
    /// Minimum U boundary.
    UMin,
    /// Maximum U boundary.
    UMax,
    /// Minimum V boundary.
    VMin,
    /// Maximum V boundary.
    VMax,
}

/// Role of a trim loop on a face.
#[derive(Clone, Copy, Debug, PartialEq, Eq, Structural)]
pub enum TrimLoopKind {
    /// Boundary of the visible face region.
    Outer,
    /// Hole or island-excluding loop inside the outer boundary.
    Inner,
}

/// Result of installing one split curve on two faces.
#[derive(Clone, Copy, Debug, PartialEq, Eq, Structural)]
pub struct SplitFacesReport {
    /// Shared staged split edge.
    pub split_edge: SplitEdgeId,
    /// First face receiving the split.
    pub a_face: FaceId,
    /// Second face receiving the split.
    pub b_face: FaceId,
    /// Index into the first face's split curves.
    pub a_split: usize,
    /// Index into the second face's split curves.
    pub b_split: usize,
}

/// How a trim-ready intersection curve was promoted into face topology.
#[derive(Clone, Copy, Debug, PartialEq, Eq, Structural)]
pub enum TrimReadyFaceConversionKind {
    /// Open curve installed as a staged face split.
    OpenSplit,
    /// Closed curve installed as inner trim loops on both faces.
    ClosedInnerLoops,
}

/// Result of promoting one trim-ready intersection curve into face trim topology.
#[derive(Clone, Debug, PartialEq, Eq)]
pub struct TrimReadyFaceConversionReport {
    /// Conversion mode.
    pub kind: TrimReadyFaceConversionKind,
    /// Staged split report for open curves.
    pub split: Option<SplitFacesReport>,
    /// Installed or matched loop index on the first face for closed curves.
    pub a_loop: Option<usize>,
    /// Installed or matched loop index on the second face for closed curves.
    pub b_loop: Option<usize>,
    /// Number of p-curve endpoints snapped to existing trim boundaries.
    pub snapped_pcurve_endpoints: usize,
    /// True when an existing equivalent split or loop was reused.
    pub merged_existing: bool,
}

/// Topology construction or validation error.
#[derive(Clone, Copy, Debug, PartialEq, Eq, Structural)]
pub enum TopologyError {
    /// A vertex id or vertex coordinate is invalid.
    InvalidVertex(VertexId),
    /// A face does not contain three distinct vertices.
    DegenerateTriangle(usize),
    /// Sewing tolerance is not finite and nonnegative.
    InvalidSewingTolerance,
    /// Sewing removed every triangle or left no usable shell candidate.
    DegenerateSewnMesh,
    /// The same directed edge appears more than once.
    DuplicateDirectedEdge(VertexId, VertexId),
    /// More or fewer than two faces use an undirected edge.
    NonManifoldEdge(VertexId, VertexId),
    /// The mesh has a boundary edge.
    BoundaryEdge(VertexId, VertexId),
    /// Half-edge links are inconsistent.
    BrokenHalfEdge(HalfEdgeId),
    /// An edge id does not exist.
    InvalidEdge(EdgeId),
    /// An edge's model-space curve is malformed.
    InvalidEdgeCurve(EdgeId),
    /// An edge curve's endpoints do not match its topological vertices.
    EdgeCurveEndpointMismatch(EdgeId),
    /// A face id does not exist.
    InvalidFace(FaceId),
    /// A face split has no usable span or cannot be represented by this operation.
    DegenerateFaceSplit(FaceId),
    /// A split-edge id does not exist.
    InvalidSplitEdge(SplitEdgeId),
    /// A split-edge model-space curve is malformed.
    InvalidSplitCurve(SplitEdgeId),
    /// A split-edge curve's endpoints do not match the stored split endpoints.
    SplitCurveEndpointMismatch(SplitEdgeId),
    /// A face-local split-curve use is malformed.
    InvalidFaceSplit(FaceId, usize),
    /// A face is missing exactly one outer trim loop.
    MissingOuterTrimLoop(FaceId),
    /// A trim loop is malformed.
    InvalidTrimLoop(FaceId, usize),
    /// A trim references a missing or wrong-face half-edge.
    InvalidTrimHalfEdge(FaceId, HalfEdgeId),
    /// A trim p-curve is malformed.
    InvalidTrimCurve(FaceId, usize, usize),
    /// Consecutive p-curves do not close within tolerance.
    OpenTrimLoop(FaceId, usize),
    /// Trim loop nesting is inconsistent.
    InvalidTrimLoopNesting(FaceId, usize),
    /// A p-curve could not be generated for an edge on a face.
    PcurveProjectionFailed(FaceId, HalfEdgeId),
    /// Persistent topology ids do not match the current topology arrays.
    InvalidPersistentIdentity,
}

} // verus!
