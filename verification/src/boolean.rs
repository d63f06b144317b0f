//! Boolean operation vocabulary and the side-selection rules that turn a
//! classification of split-curve sides into keep/discard decisions.
use vstd::prelude::*;
use crate::euler::{first_position, lemma_first_position};
use crate::halfedge::links_in_range;
use crate::topology::{FaceId, HalfEdge, HalfEdgeId, SplitEdgeId, TopologyError};

verus! {

/// Boolean operation.
#[derive(Clone, Copy, Debug, PartialEq, Eq, Structural)]
pub enum BooleanOp {
    /// Union.
    Union,
    /// Subtract right from left.
    Subtract,
    /// Intersection.
    Intersect,
}

/// Operand ownership for a face participating in staged Boolean classification.
#[derive(Clone, Copy, Debug, PartialEq, Eq, Structural)]
pub enum BooleanOperand {
    /// Left-hand Boolean operand.
    Left,
    /// Right-hand Boolean operand.
    Right,
}

/// Classification of a split p-curve against its face trim domain.
#[derive(Clone, Copy, Debug, PartialEq, Eq, Structural)]
pub enum TrimDomainStatus {
    /// The sampled split curve lies in the visible face region.
    Inside,
    /// The sampled split curve lies on existing trim boundaries.
    Boundary,
    /// The sampled split curve lies outside the visible face region.
    Outside,
    /// The sampled split curve crosses from visible to invisible face regions.
    Crossing,
    /// The trim domain could not be classified, usually because a curve is unresolved.
    Unknown,
}

/// Local side of a split curve relative to the opposite operand.
#[derive(Clone, Copy, Debug, PartialEq, Eq, Structural)]
pub enum BooleanRegionSide {
    /// The local side is inside the opposite operand.
    InsideOther,
    /// The local side is outside the opposite operand.
    OutsideOther,
    /// The side could not be certified, usually for tangency or missing derivatives.
    Ambiguous,
}

/// Boolean action assigned to one local side of a split curve.
#[derive(Clone, Copy, Debug, PartialEq, Eq, Structural)]
pub enum BooleanRegionAction {
    /// Keep the region with its existing orientation.
    Keep,
    /// Keep the region, reversing orientation because it came from the subtracted operand.
    KeepReversed,
    /// Discard the region.
    Discard,
    /// Ignore this split because it does not separate the two Boolean operands.
    Ignored,
    /// A robust keep/discard decision is not available.
    Ambiguous,
}

/// Overall status for one staged split edge.
#[derive(Clone, Copy, Debug, PartialEq, Eq, Structural)]
pub enum BooleanSplitStatus {
    /// The split separates left and right operands and received concrete side actions.
    Active,
    /// Both face uses belong to the same operand, so this is not a Boolean separator.
    InactiveSameOperand,
    /// Classification could not produce concrete side actions.
    Ambiguous,
}

/// Classification for one face-side use of a staged split edge.
#[derive(Clone, Copy, Debug, PartialEq, Eq, Structural)]
pub struct BooleanFaceSplitClassification {
    /// Face carrying this split use.
    pub face: FaceId,
    /// Index into the face's split curves.
    pub split_index: usize,
    /// Boolean operand that owns the face.
    pub operand: BooleanOperand,
    /// Relationship between the split p-curve and this face's trim domain.
    pub trim_domain: TrimDomainStatus,
    /// Classification of the UV-left side of the oriented split p-curve.
    pub left_of_curve: BooleanRegionSide,
    /// Classification of the UV-right side of the oriented split p-curve.
    pub right_of_curve: BooleanRegionSide,
    /// Boolean action for the UV-left side of the oriented split p-curve.
    pub left_action: BooleanRegionAction,
    /// Boolean action for the UV-right side of the oriented split p-curve.
    pub right_action: BooleanRegionAction,
}

/// Classification for one staged split edge and its two face-side uses.
#[derive(Clone, Copy, Debug, PartialEq, Eq, Structural)]
pub struct BooleanSplitClassification {
    /// Shared staged split edge.
    pub split_edge: SplitEdgeId,
    /// Overall classification status.
    pub status: BooleanSplitStatus,
    /// First face-side use.
    pub a: BooleanFaceSplitClassification,
    /// Second face-side use.
    pub b: BooleanFaceSplitClassification,
}

/// Report returned by staged Boolean split classification.
#[derive(Clone, Debug, PartialEq, Eq)]
pub struct BooleanClassificationReport {
    /// Boolean operation being classified.
    pub operation: BooleanOp,
    /// Number of staged split edges considered.
    pub split_count: usize,
    /// Number of split edges that became active Boolean separators.
    pub active_split_count: usize,
    /// Per-split classification records.
    pub classifications: Vec<BooleanSplitClassification>,
}

/// Local side selected for a healed face region.
#[derive(Clone, Copy, Debug, PartialEq, Eq, Structural)]
pub enum HealedRegionSide {
    /// Region on the UV-left side of the oriented split p-curve.
    LeftOfSplit,
    /// Region on the UV-right side of the oriented split p-curve.
    RightOfSplit,
}

/// Boolean error.
#[derive(Clone, Copy, Debug, PartialEq, Eq)]
pub enum BooleanError {
    /// Unsupported operation or operand pair.
    Unsupported,
    /// Invalid input parameters.
    InvalidInput(&'static str),
    /// Topology validation failed.
    Topology(TopologyError),
}

impl From<TopologyError> for BooleanError {
    fn from(value: TopologyError) -> (e: Self)
        ensures
            e == BooleanError::Topology(value),
    {
        BooleanError::Topology(value)
    }
}

impl vstd::std_specs::convert::FromSpecImpl<TopologyError> for BooleanError {
    open spec fn obeys_from_spec() -> bool {
        true
    }

    open spec fn from_spec(v: TopologyError) -> BooleanError {
        BooleanError::Topology(v)
    }
}

/// Relationship found for one left/right face pair.
#[derive(Clone, Copy, Debug, PartialEq, Eq, Structural)]
pub enum BooleanFacePairStatus {
    /// The two finite faces do not intersect.
    Disjoint,
    /// The faces touch at a point or along a numerically tiny interval.
    Touching,
    /// The faces intersect in one or more curves.
    Intersecting,
    /// The faces are coplanar or coincident over an area.
    Coincident,
    /// The pair could not be intersected with the available representation.
    Unsupported,
}

/// Classification of a tolerance merge relation between two edges.
#[derive(Clone, Copy, Debug, PartialEq, Eq, Structural)]
pub enum BooleanEdgeMergeKind {
    /// Endpoints match in the same or reversed order.
    Coincident,
    /// Collinear edges overlap over a finite interval but do not have identical endpoints.
    Overlapping,
    /// The edges touch at a point within tolerance.
    TangentTouch,
    /// Endpoints are close enough to merge but not exactly coincident.
    NearlyCoincident,
}

/// Classification of a tolerance merge relation between two faces.
#[derive(Clone, Copy, Debug, PartialEq, Eq, Structural)]
pub enum BooleanFaceMergeKind {
    /// Coplanar finite faces overlap in area.
    CoplanarOverlap,
    /// Nearly coplanar finite faces overlap in area within tolerance.
    NearlyCoincident,
    /// Faces touch at a point or along a numerically tiny interval.
    TangentTouch,
    /// Faces overlap or intersect in a finite curve.
    Overlapping,
}

/// The region on a side belongs in the result of `operation`: for a union,
/// regions outside the other operand; for an intersection, regions inside
/// it; for a subtraction, the left operand's regions outside the right one
/// and the right operand's regions inside the left one.
pub open spec fn side_is_kept(
    operation: BooleanOp,
    this_operand: BooleanOperand,
    side: BooleanRegionSide,
) -> bool {
    match operation {
        BooleanOp::Union => side == BooleanRegionSide::OutsideOther,
        BooleanOp::Intersect => side == BooleanRegionSide::InsideOther,
        BooleanOp::Subtract => (this_operand == BooleanOperand::Left && side
            == BooleanRegionSide::OutsideOther) || (this_operand == BooleanOperand::Right && side
            == BooleanRegionSide::InsideOther),
    }
}

/// Boolean action for one side of a split curve on a face of `this_operand`
/// when the split's other use is on a face of `other_operand`.
pub fn action_for_side(
    operation: BooleanOp,
    this_operand: BooleanOperand,
    other_operand: BooleanOperand,
    side: BooleanRegionSide,
) -> (action: BooleanRegionAction)
    ensures
        this_operand == other_operand ==> action == BooleanRegionAction::Ignored,
        this_operand != other_operand && side == BooleanRegionSide::Ambiguous ==> action
            == BooleanRegionAction::Ambiguous,
        this_operand != other_operand && side != BooleanRegionSide::Ambiguous ==> {
            &&& side_is_kept(operation, this_operand, side) ==> action == if operation
                == BooleanOp::Subtract && this_operand == BooleanOperand::Right {
                BooleanRegionAction::KeepReversed
            } else {
                BooleanRegionAction::Keep
            }
            &&& !side_is_kept(operation, this_operand, side) ==> action
                == BooleanRegionAction::Discard
        },
{
    if this_operand == other_operand {
        return BooleanRegionAction::Ignored;
    }
    match side {
        BooleanRegionSide::Ambiguous => BooleanRegionAction::Ambiguous,
        BooleanRegionSide::InsideOther => match operation {
            BooleanOp::Union => BooleanRegionAction::Discard,
            BooleanOp::Intersect => BooleanRegionAction::Keep,
            BooleanOp::Subtract => match this_operand {
                BooleanOperand::Left => BooleanRegionAction::Discard,
                BooleanOperand::Right => BooleanRegionAction::KeepReversed,
            },
        },
        BooleanRegionSide::OutsideOther => match operation {
            BooleanOp::Union => BooleanRegionAction::Keep,
            BooleanOp::Intersect => BooleanRegionAction::Discard,
            BooleanOp::Subtract => match this_operand {
                BooleanOperand::Left => BooleanRegionAction::Keep,
                BooleanOperand::Right => BooleanRegionAction::Discard,
            },
        },
    }
}

/// The action is a concrete keep, keep-reversed or discard decision.
pub open spec fn is_concrete(action: BooleanRegionAction) -> bool {
    action == BooleanRegionAction::Keep || action == BooleanRegionAction::KeepReversed || action
        == BooleanRegionAction::Discard
}

/// True when the action is a concrete keep/discard decision.
pub fn action_is_concrete(action: BooleanRegionAction) -> (r: bool)
    ensures
        r == is_concrete(action),
{
    match action {
        BooleanRegionAction::Keep | BooleanRegionAction::KeepReversed
        | BooleanRegionAction::Discard => true,
        _ => false,
    }
}

/// True when the action keeps the region, reversed or not.
pub fn action_keeps_region(action: BooleanRegionAction) -> (r: bool)
    ensures
        r == (action == BooleanRegionAction::Keep || action == BooleanRegionAction::KeepReversed),
{
    match action {
        BooleanRegionAction::Keep | BooleanRegionAction::KeepReversed => true,
        _ => false,
    }
}

/// True when a split curve lies inside the face's visible region or on its
/// trim boundary.
pub fn trim_domain_is_usable(status: TrimDomainStatus) -> (r: bool)
    ensures
        r == (status == TrimDomainStatus::Inside || status == TrimDomainStatus::Boundary),
{
    match status {
        TrimDomainStatus::Inside | TrimDomainStatus::Boundary => true,
        _ => false,
    }
}

/// Overall status of a split from its two face-side classifications: a
/// split between faces of one operand is inactive; otherwise it is active
/// exactly when both uses lie in a usable trim domain and all four side
/// actions are concrete, and ambiguous otherwise.
pub fn split_status(
    a: &BooleanFaceSplitClassification,
    b: &BooleanFaceSplitClassification,
) -> (status: BooleanSplitStatus)
    ensures
        status == if a.operand == b.operand {
            BooleanSplitStatus::InactiveSameOperand
        } else if (a.trim_domain == TrimDomainStatus::Inside || a.trim_domain
            == TrimDomainStatus::Boundary) && (b.trim_domain == TrimDomainStatus::Inside
            || b.trim_domain == TrimDomainStatus::Boundary) && is_concrete(a.left_action)
            && is_concrete(a.right_action) && is_concrete(b.left_action) && is_concrete(
            b.right_action,
        ) {
            BooleanSplitStatus::Active
        } else {
            BooleanSplitStatus::Ambiguous
        },
{
    if a.operand == b.operand {
        return BooleanSplitStatus::InactiveSameOperand;
    }
    if !trim_domain_is_usable(a.trim_domain) || !trim_domain_is_usable(b.trim_domain)
        || !action_is_concrete(a.left_action) || !action_is_concrete(a.right_action)
        || !action_is_concrete(b.left_action) || !action_is_concrete(b.right_action) {
        return BooleanSplitStatus::Ambiguous;
    }
    BooleanSplitStatus::Active
}

/// True when some face is owned by `operand`.
pub fn operand_has_faces(face_operands: &[BooleanOperand], operand: BooleanOperand) -> (r: bool)
    ensures
        r == face_operands@.contains(operand),
{
    let mut i: usize = 0;
    while i < face_operands.len()
        invariant
            i <= face_operands@.len(),
            forall|j: int| 0 <= j < i ==> face_operands@[j] != operand,
        decreases face_operands@.len() - i,
    {
        if face_operands[i] == operand {
            assert(face_operands@[i as int] == operand);
            return true;
        }
        i += 1;
    }
    false
}

/// The half-edge reached from `start` by following `next` `k` times.
pub open spec fn next_iter(hes: Seq<HalfEdge>, start: int, k: nat) -> int
    decreases k,
{
    if k == 0 {
        start
    } else {
        hes[next_iter(hes, start, (k - 1) as nat)].next as int
    }
}

/// Half-edge `h` has a twin, and the twin's face belongs to `operand`.
pub open spec fn twin_owned_by(
    hes: Seq<HalfEdge>,
    face_operands: Seq<BooleanOperand>,
    operand: BooleanOperand,
    h: int,
) -> bool {
    match hes[h].twin {
        Some(t) => face_operands[hes[t as int].face as int] == operand,
        None => false,
    }
}

/// The `next` loop from `start` comes back to `start` after `len` steps, and
/// not earlier.
pub open spec fn loop_returns_at(hes: Seq<HalfEdge>, start: int, len: nat) -> bool {
    &&& len >= 1
    &&& next_iter(hes, start, len) == start
    &&& forall|j: nat| 1 <= j < len ==> next_iter(hes, start, j) != start
}

/// The face loop that starts at `start` closes within `hes.len() + 1` steps,
/// and every half-edge on it has a twin on a face of `operand`.
pub open spec fn face_loop_sealed(
    hes: Seq<HalfEdge>,
    face_operands: Seq<BooleanOperand>,
    operand: BooleanOperand,
    start: int,
) -> bool {
    exists|len: nat|
        len <= hes.len() + 1 && #[trigger] loop_returns_at(hes, start, len) && forall|j: nat|
            j < len ==> twin_owned_by(hes, face_operands, operand, #[trigger] next_iter(hes, start, j))
}

/// The faces of `operand` form a closed subset: there is at least one, and
/// every half-edge of each of their loops is glued to a face of `operand`.
pub open spec fn operand_closed(
    hes: Seq<HalfEdge>,
    face_halfedges: Seq<HalfEdgeId>,
    face_operands: Seq<BooleanOperand>,
    operand: BooleanOperand,
) -> bool {
    &&& face_operands.contains(operand)
    &&& forall|f: int|
        0 <= f < face_operands.len() && face_operands[f] == operand ==> face_loop_sealed(
            hes,
            face_operands,
            operand,
            #[trigger] face_halfedges[f] as int,
        )
}

proof fn lemma_next_iter_in_range(hes: Seq<HalfEdge>, start: int, k: nat)
    requires
        links_in_range(hes),
        0 <= start < hes.len(),
    ensures
        0 <= next_iter(hes, start, k) < hes.len(),
    decreases k,
{
    if k > 0 {
        lemma_next_iter_in_range(hes, start, (k - 1) as nat);
    }
}

/// Walk the loop of one face of `operand` and report whether every
/// half-edge on it is glued to a face of `operand`.
fn face_loop_is_sealed(
    halfedges: &[HalfEdge],
    face_operands: &[BooleanOperand],
    operand: BooleanOperand,
    start: HalfEdgeId,
) -> (r: bool)
    requires
        links_in_range(halfedges@),
        start < halfedges@.len(),
        forall|h: int| 0 <= h < halfedges@.len() ==> (#[trigger] halfedges@[h]).face < face_operands@.len(),
    ensures
        r == face_loop_sealed(halfedges@, face_operands@, operand, start as int),
{
    let ghost hes = halfedges@;
    let ghost ops = face_operands@;
    let n = halfedges.len();
    let mut halfedge = start;
    let mut guard: usize = 0;
    loop
        invariant
            hes == halfedges@,
            ops == face_operands@,
            n == hes.len(),
            links_in_range(hes),
            start < n,
            forall|h: int| 0 <= h < hes.len() ==> (#[trigger] hes[h]).face < ops.len(),
            guard <= n,
            halfedge as int == next_iter(hes, start as int, guard as nat),
            forall|j: nat| 1 <= j <= guard ==> next_iter(hes, start as int, j) != start,
            forall|j: nat| j < guard ==> twin_owned_by(hes, ops, operand, #[trigger] next_iter(hes, start as int, j)),
        decreases n + 1 - guard,
    {
        proof {
            lemma_next_iter_in_range(hes, start as int, guard as nat);
        }
        let twin = match halfedges[halfedge].twin {
            Some(t) => t,
            None => {
                proof {
                    lemma_not_sealed(hes, ops, operand, start as int, guard as nat);
                }
                return false;
            },
        };
        if face_operands[halfedges[twin].face] != operand {
            proof {
                lemma_not_sealed(hes, ops, operand, start as int, guard as nat);
            }
            return false;
        }
        halfedge = halfedges[halfedge].next;
        if halfedge == start {
            proof {
                assert forall|j: nat| j < guard + 1 implies twin_owned_by(hes, ops, operand, #[trigger] next_iter(hes, start as int, j)) by {
                    if j < guard {
                    }
                }
                assert(loop_returns_at(hes, start as int, (guard + 1) as nat));
            }
            return true;
        }
        if guard >= n {
            proof {
                if face_loop_sealed(hes, ops, operand, start as int) {
                    let len = choose|len: nat|
                        len <= hes.len() + 1 && #[trigger] loop_returns_at(hes, start as int, len) && forall|j: nat|
                            j < len ==> twin_owned_by(hes, ops, operand, #[trigger] next_iter(hes, start as int, j));
                    assert(next_iter(hes, start as int, len) == start);
                }
            }
            return false;
        }
        guard += 1;
    }
}

proof fn lemma_not_sealed(
    hes: Seq<HalfEdge>,
    ops: Seq<BooleanOperand>,
    operand: BooleanOperand,
    start: int,
    k: nat,
)
    requires
        forall|j: nat| 1 <= j <= k ==> next_iter(hes, start, j) != start,
        !twin_owned_by(hes, ops, operand, next_iter(hes, start, k)),
    ensures
        !face_loop_sealed(hes, ops, operand, start),
{
    if face_loop_sealed(hes, ops, operand, start) {
        let len = choose|len: nat|
            len <= hes.len() + 1 && #[trigger] loop_returns_at(hes, start, len) && forall|j: nat|
                j < len ==> twin_owned_by(hes, ops, operand, #[trigger] next_iter(hes, start, j));
        if k >= len {
            assert(next_iter(hes, start, len) == start);
        }
        assert(k < len);
    }
}

/// True when `operand` owns at least one face and the faces it owns form a
/// closed subset: every half-edge of their loops has a twin on a face that
/// `operand` owns too. A loop that does not come back to its start within
/// one step more than the half-edge count is not closed.
pub fn operand_subset_is_closed(
    halfedges: &[HalfEdge],
    face_halfedges: &[HalfEdgeId],
    face_operands: &[BooleanOperand],
    operand: BooleanOperand,
) -> (r: bool)
    requires
        links_in_range(halfedges@),
        face_operands@.len() <= face_halfedges@.len(),
        forall|f: int| 0 <= f < face_halfedges@.len() ==> #[trigger] face_halfedges@[f] < halfedges@.len(),
        forall|h: int| 0 <= h < halfedges@.len() ==> (#[trigger] halfedges@[h]).face < face_operands@.len(),
    ensures
        r == operand_closed(halfedges@, face_halfedges@, face_operands@, operand),
{
    let mut has_face = false;
    let mut f: usize = 0;
    while f < face_operands.len()
        invariant
            links_in_range(halfedges@),
            face_operands@.len() <= face_halfedges@.len(),
            forall|g: int| 0 <= g < face_halfedges@.len() ==> #[trigger] face_halfedges@[g] < halfedges@.len(),
            forall|h: int| 0 <= h < halfedges@.len() ==> (#[trigger] halfedges@[h]).face < face_operands@.len(),
            f <= face_operands@.len(),
            has_face == exists|g: int| 0 <= g < f && face_operands@[g] == operand,
            forall|g: int|
                0 <= g < f && face_operands@[g] == operand ==> face_loop_sealed(
                    halfedges@,
                    face_operands@,
                    operand,
                    #[trigger] face_halfedges@[g] as int,
                ),
        decreases face_operands@.len() - f,
    {
        if face_operands[f] == operand {
            has_face = true;
            if !face_loop_is_sealed(halfedges, face_operands, operand, face_halfedges[f]) {
                return false;
            }
        }
        f += 1;
    }
    proof {
        if has_face {
            let g = choose|g: int| 0 <= g < f && face_operands@[g] == operand;
            assert(face_operands@.contains(operand));
        } else if face_operands@.contains(operand) {
            let g = choose|g: int| 0 <= g < face_operands@.len() && face_operands@[g] == operand;
            assert(0 <= g < f);
        }
    }
    has_face
}

/// The opposite Boolean operand.
pub fn other_operand(operand: BooleanOperand) -> (r: BooleanOperand)
    ensures
        r != operand,
{
    match operand {
        BooleanOperand::Left => BooleanOperand::Right,
        BooleanOperand::Right => BooleanOperand::Left,
    }
}

/// Storage index of an operand: 0 for left, 1 for right.
pub fn operand_index(operand: BooleanOperand) -> (r: usize)
    ensures
        r == if operand == BooleanOperand::Left {
            0usize
        } else {
            1usize
        },
{
    match operand {
        BooleanOperand::Left => 0,
        BooleanOperand::Right => 1,
    }
}

/// The corners of `t` in increasing order.
pub open spec fn sorted_corners(t: [usize; 3]) -> [usize; 3] {
    let lo = if t[0] <= t[1] && t[0] <= t[2] {
        t[0]
    } else if t[1] <= t[2] {
        t[1]
    } else {
        t[2]
    };
    let hi = if t[0] >= t[1] && t[0] >= t[2] {
        t[0]
    } else if t[1] >= t[2] {
        t[1]
    } else {
        t[2]
    };
    [lo, (t[0] + t[1] + t[2] - lo - hi) as usize, hi]
}

/// The triangle's corners in increasing order.
pub fn canonical_triangle(triangle: [usize; 3]) -> (r: [usize; 3])
    ensures
        r == sorted_corners(triangle),
        r[0] <= r[1] <= r[2],
        seq![r[0], r[1], r[2]].to_multiset() == seq![triangle[0], triangle[1], triangle[2]].to_multiset(),
{
    let a = triangle[0];
    let b = triangle[1];
    let c = triangle[2];
    let (lo1, hi1) = if a <= b { (a, b) } else { (b, a) };
    let (lo2, hi2) = if hi1 <= c { (hi1, c) } else { (c, hi1) };
    let (lo3, mid) = if lo1 <= lo2 { (lo1, lo2) } else { (lo2, lo1) };
    let r = [lo3, mid, hi2];
    proof {
        broadcast use vstd::multiset::group_multiset_axioms;
        let s = seq![a, b, c];
        let t = seq![r[0], r[1], r[2]];
        assert(s.to_multiset() =~= t.to_multiset()) by {
            broadcast use vstd::seq_lib::group_to_multiset_ensures;
            assert(s =~= seq![a].push(b).push(c));
            assert(t =~= seq![r[0]].push(r[1]).push(r[2]));
        }
    }
    r
}

/// Triangle mesh emitted by the healing pass: vertices of any payload type
/// and triangles over their positions.
#[derive(Clone, Debug, Default, PartialEq)]
pub struct HealedTriangleMesh<P> {
    /// Welded vertices.
    pub vertices: Vec<P>,
    /// Indexed triangles.
    pub triangles: Vec<[usize; 3]>,
}

/// The corners of the triangles, triangle by triangle.
pub open spec fn triangle_corners(tris: Seq<[usize; 3]>) -> Seq<usize> {
    Seq::new(3 * tris.len(), |h: int| tris[h / 3][h % 3])
}

/// The distinct values among the first `k` entries of `s`, in order of
/// first occurrence.
pub open spec fn first_uses(s: Seq<usize>, k: nat) -> Seq<usize>
    decreases k,
{
    if k == 0 {
        seq![]
    } else {
        let prev = first_uses(s, (k - 1) as nat);
        if prev.contains(s[k - 1]) {
            prev
        } else {
            prev.push(s[k - 1])
        }
    }
}

/// The vertices that the triangles use, in order of first use.
pub open spec fn used_vertices(tris: Seq<[usize; 3]>) -> Seq<usize> {
    first_uses(triangle_corners(tris), 3 * tris.len())
}

/// The triangles renumbered over the used vertices.
pub open spec fn compacted_triangles(tris: Seq<[usize; 3]>) -> Seq<[usize; 3]> {
    let order = used_vertices(tris);
    Seq::new(
        tris.len(),
        |t: int|
            [
                first_position(order, tris[t][0]) as usize,
                first_position(order, tris[t][1]) as usize,
                first_position(order, tris[t][2]) as usize,
            ],
    )
}

pub proof fn lemma_first_position_push(l: Seq<usize>, x: usize, v: usize)
    ensures
        l.contains(v) ==> first_position(l.push(x), v) == first_position(l, v),
        !l.contains(v) ==> first_position(l.push(v), v) == l.len(),
    decreases l.len(),
{
    if l.len() > 0 {
        assert(l.push(x).drop_first() =~= l.drop_first().push(x));
        assert(l.push(v).drop_first() =~= l.drop_first().push(v));
        if l[0] != v {
            if l.contains(v) {
                let k = choose|k: int| 0 <= k < l.len() && l[k] == v;
                assert(l.drop_first()[k - 1] == v);
            }
            if !l.contains(v) {
                assert forall|k: int| 0 <= k < l.drop_first().len() implies l.drop_first()[k] != v by {
                    assert(l.drop_first()[k] == l[k + 1]);
                }
            }
            lemma_first_position_push(l.drop_first(), x, v);
        } else {
            assert(l.contains(v)) by {
                assert(l[0] == v);
            }
        }
    } else {
        assert(l.push(v)[0] == v);
    }
}

/// The first-use order only grows, and every entry it holds is a value of
/// `s` below `k` that occurs once in it.
pub proof fn lemma_first_uses(s: Seq<usize>, k: nat)
    requires
        k <= s.len(),
    ensures
        first_uses(s, k).no_duplicates(),
        forall|i: int| 0 <= i < k ==> first_uses(s, k).contains(#[trigger] s[i]),
        forall|j: int| 0 <= j < first_uses(s, k).len() ==> exists|i: int| 0 <= i < k && s[i] == #[trigger] first_uses(s, k)[j],
    decreases k,
{
    if k > 0 {
        let prev = first_uses(s, (k - 1) as nat);
        lemma_first_uses(s, (k - 1) as nat);
        let cur = first_uses(s, k);
        if !prev.contains(s[k - 1]) {
            assert forall|i: int| 0 <= i < k implies cur.contains(#[trigger] s[i]) by {
                if i < k - 1 {
                    let j = choose|j: int| 0 <= j < prev.len() && prev[j] == s[i];
                    assert(cur[j] == s[i]);
                } else {
                    assert(cur[prev.len() as int] == s[i]);
                }
            }
            assert forall|j: int| 0 <= j < cur.len() implies exists|i: int| 0 <= i < k && s[i] == #[trigger] cur[j] by {
                if j < prev.len() {
                    assert(cur[j] == prev[j]);
                    let i = choose|i: int| 0 <= i < k - 1 && s[i] == prev[j];
                    assert(s[i] == cur[j]);
                } else {
                    assert(s[k - 1] == cur[j]);
                }
            }
        } else {
            assert forall|i: int| 0 <= i < k implies cur.contains(#[trigger] s[i]) by {
                if i < k - 1 {
                } else {
                }
            }
            assert forall|j: int| 0 <= j < cur.len() implies exists|i: int| 0 <= i < k && s[i] == #[trigger] cur[j] by {
                let i = choose|i: int| 0 <= i < k - 1 && s[i] == prev[j];
                assert(s[i] == cur[j]);
            }
        }
    }
}

pub proof fn lemma_contains_push(s: Seq<usize>, x: usize, u: usize)
    ensures
        s.push(x).contains(u) <==> (s.contains(u) || u == x),
{
    if s.contains(u) {
        let k = choose|k: int| 0 <= k < s.len() && s[k] == u;
        assert(s.push(x)[k] == u);
    }
    if u == x {
        assert(s.push(x)[s.len() as int] == u);
    }
    if s.push(x).contains(u) {
        let k = choose|k: int| 0 <= k < s.push(x).len() && s.push(x)[k] == u;
        if k < s.len() {
            assert(s[k] == u);
        }
    }
}

/// Distinct values below `n` that miss `v < n` are fewer than `n`.
pub proof fn lemma_distinct_below(order: Seq<usize>, n: usize, v: usize)
    requires
        order.no_duplicates(),
        forall|i: int| 0 <= i < order.len() ==> #[trigger] order[i] < n,
        v < n,
        !order.contains(v),
    ensures
        order.len() < n,
{
    order.unique_seq_to_set();
    let range = <usize as vstd::set_lib::FiniteRange>::range_set(0usize, n);
    <usize as vstd::set_lib::FiniteRange>::range_properties(0usize, n);
    let others = range.remove(v);
    assert(range.contains(v));
    assert(others.len() == n - 1);
    assert forall|u: usize| order.to_set().contains(u) implies others.contains(u) by {
        assert(order.contains(u));
        let k = choose|k: int| 0 <= k < order.len() && order[k] == u;
        assert(order[k] < n);
    }
    assert(order.to_set().subset_of(others));
    vstd::set_lib::lemma_len_subset(order.to_set(), others);
}

/// The remap table holds, for each vertex, its position in the first-use
/// order, or `usize::MAX` when it is not used yet.
pub open spec fn remap_table_ok(remap: Seq<usize>, order: Seq<usize>) -> bool {
    &&& order.no_duplicates()
    &&& forall|i: int| 0 <= i < order.len() ==> #[trigger] order[i] < remap.len()
    &&& forall|v: int|
        0 <= v < remap.len() ==> (#[trigger] remap[v] == usize::MAX <==> !order.contains(v as usize))
    &&& forall|v: int|
        0 <= v < remap.len() && order.contains(v as usize) ==> #[trigger] remap[v] == first_position(
            order,
            v as usize,
        )
}

/// Renumber vertex `v`, appending it to the output on its first use.
fn remap_vertex<P: Copy>(
    remap: &mut Vec<usize>,
    out: &mut Vec<P>,
    vertices: &Vec<P>,
    v: usize,
    Ghost(order): Ghost<Seq<usize>>,
) -> (r: usize)
    requires
        v < vertices@.len(),
        old(remap)@.len() == vertices@.len(),
        remap_table_ok(old(remap)@, order),
        old(out)@ == order.map_values(|u: usize| vertices@[u as int]),
    ensures
        ({
            let next = if order.contains(v) {
                order
            } else {
                order.push(v)
            };
            &&& final(remap)@.len() == vertices@.len()
            &&& remap_table_ok(final(remap)@, next)
            &&& final(out)@ == next.map_values(|u: usize| vertices@[u as int])
            &&& r as int == first_position(next, v)
            &&& forall|u: usize| order.contains(u) ==> first_position(next, u) == first_position(order, u)
        }),
{
    proof {
        lemma_first_position_push(order, v, v);
        assert forall|u: usize| order.contains(u) implies first_position(order.push(v), u) == first_position(order, u) by {
            lemma_first_position_push(order, v, u);
        }
    }
    let ghost r0 = remap@;
    let table_len = remap.len();
    if remap[v] == usize::MAX {
        assert(!order.contains(v));
        proof {
            lemma_distinct_below(order, table_len, v);
        }
        assert(out@.len() == order.len());
        let pos = out.len();
        remap.set(v, pos);
        out.push(vertices[v]);
        proof {
            let next = order.push(v);
            assert(out@ =~= next.map_values(|u: usize| vertices@[u as int]));
            assert(next.no_duplicates()) by {
                assert forall|i: int, j: int| 0 <= i < next.len() && 0 <= j < next.len() && i != j implies next[i] != next[j] by {
                    if i < order.len() && j < order.len() {
                    } else if i < order.len() {
                        assert(order.contains(order[i]));
                    } else {
                        assert(order.contains(order[j]));
                    }
                }
            }
            assert forall|i: int| 0 <= i < next.len() implies #[trigger] next[i] < remap@.len() by {
                if i < order.len() {
                    assert(next[i] == order[i]);
                }
            }
            assert forall|w: int| 0 <= w < remap@.len() implies (#[trigger] remap@[w] == usize::MAX
                <==> !next.contains(w as usize)) by {
                lemma_contains_push(order, v, w as usize);
                if w != v {
                    assert(remap@[w] == r0[w]);
                }
            }
            assert forall|w: int| 0 <= w < remap@.len() && next.contains(w as usize) implies #[trigger] remap@[w]
                == first_position(next, w as usize) by {
                lemma_contains_push(order, v, w as usize);
                if w != v {
                    assert(remap@[w] == r0[w]);
                    lemma_first_position_push(order, v, w as usize);
                }
            }
        }
        pos
    } else {
        assert(order.contains(v)) by {
            assert(r0[v as int] != usize::MAX);
        }
        assert(remap@[v as int] == first_position(order, v));
        remap[v]
    }
}

/// Keep only the vertices that the triangles use, in order of first use,
/// and renumber the triangles over them.
#[verifier::spinoff_prover]
pub fn compact_triangle_mesh<P: Copy>(vertices: Vec<P>, triangles: &[[usize; 3]]) -> (m:
    HealedTriangleMesh<P>)
    requires
        forall|t: int, c: int|
            0 <= t < triangles@.len() && 0 <= c < 3 ==> #[trigger] triangles@[t][c] < vertices@.len(),
    ensures
        m.vertices@ == used_vertices(triangles@).map_values(|u: usize| vertices@[u as int]),
        m.triangles@ == compacted_triangles(triangles@),
{
    let ghost tris = triangles@;
    let ghost corners = triangle_corners(tris);
    let mut remap: Vec<usize> = Vec::new();
    let mut k: usize = 0;
    while k < vertices.len()
        invariant
            0 <= k <= vertices@.len(),
            remap@.len() == k,
            forall|v: int| 0 <= v < k ==> #[trigger] remap@[v] == usize::MAX,
        decreases vertices@.len() - k,
    {
        remap.push(usize::MAX);
        k = k + 1;
    }
    let mut out: Vec<P> = Vec::new();
    let mut compact: Vec<[usize; 3]> = Vec::new();
    let ghost mut order: Seq<usize> = seq![];
    proof {
        assert(out@ =~= order.map_values(|u: usize| vertices@[u as int]));
    }
    let mut t: usize = 0;
    while t < triangles.len()
        invariant
            0 <= t <= triangles@.len(),
            tris == triangles@,
            corners == triangle_corners(tris),
            forall|t2: int, c: int|
                0 <= t2 < tris.len() && 0 <= c < 3 ==> #[trigger] tris[t2][c] < vertices@.len(),
            remap@.len() == vertices@.len(),
            order == first_uses(corners, 3 * t as nat),
            remap_table_ok(remap@, order),
            out@ == order.map_values(|u: usize| vertices@[u as int]),
            compact@.len() == t,
            forall|t2: int, c: int|
                0 <= t2 < t && 0 <= c < 3 ==> (#[trigger] compact@[t2][c]) as int == first_position(
                    order,
                    tris[t2][c],
                ) && order.contains(tris[t2][c]),
        decreases triangles@.len() - t,
    {
        let tri = triangles[t];
        let ghost o0 = order;
        let ghost c0 = compact@;
        assert(corners[3 * t as int] == tri[0]) by {
            crate::halfedge::lemma_he_index(t as int, 0);
        }
        assert(corners[3 * t + 1] == tri[1]) by {
            crate::halfedge::lemma_he_index(t as int, 1);
        }
        assert(corners[3 * t + 2] == tri[2]) by {
            crate::halfedge::lemma_he_index(t as int, 2);
        }
        let a = remap_vertex(&mut remap, &mut out, &vertices, tri[0], Ghost(order));
        proof {
            order = if order.contains(tri[0]) { order } else { order.push(tri[0]) };
        }
        let ghost o1 = order;
        let b = remap_vertex(&mut remap, &mut out, &vertices, tri[1], Ghost(order));
        proof {
            order = if order.contains(tri[1]) { order } else { order.push(tri[1]) };
        }
        let ghost o2 = order;
        let c = remap_vertex(&mut remap, &mut out, &vertices, tri[2], Ghost(order));
        proof {
            order = if order.contains(tri[2]) { order } else { order.push(tri[2]) };
            assert(first_uses(corners, (3 * t + 1) as nat) == o1);
            assert(first_uses(corners, (3 * t + 2) as nat) == o2);
            assert(first_uses(corners, (3 * t + 3) as nat) == order);
            assert(3 * (t + 1) == 3 * t + 3);
            lemma_contains_push(o0, tri[0], tri[0]);
            lemma_contains_push(o1, tri[1], tri[0]);
            lemma_contains_push(o1, tri[1], tri[1]);
            lemma_contains_push(o2, tri[2], tri[0]);
            lemma_contains_push(o2, tri[2], tri[1]);
            lemma_contains_push(o2, tri[2], tri[2]);
            assert(order.contains(tri[0]) && order.contains(tri[1]) && order.contains(tri[2]));
        }
        compact.push([a, b, c]);
        proof {
            assert forall|t2: int, cc: int|
                0 <= t2 < t + 1 && 0 <= cc < 3 implies (#[trigger] compact@[t2][cc]) as int == first_position(
                order,
                tris[t2][cc],
            ) && order.contains(tris[t2][cc]) by {
                if t2 < t {
                    let u = tris[t2][cc];
                    assert(compact@[t2] == c0[t2]);
                    assert((c0[t2][cc]) as int == first_position(o0, u) && o0.contains(u));
                    lemma_contains_push(o0, tri[0], u);
                    lemma_contains_push(o1, tri[1], u);
                    lemma_contains_push(o2, tri[2], u);
                    lemma_first_position_push(o0, tri[0], u);
                    lemma_first_position_push(o1, tri[1], u);
                    lemma_first_position_push(o2, tri[2], u);
                } else {
                    assert(tris[t2] == tri);
                }
            }
        }
        t = t + 1;
    }
    proof {
        let want = compacted_triangles(tris);
        assert(t == tris.len());
        assert forall|t2: int| 0 <= t2 < compact@.len() implies compact@[t2] == want[t2] by {
            let x = compact@[t2];
            let y = want[t2];
            assert(x[0] as int == first_position(order, tris[t2][0]));
            assert(x[1] as int == first_position(order, tris[t2][1]));
            assert(x[2] as int == first_position(order, tris[t2][2]));
            assert(x == [x[0], x[1], x[2]]);
            assert(y == [y[0], y[1], y[2]]);
        }
        assert(compact@ =~= want);
    }
    HealedTriangleMesh { vertices: out, triangles: compact }
}

/// Distinct values below `n` number at most `n`.
pub proof fn lemma_distinct_at_most(order: Seq<usize>, n: usize)
    requires
        order.no_duplicates(),
        forall|i: int| 0 <= i < order.len() ==> #[trigger] order[i] < n,
    ensures
        order.len() <= n,
{
    order.unique_seq_to_set();
    let range = <usize as vstd::set_lib::FiniteRange>::range_set(0usize, n);
    <usize as vstd::set_lib::FiniteRange>::range_properties(0usize, n);
    assert forall|u: usize| order.to_set().contains(u) implies range.contains(u) by {
        assert(order.contains(u));
        let k = choose|k: int| 0 <= k < order.len() && order[k] == u;
        assert(order[k] < n);
    }
    assert(order.to_set().subset_of(range));
    vstd::set_lib::lemma_len_subset(order.to_set(), range);
}

/// Compaction keeps exactly the used vertices: the kept vertices are
/// distinct vertices, each used by some triangle, and every renumbered
/// corner names a kept vertex with the payload of the corner it replaces.
pub proof fn lemma_compaction_keeps_corners<P>(vertices: Seq<P>, tris: Seq<[usize; 3]>)
    requires
        vertices.len() <= usize::MAX,
        forall|t: int, c: int| 0 <= t < tris.len() && 0 <= c < 3 ==> #[trigger] tris[t][c] < vertices.len(),
    ensures
        used_vertices(tris).no_duplicates(),
        used_vertices(tris).len() <= vertices.len(),
        forall|j: int|
            0 <= j < used_vertices(tris).len() ==> exists|t: int, c: int|
                0 <= t < tris.len() && 0 <= c < 3 && #[trigger] used_vertices(tris)[j] == tris[t][c],
        forall|t: int, c: int|
            0 <= t < tris.len() && 0 <= c < 3 ==> {
                let k = #[trigger] compacted_triangles(tris)[t][c];
                &&& k < used_vertices(tris).len()
                &&& used_vertices(tris).map_values(|u: usize| vertices[u as int])[k as int]
                    == vertices[tris[t][c] as int]
            },
{
    let corners = triangle_corners(tris);
    let order = used_vertices(tris);
    lemma_first_uses(corners, 3 * tris.len());
    assert forall|h: int| 0 <= h < corners.len() implies #[trigger] corners[h] < vertices.len() by {
        let t = h / 3;
        let c = h % 3;
        assert(0 <= t < tris.len() && 0 <= c < 3) by (nonlinear_arith)
            requires
                0 <= h < 3 * tris.len(),
                t == h / 3,
                c == h % 3,
        ;
    }
    assert forall|j: int| 0 <= j < order.len() implies #[trigger] order[j] < vertices.len() by {
        let h = choose|h: int| 0 <= h < 3 * tris.len() && corners[h] == order[j];
    }
    lemma_distinct_at_most(order, vertices.len() as usize);
    assert forall|j: int| 0 <= j < order.len() implies exists|t: int, c: int|
        0 <= t < tris.len() && 0 <= c < 3 && #[trigger] order[j] == tris[t][c] by {
        let h = choose|h: int| 0 <= h < 3 * tris.len() && corners[h] == order[j];
        let t = h / 3;
        let c = h % 3;
        assert(0 <= t < tris.len() && 0 <= c < 3) by (nonlinear_arith)
            requires
                0 <= h < 3 * tris.len(),
                t == h / 3,
                c == h % 3,
        ;
        assert(order[j] == tris[t][c]);
    }
    assert forall|t: int, c: int| 0 <= t < tris.len() && 0 <= c < 3 implies {
        let k = #[trigger] compacted_triangles(tris)[t][c];
        &&& k < order.len()
        &&& order.map_values(|u: usize| vertices[u as int])[k as int] == vertices[tris[t][c] as int]
    } by {
        crate::halfedge::lemma_he_index(t, c);
        assert(corners[3 * t + c] == tris[t][c]);
        assert(order.contains(tris[t][c]));
        lemma_first_position(order, tris[t][c]);
        let p = first_position(order, tris[t][c]);
        let ct = compacted_triangles(tris)[t];
        if c == 0 {
            assert(ct[0] == p as usize);
        } else if c == 1 {
            assert(ct[1] == p as usize);
        } else {
            assert(ct[2] == p as usize);
        }
    }
}

/// Triangles that survive the healing filter, and how many were removed
/// for each reason.
#[derive(Clone, Debug, PartialEq, Eq)]
pub struct TriangleFilterReport {
    /// Kept triangles, in input order.
    pub triangles: Vec<[usize; 3]>,
    /// Triangles removed for an edge at or below tolerance.
    pub removed_tiny_edge_triangles: usize,
    /// Triangles removed as skinny or near zero-area.
    pub removed_sliver_triangles: usize,
    /// Triangles removed because a kept triangle has the same corners.
    pub removed_duplicate_triangles: usize,
}

/// Some triangle of `kept` has the same corners as `t`, in any order.
pub open spec fn has_same_corners(kept: Seq<[usize; 3]>, t: [usize; 3]) -> bool {
    exists|j: int| 0 <= j < kept.len() && sorted_corners(#[trigger] kept[j]) == sorted_corners(t)
}

/// The filter over the first `k` triangles: (kept, tiny-edge removals,
/// sliver removals, duplicate removals). A triangle flagged as having a
/// tiny edge is removed for that; else one flagged as a sliver for that;
/// else one whose corners match a kept triangle's as a duplicate; else it
/// is kept.
pub open spec fn filter_prefix(
    tris: Seq<[usize; 3]>,
    tiny_edge: Seq<bool>,
    sliver: Seq<bool>,
    k: int,
) -> (Seq<[usize; 3]>, nat, nat, nat)
    decreases k,
{
    if k <= 0 {
        (Seq::empty(), 0, 0, 0)
    } else {
        let prev = filter_prefix(tris, tiny_edge, sliver, k - 1);
        let t = tris[k - 1];
        if tiny_edge[k - 1] {
            (prev.0, prev.1 + 1, prev.2, prev.3)
        } else if sliver[k - 1] {
            (prev.0, prev.1, prev.2 + 1, prev.3)
        } else if has_same_corners(prev.0, t) {
            (prev.0, prev.1, prev.2, prev.3 + 1)
        } else {
            (prev.0.push(t), prev.1, prev.2, prev.3)
        }
    }
}

proof fn lemma_filter_prefix_counts(tris: Seq<[usize; 3]>, tiny_edge: Seq<bool>, sliver: Seq<bool>, k: int)
    requires
        0 <= k,
    ensures
        ({
            let r = filter_prefix(tris, tiny_edge, sliver, k);
            r.0.len() + r.1 + r.2 + r.3 == k
        }),
    decreases k,
{
    if k > 0 {
        lemma_filter_prefix_counts(tris, tiny_edge, sliver, k - 1);
    }
}

/// Drop the triangles flagged as having a tiny edge or as slivers, then
/// those whose corners repeat a kept triangle's, counting each reason.
/// `tiny_edge[t]` and `sliver[t]` are the measured verdicts on triangle `t`.
pub fn filter_triangles(triangles: &[[usize; 3]], tiny_edge: &[bool], sliver: &[bool]) -> (r:
    TriangleFilterReport)
    requires
        tiny_edge@.len() == triangles@.len(),
        sliver@.len() == triangles@.len(),
    ensures
        ({
            let spec_r = filter_prefix(triangles@, tiny_edge@, sliver@, triangles@.len() as int);
            &&& r.triangles@ == spec_r.0
            &&& r.removed_tiny_edge_triangles == spec_r.1
            &&& r.removed_sliver_triangles == spec_r.2
            &&& r.removed_duplicate_triangles == spec_r.3
        }),
{
    let mut kept: Vec<[usize; 3]> = Vec::new();
    let mut canonical: Vec<[usize; 3]> = Vec::new();
    let mut tiny: usize = 0;
    let mut slivers: usize = 0;
    let mut dups: usize = 0;
    let mut t: usize = 0;
    while t < triangles.len()
        invariant
            tiny_edge@.len() == triangles@.len(),
            sliver@.len() == triangles@.len(),
            t <= triangles@.len(),
            ({
                let spec_r = filter_prefix(triangles@, tiny_edge@, sliver@, t as int);
                &&& kept@ == spec_r.0
                &&& tiny == spec_r.1
                &&& slivers == spec_r.2
                &&& dups == spec_r.3
            }),
            canonical@.len() == kept@.len(),
            forall|j: int| 0 <= j < kept@.len() ==> #[trigger] canonical@[j] == sorted_corners(kept@[j]),
        decreases triangles@.len() - t,
    {
        proof {
            lemma_filter_prefix_counts(triangles@, tiny_edge@, sliver@, t as int);
        }
        let tri = triangles[t];
        if tiny_edge[t] {
            tiny += 1;
        } else if sliver[t] {
            slivers += 1;
        } else {
            let c = canonical_triangle(tri);
            let mut j: usize = 0;
            let mut found = false;
            while j < canonical.len()
                invariant
                    j <= canonical@.len(),
                    canonical@.len() == kept@.len(),
                    forall|q: int| 0 <= q < kept@.len() ==> #[trigger] canonical@[q] == sorted_corners(kept@[q]),
                    c == sorted_corners(tri),
                    found == exists|q: int| 0 <= q < j && sorted_corners(#[trigger] kept@[q]) == sorted_corners(tri),
                decreases canonical@.len() - j,
            {
                let k = canonical[j];
                if k[0] == c[0] && k[1] == c[1] && k[2] == c[2] {
                    assert(k =~= c);
                    assert(sorted_corners(kept@[j as int]) == sorted_corners(tri));
                    found = true;
                }
                j += 1;
            }
            if found {
                dups += 1;
            } else {
                kept.push(tri);
                canonical.push(c);
            }
        }
        t += 1;
    }
    TriangleFilterReport {
        triangles: kept,
        removed_tiny_edge_triangles: tiny,
        removed_sliver_triangles: slivers,
        removed_duplicate_triangles: dups,
    }
}

/// Number of entries of `s` equal to `kind`.
pub open spec fn edge_kind_count(s: Seq<BooleanEdgeMergeKind>, kind: BooleanEdgeMergeKind) -> nat
    decreases s.len(),
{
    if s.len() == 0 {
        0
    } else {
        edge_kind_count(s.drop_last(), kind) + if s.last() == kind {
            1nat
        } else {
            0nat
        }
    }
}

/// Number of entries of `s` equal to `kind`.
pub open spec fn face_kind_count(s: Seq<BooleanFaceMergeKind>, kind: BooleanFaceMergeKind) -> nat
    decreases s.len(),
{
    if s.len() == 0 {
        0
    } else {
        face_kind_count(s.drop_last(), kind) + if s.last() == kind {
            1nat
        } else {
            0nat
        }
    }
}

/// Number of entries of `s` equal to `action`.
pub open spec fn action_count(s: Seq<BooleanRegionAction>, action: BooleanRegionAction) -> nat
    decreases s.len(),
{
    if s.len() == 0 {
        0
    } else {
        action_count(s.drop_last(), action) + if s.last() == action {
            1nat
        } else {
            0nat
        }
    }
}

proof fn lemma_edge_kinds_bounded(s: Seq<BooleanEdgeMergeKind>)
    ensures
        edge_kind_count(s, BooleanEdgeMergeKind::TangentTouch) + edge_kind_count(
            s,
            BooleanEdgeMergeKind::Overlapping,
        ) + edge_kind_count(s, BooleanEdgeMergeKind::NearlyCoincident) <= s.len(),
    decreases s.len(),
{
    if s.len() > 0 {
        lemma_edge_kinds_bounded(s.drop_last());
    }
}

proof fn lemma_face_kinds_bounded(s: Seq<BooleanFaceMergeKind>)
    ensures
        face_kind_count(s, BooleanFaceMergeKind::TangentTouch) + face_kind_count(
            s,
            BooleanFaceMergeKind::Overlapping,
        ) + face_kind_count(s, BooleanFaceMergeKind::CoplanarOverlap) + face_kind_count(
            s,
            BooleanFaceMergeKind::NearlyCoincident,
        ) <= s.len(),
    decreases s.len(),
{
    if s.len() > 0 {
        lemma_face_kinds_bounded(s.drop_last());
    }
}

proof fn lemma_actions_bounded(s: Seq<BooleanRegionAction>)
    ensures
        action_count(s, BooleanRegionAction::Keep) + action_count(s, BooleanRegionAction::KeepReversed)
            + action_count(s, BooleanRegionAction::Discard) + action_count(
            s,
            BooleanRegionAction::Ambiguous,
        ) <= s.len(),
    decreases s.len(),
{
    if s.len() > 0 {
        lemma_actions_bounded(s.drop_last());
    }
}

/// Pair counts of a topology merge analysis.
#[derive(Clone, Copy, Debug, PartialEq, Eq)]
pub struct MergePairCounts {
    /// Edge and face pairs that touch tangentially.
    pub tangent: usize,
    /// Overlapping edge pairs, and overlapping or coplanar-overlapping face pairs.
    pub overlapping: usize,
    /// Coplanar-overlapping face pairs.
    pub coplanar: usize,
    /// Nearly coincident edge and face pairs.
    pub nearly_coincident: usize,
}

/// Count the merge relations of the edge pairs and face pairs by kind.
pub fn merge_pair_counts(edges: &[BooleanEdgeMergeKind], faces: &[BooleanFaceMergeKind]) -> (c:
    MergePairCounts)
    requires
        edges@.len() + faces@.len() <= usize::MAX,
    ensures
        c.tangent == edge_kind_count(edges@, BooleanEdgeMergeKind::TangentTouch) + face_kind_count(
            faces@,
            BooleanFaceMergeKind::TangentTouch,
        ),
        c.overlapping == edge_kind_count(edges@, BooleanEdgeMergeKind::Overlapping) + face_kind_count(
            faces@,
            BooleanFaceMergeKind::Overlapping,
        ) + face_kind_count(faces@, BooleanFaceMergeKind::CoplanarOverlap),
        c.coplanar == face_kind_count(faces@, BooleanFaceMergeKind::CoplanarOverlap),
        c.nearly_coincident == edge_kind_count(edges@, BooleanEdgeMergeKind::NearlyCoincident)
            + face_kind_count(faces@, BooleanFaceMergeKind::NearlyCoincident),
{
    let mut c = MergePairCounts { tangent: 0, overlapping: 0, coplanar: 0, nearly_coincident: 0 };
    let mut i: usize = 0;
    while i < edges.len()
        invariant
            i <= edges@.len(),
            edges@.len() + faces@.len() <= usize::MAX,
            c.tangent == edge_kind_count(edges@.subrange(0, i as int), BooleanEdgeMergeKind::TangentTouch),
            c.overlapping == edge_kind_count(edges@.subrange(0, i as int), BooleanEdgeMergeKind::Overlapping),
            c.coplanar == 0,
            c.nearly_coincident == edge_kind_count(
                edges@.subrange(0, i as int),
                BooleanEdgeMergeKind::NearlyCoincident,
            ),
        decreases edges@.len() - i,
    {
        proof {
            assert(edges@.subrange(0, i + 1).drop_last() =~= edges@.subrange(0, i as int));
            lemma_edge_kinds_bounded(edges@.subrange(0, i as int));
        }
        match edges[i] {
            BooleanEdgeMergeKind::TangentTouch => c.tangent += 1,
            BooleanEdgeMergeKind::Overlapping => c.overlapping += 1,
            BooleanEdgeMergeKind::NearlyCoincident => c.nearly_coincident += 1,
            BooleanEdgeMergeKind::Coincident => {},
        }
        i += 1;
    }
    assert(edges@.subrange(0, i as int) =~= edges@);
    let ghost e_t = c.tangent as nat;
    let ghost e_o = c.overlapping as nat;
    let ghost e_n = c.nearly_coincident as nat;
    proof {
        lemma_edge_kinds_bounded(edges@);
    }
    let mut j: usize = 0;
    while j < faces.len()
        invariant
            j <= faces@.len(),
            e_t + e_o + e_n <= edges@.len(),
            edges@.len() + faces@.len() <= usize::MAX,
            c.tangent == e_t + face_kind_count(faces@.subrange(0, j as int), BooleanFaceMergeKind::TangentTouch),
            c.overlapping == e_o + face_kind_count(faces@.subrange(0, j as int), BooleanFaceMergeKind::Overlapping)
                + face_kind_count(faces@.subrange(0, j as int), BooleanFaceMergeKind::CoplanarOverlap),
            c.coplanar == face_kind_count(faces@.subrange(0, j as int), BooleanFaceMergeKind::CoplanarOverlap),
            c.nearly_coincident == e_n + face_kind_count(
                faces@.subrange(0, j as int),
                BooleanFaceMergeKind::NearlyCoincident,
            ),
        decreases faces@.len() - j,
    {
        proof {
            assert(faces@.subrange(0, j + 1).drop_last() =~= faces@.subrange(0, j as int));
            lemma_face_kinds_bounded(faces@.subrange(0, j as int));
        }
        match faces[j] {
            BooleanFaceMergeKind::TangentTouch => c.tangent += 1,
            BooleanFaceMergeKind::Overlapping => c.overlapping += 1,
            BooleanFaceMergeKind::CoplanarOverlap => {
                c.overlapping += 1;
                c.coplanar += 1;
            },
            BooleanFaceMergeKind::NearlyCoincident => c.nearly_coincident += 1,
        }
        j += 1;
    }
    assert(faces@.subrange(0, j as int) =~= faces@);
    c
}

/// Region counts of a classification: (kept, discarded, ambiguous), where
/// kept regions are those kept as they are or reversed.
pub fn region_action_counts(actions: &[BooleanRegionAction]) -> (r: (usize, usize, usize))
    ensures
        r.0 == action_count(actions@, BooleanRegionAction::Keep) + action_count(
            actions@,
            BooleanRegionAction::KeepReversed,
        ),
        r.1 == action_count(actions@, BooleanRegionAction::Discard),
        r.2 == action_count(actions@, BooleanRegionAction::Ambiguous),
{
    let mut kept: usize = 0;
    let mut discarded: usize = 0;
    let mut ambiguous: usize = 0;
    let mut i: usize = 0;
    while i < actions.len()
        invariant
            i <= actions@.len(),
            kept == action_count(actions@.subrange(0, i as int), BooleanRegionAction::Keep) + action_count(
                actions@.subrange(0, i as int),
                BooleanRegionAction::KeepReversed,
            ),
            discarded == action_count(actions@.subrange(0, i as int), BooleanRegionAction::Discard),
            ambiguous == action_count(actions@.subrange(0, i as int), BooleanRegionAction::Ambiguous),
        decreases actions@.len() - i,
    {
        proof {
            assert(actions@.subrange(0, i + 1).drop_last() =~= actions@.subrange(0, i as int));
            lemma_actions_bounded(actions@.subrange(0, i as int));
        }
        let a = actions[i];
        if action_keeps_region(a) {
            kept += 1;
        } else if a == BooleanRegionAction::Discard {
            discarded += 1;
        } else if a == BooleanRegionAction::Ambiguous {
            ambiguous += 1;
        }
        i += 1;
    }
    assert(actions@.subrange(0, i as int) =~= actions@);
    (kept, discarded, ambiguous)
}

} // verus!
