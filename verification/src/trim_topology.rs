//! Topological validation of face trim loops. What a trim's p-curve and
//! tolerance are worth, and whether consecutive p-curves meet, is measured in
//! the parameter domain and handed in as flags; which half-edges the trims
//! name, how they chain and how many outer loops a face has is checked here.
use vstd::prelude::*;
use crate::topology::{FaceId, HalfEdge, HalfEdgeId, TopologyError, TrimLoopKind};

verus! {

/// One trim of a loop: the half-edge it follows, if resolved, and whether
/// its tolerance and p-curve are usable.
#[derive(Clone, Copy, Debug, PartialEq, Eq)]
pub struct TrimUse {
    /// Half-edge the trim follows, if resolved.
    pub halfedge: Option<HalfEdgeId>,
    /// The trim's tolerance is finite and nonnegative and its p-curve is valid.
    pub curve_ok: bool,
}

/// One trim loop of a face.
#[derive(Clone, Debug, PartialEq, Eq)]
pub struct TrimLoopUses {
    /// Outer or inner loop role.
    pub kind: TrimLoopKind,
    /// Trims in loop order.
    pub trims: Vec<TrimUse>,
    /// Each trim's p-curve ends where the next one starts, within tolerance.
    pub closes: bool,
}

/// The error of trim `k` of loop `loop_index` on `face`: an unusable curve,
/// a half-edge that is missing or on another face, or a half-edge whose
/// `next` is not the half-edge of the following trim.
pub open spec fn trim_error(
    hes: Seq<HalfEdge>,
    face: FaceId,
    loop_index: usize,
    trims: Seq<TrimUse>,
    k: int,
) -> Option<TopologyError> {
    let t = trims[k];
    if !t.curve_ok {
        Some(TopologyError::InvalidTrimCurve(face, loop_index, k as usize))
    } else {
        match t.halfedge {
            None => None,
            Some(h) => if h >= hes.len() || hes[h as int].face != face {
                Some(TopologyError::InvalidTrimHalfEdge(face, h))
            } else {
                match trims[(k + 1) % trims.len() as int].halfedge {
                    Some(nh) => if hes[h as int].next != nh {
                        Some(TopologyError::InvalidTrimLoop(face, loop_index))
                    } else {
                        None
                    },
                    None => None,
                }
            },
        }
    }
}

/// The first trim error at or after trim `k`.
pub open spec fn first_trim_error(
    hes: Seq<HalfEdge>,
    face: FaceId,
    loop_index: usize,
    trims: Seq<TrimUse>,
    k: int,
) -> Option<TopologyError>
    decreases trims.len() - k,
{
    if k < 0 || k >= trims.len() {
        None
    } else {
        match trim_error(hes, face, loop_index, trims, k) {
            Some(e) => Some(e),
            None => first_trim_error(hes, face, loop_index, trims, k + 1),
        }
    }
}

/// Outcome of validating one trim loop: an empty loop is invalid; else the
/// first trim error; else an open loop; else `Ok`.
pub open spec fn trim_loop_result(
    hes: Seq<HalfEdge>,
    face: FaceId,
    loop_index: usize,
    trims: Seq<TrimUse>,
    closes: bool,
) -> Result<(), TopologyError> {
    if trims.len() == 0 {
        Err(TopologyError::InvalidTrimLoop(face, loop_index))
    } else {
        match first_trim_error(hes, face, loop_index, trims, 0) {
            Some(e) => Err(e),
            None => if !closes {
                Err(TopologyError::OpenTrimLoop(face, loop_index))
            } else {
                Ok(())
            },
        }
    }
}

proof fn lemma_trim_error_from_prefix(
    hes: Seq<HalfEdge>,
    face: FaceId,
    loop_index: usize,
    trims: Seq<TrimUse>,
    k: int,
)
    requires
        0 <= k <= trims.len(),
        forall|j: int| 0 <= j < k ==> trim_error(hes, face, loop_index, trims, j) is None,
    ensures
        first_trim_error(hes, face, loop_index, trims, 0) == first_trim_error(
            hes,
            face,
            loop_index,
            trims,
            k,
        ),
    decreases k,
{
    if k > 0 {
        lemma_trim_error_from_prefix(hes, face, loop_index, trims, k - 1);
    }
}

/// Validate the trims of loop `loop_index` on `face`, in trim order, then
/// whether the loop closes.
pub fn validate_trim_loop(
    halfedges: &[HalfEdge],
    face: FaceId,
    loop_index: usize,
    trims: &[TrimUse],
    closes: bool,
) -> (r: Result<(), TopologyError>)
    ensures
        r == trim_loop_result(halfedges@, face, loop_index, trims@, closes),
{
    let n = trims.len();
    if n == 0 {
        return Err(TopologyError::InvalidTrimLoop(face, loop_index));
    }
    let mut k: usize = 0;
    while k < n
        invariant
            n == trims@.len(),
            n > 0,
            k <= n,
            forall|j: int| 0 <= j < k ==> trim_error(halfedges@, face, loop_index, trims@, j) is None,
        decreases n - k,
    {
        proof {
            lemma_trim_error_from_prefix(halfedges@, face, loop_index, trims@, k as int);
        }
        let trim = trims[k];
        if !trim.curve_ok {
            return Err(TopologyError::InvalidTrimCurve(face, loop_index, k));
        }
        match trim.halfedge {
            Some(h) => {
                if h >= halfedges.len() || halfedges[h].face != face {
                    return Err(TopologyError::InvalidTrimHalfEdge(face, h));
                }
                let next_trim = trims[(k + 1) % n];
                match next_trim.halfedge {
                    Some(nh) => {
                        if halfedges[h].next != nh {
                            return Err(TopologyError::InvalidTrimLoop(face, loop_index));
                        }
                    },
                    None => {},
                }
            },
            None => {},
        }
        k += 1;
    }
    proof {
        lemma_trim_error_from_prefix(halfedges@, face, loop_index, trims@, k as int);
    }
    if !closes {
        return Err(TopologyError::OpenTrimLoop(face, loop_index));
    }
    Ok(())
}

/// Number of outer loops among `loops`.
pub open spec fn outer_count(loops: Seq<TrimLoopUses>) -> nat
    decreases loops.len(),
{
    if loops.len() == 0 {
        0
    } else {
        outer_count(loops.drop_last()) + if loops.last().kind == TrimLoopKind::Outer {
            1nat
        } else {
            0nat
        }
    }
}

/// The first loop error of `face` from loop `k` on.
pub open spec fn first_loop_error(
    hes: Seq<HalfEdge>,
    face: FaceId,
    loops: Seq<TrimLoopUses>,
    k: int,
) -> Option<TopologyError>
    decreases loops.len() - k,
{
    if k < 0 || k >= loops.len() {
        None
    } else {
        match trim_loop_result(hes, face, k as usize, loops[k].trims@, loops[k].closes) {
            Err(e) => Some(e),
            Ok(_) => first_loop_error(hes, face, loops, k + 1),
        }
    }
}

/// The trim error of `face`, whose loop starts at half-edge `start`: a
/// start half-edge that is missing or on another face; else not exactly one
/// outer loop; else the first loop error.
pub open spec fn face_trim_error(
    hes: Seq<HalfEdge>,
    face: FaceId,
    start: HalfEdgeId,
    loops: Seq<TrimLoopUses>,
) -> Option<TopologyError> {
    if start >= hes.len() || hes[start as int].face != face {
        Some(TopologyError::BrokenHalfEdge(start))
    } else if outer_count(loops) != 1 {
        Some(TopologyError::MissingOuterTrimLoop(face))
    } else {
        first_loop_error(hes, face, loops, 0)
    }
}

proof fn lemma_loop_error_from_prefix(
    hes: Seq<HalfEdge>,
    face: FaceId,
    loops: Seq<TrimLoopUses>,
    k: int,
)
    requires
        0 <= k <= loops.len(),
        forall|j: int|
            0 <= j < k ==> trim_loop_result(hes, face, j as usize, #[trigger] loops[j].trims@, loops[j].closes)
                is Ok,
    ensures
        first_loop_error(hes, face, loops, 0) == first_loop_error(hes, face, loops, k),
    decreases k,
{
    if k > 0 {
        lemma_loop_error_from_prefix(hes, face, loops, k - 1);
    }
}

/// Count the outer loops.
fn count_outer_loops(loops: &[TrimLoopUses]) -> (c: usize)
    ensures
        c == outer_count(loops@),
{
    let mut c: usize = 0;
    let mut k: usize = 0;
    while k < loops.len()
        invariant
            k <= loops@.len(),
            c == outer_count(loops@.subrange(0, k as int)),
            c <= k,
        decreases loops@.len() - k,
    {
        proof {
            assert(loops@.subrange(0, k + 1).drop_last() =~= loops@.subrange(0, k as int));
        }
        if loops[k].kind == TrimLoopKind::Outer {
            c += 1;
        }
        k += 1;
    }
    assert(loops@.subrange(0, k as int) =~= loops@);
    c
}

/// Validate the trim loops of one face: its start half-edge, its single
/// outer loop, then each loop in order.
pub fn validate_face_trims(
    halfedges: &[HalfEdge],
    face: FaceId,
    start: HalfEdgeId,
    loops: &[TrimLoopUses],
) -> (r: Result<(), TopologyError>)
    ensures
        r == match face_trim_error(halfedges@, face, start, loops@) {
            Some(e) => Err::<(), TopologyError>(e),
            None => Ok(()),
        },
{
    if start >= halfedges.len() || halfedges[start].face != face {
        return Err(TopologyError::BrokenHalfEdge(start));
    }
    if count_outer_loops(loops) != 1 {
        return Err(TopologyError::MissingOuterTrimLoop(face));
    }
    let mut k: usize = 0;
    while k < loops.len()
        invariant
            start < halfedges@.len(),
            halfedges@[start as int].face == face,
            outer_count(loops@) == 1,
            k <= loops@.len(),
            forall|j: int|
                0 <= j < k ==> trim_loop_result(
                    halfedges@,
                    face,
                    j as usize,
                    #[trigger] loops@[j].trims@,
                    loops@[j].closes,
                ) is Ok,
        decreases loops@.len() - k,
    {
        proof {
            lemma_loop_error_from_prefix(halfedges@, face, loops@, k as int);
        }
        let r = validate_trim_loop(halfedges, face, k, &loops[k].trims, loops[k].closes);
        if r.is_err() {
            return r;
        }
        k += 1;
    }
    proof {
        lemma_loop_error_from_prefix(halfedges@, face, loops@, k as int);
    }
    Ok(())
}

/// The first face trim error from face `f` on.
pub open spec fn first_face_trim_error(
    hes: Seq<HalfEdge>,
    face_halfedges: Seq<HalfEdgeId>,
    faces: Seq<Vec<TrimLoopUses>>,
    f: int,
) -> Option<TopologyError>
    decreases faces.len() - f,
{
    if f < 0 || f >= faces.len() || f >= face_halfedges.len() {
        None
    } else {
        match face_trim_error(hes, f as usize, face_halfedges[f], faces[f]@) {
            Some(e) => Some(e),
            None => first_face_trim_error(hes, face_halfedges, faces, f + 1),
        }
    }
}

proof fn lemma_face_error_from_prefix(
    hes: Seq<HalfEdge>,
    face_halfedges: Seq<HalfEdgeId>,
    faces: Seq<Vec<TrimLoopUses>>,
    f: int,
)
    requires
        0 <= f <= faces.len(),
        faces.len() == face_halfedges.len(),
        forall|g: int|
            0 <= g < f ==> face_trim_error(hes, g as usize, face_halfedges[g], #[trigger] faces[g]@) is None,
    ensures
        first_face_trim_error(hes, face_halfedges, faces, 0) == first_face_trim_error(
            hes,
            face_halfedges,
            faces,
            f,
        ),
    decreases f,
{
    if f > 0 {
        lemma_face_error_from_prefix(hes, face_halfedges, faces, f - 1);
    }
}

/// Validate the trim topology of every face, in face order. `faces[f]`
/// holds the loops of face `f`, whose loop starts at `face_halfedges[f]`.
pub fn validate_trim_topology(
    halfedges: &[HalfEdge],
    face_halfedges: &[HalfEdgeId],
    faces: &[Vec<TrimLoopUses>],
) -> (r: Result<(), TopologyError>)
    requires
        faces@.len() == face_halfedges@.len(),
    ensures
        r == match first_face_trim_error(halfedges@, face_halfedges@, faces@, 0) {
            Some(e) => Err::<(), TopologyError>(e),
            None => Ok(()),
        },
{
    let mut f: usize = 0;
    while f < faces.len()
        invariant
            faces@.len() == face_halfedges@.len(),
            f <= faces@.len(),
            forall|g: int|
                0 <= g < f ==> face_trim_error(halfedges@, g as usize, face_halfedges@[g], #[trigger] faces@[g]@)
                    is None,
        decreases faces@.len() - f,
    {
        proof {
            lemma_face_error_from_prefix(halfedges@, face_halfedges@, faces@, f as int);
        }
        let r = validate_face_trims(halfedges, f, face_halfedges[f], &faces[f]);
        if r.is_err() {
            return r;
        }
        f += 1;
    }
    proof {
        lemma_face_error_from_prefix(halfedges@, face_halfedges@, faces@, f as int);
    }
    Ok(())
}

/// Unresolved trims that follow the half-edges `hs` in order.
pub open spec fn unresolved_trims(hs: Seq<HalfEdgeId>) -> Seq<TrimUse> {
    Seq::new(hs.len(), |k: int| TrimUse { halfedge: Some(hs[k]), curve_ok: true })
}

impl TrimLoopUses {
    /// A topological loop of unresolved trims along ordered half-edges. An
    /// unresolved trim has a usable curve and no p-curve endpoints, so the
    /// loop counts as closed.
    pub fn from_halfedges(kind: TrimLoopKind, halfedges: Vec<HalfEdgeId>) -> (l: Self)
        ensures
            l.kind == kind,
            l.trims@ == unresolved_trims(halfedges@),
            l.closes,
    {
        let mut trims: Vec<TrimUse> = Vec::new();
        let mut k: usize = 0;
        while k < halfedges.len()
            invariant
                k <= halfedges@.len(),
                trims@ == unresolved_trims(halfedges@.subrange(0, k as int)),
            decreases halfedges@.len() - k,
        {
            trims.push(TrimUse { halfedge: Some(halfedges[k]), curve_ok: true });
            k += 1;
            proof {
                assert(trims@ =~= unresolved_trims(halfedges@.subrange(0, k as int)));
            }
        }
        proof {
            assert(halfedges@.subrange(0, k as int) =~= halfedges@);
        }
        TrimLoopUses { kind, trims, closes: true }
    }
}

/// The half-edges `hs` run around one loop of `face`: each is on `face`
/// and its `next` is the one after it, the last wrapping to the first.
pub open spec fn face_cycle(hes: Seq<HalfEdge>, face: FaceId, hs: Seq<HalfEdgeId>) -> bool {
    &&& hs.len() > 0
    &&& forall|k: int|
        0 <= k < hs.len() ==> {
            &&& #[trigger] hs[k] < hes.len()
            &&& hes[hs[k] as int].face == face
            &&& hes[hs[k] as int].next == hs[(k + 1) % hs.len() as int]
        }
}

proof fn lemma_cycle_has_no_trim_error(
    hes: Seq<HalfEdge>,
    face: FaceId,
    loop_index: usize,
    hs: Seq<HalfEdgeId>,
    k: int,
)
    requires
        face_cycle(hes, face, hs),
        0 <= k <= hs.len(),
    ensures
        first_trim_error(hes, face, loop_index, unresolved_trims(hs), k) is None,
    decreases hs.len() - k,
{
    let trims = unresolved_trims(hs);
    if k < hs.len() {
        let j = (k + 1) % hs.len() as int;
        assert(0 <= j < hs.len());
        assert(trims[j].halfedge == Some(hs[j]));
        assert(hs[k] < hes.len());
        assert(trim_error(hes, face, loop_index, trims, k) is None);
        lemma_cycle_has_no_trim_error(hes, face, loop_index, hs, k + 1);
    }
}

/// A loop of unresolved trims that follows a face's own half-edge cycle is
/// a valid trim loop of that face.
pub proof fn lemma_face_cycle_loop_is_valid(
    hes: Seq<HalfEdge>,
    face: FaceId,
    loop_index: usize,
    hs: Seq<HalfEdgeId>,
)
    requires
        face_cycle(hes, face, hs),
    ensures
        trim_loop_result(hes, face, loop_index, unresolved_trims(hs), true) == Ok::<(), TopologyError>(()),
{
    lemma_cycle_has_no_trim_error(hes, face, loop_index, hs, 0);
}

/// The first trim of `loops`, loop by loop and trim by trim, that follows
/// `halfedge`, as (loop index, trim index).
pub open spec fn trim_position(loops: Seq<TrimLoopUses>, halfedge: HalfEdgeId, l: int, t: int) -> bool {
    &&& 0 <= l < loops.len()
    &&& 0 <= t < loops[l].trims@.len()
    &&& loops[l].trims@[t].halfedge == Some(halfedge)
}

/// Position (loop, trim) of the first trim that follows `halfedge`, loops
/// in order and trims in order within a loop.
pub fn find_trim(loops: &[TrimLoopUses], halfedge: HalfEdgeId) -> (r: Option<(usize, usize)>)
    ensures
        r matches Some((l, t)) ==> trim_position(loops@, halfedge, l as int, t as int) && (forall|l2: int, t2: int|
            #[trigger] trim_position(loops@, halfedge, l2, t2) ==> l < l2 || (l == l2 && t <= t2)),
        r is None ==> forall|l2: int, t2: int| !#[trigger] trim_position(loops@, halfedge, l2, t2),
{
    let mut l: usize = 0;
    while l < loops.len()
        invariant
            l <= loops@.len(),
            forall|l2: int, t2: int| #[trigger] trim_position(loops@, halfedge, l2, t2) ==> l2 >= l,
        decreases loops@.len() - l,
    {
        let trims = &loops[l].trims;
        let mut t: usize = 0;
        while t < trims.len()
            invariant
                l < loops@.len(),
                trims@ == loops@[l as int].trims@,
                t <= trims@.len(),
                forall|l2: int, t2: int| #[trigger] trim_position(loops@, halfedge, l2, t2) ==> l2 > l || (l2 == l
                    && t2 >= t),
            decreases trims@.len() - t,
        {
            if trims[t].halfedge == Some(halfedge) {
                assert(trim_position(loops@, halfedge, l as int, t as int));
                return Some((l, t));
            }
            t += 1;
        }
        l += 1;
    }
    None
}

/// Number of loops of role `kind` over all faces.
pub open spec fn kind_count(faces: Seq<Vec<TrimLoopUses>>, kind: TrimLoopKind) -> nat
    decreases faces.len(),
{
    if faces.len() == 0 {
        0
    } else {
        kind_count(faces.drop_last(), kind) + loops_of_kind(faces.last()@, kind)
    }
}

/// Number of loops of role `kind` in one face.
pub open spec fn loops_of_kind(loops: Seq<TrimLoopUses>, kind: TrimLoopKind) -> nat
    decreases loops.len(),
{
    if loops.len() == 0 {
        0
    } else {
        loops_of_kind(loops.drop_last(), kind) + if loops.last().kind == kind {
            1nat
        } else {
            0nat
        }
    }
}

/// Number of loops over all faces.
pub open spec fn total_loops(faces: Seq<Vec<TrimLoopUses>>) -> nat
    decreases faces.len(),
{
    if faces.len() == 0 {
        0
    } else {
        total_loops(faces.drop_last()) + faces.last()@.len()
    }
}

proof fn lemma_kind_split(loops: Seq<TrimLoopUses>)
    ensures
        loops_of_kind(loops, TrimLoopKind::Outer) + loops_of_kind(loops, TrimLoopKind::Inner) == loops.len(),
    decreases loops.len(),
{
    if loops.len() > 0 {
        lemma_kind_split(loops.drop_last());
    }
}

proof fn lemma_total_split(faces: Seq<Vec<TrimLoopUses>>)
    ensures
        kind_count(faces, TrimLoopKind::Outer) + kind_count(faces, TrimLoopKind::Inner) == total_loops(faces),
    decreases faces.len(),
{
    if faces.len() > 0 {
        lemma_total_split(faces.drop_last());
        lemma_kind_split(faces.last()@);
    }
}

/// Count outer and inner trim loops over all faces.
pub fn trim_loop_counts(faces: &[Vec<TrimLoopUses>]) -> (r: (usize, usize))
    requires
        total_loops(faces@) <= usize::MAX,
    ensures
        r.0 == kind_count(faces@, TrimLoopKind::Outer),
        r.1 == kind_count(faces@, TrimLoopKind::Inner),
{
    let mut outer: usize = 0;
    let mut inner: usize = 0;
    let mut f: usize = 0;
    proof {
        lemma_total_split(faces@);
    }
    while f < faces.len()
        invariant
            f <= faces@.len(),
            total_loops(faces@) <= usize::MAX,
            outer == kind_count(faces@.subrange(0, f as int), TrimLoopKind::Outer),
            inner == kind_count(faces@.subrange(0, f as int), TrimLoopKind::Inner),
            outer + inner == total_loops(faces@.subrange(0, f as int)),
        decreases faces@.len() - f,
    {
        proof {
            assert(faces@.subrange(0, f + 1).drop_last() =~= faces@.subrange(0, f as int));
            lemma_total_prefix(faces@, f as int + 1);
        }
        let loops = &faces[f];
        let mut k: usize = 0;
        while k < loops.len()
            invariant
                f < faces@.len(),
                loops@ == faces@[f as int]@,
                k <= loops@.len(),
                total_loops(faces@.subrange(0, f + 1)) <= usize::MAX,
                total_loops(faces@.subrange(0, f + 1)) == total_loops(faces@.subrange(0, f as int)) + loops@.len(),
                outer == kind_count(faces@.subrange(0, f as int), TrimLoopKind::Outer) + loops_of_kind(
                    loops@.subrange(0, k as int),
                    TrimLoopKind::Outer,
                ),
                inner == kind_count(faces@.subrange(0, f as int), TrimLoopKind::Inner) + loops_of_kind(
                    loops@.subrange(0, k as int),
                    TrimLoopKind::Inner,
                ),
                outer + inner == total_loops(faces@.subrange(0, f as int)) + k,
            decreases loops@.len() - k,
        {
            proof {
                assert(loops@.subrange(0, k + 1).drop_last() =~= loops@.subrange(0, k as int));
            }
            match loops[k].kind {
                TrimLoopKind::Outer => outer += 1,
                TrimLoopKind::Inner => inner += 1,
            }
            k += 1;
        }
        proof {
            assert(loops@.subrange(0, k as int) =~= loops@);
        }
        f += 1;
    }
    proof {
        assert(faces@.subrange(0, f as int) =~= faces@);
    }
    (outer, inner)
}

proof fn lemma_total_prefix(faces: Seq<Vec<TrimLoopUses>>, k: int)
    requires
        0 <= k <= faces.len(),
    ensures
        total_loops(faces.subrange(0, k)) <= total_loops(faces),
    decreases faces.len() - k,
{
    if k < faces.len() {
        lemma_total_prefix(faces, k + 1);
        assert(faces.subrange(0, k + 1).drop_last() =~= faces.subrange(0, k));
    } else {
        assert(faces.subrange(0, k) =~= faces);
    }
}

} // verus!
