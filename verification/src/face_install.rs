//! Promotion of a trim-ready intersection curve into face topology. A
//! closed curve becomes an inner trim loop on both faces; an open curve
//! becomes a staged face split. Equivalent loops or splits already present
//! are reused. Whether the curve is closed and which loop or split matches
//! it are measured in the parameter domain and handed in; the choice, the
//! report and the identity bookkeeping are decided here.
use vstd::prelude::*;
use crate::face_splits::{
    split_rows, stage_face_split, stage_result, staged_identity, staged_rows, FaceSplitUse,
};
use crate::identity::{
    ids_live, lemma_record_preserves_validity, live_serial, recorded, IdentityView, TopologyIdentity,
};
use crate::topology::{
    FaceId, PersistentId, SplitFacesReport, TopologyError, TopologyOperation,
    TrimReadyFaceConversionKind, TrimReadyFaceConversionReport,
};

verus! {

/// What installing a trim-ready curve is to do.
#[derive(Clone, Debug, PartialEq, Eq)]
pub enum TrimReadyInstallPlan {
    /// Both faces already hold a matching inner loop: report them.
    ReuseInnerLoops(TrimReadyFaceConversionReport),
    /// Append one inner loop to each face, at these loop indices, then
    /// validate the trims.
    AddInnerLoops {
        /// Index the new loop gets on the first face.
        a_loop: usize,
        /// Index the new loop gets on the second face.
        b_loop: usize,
    },
    /// The faces already share a matching staged split: report it.
    ReuseSplit(TrimReadyFaceConversionReport),
    /// Stage a new face split.
    StageSplit,
}

/// The error, if any, that installing a curve between faces `a` and `b`
/// meets before anything is measured: a missing face, one face twice, an
/// unusable model curve, or an unusable p-curve on either face.
pub open spec fn install_precheck(
    rows: Seq<Seq<FaceSplitUse>>,
    split_edge_count: nat,
    a: FaceId,
    b: FaceId,
    curve_ok: bool,
    a_pcurve_ok: bool,
    b_pcurve_ok: bool,
) -> Option<TopologyError> {
    if a >= rows.len() {
        Some(TopologyError::InvalidFace(a))
    } else if b >= rows.len() {
        Some(TopologyError::InvalidFace(b))
    } else if a == b {
        Some(TopologyError::DegenerateFaceSplit(a))
    } else if !curve_ok {
        Some(TopologyError::InvalidSplitCurve(split_edge_count as usize))
    } else if !a_pcurve_ok {
        Some(TopologyError::InvalidFaceSplit(a, rows[a as int].len() as usize))
    } else if !b_pcurve_ok {
        Some(TopologyError::InvalidFaceSplit(b, rows[b as int].len() as usize))
    } else {
        None
    }
}

/// The report of a reused or newly installed pair of inner loops.
pub open spec fn loops_report(a_loop: usize, b_loop: usize, snapped: usize, merged: bool) -> TrimReadyFaceConversionReport {
    TrimReadyFaceConversionReport {
        kind: TrimReadyFaceConversionKind::ClosedInnerLoops,
        split: None,
        a_loop: Some(a_loop),
        b_loop: Some(b_loop),
        snapped_pcurve_endpoints: snapped,
        merged_existing: merged,
    }
}

/// The report of a reused or newly staged split.
pub open spec fn split_report(split: SplitFacesReport, snapped: usize, merged: bool) -> TrimReadyFaceConversionReport {
    TrimReadyFaceConversionReport {
        kind: TrimReadyFaceConversionKind::OpenSplit,
        split: Some(split),
        a_loop: None,
        b_loop: None,
        snapped_pcurve_endpoints: snapped,
        merged_existing: merged,
    }
}

/// The plan: the precheck error; else, for a closed curve, reuse of the
/// matching inner loops when both faces have one, or new inner loops at the
/// ends of both faces' loop lists; for an open curve, reuse of the matching
/// split, or a new split.
pub open spec fn install_plan(
    rows: Seq<Seq<FaceSplitUse>>,
    loop_counts: Seq<usize>,
    split_edge_count: nat,
    a: FaceId,
    b: FaceId,
    curve_ok: bool,
    a_pcurve_ok: bool,
    b_pcurve_ok: bool,
    closed: bool,
    matching_loops: (Option<usize>, Option<usize>),
    matching_split: Option<SplitFacesReport>,
    snapped: usize,
) -> Result<TrimReadyInstallPlan, TopologyError> {
    match install_precheck(rows, split_edge_count, a, b, curve_ok, a_pcurve_ok, b_pcurve_ok) {
        Some(e) => Err(e),
        None => if closed {
            match matching_loops {
                (Some(la), Some(lb)) => Ok(TrimReadyInstallPlan::ReuseInnerLoops(loops_report(la, lb, snapped, true))),
                _ => Ok(TrimReadyInstallPlan::AddInnerLoops { a_loop: loop_counts[a as int], b_loop: loop_counts[b as int] }),
            }
        } else {
            match matching_split {
                Some(s) => Ok(TrimReadyInstallPlan::ReuseSplit(split_report(s, snapped, true))),
                None => Ok(TrimReadyInstallPlan::StageSplit),
            }
        },
    }
}

/// Decide how to install a trim-ready curve between faces `a_face` and
/// `b_face`. `face_splits` and `loop_counts` describe each face's staged
/// split uses and trim-loop count. The measurements come in as arguments:
/// the model curve's and p-curves' usability, whether the (snapped) curve
/// is closed on both faces with coincident model endpoints, the matching
/// inner loop on each face, the matching staged split, and how many
/// p-curve endpoints were snapped to face boundaries.
pub fn plan_trim_ready_install(
    face_splits: &[Vec<FaceSplitUse>],
    loop_counts: &[usize],
    split_edge_count: usize,
    a_face: FaceId,
    b_face: FaceId,
    curve_ok: bool,
    a_pcurve_ok: bool,
    b_pcurve_ok: bool,
    closed: bool,
    matching_loops: (Option<usize>, Option<usize>),
    matching_split: Option<SplitFacesReport>,
    snapped: usize,
) -> (r: Result<TrimReadyInstallPlan, TopologyError>)
    requires
        loop_counts@.len() == face_splits@.len(),
    ensures
        r == install_plan(
            split_rows(face_splits@),
            loop_counts@,
            split_edge_count as nat,
            a_face,
            b_face,
            curve_ok,
            a_pcurve_ok,
            b_pcurve_ok,
            closed,
            matching_loops,
            matching_split,
            snapped,
        ),
{
    let n = face_splits.len();
    if a_face >= n {
        return Err(TopologyError::InvalidFace(a_face));
    }
    if b_face >= n {
        return Err(TopologyError::InvalidFace(b_face));
    }
    if a_face == b_face {
        return Err(TopologyError::DegenerateFaceSplit(a_face));
    }
    if !curve_ok {
        return Err(TopologyError::InvalidSplitCurve(split_edge_count));
    }
    if !a_pcurve_ok {
        return Err(TopologyError::InvalidFaceSplit(a_face, face_splits[a_face].len()));
    }
    if !b_pcurve_ok {
        return Err(TopologyError::InvalidFaceSplit(b_face, face_splits[b_face].len()));
    }
    if closed {
        match matching_loops {
            (Some(la), Some(lb)) => Ok(
                TrimReadyInstallPlan::ReuseInnerLoops(
                    TrimReadyFaceConversionReport {
                        kind: TrimReadyFaceConversionKind::ClosedInnerLoops,
                        split: None,
                        a_loop: Some(la),
                        b_loop: Some(lb),
                        snapped_pcurve_endpoints: snapped,
                        merged_existing: true,
                    },
                ),
            ),
            _ => Ok(TrimReadyInstallPlan::AddInnerLoops { a_loop: loop_counts[a_face], b_loop: loop_counts[b_face] }),
        }
    } else {
        match matching_split {
            Some(s) => Ok(
                TrimReadyInstallPlan::ReuseSplit(
                    TrimReadyFaceConversionReport {
                        kind: TrimReadyFaceConversionKind::OpenSplit,
                        split: Some(s),
                        a_loop: None,
                        b_loop: None,
                        snapped_pcurve_endpoints: snapped,
                        merged_existing: true,
                    },
                ),
            ),
            None => Ok(TrimReadyInstallPlan::StageSplit),
        }
    }
}

/// The identity after installing inner loops on faces `a` and `b`: one
/// `InstallTrimReadyFaceCurve` event with both faces modified and as
/// parents, nothing created.
pub open spec fn inner_loops_identity(old: IdentityView, a: FaceId, b: FaceId) -> IdentityView {
    let faces = seq![old.faces[a as int], old.faces[b as int]];
    recorded(old, TopologyOperation::InstallTrimReadyFaceCurve, Seq::empty(), faces, Seq::empty(), faces)
}

/// Finish installing new inner loops `a_loop` and `b_loop` on faces
/// `a_face` and `b_face`, given the outcome of validating the trims with
/// the loops in place: on an error the identity is unchanged and the
/// caller restores its loops; else the install is recorded and reported.
pub fn finish_inner_loop_install(
    identity: &mut TopologyIdentity,
    a_face: FaceId,
    b_face: FaceId,
    a_loop: usize,
    b_loop: usize,
    snapped: usize,
    validation: Result<(), TopologyError>,
) -> (r: Result<TrimReadyFaceConversionReport, TopologyError>)
    requires
        a_face < old(identity)@.faces.len(),
        b_face < old(identity)@.faces.len(),
        old(identity)@.revision < u64::MAX,
    ensures
        r == match validation {
            Err(e) => Err::<TrimReadyFaceConversionReport, TopologyError>(e),
            Ok(_) => Ok(loops_report(a_loop, b_loop, snapped, false)),
        },
        r is Err ==> final(identity)@ == old(identity)@,
        r is Ok ==> final(identity)@ == inner_loops_identity(old(identity)@, a_face, b_face),
{
    match validation {
        Err(e) => {
            return Err(e);
        },
        Ok(_) => {},
    }
    let fa = match identity.face(a_face) {
        Some(id) => id,
        None => {
            return Err(TopologyError::InvalidPersistentIdentity);
        },
    };
    let fb = match identity.face(b_face) {
        Some(id) => id,
        None => {
            return Err(TopologyError::InvalidPersistentIdentity);
        },
    };
    let mut modified: Vec<PersistentId> = Vec::new();
    modified.push(fa);
    modified.push(fb);
    let mut parents: Vec<PersistentId> = Vec::new();
    parents.push(fa);
    parents.push(fb);
    let created: Vec<PersistentId> = Vec::new();
    let deleted: Vec<PersistentId> = Vec::new();
    proof {
        assert(modified@ =~= seq![fa, fb]);
        assert(parents@ =~= seq![fa, fb]);
        assert(created@ =~= Seq::<PersistentId>::empty());
        assert(deleted@ =~= Seq::<PersistentId>::empty());
    }
    identity.record(TopologyOperation::InstallTrimReadyFaceCurve, created, modified, deleted, parents);
    Ok(
        TrimReadyFaceConversionReport {
            kind: TrimReadyFaceConversionKind::ClosedInnerLoops,
            split: None,
            a_loop: Some(a_loop),
            b_loop: Some(b_loop),
            snapped_pcurve_endpoints: snapped,
            merged_existing: false,
        },
    )
}

/// Install an open curve as a new staged split (see `stage_face_split`)
/// and report it; on an error nothing changes.
pub fn install_open_split(
    face_splits: &mut Vec<Vec<FaceSplitUse>>,
    split_edge_count: &mut usize,
    identity: &mut TopologyIdentity,
    a_face: FaceId,
    b_face: FaceId,
    curve_ok: bool,
    curve_has_span: bool,
    a_pcurve_ok: bool,
    b_pcurve_ok: bool,
    split_edges_error: Option<TopologyError>,
    snapped: usize,
) -> (r: Result<TrimReadyFaceConversionReport, TopologyError>)
    requires
        old(identity)@.faces.len() == old(face_splits)@.len(),
        old(identity)@.split_edges.len() == *old(split_edge_count),
        *old(split_edge_count) < usize::MAX,
        old(identity)@.next_serial < u64::MAX,
        old(identity)@.revision < u64::MAX,
    ensures
        r == match stage_result(
            split_rows(old(face_splits)@),
            *old(split_edge_count) as nat,
            a_face,
            b_face,
            curve_ok,
            curve_has_span,
            a_pcurve_ok,
            b_pcurve_ok,
            split_edges_error,
        ) {
            Err(e) => Err::<TrimReadyFaceConversionReport, TopologyError>(e),
            Ok(s) => Ok(split_report(s, snapped, false)),
        },
        r is Err ==> split_rows(final(face_splits)@) == split_rows(old(face_splits)@)
            && *final(split_edge_count) == *old(split_edge_count) && final(identity)@ == old(identity)@,
        r is Ok ==> split_rows(final(face_splits)@) == staged_rows(
            split_rows(old(face_splits)@),
            *old(split_edge_count) as nat,
            a_face,
            b_face,
        ) && *final(split_edge_count) == *old(split_edge_count) + 1 && final(identity)@
            == staged_identity(old(identity)@, a_face, b_face),
{
    let staged = stage_face_split(
        face_splits,
        split_edge_count,
        identity,
        a_face,
        b_face,
        curve_ok,
        curve_has_span,
        a_pcurve_ok,
        b_pcurve_ok,
        split_edges_error,
    );
    match staged {
        Ok(split) => Ok(
            TrimReadyFaceConversionReport {
                kind: TrimReadyFaceConversionKind::OpenSplit,
                split: Some(split),
                a_loop: None,
                b_loop: None,
                snapped_pcurve_endpoints: snapped,
                merged_existing: false,
            },
        ),
        Err(e) => Err(e),
    }
}

/// Installing inner loops keeps a valid identity valid for the same
/// topology sizes and leaves every id table unchanged.
pub proof fn lemma_inner_loops_keep_identity_valid(
    old: IdentityView,
    a: FaceId,
    b: FaceId,
    vertices: nat,
    halfedges: nat,
    edges: nat,
    split_edges: nat,
    faces: nat,
    shells: nat,
)
    requires
        old.is_valid_for(vertices, halfedges, edges, split_edges, faces, shells),
        a < faces,
        b < faces,
        old.revision < u64::MAX,
    ensures
        inner_loops_identity(old, a, b).is_valid_for(vertices, halfedges, edges, split_edges, faces, shells),
        inner_loops_identity(old, a, b).all_ids() == old.all_ids(),
{
    let fs = seq![old.faces[a as int], old.faces[b as int]];
    assert(live_serial(old.faces[a as int], old.next_serial));
    assert(live_serial(old.faces[b as int], old.next_serial));
    assert(ids_live(fs, old.next_serial)) by {
        assert forall|i: int| 0 <= i < fs.len() implies live_serial(#[trigger] fs[i], old.next_serial) by {
            if i == 0 {
                assert(fs[i] == old.faces[a as int]);
            } else {
                assert(fs[i] == old.faces[b as int]);
            }
        }
    }
    assert(ids_live(Seq::<PersistentId>::empty(), old.next_serial));
    lemma_record_preserves_validity(
        old,
        TopologyOperation::InstallTrimReadyFaceCurve,
        Seq::empty(),
        fs,
        Seq::empty(),
        fs,
        vertices,
        halfedges,
        edges,
        split_edges,
        faces,
        shells,
    );
}

} // verus!
