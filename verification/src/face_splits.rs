//! Bookkeeping of staged face splits: which faces use each split edge, and
//! the check that every split edge is used by exactly two different faces.
//! Whether a face-local p-curve and its tolerance are usable is measured in
//! the parameter domain and handed in as a flag.
use vstd::prelude::*;
use crate::identity::{
    ids_live, lemma_record_preserves_validity, lemma_split_allocation_preserves_validity,
    live_serial, recorded, IdentityView, TopologyIdentity,
};
use crate::topology::{
    FaceId, PersistentId, PersistentTopologyKind, SplitEdgeId, SplitFacesReport, TopologyError,
    TopologyOperation,
};

verus! {

/// One face-local use of a staged split edge.
#[derive(Clone, Copy, Debug, PartialEq, Eq)]
pub struct FaceSplitUse {
    /// Split edge that the face uses.
    pub split_edge: SplitEdgeId,
    /// The face-local p-curve and tolerance are usable.
    pub usable: bool,
}

/// The split uses of each face as sequences.
pub open spec fn split_rows(faces: Seq<Vec<FaceSplitUse>>) -> Seq<Seq<FaceSplitUse>> {
    faces.map_values(|row: Vec<FaceSplitUse>| row@)
}

/// Every split use of every face, in face order and split order within a
/// face, as (face, split index, use).
pub open spec fn flat_splits(faces: Seq<Seq<FaceSplitUse>>) -> Seq<(FaceId, usize, FaceSplitUse)>
    decreases faces.len(),
{
    if faces.len() == 0 {
        Seq::empty()
    } else {
        let f = faces.len() - 1;
        flat_splits(faces.drop_last()) + Seq::new(
            faces.last().len(),
            |k: int| (f as usize, k as usize, faces.last()[k]),
        )
    }
}

/// The faces that use split edge `e`, one entry per use, in order.
pub open spec fn uses_of(flat: Seq<(FaceId, usize, FaceSplitUse)>, e: int) -> Seq<(FaceId, usize)>
    decreases flat.len(),
{
    if flat.len() == 0 {
        Seq::empty()
    } else {
        let rest = uses_of(flat.drop_last(), e);
        let last = flat.last();
        if last.2.split_edge == e {
            rest.push((last.0, last.1))
        } else {
            rest
        }
    }
}

/// Collect, for each split edge below `split_edge_count`, its uses as
/// (face, split index); uses of split edges out of range are skipped.
pub fn split_uses(split_edge_count: usize, faces: &[Vec<FaceSplitUse>]) -> (uses: Vec<Vec<(FaceId, usize)>>)
    ensures
        uses@.len() == split_edge_count,
        forall|e: int| 0 <= e < split_edge_count ==> (#[trigger] uses@[e])@ == uses_of(
            flat_splits(split_rows(faces@)),
            e,
        ),
{
    let ghost rows = split_rows(faces@);
    let mut uses: Vec<Vec<(FaceId, usize)>> = Vec::new();
    let mut e: usize = 0;
    while e < split_edge_count
        invariant
            rows == split_rows(faces@),
            e <= split_edge_count,
            uses@.len() == e,
            forall|j: int| 0 <= j < e ==> (#[trigger] uses@[j])@ == Seq::<(FaceId, usize)>::empty(),
        decreases split_edge_count - e,
    {
        uses.push(Vec::new());
        e += 1;
    }
    let mut f: usize = 0;
    while f < faces.len()
        invariant
            rows == split_rows(faces@),
            f <= rows.len(),
            uses@.len() == split_edge_count,
            forall|j: int|
                0 <= j < split_edge_count ==> (#[trigger] uses@[j])@ == uses_of(
                    flat_splits(rows.subrange(0, f as int)),
                    j,
                ),
        decreases rows.len() - f,
    {
        let splits = &faces[f];
        let ghost before = flat_splits(rows.subrange(0, f as int));
        let mut k: usize = 0;
        while k < splits.len()
            invariant
                rows == split_rows(faces@),
                f < rows.len(),
                splits@ == rows[f as int],
                k <= splits@.len(),
                uses@.len() == split_edge_count,
                before == flat_splits(rows.subrange(0, f as int)),
                forall|j: int|
                    0 <= j < split_edge_count ==> (#[trigger] uses@[j])@ == uses_of(
                        before + Seq::new(k as nat, |q: int| (f, q as usize, splits@[q])),
                        j,
                    ),
            decreases splits@.len() - k,
        {
            let s = splits[k];
            let ghost old_uses = uses@;
            let ghost prev = before + Seq::new(k as nat, |q: int| (f, q as usize, splits@[q]));
            let ghost next = before + Seq::new((k + 1) as nat, |q: int| (f, q as usize, splits@[q]));
            proof {
                assert(next.drop_last() =~= prev);
                assert(next.last() == (f, k, s));
            }
            if s.split_edge < split_edge_count {
                let mut row = Vec::new();
                std::mem::swap(&mut row, &mut uses[s.split_edge]);
                row.push((f, k));
                uses.set(s.split_edge, row);
            }
            proof {
                assert forall|j: int| 0 <= j < split_edge_count implies (#[trigger] uses@[j])@ == uses_of(next, j) by {
                    if j == s.split_edge as int {
                        assert(uses@[j]@ == old_uses[j]@.push((f, k)));
                    } else {
                        assert(uses@[j] == old_uses[j]);
                    }
                }
            }
            k += 1;
        }
        proof {
            let full = before + Seq::new(splits@.len(), |q: int| (f, q as usize, splits@[q]));
            assert(rows.subrange(0, f + 1).drop_last() =~= rows.subrange(0, f as int));
            assert(flat_splits(rows.subrange(0, f + 1)) =~= full);
        }
        f += 1;
    }
    proof {
        assert(rows.subrange(0, f as int) =~= rows);
    }
    uses
}

/// The error of one split use: a split edge out of range, or an unusable
/// p-curve.
pub open spec fn split_use_error(split_edge_count: nat, u: (FaceId, usize, FaceSplitUse)) -> Option<
    TopologyError,
> {
    if u.2.split_edge >= split_edge_count {
        Some(TopologyError::InvalidSplitEdge(u.2.split_edge))
    } else if !u.2.usable {
        Some(TopologyError::InvalidFaceSplit(u.0, u.1))
    } else {
        None
    }
}

/// The first split-use error from position `i` of `flat` on.
pub open spec fn first_split_use_error(
    split_edge_count: nat,
    flat: Seq<(FaceId, usize, FaceSplitUse)>,
    i: int,
) -> Option<TopologyError>
    decreases flat.len() - i,
{
    if i < 0 || i >= flat.len() {
        None
    } else {
        match split_use_error(split_edge_count, flat[i]) {
            Some(e) => Some(e),
            None => first_split_use_error(split_edge_count, flat, i + 1),
        }
    }
}

/// Split edge `e` is used by exactly two uses, on different faces.
pub open spec fn used_by_two_faces(flat: Seq<(FaceId, usize, FaceSplitUse)>, e: int) -> bool {
    let u = uses_of(flat, e);
    u.len() == 2 && u[0].0 != u[1].0
}

/// Outcome of checking the face splits: the first bad split use, in face
/// order; else the first split edge not used by exactly two different
/// faces; else `Ok`.
pub open spec fn face_splits_result(split_edge_count: nat, faces: Seq<Seq<FaceSplitUse>>) -> Result<
    (),
    TopologyError,
> {
    let flat = flat_splits(faces);
    match first_split_use_error(split_edge_count, flat, 0) {
        Some(e) => Err(e),
        None => if forall|e: int| 0 <= e < split_edge_count ==> used_by_two_faces(flat, e) {
            Ok(())
        } else {
            Err(
                TopologyError::InvalidSplitEdge(
                    (choose|e: int|
                        0 <= e < split_edge_count && !#[trigger] used_by_two_faces(flat, e) && forall|d: int|
                            0 <= d < e ==> used_by_two_faces(flat, d)) as usize,
                ),
            )
        },
    }
}

proof fn lemma_flat_prefix(faces: Seq<Seq<FaceSplitUse>>, f: int)
    requires
        0 <= f < faces.len(),
    ensures
        flat_splits(faces.subrange(0, f + 1)) == flat_splits(faces.subrange(0, f)) + Seq::new(
            faces[f].len(),
            |k: int| (f as usize, k as usize, faces[f][k]),
        ),
{
    assert(faces.subrange(0, f + 1).drop_last() =~= faces.subrange(0, f));
}

proof fn lemma_split_error_from_prefix(
    n: nat,
    flat: Seq<(FaceId, usize, FaceSplitUse)>,
    i: int,
)
    requires
        0 <= i <= flat.len(),
        forall|j: int| 0 <= j < i ==> split_use_error(n, #[trigger] flat[j]) is None,
    ensures
        first_split_use_error(n, flat, 0) == first_split_use_error(n, flat, i),
    decreases i,
{
    if i > 0 {
        lemma_split_error_from_prefix(n, flat, i - 1);
    }
}

/// Check the staged face splits: every use names an existing split edge and
/// has a usable p-curve, in face order; then every split edge is used by
/// exactly two different faces.
pub fn check_face_split_uses(split_edge_count: usize, faces: &[Vec<FaceSplitUse>]) -> (r: Result<
    (),
    TopologyError,
>)
    ensures
        r == face_splits_result(split_edge_count as nat, split_rows(faces@)),
{
    let ghost rows = split_rows(faces@);
    let ghost n = split_edge_count as nat;
    let mut f: usize = 0;
    while f < faces.len()
        invariant
            rows == split_rows(faces@),
            f <= rows.len(),
            forall|j: int|
                0 <= j < flat_splits(rows.subrange(0, f as int)).len() ==> split_use_error(
                    n,
                    #[trigger] flat_splits(rows.subrange(0, f as int))[j],
                ) is None,
            n == split_edge_count,
        decreases rows.len() - f,
    {
        let splits = &faces[f];
        let ghost before = flat_splits(rows.subrange(0, f as int));
        proof {
            lemma_flat_prefix(rows, f as int);
        }
        let mut k: usize = 0;
        while k < splits.len()
            invariant
                rows == split_rows(faces@),
                f < rows.len(),
                splits@ == rows[f as int],
                k <= splits@.len(),
                n == split_edge_count,
                before == flat_splits(rows.subrange(0, f as int)),
                flat_splits(rows.subrange(0, f + 1)) == before + Seq::new(
                    splits@.len(),
                    |q: int| (f, q as usize, splits@[q]),
                ),
                forall|j: int| 0 <= j < before.len() ==> split_use_error(n, #[trigger] before[j]) is None,
                forall|q: int| 0 <= q < k ==> split_use_error(n, (f, q as usize, #[trigger] splits@[q])) is None,
            decreases splits@.len() - k,
        {
            let s = splits[k];
            if s.split_edge >= split_edge_count || !s.usable {
                proof {
                    lemma_bad_use_is_first(rows, n, f as int, k as int);
                }
                if s.split_edge >= split_edge_count {
                    return Err(TopologyError::InvalidSplitEdge(s.split_edge));
                }
                return Err(TopologyError::InvalidFaceSplit(f, k));
            }
            k += 1;
        }
        proof {
            let next = flat_splits(rows.subrange(0, f + 1));
            assert forall|j: int| 0 <= j < next.len() implies split_use_error(n, #[trigger] next[j]) is None by {
                if j >= before.len() {
                    let q = j - before.len();
                    assert(next[j] == (f, q as usize, splits@[q]));
                }
            }
        }
        f += 1;
    }
    proof {
        assert(rows.subrange(0, f as int) =~= rows);
        lemma_split_error_from_prefix(n, flat_splits(rows), flat_splits(rows).len() as int);
    }
    let uses = split_uses(split_edge_count, faces);
    let ghost flat = flat_splits(rows);
    let mut e: usize = 0;
    while e < split_edge_count
        invariant
            rows == split_rows(faces@),
            e <= split_edge_count,
            uses@.len() == split_edge_count,
            flat == flat_splits(rows),
            forall|d: int| 0 <= d < split_edge_count ==> (#[trigger] uses@[d])@ == uses_of(flat, d),
            forall|d: int| 0 <= d < e ==> used_by_two_faces(flat, d),
            first_split_use_error(n, flat, 0) is None,
            n == split_edge_count,
        decreases split_edge_count - e,
    {
        let row = &uses[e];
        if row.len() != 2 || row[0].0 == row[1].0 {
            proof {
                assert(!used_by_two_faces(flat, e as int));
                let c = choose|c: int|
                    0 <= c < n && !#[trigger] used_by_two_faces(flat, c) && forall|d: int|
                        0 <= d < c ==> used_by_two_faces(flat, d);
                if c < e {
                } else if c > e {
                    assert(used_by_two_faces(flat, e as int));
                }
            }
            return Err(TopologyError::InvalidSplitEdge(e));
        }
        e += 1;
    }
    Ok(())
}

proof fn lemma_bad_use_is_first(faces: Seq<Seq<FaceSplitUse>>, n: nat, f: int, k: int)
    requires
        0 <= f < faces.len(),
        0 <= k < faces[f].len(),
        forall|j: int|
            0 <= j < flat_splits(faces.subrange(0, f)).len() ==> split_use_error(
                n,
                #[trigger] flat_splits(faces.subrange(0, f))[j],
            ) is None,
        forall|q: int| 0 <= q < k ==> split_use_error(n, (f as usize, q as usize, #[trigger] faces[f][q])) is None,
        split_use_error(n, (f as usize, k as usize, faces[f][k])) is Some,
    ensures
        first_split_use_error(n, flat_splits(faces), 0) == split_use_error(
            n,
            (f as usize, k as usize, faces[f][k]),
        ),
{
    lemma_flat_extends(faces, f + 1);
    let flat = flat_splits(faces);
    let before = flat_splits(faces.subrange(0, f));
    lemma_flat_prefix(faces, f);
    let cur = flat_splits(faces.subrange(0, f + 1));
    let i = before.len() + k;
    assert(cur[i] == (f as usize, k as usize, faces[f][k]));
    assert(flat[i] == cur[i]);
    assert forall|j: int| 0 <= j < i implies split_use_error(n, #[trigger] flat[j]) is None by {
        assert(flat[j] == cur[j]);
        if j >= before.len() {
            let q = j - before.len();
            assert(cur[j] == (f as usize, q as usize, faces[f][q]));
        } else {
            assert(cur[j] == before[j]);
        }
    }
    lemma_split_error_from_prefix(n, flat, i);
}

proof fn lemma_flat_extends(faces: Seq<Seq<FaceSplitUse>>, f: int)
    requires
        0 <= f <= faces.len(),
    ensures
        flat_splits(faces.subrange(0, f)).len() <= flat_splits(faces).len(),
        forall|j: int|
            0 <= j < flat_splits(faces.subrange(0, f)).len() ==> #[trigger] flat_splits(faces)[j]
                == flat_splits(faces.subrange(0, f))[j],
    decreases faces.len() - f,
{
    if f < faces.len() {
        lemma_flat_extends(faces, f + 1);
        lemma_flat_prefix(faces, f);
    } else {
        assert(faces.subrange(0, f) =~= faces);
    }
}

/// Append `u` to the split uses of face `f`.
fn push_split_use(face_splits: &mut Vec<Vec<FaceSplitUse>>, f: usize, u: FaceSplitUse)
    requires
        f < old(face_splits)@.len(),
    ensures
        final(face_splits)@.len() == old(face_splits)@.len(),
        split_rows(final(face_splits)@) == split_rows(old(face_splits)@).update(
            f as int,
            split_rows(old(face_splits)@)[f as int].push(u),
        ),
{
    let ghost before = split_rows(face_splits@);
    let mut row: Vec<FaceSplitUse> = Vec::new();
    std::mem::swap(&mut row, &mut face_splits[f]);
    row.push(u);
    face_splits.set(f, row);
    assert(split_rows(face_splits@) =~= before.update(f as int, before[f as int].push(u)));
}

/// Remove the last split use of face `f`.
fn pop_split_use(face_splits: &mut Vec<Vec<FaceSplitUse>>, f: usize)
    requires
        f < old(face_splits)@.len(),
        old(face_splits)@[f as int]@.len() > 0,
    ensures
        final(face_splits)@.len() == old(face_splits)@.len(),
        split_rows(final(face_splits)@) == split_rows(old(face_splits)@).update(
            f as int,
            split_rows(old(face_splits)@)[f as int].drop_last(),
        ),
{
    let ghost before = split_rows(face_splits@);
    let mut row: Vec<FaceSplitUse> = Vec::new();
    std::mem::swap(&mut row, &mut face_splits[f]);
    let _ = row.pop();
    face_splits.set(f, row);
    assert(split_rows(face_splits@) =~= before.update(f as int, before[f as int].drop_last()));
}

/// The error, if any, that staging a split between faces `a` and `b`
/// meets before anything changes: a missing face, one face twice, an
/// unusable split curve, a curve without span, or an unusable p-curve on
/// either face.
pub open spec fn stage_precheck(
    rows: Seq<Seq<FaceSplitUse>>,
    split_edge_count: nat,
    a: FaceId,
    b: FaceId,
    curve_ok: bool,
    curve_has_span: bool,
    a_pcurve_ok: bool,
    b_pcurve_ok: bool,
) -> Option<TopologyError> {
    if a >= rows.len() {
        Some(TopologyError::InvalidFace(a))
    } else if b >= rows.len() {
        Some(TopologyError::InvalidFace(b))
    } else if a == b {
        Some(TopologyError::DegenerateFaceSplit(a))
    } else if !curve_ok {
        Some(TopologyError::InvalidSplitCurve(split_edge_count as usize))
    } else if !curve_has_span {
        Some(TopologyError::DegenerateFaceSplit(a))
    } else if !a_pcurve_ok {
        Some(TopologyError::InvalidFaceSplit(a, rows[a as int].len() as usize))
    } else if !b_pcurve_ok {
        Some(TopologyError::InvalidFaceSplit(b, rows[b as int].len() as usize))
    } else {
        None
    }
}

/// The split uses after staging split edge `split_edge_count` on faces `a`
/// and `b`.
pub open spec fn staged_rows(rows: Seq<Seq<FaceSplitUse>>, split_edge_count: nat, a: FaceId, b: FaceId) -> Seq<
    Seq<FaceSplitUse>,
> {
    let u = FaceSplitUse { split_edge: split_edge_count as usize, usable: true };
    let r1 = rows.update(a as int, rows[a as int].push(u));
    r1.update(b as int, r1[b as int].push(u))
}

/// Outcome of staging a split: the precheck error; else the first error of
/// the existing split edges' curves; else the first error of the split uses
/// once the new split is in place; else the report of the new split.
pub open spec fn stage_result(
    rows: Seq<Seq<FaceSplitUse>>,
    split_edge_count: nat,
    a: FaceId,
    b: FaceId,
    curve_ok: bool,
    curve_has_span: bool,
    a_pcurve_ok: bool,
    b_pcurve_ok: bool,
    split_edges_error: Option<TopologyError>,
) -> Result<SplitFacesReport, TopologyError> {
    match stage_precheck(rows, split_edge_count, a, b, curve_ok, curve_has_span, a_pcurve_ok, b_pcurve_ok) {
        Some(e) => Err(e),
        None => match split_edges_error {
            Some(e) => Err(e),
            None => match face_splits_result(split_edge_count + 1, staged_rows(rows, split_edge_count, a, b)) {
                Err(e) => Err(e),
                Ok(_) => Ok(
                    SplitFacesReport {
                        split_edge: split_edge_count as usize,
                        a_face: a,
                        b_face: b,
                        a_split: rows[a as int].len() as usize,
                        b_split: rows[b as int].len() as usize,
                    },
                ),
            },
        },
    }
}

/// The identity after staging a split between faces `a` and `b`: a fresh
/// split-edge id is allocated and one `SplitFacesWithCurves` event records
/// it as created, with both faces modified and as parents.
pub open spec fn staged_identity(old: IdentityView, a: FaceId, b: FaceId) -> IdentityView {
    let id = PersistentId { kind: PersistentTopologyKind::SplitEdge, serial: old.next_serial };
    let allocated = IdentityView {
        split_edges: old.split_edges.push(id),
        next_serial: (old.next_serial + 1) as u64,
        ..old
    };
    let faces = seq![old.faces[a as int], old.faces[b as int]];
    recorded(allocated, TopologyOperation::SplitFacesWithCurves, seq![id], faces, Seq::empty(), faces)
}

/// Stage a split curve shared by faces `a_face` and `b_face`. The measured
/// verdicts come in as flags: `curve_ok` (tolerance finite and nonnegative,
/// model curve valid with endpoints), `curve_has_span`, the two p-curves'
/// validity, and the first error of the existing split edges' curves. On
/// any error nothing changes.
pub fn stage_face_split(
    face_splits: &mut Vec<Vec<FaceSplitUse>>,
    split_edge_count: &mut usize,
    identity: &mut TopologyIdentity,
    a_face: FaceId,
    b_face: FaceId,
    curve_ok: bool,
    curve_has_span: bool,
    a_pcurve_ok: bool,
    b_pcurve_ok: bool,
    split_edges_error: Option<TopologyError>,
) -> (r: Result<SplitFacesReport, TopologyError>)
    requires
        old(identity)@.faces.len() == old(face_splits)@.len(),
        old(identity)@.split_edges.len() == *old(split_edge_count),
        *old(split_edge_count) < usize::MAX,
        old(identity)@.next_serial < u64::MAX,
        old(identity)@.revision < u64::MAX,
    ensures
        r == stage_result(
            split_rows(old(face_splits)@),
            *old(split_edge_count) as nat,
            a_face,
            b_face,
            curve_ok,
            curve_has_span,
            a_pcurve_ok,
            b_pcurve_ok,
            split_edges_error,
        ),
        r is Err ==> split_rows(final(face_splits)@) == split_rows(old(face_splits)@)
            && *final(split_edge_count) == *old(split_edge_count) && final(identity)@ == old(identity)@,
        r is Ok ==> split_rows(final(face_splits)@) == staged_rows(
            split_rows(old(face_splits)@),
            *old(split_edge_count) as nat,
            a_face,
            b_face,
        ) && *final(split_edge_count) == *old(split_edge_count) + 1 && final(identity)@
            == staged_identity(old(identity)@, a_face, b_face),
{
    let count = *split_edge_count;
    let n = face_splits.len();
    if a_face >= n {
        return Err(TopologyError::InvalidFace(a_face));
    }
    if b_face >= n {
        return Err(TopologyError::InvalidFace(b_face));
    }
    if a_face == b_face {
        return Err(TopologyError::DegenerateFaceSplit(a_face));
    }
    if !curve_ok {
        return Err(TopologyError::InvalidSplitCurve(count));
    }
    if !curve_has_span {
        return Err(TopologyError::DegenerateFaceSplit(a_face));
    }
    let a_split = face_splits[a_face].len();
    let b_split = face_splits[b_face].len();
    if !a_pcurve_ok {
        return Err(TopologyError::InvalidFaceSplit(a_face, a_split));
    }
    if !b_pcurve_ok {
        return Err(TopologyError::InvalidFaceSplit(b_face, b_split));
    }
    match split_edges_error {
        Some(e) => {
            return Err(e);
        },
        None => {},
    }
    let ghost rows0 = split_rows(face_splits@);
    let u = FaceSplitUse { split_edge: count, usable: true };
    push_split_use(face_splits, a_face, u);
    push_split_use(face_splits, b_face, u);
    proof {
        assert(split_rows(face_splits@) == staged_rows(rows0, count as nat, a_face, b_face));
    }
    let checked = check_face_split_uses(count + 1, face_splits);
    match checked {
        Err(e) => {
            proof {
                assert(face_splits@[b_face as int]@ == split_rows(face_splits@)[b_face as int]);
            }
            pop_split_use(face_splits, b_face);
            proof {
                assert(face_splits@[a_face as int]@ == split_rows(face_splits@)[a_face as int]);
            }
            pop_split_use(face_splits, a_face);
            proof {
                let r1 = rows0.update(a_face as int, rows0[a_face as int].push(u));
                assert(r1[b_face as int] == rows0[b_face as int]);
                assert(rows0[b_face as int].push(u).drop_last() =~= rows0[b_face as int]);
                assert(rows0[a_face as int].push(u).drop_last() =~= rows0[a_face as int]);
                assert(split_rows(face_splits@) =~= rows0);
            }
            return Err(e);
        },
        Ok(_) => {},
    }
    let fa = match identity.face(a_face) {
        Some(id) => id,
        None => {
            return Err(TopologyError::InvalidPersistentIdentity);
        },
    };
    let fb = match identity.face(b_face) {
        Some(id) => id,
        None => {
            return Err(TopologyError::InvalidPersistentIdentity);
        },
    };
    let id = identity.allocate_split_edge();
    let mut created: Vec<PersistentId> = Vec::new();
    created.push(id);
    let mut modified: Vec<PersistentId> = Vec::new();
    modified.push(fa);
    modified.push(fb);
    let mut parents: Vec<PersistentId> = Vec::new();
    parents.push(fa);
    parents.push(fb);
    proof {
        assert(created@ =~= seq![id]);
        assert(modified@ =~= seq![fa, fb]);
        assert(parents@ =~= seq![fa, fb]);
    }
    let deleted: Vec<PersistentId> = Vec::new();
    proof {
        assert(deleted@ =~= Seq::<PersistentId>::empty());
    }
    identity.record(TopologyOperation::SplitFacesWithCurves, created, modified, deleted, parents);
    *split_edge_count = count + 1;
    Ok(SplitFacesReport { split_edge: count, a_face, b_face, a_split, b_split })
}

/// Staging a face split keeps a valid identity valid, with one more split
/// edge and every other topology count unchanged.
pub proof fn lemma_staging_keeps_identity_valid(
    old: IdentityView,
    a: FaceId,
    b: FaceId,
    vertices: nat,
    halfedges: nat,
    edges: nat,
    split_edges: nat,
    faces: nat,
    shells: nat,
)
    requires
        old.is_valid_for(vertices, halfedges, edges, split_edges, faces, shells),
        a < faces,
        b < faces,
        1 <= old.next_serial < u64::MAX,
        old.revision < u64::MAX,
    ensures
        staged_identity(old, a, b).is_valid_for(vertices, halfedges, edges, split_edges + 1, faces, shells),
        staged_identity(old, a, b).revision == old.revision + 1,
{
    lemma_split_allocation_preserves_validity(old, vertices, halfedges, edges, split_edges, faces, shells);
    let id = PersistentId { kind: PersistentTopologyKind::SplitEdge, serial: old.next_serial };
    let allocated = IdentityView {
        split_edges: old.split_edges.push(id),
        next_serial: (old.next_serial + 1) as u64,
        ..old
    };
    let fs = seq![old.faces[a as int], old.faces[b as int]];
    assert(live_serial(old.faces[a as int], old.next_serial));
    assert(live_serial(old.faces[b as int], old.next_serial));
    assert(ids_live(fs, allocated.next_serial)) by {
        assert forall|i: int| 0 <= i < fs.len() implies live_serial(#[trigger] fs[i], allocated.next_serial) by {
            if i == 0 {
                assert(fs[i] == old.faces[a as int]);
            } else {
                assert(fs[i] == old.faces[b as int]);
            }
        }
    }
    assert(ids_live(seq![id], allocated.next_serial)) by {
        assert forall|i: int| 0 <= i < 1 implies live_serial(#[trigger] seq![id][i], allocated.next_serial) by {
            assert(seq![id][i] == id);
        }
    }
    assert(ids_live(Seq::<PersistentId>::empty(), allocated.next_serial));
    lemma_record_preserves_validity(
        allocated,
        TopologyOperation::SplitFacesWithCurves,
        seq![id],
        fs,
        Seq::empty(),
        fs,
        vertices,
        halfedges,
        edges,
        split_edges + 1,
        faces,
        shells,
    );
}

} // verus!
