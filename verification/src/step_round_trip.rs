//! The STEP reader gives back the points and triangles that the STEP
//! writer wrote.
use vstd::prelude::*;
use crate::errors::KernelError;
use crate::exchange::{
    empty_scan, lemma_lookup_first, lemma_position_first, loop_indices, lookup, normalized_loop,
    position_of, step_face_triangles, step_mesh, step_scan, step_scan_entity, step_text,
    triangles_in_range, StepImportError, StepScan,
};
use crate::euler::fan;
use crate::exchange_laws::free_of;
use crate::halfedge::lemma_he_index;
use crate::step_laws::{
    brep_body, entries_upto, face_body, lemma_bound_face_refs, lemma_face_kinds, lemma_loop_refs,
    lemma_other_kinds, lemma_point_coords, lemma_point_kind, lemma_step_records,
    point_body, shell_body, step_body, step_plain_coordinates, step_plain_text,
};

verus! {

/// Scan state after the first `i` point records.
pub open spec fn points_scan(coords: Seq<Seq<Seq<char>>>, i: nat) -> StepScan {
    StepScan {
        points: Seq::new(i, |m: int| (m + 1) as usize),
        coords: coords.subrange(0, i as int),
        loops: seq![],
        bounds: seq![],
        face_bounds: seq![],
    }
}

/// The poly-loop references of a triangle: its corners counted from one.
pub open spec fn loop_refs(t: [usize; 3]) -> Seq<usize> {
    seq![(t[0] + 1) as usize, (t[1] + 1) as usize, (t[2] + 1) as usize]
}

/// Scan state after all point records and the records of the first `j`
/// triangles.
pub open spec fn faces_scan(coords: Seq<Seq<Seq<char>>>, tris: Seq<[usize; 3]>, j: nat) -> StepScan {
    let v = coords.len();
    StepScan {
        points: Seq::new(v, |m: int| (m + 1) as usize),
        coords: coords,
        loops: Seq::new(j, |m: int| ((v + 1 + 3 * m) as usize, loop_refs(tris[m]))),
        bounds: Seq::new(j, |m: int| ((v + 2 + 3 * m) as usize, (v + 1 + 3 * m) as usize)),
        face_bounds: Seq::new(j, |m: int| (v + 2 + 3 * m) as usize),
    }
}

/// Scanning `a` and then `b`.
pub proof fn lemma_step_scan_concat(
    a: Seq<(usize, Seq<char>)>,
    b: Seq<(usize, Seq<char>)>,
    errs: Seq<(usize, KernelError)>,
    st: StepScan,
)
    ensures
        step_scan(a + b, errs, st) == match step_scan(a, errs, st) {
            Ok(next) => step_scan(b, errs, next),
            Err(e) => Err(e),
        },
    decreases a.len(),
{
    if a.len() == 0 {
        assert(a + b =~= b);
    } else {
        assert((a + b)[0] == a[0]);
        assert((a + b).drop_first() =~= a.drop_first() + b);
        match step_scan_entity(st, a[0].0, a[0].1, errs) {
            Ok(next) => {
                lemma_step_scan_concat(a.drop_first(), b, errs, next);
            },
            Err(_) => {},
        }
    }
}

/// A point record extends the scan by that point.
#[verifier::spinoff_prover]
pub proof fn lemma_scan_point(coords: Seq<Seq<Seq<char>>>, i: nat)
    requires
        step_plain_coordinates(coords),
        i < coords.len(),
        coords.len() < usize::MAX,
    ensures
        step_scan_entity(
            points_scan(coords, i),
            (i + 1) as usize,
            point_body(coords[i as int]),
            seq![],
        ) == Ok::<StepScan, StepImportError>(points_scan(coords, i + 1)),
{
    let c = coords[i as int];
    assert(c.len() == 3 && step_plain_text(c[0]) && step_plain_text(c[1]) && step_plain_text(c[2])) by {
        assert(step_plain_text(coords[i as int][0]));
        assert(step_plain_text(coords[i as int][1]));
        assert(step_plain_text(coords[i as int][2]));
    }
    lemma_point_kind(c);
    lemma_point_coords(c);
    let st = points_scan(coords, i);
    assert(lookup(Seq::<(usize, KernelError)>::empty(), (i + 1) as usize) is None);
    assert(st.points.push((i + 1) as usize) =~= points_scan(coords, i + 1).points);
    assert(st.coords.push(c) =~= points_scan(coords, i + 1).coords);
}

pub proof fn lemma_scan_points(
    coords: Seq<Seq<Seq<char>>>,
    tris: Seq<[usize; 3]>,
    name: Seq<char>,
    es: Seq<(usize, Seq<char>)>,
    i: nat,
)
    requires
        step_plain_coordinates(coords),
        i <= coords.len(),
        coords.len() < usize::MAX,
        es.len() == coords.len() - i,
        forall|m: int|
            0 <= m < es.len() ==> #[trigger] es[m] == ((i + m + 1) as usize, step_body(
                coords,
                tris,
                name,
                i + m,
            )),
    ensures
        step_scan(es, seq![], points_scan(coords, i)) == Ok::<StepScan, StepImportError>(
            points_scan(coords, coords.len()),
        ),
    decreases es.len(),
{
    if es.len() > 0 {
        assert(es[0] == ((i + 1) as usize, point_body(coords[i as int])));
        lemma_scan_point(coords, i);
        let rest = es.drop_first();
        assert forall|m: int| 0 <= m < rest.len() implies #[trigger] rest[m] == ((i + 1 + m + 1) as usize,
        step_body(coords, tris, name, i + 1 + m)) by {
            assert(rest[m] == es[m + 1]);
        }
        lemma_scan_points(coords, tris, name, rest, i + 1);
    }
}

/// The three records of triangle `j` extend the scan by its poly-loop,
/// its outer bound and its face.
#[verifier::spinoff_prover]
#[verifier::rlimit(40)]
pub proof fn lemma_scan_triangle(coords: Seq<Seq<Seq<char>>>, tris: Seq<[usize; 3]>, j: nat)
    requires
        j < tris.len(),
        triangles_in_range(tris, coords.len()),
        coords.len() + 3 * tris.len() + 2 <= usize::MAX,
    ensures
        step_scan(
            seq![
                ((coords.len() + 1 + 3 * j) as usize, face_body(coords.len(), j, tris[j as int], 0)),
                ((coords.len() + 2 + 3 * j) as usize, face_body(coords.len(), j, tris[j as int], 1)),
                ((coords.len() + 3 + 3 * j) as usize, face_body(coords.len(), j, tris[j as int], 2)),
            ],
            seq![],
            faces_scan(coords, tris, j),
        ) == Ok::<StepScan, StepImportError>(faces_scan(coords, tris, j + 1)),
{
    let v = coords.len();
    let t = tris[j as int];
    assert(t[0] < v && t[1] < v && t[2] < v) by {
        assert(tris[j as int][0] < v);
        assert(tris[j as int][1] < v);
        assert(tris[j as int][2] < v);
    }
    lemma_face_kinds(v, j, t);
    lemma_loop_refs(v, j, t);
    lemma_bound_face_refs(v, j, t);
    let errs = Seq::<(usize, KernelError)>::empty();
    let st0 = faces_scan(coords, tris, j);
    let st1 = StepScan { loops: st0.loops.push(((v + 1 + 3 * j) as usize, loop_refs(t))), ..st0 };
    let st2 = StepScan { bounds: st1.bounds.push(((v + 2 + 3 * j) as usize, (v + 1 + 3 * j) as usize)), ..st1 };
    let st3 = StepScan { face_bounds: st2.face_bounds.push((v + 2 + 3 * j) as usize), ..st2 };
    let e0 = ((v + 1 + 3 * j) as usize, face_body(v, j, t, 0));
    let e1 = ((v + 2 + 3 * j) as usize, face_body(v, j, t, 1));
    let e2 = ((v + 3 + 3 * j) as usize, face_body(v, j, t, 2));
    assert(step_scan_entity(st0, e0.0, e0.1, errs) == Ok::<StepScan, StepImportError>(st1));
    assert(step_scan_entity(st1, e1.0, e1.1, errs) == Ok::<StepScan, StepImportError>(st2));
    assert(step_scan_entity(st2, e2.0, e2.1, errs) == Ok::<StepScan, StepImportError>(st3));
    let es = seq![e0, e1, e2];
    assert(es.drop_first() =~= seq![e1, e2]);
    assert(es.drop_first().drop_first() =~= seq![e2]);
    assert(es.drop_first().drop_first().drop_first() =~= Seq::<(usize, Seq<char>)>::empty());
    assert(step_scan(seq![e2], errs, st2) == Ok::<StepScan, StepImportError>(st3)) by {
        assert(seq![e2].drop_first() =~= Seq::<(usize, Seq<char>)>::empty());
        assert(seq![e2][0] == e2);
        assert(step_scan(Seq::<(usize, Seq<char>)>::empty(), errs, st3) == Ok::<
            StepScan,
            StepImportError,
        >(st3));
    }
    assert(step_scan(seq![e1, e2], errs, st1) == Ok::<StepScan, StepImportError>(st3)) by {
        assert(seq![e1, e2].drop_first() =~= seq![e2]);
    }
    assert(st3.loops =~= faces_scan(coords, tris, j + 1).loops);
    assert(st3.bounds =~= faces_scan(coords, tris, j + 1).bounds);
    assert(st3.face_bounds =~= faces_scan(coords, tris, j + 1).face_bounds);
}

#[verifier::spinoff_prover]
#[verifier::rlimit(40)]
pub proof fn lemma_scan_faces(
    coords: Seq<Seq<Seq<char>>>,
    tris: Seq<[usize; 3]>,
    name: Seq<char>,
    es: Seq<(usize, Seq<char>)>,
    j: nat,
)
    requires
        triangles_in_range(tris, coords.len()),
        coords.len() + 3 * tris.len() + 2 <= usize::MAX,
        j <= tris.len(),
        es.len() == 3 * (tris.len() - j),
        forall|m: int|
            0 <= m < es.len() ==> #[trigger] es[m] == ((coords.len() + 3 * j + m + 1) as usize,
            step_body(coords, tris, name, coords.len() + 3 * j + m)),
    ensures
        step_scan(es, seq![], faces_scan(coords, tris, j)) == Ok::<StepScan, StepImportError>(
            faces_scan(coords, tris, tris.len()),
        ),
    decreases tris.len() - j,
{
    let v = coords.len();
    if j < tris.len() {
        let t = tris[j as int];
        let head = es.subrange(0, 3);
        let rest = es.subrange(3, es.len() as int);
        assert(es =~= head + rest);
        assert forall|p: int| 0 <= p < 3 implies step_body(coords, tris, name, v + 3 * j + p)
            == face_body(v, j, t, p) by {
            lemma_he_index(j as int, p);
            assert(v + 3 * j + p - v == 3 * j + p);
        }
        assert(head =~= seq![
            ((v + 1 + 3 * j) as usize, face_body(v, j, t, 0)),
            ((v + 2 + 3 * j) as usize, face_body(v, j, t, 1)),
            ((v + 3 + 3 * j) as usize, face_body(v, j, t, 2)),
        ]) by {
            assert(head[0] == es[0]);
            assert(head[1] == es[1]);
            assert(head[2] == es[2]);
        }
        lemma_scan_triangle(coords, tris, j);
        lemma_step_scan_concat(head, rest, seq![], faces_scan(coords, tris, j));
        assert forall|m: int| 0 <= m < rest.len() implies #[trigger] rest[m] == ((v + 3 * (j + 1) + m
            + 1) as usize, step_body(coords, tris, name, v + 3 * (j + 1) + m)) by {
            assert(rest[m] == es[m + 3]);
        }
        lemma_scan_faces(coords, tris, name, rest, j + 1);
    } else {
        assert(es =~= Seq::<(usize, Seq<char>)>::empty());
    }
}

/// The closing shell and B-rep records leave the scan as it is.
#[verifier::spinoff_prover]
pub proof fn lemma_scan_tail(
    coords: Seq<Seq<Seq<char>>>,
    tris: Seq<[usize; 3]>,
    name: Seq<char>,
    es: Seq<(usize, Seq<char>)>,
    st: StepScan,
)
    requires
        es.len() == 2,
        es[0].1 == shell_body(coords.len(), tris.len()),
        es[1].1 == brep_body(coords.len() + 3 * tris.len() + 1, name),
    ensures
        step_scan(es, seq![], st) == Ok::<StepScan, StepImportError>(st),
{
    lemma_other_kinds(coords.len(), tris.len(), coords.len() + 3 * tris.len() + 1, name);
    let errs = Seq::<(usize, KernelError)>::empty();
    assert(es.drop_first().drop_first() =~= Seq::<(usize, Seq<char>)>::empty());
    assert(es.drop_first()[0] == es[1]);
    assert(step_scan(es.drop_first().drop_first(), errs, st) == Ok::<StepScan, StepImportError>(st));
    assert(step_scan(es.drop_first(), errs, st) == Ok::<StepScan, StepImportError>(st));
}

/// The reader's scan of the writer's records.
#[verifier::spinoff_prover]
#[verifier::rlimit(40)]
pub proof fn lemma_scan_all(coords: Seq<Seq<Seq<char>>>, tris: Seq<[usize; 3]>, name: Seq<char>)
    requires
        step_plain_coordinates(coords),
        triangles_in_range(tris, coords.len()),
        coords.len() + 3 * tris.len() + 2 <= usize::MAX,
    ensures
        step_scan(
            entries_upto(coords, tris, name, (coords.len() + 3 * tris.len() + 2) as nat),
            seq![],
            empty_scan(),
        ) == Ok::<StepScan, StepImportError>(faces_scan(coords, tris, tris.len())),
{
    let v = coords.len() as int;
    let f = tris.len() as int;
    let n = v + 3 * f + 2;
    let all = entries_upto(coords, tris, name, n as nat);
    let ps = all.subrange(0, v);
    let fs = all.subrange(v, v + 3 * f);
    let ts = all.subrange(v + 3 * f, n);
    assert(all =~= ps + fs + ts);
    let errs = Seq::<(usize, KernelError)>::empty();
    assert(points_scan(coords, 0) == empty_scan()) by {
        assert(points_scan(coords, 0).points =~= Seq::<usize>::empty());
        assert(points_scan(coords, 0).coords =~= Seq::<Seq<Seq<char>>>::empty());
    }
    assert forall|m: int| 0 <= m < ps.len() implies #[trigger] ps[m] == ((0 + m + 1) as usize, step_body(
        coords,
        tris,
        name,
        0 + m,
    )) by {
        assert(ps[m] == all[m]);
    }
    lemma_scan_points(coords, tris, name, ps, 0);
    assert(points_scan(coords, coords.len()) == faces_scan(coords, tris, 0)) by {
        assert(coords.subrange(0, v) =~= coords);
        assert(faces_scan(coords, tris, 0).loops =~= Seq::<(usize, Seq<usize>)>::empty());
        assert(faces_scan(coords, tris, 0).bounds =~= Seq::<(usize, usize)>::empty());
        assert(faces_scan(coords, tris, 0).face_bounds =~= Seq::<usize>::empty());
    }
    assert forall|m: int| 0 <= m < fs.len() implies #[trigger] fs[m] == ((v + 3 * 0 + m + 1) as usize,
    step_body(coords, tris, name, v + 3 * 0 + m)) by {
        assert(fs[m] == all[v + m]);
    }
    lemma_scan_faces(coords, tris, name, fs, 0);
    assert(ts[0] == all[v + 3 * f]);
    assert(ts[1] == all[v + 3 * f + 1]);
    lemma_scan_tail(coords, tris, name, ts, faces_scan(coords, tris, tris.len()));
    lemma_step_scan_concat(ps, fs, errs, empty_scan());
    lemma_step_scan_concat(ps + fs, ts, errs, empty_scan());
}

/// Point positions of a triangle's poly-loop references.
#[verifier::spinoff_prover]
pub proof fn lemma_loop_positions(points: Seq<usize>, t: [usize; 3])
    requires
        points.len() < usize::MAX,
        forall|m: int| 0 <= m < points.len() ==> #[trigger] points[m] == m + 1,
        t[0] < points.len(),
        t[1] < points.len(),
        t[2] < points.len(),
    ensures
        loop_indices(points, loop_refs(t)) == Ok::<Seq<usize>, usize>(seq![t[0], t[1], t[2]]),
{
    assert forall|q: int| 0 <= q < 3 implies position_of(points, (t[q] + 1) as usize) == Some(
        t[q] as int,
    ) by {
        assert(points[t[q] as int] == t[q] + 1);
        assert forall|jj: int| 0 <= jj < t[q] implies points[jj] != (t[q] + 1) as usize by {
            assert(points[jj] == jj + 1);
        }
        lemma_position_first(points, (t[q] + 1) as usize, t[q] as int);
    }
    let r = loop_refs(t);
    let r1 = r.drop_first();
    let r2 = r1.drop_first();
    let r3 = r2.drop_first();
    assert(r1 =~= seq![(t[1] + 1) as usize, (t[2] + 1) as usize]);
    assert(r2 =~= seq![(t[2] + 1) as usize]);
    assert(r3 =~= Seq::<usize>::empty());
    assert(position_of(points, r[0]) == Some(t[0] as int));
    assert(position_of(points, r1[0]) == Some(t[1] as int));
    assert(position_of(points, r2[0]) == Some(t[2] as int));
    assert(loop_indices(points, r3) == Ok::<Seq<usize>, usize>(seq![]));
    assert(loop_indices(points, r2) == Ok::<Seq<usize>, usize>(seq![t[2]])) by {
        assert(seq![t[2]] + Seq::<usize>::empty() =~= seq![t[2]]);
    }
    assert(loop_indices(points, r1) == Ok::<Seq<usize>, usize>(seq![t[1], t[2]])) by {
        assert(seq![t[1]] + seq![t[2]] =~= seq![t[1], t[2]]);
    }
    assert(seq![t[0]] + seq![t[1], t[2]] =~= seq![t[0], t[1], t[2]]);
}

/// The triangles of the faces from the `j`-th on.
#[verifier::spinoff_prover]
#[verifier::rlimit(40)]
pub proof fn lemma_face_triangles(
    coords: Seq<Seq<Seq<char>>>,
    tris: Seq<[usize; 3]>,
    fbs: Seq<usize>,
    j: nat,
)
    requires
        triangles_in_range(tris, coords.len()),
        forall|k: int| 0 <= k < tris.len() ==> (#[trigger] tris[k])[0] != tris[k][2],
        coords.len() + 3 * tris.len() + 2 <= usize::MAX,
        j <= tris.len(),
        fbs == faces_scan(coords, tris, tris.len()).face_bounds.subrange(j as int, tris.len() as int),
    ensures
        step_face_triangles(faces_scan(coords, tris, tris.len()), fbs) == Ok::<
            Seq<[usize; 3]>,
            StepImportError,
        >(tris.subrange(j as int, tris.len() as int)),
    decreases tris.len() - j,
{
    let v = coords.len();
    let st = faces_scan(coords, tris, tris.len());
    if j < tris.len() {
        let t = tris[j as int];
        assert(t[0] < v && t[1] < v && t[2] < v) by {
            assert(tris[j as int][0] < v);
            assert(tris[j as int][1] < v);
            assert(tris[j as int][2] < v);
        }
        let b = fbs[0];
        let l = (v + 1 + 3 * j) as usize;
        assert(b == (v + 2 + 3 * j) as usize);
        assert forall|i: int| 0 <= i < j implies st.bounds[i].0 != b by {}
        lemma_lookup_first(st.bounds, b, j as int);
        assert(lookup(st.bounds, b) == Some(l));
        assert forall|i: int| 0 <= i < j implies st.loops[i].0 != l by {}
        lemma_lookup_first(st.loops, l, j as int);
        let refs = loop_refs(t);
        assert(lookup(st.loops, l) == Some(refs));
        assert(t[0] != t[2]);
        assert(normalized_loop(refs) == refs);
        lemma_loop_positions(st.points, t);
        assert(fan(seq![t[0], t[1], t[2]]) =~= seq![t]) by {
            assert([t[0], t[1], t[2]] == t);
        }
        let rest = fbs.drop_first();
        assert(rest =~= st.face_bounds.subrange(j as int + 1, tris.len() as int));
        lemma_face_triangles(coords, tris, rest, j + 1);
        assert(seq![t] + tris.subrange(j as int + 1, tris.len() as int) =~= tris.subrange(
            j as int,
            tris.len() as int,
        ));
    } else {
        assert(fbs =~= Seq::<usize>::empty());
        assert(tris.subrange(j as int, tris.len() as int) =~= Seq::<[usize; 3]>::empty());
    }
}

/// Reading back the STEP text that the writer produces, for at least one
/// point with plain coordinate texts, at least one triangle over the points
/// whose first and last corners differ, and a name without `;`, gives the
/// points numbered from one, their coordinate texts and the triangles.
#[verifier::spinoff_prover]
pub proof fn lemma_step_round_trip(coords: Seq<Seq<Seq<char>>>, tris: Seq<[usize; 3]>, name: Seq<char>)
    requires
        coords.len() > 0,
        tris.len() > 0,
        step_plain_coordinates(coords),
        triangles_in_range(tris, coords.len()),
        forall|k: int| 0 <= k < tris.len() ==> (#[trigger] tris[k])[0] != tris[k][2],
        coords.len() + 3 * tris.len() + 2 <= usize::MAX,
        free_of(name, ';'),
    ensures
        step_mesh(step_text(coords, tris, name), seq![]) == Ok::<
            (Seq<usize>, Seq<Seq<Seq<char>>>, Seq<[usize; 3]>),
            StepImportError,
        >((Seq::new(coords.len(), |i: int| (i + 1) as usize), coords, tris)),
{
    lemma_step_records(coords, tris, name);
    lemma_scan_all(coords, tris, name);
    let st = faces_scan(coords, tris, tris.len());
    assert(st.face_bounds.subrange(0, tris.len() as int) =~= st.face_bounds);
    lemma_face_triangles(coords, tris, st.face_bounds, 0);
    assert(tris.subrange(0, tris.len() as int) =~= tris);
}

} // verus!
