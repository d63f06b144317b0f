use brep_kernel::halfedge::HalfEdgeMesh;
use brep_kernel::topology::{TopologyError, TrimLoopKind};
use brep_kernel::trim_topology::{
    find_trim, trim_loop_counts, validate_face_trims, validate_trim_loop, validate_trim_topology,
    TrimLoopUses, TrimUse,
};

const CUBE: [[usize; 3]; 12] = [
    [0, 2, 1],
    [0, 3, 2],
    [4, 5, 6],
    [4, 6, 7],
    [0, 1, 5],
    [0, 5, 4],
    [1, 2, 6],
    [1, 6, 5],
    [2, 3, 7],
    [2, 7, 6],
    [3, 0, 4],
    [3, 4, 7],
];

fn cube() -> HalfEdgeMesh {
    HalfEdgeMesh::from_triangles(8, &CUBE).unwrap()
}

fn face_loop(mesh: &HalfEdgeMesh, face: usize) -> Vec<usize> {
    let a = mesh.face_halfedges[face];
    let b = mesh.halfedges[a].next;
    let c = mesh.halfedges[b].next;
    vec![a, b, c]
}

#[test]
fn face_cycles_make_valid_trim_topology() {
    let mesh = cube();
    let faces: Vec<Vec<TrimLoopUses>> = (0..12)
        .map(|f| vec![TrimLoopUses::from_halfedges(TrimLoopKind::Outer, face_loop(&mesh, f))])
        .collect();
    assert_eq!(
        validate_trim_topology(&mesh.halfedges, &mesh.face_halfedges, &faces),
        Ok(())
    );
    assert_eq!(trim_loop_counts(&faces), (12, 0));
}

#[test]
fn trim_loop_errors_come_in_trim_order() {
    let mesh = cube();
    let hs = face_loop(&mesh, 3);
    let good: Vec<TrimUse> = hs
        .iter()
        .map(|&h| TrimUse { halfedge: Some(h), curve_ok: true })
        .collect();
    assert_eq!(validate_trim_loop(&mesh.halfedges, 3, 0, &good, true), Ok(()));
    assert_eq!(
        validate_trim_loop(&mesh.halfedges, 3, 2, &[], true),
        Err(TopologyError::InvalidTrimLoop(3, 2))
    );
    assert_eq!(
        validate_trim_loop(&mesh.halfedges, 3, 0, &good, false),
        Err(TopologyError::OpenTrimLoop(3, 0))
    );

    let mut bad_curve = good.clone();
    bad_curve[1].curve_ok = false;
    assert_eq!(
        validate_trim_loop(&mesh.halfedges, 3, 0, &bad_curve, true),
        Err(TopologyError::InvalidTrimCurve(3, 0, 1))
    );

    let foreign = face_loop(&mesh, 4)[0];
    let mut wrong_face = good.clone();
    wrong_face[0].halfedge = Some(foreign);
    assert_eq!(
        validate_trim_loop(&mesh.halfedges, 3, 0, &wrong_face, true),
        Err(TopologyError::InvalidTrimHalfEdge(3, foreign))
    );

    let reversed = vec![good[0], good[2], good[1]];
    assert_eq!(
        validate_trim_loop(&mesh.halfedges, 3, 1, &reversed, true),
        Err(TopologyError::InvalidTrimLoop(3, 1))
    );

    let mut unresolved_gap = good.clone();
    unresolved_gap[1].halfedge = None;
    assert_eq!(
        validate_trim_loop(&mesh.halfedges, 3, 0, &unresolved_gap, true),
        Ok(())
    );
}

#[test]
fn faces_need_their_start_half_edge_and_one_outer_loop() {
    let mesh = cube();
    let outer = TrimLoopUses::from_halfedges(TrimLoopKind::Outer, face_loop(&mesh, 5));
    let start = mesh.face_halfedges[5];
    assert_eq!(
        validate_face_trims(&mesh.halfedges, 5, start, &[outer.clone()]),
        Ok(())
    );
    assert_eq!(
        validate_face_trims(&mesh.halfedges, 5, mesh.face_halfedges[6], &[outer.clone()]),
        Err(TopologyError::BrokenHalfEdge(mesh.face_halfedges[6]))
    );
    assert_eq!(
        validate_face_trims(&mesh.halfedges, 5, mesh.halfedges.len(), &[outer.clone()]),
        Err(TopologyError::BrokenHalfEdge(mesh.halfedges.len()))
    );
    assert_eq!(
        validate_face_trims(&mesh.halfedges, 5, start, &[outer.clone(), outer.clone()]),
        Err(TopologyError::MissingOuterTrimLoop(5))
    );
    assert_eq!(
        validate_face_trims(&mesh.halfedges, 5, start, &[]),
        Err(TopologyError::MissingOuterTrimLoop(5))
    );
    let empty_inner = TrimLoopUses {
        kind: TrimLoopKind::Inner,
        trims: Vec::new(),
        closes: true,
    };
    assert_eq!(
        validate_face_trims(&mesh.halfedges, 5, start, &[outer, empty_inner]),
        Err(TopologyError::InvalidTrimLoop(5, 1))
    );
}

#[test]
fn trims_are_found_loop_by_loop() {
    let loops = vec![
        TrimLoopUses::from_halfedges(TrimLoopKind::Outer, vec![4, 5, 6]),
        TrimLoopUses::from_halfedges(TrimLoopKind::Inner, vec![9, 5]),
    ];
    assert_eq!(find_trim(&loops, 5), Some((0, 1)));
    assert_eq!(find_trim(&loops, 9), Some((1, 0)));
    assert_eq!(find_trim(&loops, 7), None);
    assert_eq!(trim_loop_counts(&[loops.clone(), Vec::new(), loops]), (2, 2));
}
