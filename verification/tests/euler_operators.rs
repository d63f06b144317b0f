use brep_kernel::euler::{EulerBuilder, EulerError};
use brep_kernel::halfedge::{
    boundary_halfedge_count, euler_characteristic, genus, halfedge_links_in_range,
    validate_halfedge_links,
};

type Point = (f64, f64, f64);

#[test]
fn mvfs_mev_mef_preserve_euler_characteristic() {
    let mut builder = EulerBuilder::<Point>::new();
    let (v0, face, shell) = builder.mvfs((0.0, 0.0, 0.0)).unwrap();
    assert_eq!(shell, 0);
    assert_eq!(builder.counts().euler_characteristic(), 2);
    assert!(builder.satisfies_euler_invariant());

    let v1 = builder.mev(face, v0, (1.0, 0.0, 0.0)).unwrap();
    assert_eq!(builder.counts().vertices, 2);
    assert_eq!(builder.counts().edges, 1);
    assert_eq!(builder.counts().faces, 1);
    assert!(builder.satisfies_euler_invariant());

    let v2 = builder.mev(face, v1, (0.0, 1.0, 0.0)).unwrap();
    assert_eq!(builder.counts().vertices, 3);
    assert_eq!(builder.counts().edges, 2);
    assert_eq!(builder.counts().faces, 1);
    assert!(builder.satisfies_euler_invariant());

    let closed_face = builder.mef(face, v2, v0).unwrap();
    assert_eq!(closed_face, 1);
    assert_eq!(builder.counts().vertices, 3);
    assert_eq!(builder.counts().edges, 3);
    assert_eq!(builder.counts().faces, 2);
    assert_eq!(builder.counts().euler_characteristic(), 2);
    assert!(builder.satisfies_euler_invariant());
}

#[test]
fn mef_splits_a_quad_face_into_two_triangular_loops() {
    let mut builder = EulerBuilder::<Point>::new();
    let (v0, face, _) = builder.mvfs((-1.0, -1.0, 0.0)).unwrap();
    let v1 = builder.mev(face, v0, (1.0, -1.0, 0.0)).unwrap();
    let v2 = builder.mev(face, v1, (1.0, 1.0, 0.0)).unwrap();
    let v3 = builder.mev(face, v2, (-1.0, 1.0, 0.0)).unwrap();

    let split_face = builder.mef(face, v0, v2).unwrap();
    assert_eq!(builder.face_loop(face).unwrap(), &[v2, v3, v0]);
    assert_eq!(builder.face_loop(split_face).unwrap(), &[v0, v1, v2]);
    assert_eq!(builder.counts().vertices, 4);
    assert_eq!(builder.counts().edges, 4);
    assert_eq!(builder.counts().faces, 2);
    assert!(builder.satisfies_euler_invariant());
}

#[test]
fn closed_triangle_sheet_converts_to_valid_halfedge_topology() {
    let mut builder = EulerBuilder::<Point>::new();
    let (v0, face, _) = builder.mvfs((0.0, 0.0, 0.0)).unwrap();
    let v1 = builder.mev(face, v0, (1.0, 0.0, 0.0)).unwrap();
    let v2 = builder.mev(face, v1, (0.0, 1.0, 0.0)).unwrap();
    builder.mef(face, v2, v0).unwrap();

    let mesh = builder.to_solid_topology().unwrap();
    assert!(halfedge_links_in_range(&mesh.halfedges));
    validate_halfedge_links(&mesh.halfedges).unwrap();
    assert_eq!(boundary_halfedge_count(&mesh.halfedges), 0);
    let chi = euler_characteristic(
        mesh.vertex_halfedges.len(),
        mesh.edge_halfedges.len(),
        mesh.face_halfedges.len(),
    );
    assert_eq!(chi, 2);
    assert_eq!(genus(mesh.shells.len(), chi), Some(0));
}

#[test]
fn open_wire_cannot_convert_to_closed_solid() {
    let mut builder = EulerBuilder::<Point>::new();
    let (v0, face, _) = builder.mvfs((0.0, 0.0, 0.0)).unwrap();
    builder.mev(face, v0, (1.0, 0.0, 0.0)).unwrap();
    assert!(matches!(
        builder.to_solid_topology(),
        Err(EulerError::OpenConstructionFace(0))
    ));
}

#[test]
fn euler_operators_reject_unknown_entities() {
    let mut builder = EulerBuilder::<Point>::new();
    assert!(matches!(
        builder.mev(0, 0, (0.0, 0.0, 0.0)),
        Err(EulerError::EmptyBuilder)
    ));
    let (v0, face, _) = builder.mvfs((0.0, 0.0, 0.0)).unwrap();
    assert!(matches!(
        builder.mvfs((1.0, 0.0, 0.0)),
        Err(EulerError::BuilderAlreadyInitialized)
    ));
    assert!(matches!(
        builder.mev(face + 1, v0, (1.0, 0.0, 0.0)),
        Err(EulerError::InvalidFace(_))
    ));
    assert!(matches!(
        builder.mev(face, v0 + 7, (1.0, 0.0, 0.0)),
        Err(EulerError::InvalidVertex(_))
    ));
    assert!(builder.satisfies_euler_invariant());
}

#[test]
fn triangulated_construction_fans_each_face_loop() {
    let mut builder = EulerBuilder::<Point>::new();
    let (v0, face, _) = builder.mvfs((0.0, 0.0, 0.0)).unwrap();
    let v1 = builder.mev(face, v0, (1.0, 0.0, 0.0)).unwrap();
    let v2 = builder.mev(face, v1, (1.0, 1.0, 0.0)).unwrap();
    let v3 = builder.mev(face, v2, (0.0, 1.0, 0.0)).unwrap();
    builder.mef(face, v3, v0).unwrap();
    let triangles = builder.triangulate().unwrap();
    assert_eq!(triangles.len(), 4);
    assert_eq!(builder.vertices().len(), 4);
}

#[test]
fn out_of_range_links_are_detected() {
    let mut builder = EulerBuilder::<Point>::new();
    let (v0, face, _) = builder.mvfs((0.0, 0.0, 0.0)).unwrap();
    let v1 = builder.mev(face, v0, (1.0, 0.0, 0.0)).unwrap();
    let v2 = builder.mev(face, v1, (0.0, 1.0, 0.0)).unwrap();
    builder.mef(face, v2, v0).unwrap();
    let mesh = builder.to_solid_topology().unwrap();
    let n = mesh.halfedges.len();

    let mut bad_next = mesh.halfedges.clone();
    bad_next[0].next = n;
    assert!(!halfedge_links_in_range(&bad_next));

    let mut bad_twin = mesh.halfedges.clone();
    bad_twin[n - 1].twin = Some(n + 5);
    assert!(!halfedge_links_in_range(&bad_twin));

    assert!(halfedge_links_in_range(&[]));
}
