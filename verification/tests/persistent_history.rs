use brep_kernel::halfedge::HalfEdgeMesh;
use brep_kernel::identity::TopologyIdentity;
use brep_kernel::topology::{PersistentTopologyKind, TopologyOperation};
use std::collections::HashSet;

const CUBE_TRIANGLES: [[usize; 3]; 12] = [
    [0, 2, 1],
    [0, 3, 2],
    [4, 5, 6],
    [4, 6, 7],
    [0, 1, 5],
    [0, 5, 4],
    [1, 2, 6],
    [1, 6, 5],
    [2, 3, 7],
    [2, 7, 6],
    [3, 0, 4],
    [3, 4, 7],
];

#[test]
fn constructed_solids_have_unique_persistent_topological_ids() {
    let cube = HalfEdgeMesh::from_triangles(8, &CUBE_TRIANGLES).unwrap();

    let ids = cube.identity.all_ids();
    let unique: HashSet<_> = ids.iter().copied().collect();

    assert_eq!(unique.len(), ids.len());
    assert_eq!(
        ids.len(),
        cube.vertex_halfedges.len()
            + cube.halfedges.len()
            + cube.edge_halfedges.len()
            + cube.face_halfedges.len()
            + cube.shells.len()
    );
    assert_eq!(cube.identity.revision(), 1);
    assert_eq!(cube.identity.history().len(), 1);
    assert_eq!(
        cube.identity.history()[0].operation,
        TopologyOperation::ConstructTriangleMesh
    );
    assert_eq!(cube.identity.history()[0].created.len(), ids.len());
    assert_eq!(cube.identity.face(0).unwrap().kind, PersistentTopologyKind::Face);
    cube.identity
        .validate_persistent_identity(8, 36, 18, 0, 12, 1)
        .unwrap();
}

#[test]
fn allocation_extends_serials_and_keeps_identity_valid() {
    let mut identity = TopologyIdentity::from_counts(1, 0, 0, 0, 1, 1);
    let before = identity.next_serial();
    let split = identity.allocate_split_edge();
    assert_eq!(split.kind, PersistentTopologyKind::SplitEdge);
    assert_eq!(split.serial, before);
    assert_eq!(identity.next_serial(), before + 1);
    assert_eq!(identity.split_edge(0), Some(split));
    let face = identity.face(0).unwrap();
    identity.record(
        TopologyOperation::SplitFacesWithCurves,
        vec![split],
        vec![face],
        Vec::new(),
        vec![face],
    );
    assert_eq!(identity.revision(), 2);
    assert_eq!(identity.history().len(), 2);
    identity.validate_persistent_identity(1, 0, 0, 1, 1, 1).unwrap();
}

#[test]
fn identity_rejects_mismatched_counts() {
    let identity = TopologyIdentity::from_counts(2, 0, 0, 0, 1, 1);
    assert!(identity.validate_persistent_identity(3, 0, 0, 0, 1, 1).is_err());
}
