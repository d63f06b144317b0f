use brep_kernel::halfedge::HalfEdgeMesh;
use brep_kernel::topology::TopologyError;

#[test]
fn mesh_construction_rejects_invalid_vertex_indices_without_panicking() {
    let triangles = [[0, 1, 2]];
    match HalfEdgeMesh::from_triangles(2, &triangles) {
        Err(error) => assert_eq!(error, TopologyError::InvalidVertex(2)),
        Ok(_) => panic!("vertex 2 does not exist"),
    }
    let (map, _) = brep_kernel::sewing::sew_vertex_map(2, &[]);
    assert_eq!(
        brep_kernel::sewing::sew_triangles(&map, &triangles),
        Err(TopologyError::InvalidVertex(2))
    );
}

use brep_kernel::sewing::{sew_triangles, sew_vertex_map, DisjointSets};

#[test]
fn sewing_reports_triangles_collapsed_by_vertex_merge() {
    // Vertices 0 and 1 lie within tolerance of each other.
    let (map, clusters) = sew_vertex_map(4, &[(0, 1)]);
    assert_eq!(clusters, 3);
    assert_eq!(map, vec![0, 0, 1, 2]);
    let (triangles, removed) = sew_triangles(&map, &[[0, 1, 2], [0, 2, 3]]).unwrap();
    assert_eq!(triangles, vec![[0, 1, 2]]);
    assert_eq!(removed, 1);
    assert_eq!(4 - clusters, 1);
    assert_eq!(map[0], map[1]);
}

#[test]
fn sewing_closes_shell_with_near_duplicate_vertex() {
    // An open tetrahedron whose fifth vertex duplicates vertex 0.
    let triangles = [[0, 1, 2], [0, 3, 1], [1, 3, 2], [2, 3, 4]];
    assert!(matches!(
        HalfEdgeMesh::from_triangles(5, &triangles),
        Err(TopologyError::BoundaryEdge(_, _))
    ));
    let (map, clusters) = sew_vertex_map(5, &[(0, 4)]);
    assert_eq!(clusters, 4);
    assert_eq!(map[0], map[4]);
    let (sewn, removed) = sew_triangles(&map, &triangles).unwrap();
    assert_eq!(removed, 0);
    assert_eq!(sewn.len(), 4);
    let mesh = HalfEdgeMesh::from_triangles(clusters, &sewn).unwrap();
    assert_eq!(mesh.vertex_halfedges.len(), 4);
    assert_eq!(mesh.face_halfedges.len(), 4);
}

#[test]
fn sewing_rejects_out_of_range_corners() {
    let (map, _) = sew_vertex_map(2, &[]);
    assert_eq!(
        sew_triangles(&map, &[[0, 1, 2]]),
        Err(TopologyError::InvalidVertex(2))
    );
}

#[test]
fn cluster_numbers_follow_first_vertex_order() {
    let (map, clusters) = sew_vertex_map(6, &[(4, 1), (5, 2), (2, 4)]);
    assert_eq!(map, vec![0, 1, 1, 2, 1, 1]);
    assert_eq!(clusters, 3);
}

#[test]
fn disjoint_sets_merge_and_find_representatives() {
    let mut sets = DisjointSets::new(5);
    assert_eq!(sets.len(), 5);
    sets.union(0, 1);
    sets.union(3, 4);
    assert_eq!(sets.find(0), sets.find(1));
    assert_ne!(sets.find(1), sets.find(3));
    sets.union(1, 4);
    assert_eq!(sets.find(0), sets.find(3));
    assert_ne!(sets.find(2), sets.find(0));
    assert_eq!(sets.find(2), 2);
}

#[test]
fn union_keeps_the_root_of_higher_rank() {
    let mut sets = DisjointSets::new(4);
    sets.union(0, 1);
    assert_eq!(sets.find(1), 0);
    sets.union(2, 0);
    assert_eq!(sets.find(2), 0);
    sets.union(3, 3);
    assert_eq!(sets.find(3), 3);
}

#[test]
fn sewn_topology_counts_merged_vertices() {
    let sewn = brep_kernel::sewing::sew_mesh_topology(
        5,
        &[(0, 3), (1, 4)],
        &[[0, 1, 2], [3, 4, 0], [2, 3, 4]],
    )
    .unwrap();
    assert_eq!(sewn.vertex_map, vec![0, 1, 2, 0, 1]);
    assert_eq!(sewn.output_vertices, 3);
    assert_eq!(sewn.merged_vertices, 2);
    assert_eq!(sewn.triangles, vec![[0, 1, 2], [2, 0, 1]]);
    assert_eq!(sewn.removed_degenerate_triangles, 1);
    assert_eq!(
        brep_kernel::sewing::sew_mesh_topology(2, &[], &[[0, 1, 2]]),
        Err(TopologyError::InvalidVertex(2))
    );
}

#[test]
fn mesh_validation_checks_identity_and_links() {
    let tris = [[0, 1, 2], [0, 2, 1]];
    let mesh = HalfEdgeMesh::from_triangles(3, &tris).unwrap();
    assert_eq!(mesh.validate(3, 0), Ok(()));
    assert_eq!(mesh.validate(4, 0), Err(TopologyError::InvalidPersistentIdentity));
    let mut broken = mesh.clone();
    broken.halfedges[0].next = 99;
    assert_eq!(broken.validate(3, 0), Err(TopologyError::BrokenHalfEdge(6)));
    let mut open = mesh.clone();
    open.halfedges[0].twin = None;
    assert!(matches!(open.validate(3, 0), Err(TopologyError::BoundaryEdge(..))));
}
