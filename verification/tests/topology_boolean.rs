use brep_kernel::halfedge::{
    boundary_halfedge_count, euler_characteristic, face_triangles, genus, validate_halfedge_links,
    HalfEdgeMesh,
};
use brep_kernel::boolean::{
    canonical_triangle, compact_triangle_mesh, filter_triangles, merge_pair_counts,
    operand_subset_is_closed, region_action_counts, BooleanEdgeMergeKind, BooleanError,
    BooleanFaceMergeKind, BooleanOperand, BooleanRegionAction,
};
use brep_kernel::cube_cylinder::{cube_cylinder_segments, cube_cylinder_triangles};
use brep_kernel::topology::TopologyError;

const CUBE_TRIANGLES: [[usize; 3]; 12] = [
    [0, 2, 1],
    [0, 3, 2],
    [4, 5, 6],
    [4, 6, 7],
    [0, 1, 5],
    [0, 5, 4],
    [1, 2, 6],
    [1, 6, 5],
    [2, 3, 7],
    [2, 7, 6],
    [3, 0, 4],
    [3, 4, 7],
];

#[test]
fn cube_is_closed_genus_zero() {
    let cube = HalfEdgeMesh::from_triangles(8, &CUBE_TRIANGLES).unwrap();
    assert_eq!(boundary_halfedge_count(&cube.halfedges), 0);
    let chi = euler_characteristic(
        cube.vertex_halfedges.len(),
        cube.edge_halfedges.len(),
        cube.face_halfedges.len(),
    );
    assert_eq!(chi, 2);
    assert_eq!(genus(cube.shells.len(), chi), Some(0));
    validate_halfedge_links(&cube.halfedges).unwrap();
}

#[test]
fn cube_mesh_counts_and_faces_round_trip() {
    let cube = HalfEdgeMesh::from_triangles(8, &CUBE_TRIANGLES).unwrap();
    assert_eq!(cube.vertex_halfedges.len(), 8);
    assert_eq!(cube.halfedges.len(), 36);
    assert_eq!(cube.edge_halfedges.len(), 18);
    assert_eq!(cube.face_halfedges.len(), 12);
    assert_eq!(cube.shells.len(), 1);
    assert_eq!(
        face_triangles(&cube.halfedges, &cube.face_halfedges),
        CUBE_TRIANGLES.to_vec()
    );
}

#[test]
fn open_sheet_reports_boundary_edge() {
    let result = HalfEdgeMesh::from_triangles(3, &[[0, 1, 2]]);
    match result {
        Err(error) => assert!(matches!(error, TopologyError::BoundaryEdge(_, _))),
        Ok(_) => panic!("an open sheet is not closed"),
    }
}

#[test]
fn repeated_corner_is_degenerate() {
    let result = HalfEdgeMesh::from_triangles(3, &[[0, 0, 2]]);
    assert!(result.is_err());
}

#[test]
fn genus_of_torus_characteristic_is_one() {
    assert_eq!(genus(1, 0), Some(1));
    assert_eq!(genus(1, -2), Some(2));
    assert_eq!(euler_characteristic(16, 32, 16), 0);
}

#[test]
fn cube_minus_cylinder_connectivity_is_closed_genus_one() {
    let segments = cube_cylinder_segments(64);
    assert_eq!(segments, 64);
    let triangles = cube_cylinder_triangles(segments);
    assert_eq!(triangles.len(), 64 * 8);
    assert_eq!(&triangles[0..8], &[
        [0, 2, 6],
        [0, 6, 4],
        [1, 7, 3],
        [1, 5, 7],
        [1, 0, 4],
        [1, 4, 5],
        [3, 7, 6],
        [3, 6, 2],
    ]);
    let mesh = HalfEdgeMesh::from_triangles(4 * segments, &triangles).unwrap();
    assert_eq!(boundary_halfedge_count(&mesh.halfedges), 0);
    let chi = euler_characteristic(
        mesh.vertex_halfedges.len(),
        mesh.edge_halfedges.len(),
        mesh.face_halfedges.len(),
    );
    assert_eq!(chi, 0);
    assert_eq!(genus(mesh.shells.len(), chi), Some(1));
}

#[test]
fn cube_minus_cylinder_segments_round_up_to_eights() {
    assert_eq!(cube_cylinder_segments(0), 8);
    assert_eq!(cube_cylinder_segments(8), 8);
    assert_eq!(cube_cylinder_segments(9), 16);
    assert_eq!(cube_cylinder_segments(63), 64);
    let last = cube_cylinder_triangles(8);
    assert_eq!(last[8 * 7], [28, 30, 2]);
    assert_eq!(BooleanError::from(TopologyError::BoundaryEdge(1, 2)), BooleanError::Topology(TopologyError::BoundaryEdge(1, 2)));
}

#[test]
fn compaction_keeps_used_vertices_in_order_of_first_use() {
    let vertices = vec!['a', 'b', 'c', 'd', 'e'];
    let mesh = compact_triangle_mesh(vertices, &[[3, 1, 4], [1, 3, 0]]);
    assert_eq!(mesh.vertices, vec!['d', 'b', 'e', 'a']);
    assert_eq!(mesh.triangles, vec![[0, 1, 2], [1, 0, 3]]);
    let empty = compact_triangle_mesh(vec![1u8, 2, 3], &[]);
    assert!(empty.vertices.is_empty());
    assert!(empty.triangles.is_empty());
}

#[test]
fn operand_subsets_of_two_disjoint_cubes_are_closed() {
    let mut triangles = CUBE_TRIANGLES.to_vec();
    for tri in CUBE_TRIANGLES {
        triangles.push([tri[0] + 8, tri[1] + 8, tri[2] + 8]);
    }
    let mesh = HalfEdgeMesh::from_triangles(16, &triangles).unwrap();
    let mut operands = vec![BooleanOperand::Left; 12];
    operands.extend(vec![BooleanOperand::Right; 12]);
    let closed = |ops: &[BooleanOperand], op| {
        operand_subset_is_closed(&mesh.halfedges, &mesh.face_halfedges, ops, op)
    };
    assert!(closed(&operands, BooleanOperand::Left));
    assert!(closed(&operands, BooleanOperand::Right));

    let mut mixed = operands.clone();
    mixed[0] = BooleanOperand::Right;
    assert!(!closed(&mixed, BooleanOperand::Left));
    assert!(!closed(&mixed, BooleanOperand::Right));

    let all_left = vec![BooleanOperand::Left; 24];
    assert!(closed(&all_left, BooleanOperand::Left));
    assert!(!closed(&all_left, BooleanOperand::Right));
}

#[test]
fn triangle_filter_counts_each_reason_in_order() {
    let triangles = [[0, 1, 2], [2, 1, 0], [3, 4, 5], [1, 2, 0], [5, 4, 3], [6, 7, 8]];
    let tiny = [false, false, true, false, false, false];
    let sliver = [false, false, false, false, false, true];
    let report = filter_triangles(&triangles, &tiny, &sliver);
    assert_eq!(report.triangles, vec![[0, 1, 2], [5, 4, 3]]);
    assert_eq!(report.removed_tiny_edge_triangles, 1);
    assert_eq!(report.removed_sliver_triangles, 1);
    assert_eq!(report.removed_duplicate_triangles, 2);

    let flagged_first = filter_triangles(&[[0, 1, 2], [0, 1, 2]], &[true, false], &[true, false]);
    assert_eq!(flagged_first.triangles, vec![[0, 1, 2]]);
    assert_eq!(flagged_first.removed_tiny_edge_triangles, 1);
    assert_eq!(flagged_first.removed_sliver_triangles, 0);
    assert_eq!(flagged_first.removed_duplicate_triangles, 0);

    assert_eq!(canonical_triangle([9, 2, 5]), [2, 5, 9]);
}

#[test]
fn merge_and_region_counts_by_kind() {
    let edges = [
        BooleanEdgeMergeKind::Coincident,
        BooleanEdgeMergeKind::TangentTouch,
        BooleanEdgeMergeKind::Overlapping,
        BooleanEdgeMergeKind::NearlyCoincident,
        BooleanEdgeMergeKind::Overlapping,
    ];
    let faces = [
        BooleanFaceMergeKind::CoplanarOverlap,
        BooleanFaceMergeKind::Overlapping,
        BooleanFaceMergeKind::TangentTouch,
        BooleanFaceMergeKind::NearlyCoincident,
        BooleanFaceMergeKind::CoplanarOverlap,
    ];
    let c = merge_pair_counts(&edges, &faces);
    assert_eq!(c.tangent, 2);
    assert_eq!(c.overlapping, 5);
    assert_eq!(c.coplanar, 2);
    assert_eq!(c.nearly_coincident, 2);

    let actions = [
        BooleanRegionAction::Keep,
        BooleanRegionAction::KeepReversed,
        BooleanRegionAction::Discard,
        BooleanRegionAction::Ignored,
        BooleanRegionAction::Ambiguous,
        BooleanRegionAction::Keep,
    ];
    assert_eq!(region_action_counts(&actions), (3, 1, 1));
    assert_eq!(region_action_counts(&[]), (0, 0, 0));
}
