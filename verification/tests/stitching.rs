use brep_kernel::intersection::{
    edge_adjacency, graph_edges, next_unvisited_edge, stitch_segment_graph, stitch_walks,
    walk_edges,
};

#[test]
fn repeated_and_collapsed_segments_are_skipped() {
    let g = graph_edges(&[(0, 1), (1, 0), (2, 2), (1, 2), (0, 1)]);
    assert_eq!(g.ends, vec![(0, 1), (1, 2)]);
    assert_eq!(g.segments, vec![0, 3]);
    assert_eq!(edge_adjacency(3, &g.ends), vec![vec![0], vec![0, 1], vec![1]]);
}

#[test]
fn open_path_is_walked_from_its_end() {
    let ends = [(0, 1), (1, 2)];
    let adj = edge_adjacency(3, &ends);
    assert_eq!(
        stitch_walks(&ends, &adj),
        vec![(vec![0, 1, 2], vec![0, 1])]
    );
}

#[test]
fn closed_loop_is_walked_back_to_its_start() {
    let ends = [(0, 1), (1, 2), (2, 0)];
    let adj = edge_adjacency(3, &ends);
    assert_eq!(
        stitch_walks(&ends, &adj),
        vec![(vec![0, 1, 2, 0], vec![0, 1, 2])]
    );
}

#[test]
fn branch_vertices_start_further_walks() {
    let ends = [(0, 1), (1, 2), (1, 3)];
    let adj = edge_adjacency(4, &ends);
    assert_eq!(
        stitch_walks(&ends, &adj),
        vec![(vec![0, 1, 2], vec![0, 1]), (vec![1, 3], vec![2])]
    );
}

#[test]
fn single_walk_marks_what_it_takes() {
    let ends = [(0, 1), (1, 2), (2, 0), (2, 3)];
    let adj = edge_adjacency(4, &ends);
    let mut visited = vec![false; 4];
    let (points, edges) = walk_edges(1, 1, &ends, &adj, &mut visited);
    assert_eq!(points, vec![1, 2, 0, 1]);
    assert_eq!(edges, vec![1, 2, 0]);
    assert_eq!(visited, vec![true, true, true, false]);
    assert_eq!(next_unvisited_edge(2, &adj, &visited), Some(3));
}

#[test]
fn segments_stitch_into_curves_with_their_sources() {
    let (edges, walks) = stitch_segment_graph(4, &[(3, 2), (2, 1), (1, 2), (1, 0)]);
    assert_eq!(edges.ends, vec![(3, 2), (2, 1), (1, 0)]);
    assert_eq!(edges.segments, vec![0, 1, 3]);
    assert_eq!(walks, vec![(vec![0, 1, 2, 3], vec![2, 1, 0])]);
}
