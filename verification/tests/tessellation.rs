use brep_kernel::tessellation::{grid_steps, grid_triangle_indices};

#[test]
fn grid_cells_split_into_two_triangles_row_by_row() {
    assert_eq!(
        grid_triangle_indices(2, 1),
        vec![[0, 1, 4], [0, 4, 3], [1, 2, 5], [1, 5, 4]]
    );
    let grid = grid_triangle_indices(3, 2);
    assert_eq!(grid.len(), 12);
    assert_eq!(grid[6], [4, 5, 9]);
    assert_eq!(grid[11], [6, 11, 10]);
    assert!(grid_triangle_indices(4, 0).is_empty());
}

#[test]
fn grid_steps_are_at_least_one() {
    assert_eq!(grid_steps(0), 1);
    assert_eq!(grid_steps(1), 1);
    assert_eq!(grid_steps(7), 7);
}
