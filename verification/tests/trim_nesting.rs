use brep_kernel::topology::{TopologyError, TrimLoopKind};
use brep_kernel::trim_nesting::{
    check_trim_loop_nesting, nesting_depth, trim_loop_depths, trim_loop_parents,
    validate_trim_loop_nesting,
};

fn table(n: usize, pairs: &[(usize, usize)]) -> Vec<Vec<bool>> {
    let mut rows = vec![vec![false; n]; n];
    for &(container, child) in pairs {
        rows[container][child] = true;
    }
    rows
}

#[test]
fn holes_in_an_outer_loop_get_it_as_parent() {
    let ranks = [3, 1, 1];
    let contains = table(3, &[(0, 1), (0, 2)]);
    let parents = trim_loop_parents(&ranks, &contains);
    assert_eq!(parents, vec![None, Some(0), Some(0)]);
    assert_eq!(trim_loop_depths(&parents, &ranks), vec![0, 1, 1]);
    let kinds = [TrimLoopKind::Outer, TrimLoopKind::Inner, TrimLoopKind::Inner];
    assert_eq!(validate_trim_loop_nesting(7, &kinds, &ranks, &contains), Ok(()));
}

#[test]
fn smallest_containing_loop_wins_and_ties_keep_the_first() {
    let ranks = [3, 3, 1];
    let contains = table(3, &[(0, 2), (1, 2)]);
    assert_eq!(trim_loop_parents(&ranks, &contains), vec![None, None, Some(0)]);

    let ranks = [5, 2, 4];
    let contains = table(3, &[(0, 1), (2, 1), (0, 2)]);
    assert_eq!(trim_loop_parents(&ranks, &contains), vec![None, Some(2), Some(0)]);
}

#[test]
fn containment_needs_a_strictly_larger_area() {
    let ranks = [2, 2];
    let contains = table(2, &[(0, 1), (1, 0)]);
    assert_eq!(trim_loop_parents(&ranks, &contains), vec![None, None]);
}

#[test]
fn depth_counts_parent_links() {
    let parents = [None, Some(0), Some(1)];
    let ranks = [3, 2, 1];
    assert_eq!(nesting_depth(0, &parents, &ranks), 0);
    assert_eq!(nesting_depth(2, &parents, &ranks), 2);
}

#[test]
fn inner_loop_inside_another_inner_loop_is_rejected() {
    let kinds = [TrimLoopKind::Outer, TrimLoopKind::Inner, TrimLoopKind::Inner];
    let ranks = [3, 1, 2];
    let contains = table(3, &[(0, 1), (0, 2), (2, 1)]);
    assert_eq!(
        validate_trim_loop_nesting(4, &kinds, &ranks, &contains),
        Err(TopologyError::InvalidTrimLoopNesting(4, 1))
    );
}

#[test]
fn loose_inner_loop_and_nested_outer_loop_are_rejected() {
    let kinds = [TrimLoopKind::Outer, TrimLoopKind::Inner];
    assert_eq!(
        check_trim_loop_nesting(2, &kinds, &[None, None], &[0, 0]),
        Err(TopologyError::InvalidTrimLoopNesting(2, 1))
    );
    let kinds = [TrimLoopKind::Outer, TrimLoopKind::Outer];
    assert_eq!(
        check_trim_loop_nesting(2, &kinds, &[None, Some(0)], &[0, 1]),
        Err(TopologyError::InvalidTrimLoopNesting(2, 1))
    );
    assert_eq!(
        check_trim_loop_nesting(2, &[TrimLoopKind::Outer], &[None], &[1]),
        Err(TopologyError::InvalidTrimLoopNesting(2, 0))
    );
}
