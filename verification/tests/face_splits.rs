use brep_kernel::face_splits::{check_face_split_uses, split_uses, FaceSplitUse};
use brep_kernel::topology::TopologyError;

fn u(split_edge: usize) -> FaceSplitUse {
    FaceSplitUse {
        split_edge,
        usable: true,
    }
}

#[test]
fn split_uses_are_collected_per_split_edge() {
    let faces = vec![vec![u(0), u(1)], vec![], vec![u(1), u(7), u(0)]];
    let uses = split_uses(2, &faces);
    assert_eq!(uses, vec![vec![(0, 0), (2, 2)], vec![(0, 1), (2, 0)]]);
    assert_eq!(split_uses(0, &faces), Vec::<Vec<(usize, usize)>>::new());
}

#[test]
fn each_split_edge_needs_two_different_faces() {
    let faces = vec![vec![u(0), u(1)], vec![u(1)], vec![u(0)]];
    assert_eq!(check_face_split_uses(2, &faces), Ok(()));
    assert_eq!(check_face_split_uses(0, &[]), Ok(()));

    let one_use = vec![vec![u(0), u(1)], vec![u(1)]];
    assert_eq!(
        check_face_split_uses(2, &one_use),
        Err(TopologyError::InvalidSplitEdge(0))
    );

    let same_face = vec![vec![u(0), u(0)], vec![u(1)], vec![u(1)]];
    assert_eq!(
        check_face_split_uses(2, &same_face),
        Err(TopologyError::InvalidSplitEdge(0))
    );

    let unused = vec![vec![u(0)], vec![u(0)]];
    assert_eq!(
        check_face_split_uses(2, &unused),
        Err(TopologyError::InvalidSplitEdge(1))
    );
}

#[test]
fn bad_split_uses_are_reported_in_face_order() {
    let mut faces = vec![vec![u(0)], vec![u(0), u(5)], vec![u(0)]];
    assert_eq!(
        check_face_split_uses(1, &faces),
        Err(TopologyError::InvalidSplitEdge(5))
    );
    faces[1][0].usable = false;
    assert_eq!(
        check_face_split_uses(1, &faces),
        Err(TopologyError::InvalidFaceSplit(1, 0))
    );
}
