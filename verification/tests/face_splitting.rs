use brep_kernel::face_install::{
    finish_inner_loop_install, install_open_split, plan_trim_ready_install, TrimReadyInstallPlan,
};
use brep_kernel::face_splits::{stage_face_split, FaceSplitUse};
use brep_kernel::halfedge::HalfEdgeMesh;
use brep_kernel::topology::{
    SplitFacesReport, TopologyError, TopologyOperation, TrimReadyFaceConversionKind,
};

const CUBE: [[usize; 3]; 12] = [
    [0, 2, 1],
    [0, 3, 2],
    [4, 5, 6],
    [4, 6, 7],
    [0, 1, 5],
    [0, 5, 4],
    [1, 2, 6],
    [1, 6, 5],
    [2, 3, 7],
    [2, 7, 6],
    [3, 0, 4],
    [3, 4, 7],
];

fn cube() -> HalfEdgeMesh {
    HalfEdgeMesh::from_triangles(8, &CUBE).unwrap()
}

fn used(split_edge: usize) -> FaceSplitUse {
    FaceSplitUse {
        split_edge,
        usable: true,
    }
}

#[test]
fn staging_a_split_records_it_on_both_faces() {
    let mut mesh = cube();
    let mut splits = vec![Vec::new(); 12];
    let mut count = 0;
    let report = stage_face_split(
        &mut splits,
        &mut count,
        &mut mesh.identity,
        0,
        1,
        true,
        true,
        true,
        true,
        None,
    )
    .unwrap();
    assert_eq!(
        report,
        SplitFacesReport {
            split_edge: 0,
            a_face: 0,
            b_face: 1,
            a_split: 0,
            b_split: 0,
        }
    );
    assert_eq!(count, 1);
    assert_eq!(splits[0], vec![used(0)]);
    assert_eq!(splits[1], vec![used(0)]);
    assert_eq!(mesh.identity.revision(), 2);
    let event = mesh.identity.history().last().unwrap();
    assert_eq!(event.operation, TopologyOperation::SplitFacesWithCurves);
    assert_eq!(event.created, vec![mesh.identity.split_edge(0).unwrap()]);
    let faces = vec![mesh.identity.face(0).unwrap(), mesh.identity.face(1).unwrap()];
    assert_eq!(event.modified, faces);
    assert_eq!(event.parents, faces);
    assert!(event.deleted.is_empty());
    assert!(mesh.validate(8, 1).is_ok());
}

#[test]
fn staging_errors_come_in_order_and_change_nothing() {
    let mut mesh = cube();
    let mut splits = vec![Vec::new(); 12];
    let mut count = 0;
    let before = mesh.identity.clone();
    let cases = [
        ((12, 1, true, true, true, true), TopologyError::InvalidFace(12)),
        ((0, 12, true, true, true, true), TopologyError::InvalidFace(12)),
        ((3, 3, false, false, false, false), TopologyError::DegenerateFaceSplit(3)),
        ((0, 1, false, false, false, false), TopologyError::InvalidSplitCurve(0)),
        ((0, 1, true, false, false, false), TopologyError::DegenerateFaceSplit(0)),
        ((0, 1, true, true, false, false), TopologyError::InvalidFaceSplit(0, 0)),
        ((0, 1, true, true, true, false), TopologyError::InvalidFaceSplit(1, 0)),
    ];
    for ((a, b, curve, span, pa, pb), expected) in cases {
        let r = stage_face_split(
            &mut splits,
            &mut count,
            &mut mesh.identity,
            a,
            b,
            curve,
            span,
            pa,
            pb,
            None,
        );
        assert_eq!(r, Err(expected));
    }
    let r = stage_face_split(
        &mut splits,
        &mut count,
        &mut mesh.identity,
        0,
        1,
        true,
        true,
        true,
        true,
        Some(TopologyError::SplitCurveEndpointMismatch(4)),
    );
    assert_eq!(r, Err(TopologyError::SplitCurveEndpointMismatch(4)));
    assert_eq!(count, 0);
    assert!(splits.iter().all(|s| s.is_empty()));
    assert_eq!(mesh.identity, before);
}

#[test]
fn broken_existing_split_use_rolls_the_new_split_back() {
    let mut mesh = cube();
    let mut splits = vec![Vec::new(); 12];
    let mut count = 0;
    stage_face_split(
        &mut splits, &mut count, &mut mesh.identity, 0, 1, true, true, true, true, None,
    )
    .unwrap();
    splits[1].clear();
    let identity = mesh.identity.clone();
    let r = stage_face_split(
        &mut splits, &mut count, &mut mesh.identity, 2, 3, true, true, true, true, None,
    );
    assert_eq!(r, Err(TopologyError::InvalidSplitEdge(0)));
    assert_eq!(count, 1);
    assert_eq!(splits[0], vec![used(0)]);
    assert!(splits[2].is_empty() && splits[3].is_empty());
    assert_eq!(mesh.identity, identity);
}

#[test]
fn install_plans_follow_closedness_and_matches() {
    let splits = vec![vec![used(0)], vec![used(0)], Vec::new()];
    let loops = [1, 2, 1];
    let plan = |closed, loops_found, split_found| {
        plan_trim_ready_install(
            &splits, &loops, 1, 0, 1, true, true, true, closed, loops_found, split_found, 2,
        )
    };
    match plan(true, (Some(1), Some(1)), None).unwrap() {
        TrimReadyInstallPlan::ReuseInnerLoops(r) => {
            assert_eq!(r.kind, TrimReadyFaceConversionKind::ClosedInnerLoops);
            assert_eq!((r.a_loop, r.b_loop, r.snapped_pcurve_endpoints), (Some(1), Some(1), 2));
            assert!(r.merged_existing);
        }
        other => panic!("unexpected plan {other:?}"),
    }
    assert_eq!(
        plan(true, (Some(1), None), None),
        Ok(TrimReadyInstallPlan::AddInnerLoops { a_loop: 1, b_loop: 2 })
    );
    let existing = SplitFacesReport {
        split_edge: 0,
        a_face: 0,
        b_face: 1,
        a_split: 0,
        b_split: 0,
    };
    match plan(false, (None, None), Some(existing)).unwrap() {
        TrimReadyInstallPlan::ReuseSplit(r) => {
            assert_eq!(r.kind, TrimReadyFaceConversionKind::OpenSplit);
            assert_eq!(r.split, Some(existing));
            assert!(r.merged_existing);
        }
        other => panic!("unexpected plan {other:?}"),
    }
    assert_eq!(plan(false, (None, None), None), Ok(TrimReadyInstallPlan::StageSplit));
    assert_eq!(
        plan_trim_ready_install(&splits, &loops, 1, 0, 1, true, false, true, true, (None, None), None, 0),
        Err(TopologyError::InvalidFaceSplit(0, 1))
    );
    assert_eq!(
        plan_trim_ready_install(&splits, &loops, 1, 0, 1, false, true, true, true, (None, None), None, 0),
        Err(TopologyError::InvalidSplitCurve(1))
    );
    assert_eq!(
        plan_trim_ready_install(&splits, &loops, 1, 0, 5, true, true, true, true, (None, None), None, 0),
        Err(TopologyError::InvalidFace(5))
    );
}

#[test]
fn inner_loop_install_records_or_leaves_identity() {
    let mut mesh = cube();
    let before = mesh.identity.clone();
    let failed = finish_inner_loop_install(
        &mut mesh.identity,
        2,
        3,
        1,
        1,
        0,
        Err(TopologyError::InvalidTrimLoopNesting(2, 1)),
    );
    assert_eq!(failed, Err(TopologyError::InvalidTrimLoopNesting(2, 1)));
    assert_eq!(mesh.identity, before);
    let report = finish_inner_loop_install(&mut mesh.identity, 2, 3, 1, 1, 3, Ok(())).unwrap();
    assert_eq!(report.kind, TrimReadyFaceConversionKind::ClosedInnerLoops);
    assert_eq!((report.a_loop, report.b_loop), (Some(1), Some(1)));
    assert_eq!(report.snapped_pcurve_endpoints, 3);
    assert!(!report.merged_existing);
    let event = mesh.identity.history().last().unwrap();
    assert_eq!(event.operation, TopologyOperation::InstallTrimReadyFaceCurve);
    assert!(event.created.is_empty());
    assert_eq!(mesh.identity.revision(), 2);
}

#[test]
fn open_install_stages_a_split() {
    let mut mesh = cube();
    let mut splits = vec![Vec::new(); 12];
    let mut count = 0;
    let report = install_open_split(
        &mut splits, &mut count, &mut mesh.identity, 4, 5, true, true, true, true, None, 1,
    )
    .unwrap();
    assert_eq!(report.kind, TrimReadyFaceConversionKind::OpenSplit);
    assert_eq!(report.split.unwrap().split_edge, 0);
    assert_eq!(report.snapped_pcurve_endpoints, 1);
    assert!(!report.merged_existing);
    assert_eq!(count, 1);
}
