use brep_kernel::errors::{KernelError, KernelErrorKind, KernelSubsystem};
use brep_kernel::exchange::{
    exchange_parse_error, iges_faceted_text, iges_point_records, iges_token, import_iges_faceted_mesh,
    import_step_faceted_mesh, normalize_loop_refs, parse_step_entities, parse_step_refs,
    parse_usize, step_faceted_text, step_point_coordinates, step_string, ExchangeFormat,
};
use brep_kernel::halfedge::HalfEdgeMesh;
use brep_kernel::topology::TopologyError;

const CUBE_TRIANGLES: [[usize; 3]; 12] = [
    [0, 2, 1],
    [0, 3, 2],
    [4, 5, 6],
    [4, 6, 7],
    [0, 1, 5],
    [0, 5, 4],
    [1, 2, 6],
    [1, 6, 5],
    [2, 3, 7],
    [2, 7, 6],
    [3, 0, 4],
    [3, 4, 7],
];

fn coordinate_text(value: f64) -> String {
    if value == 0.0 {
        "0".to_owned()
    } else {
        format!("{value:.17}")
    }
}

fn cube_coordinates() -> Vec<[String; 3]> {
    let h = 1.0;
    let points = [
        [-h, -h, -h],
        [h, -h, -h],
        [h, h, -h],
        [-h, h, -h],
        [-h, -h, h],
        [h, -h, h],
        [h, h, h],
        [-h, h, h],
    ];
    points
        .iter()
        .map(|p| [coordinate_text(p[0]), coordinate_text(p[1]), coordinate_text(p[2])])
        .collect()
}

#[test]
fn step_faceted_brep_round_trips_closed_solid() {
    let coordinates = cube_coordinates();
    let step = step_faceted_text(&coordinates, &CUBE_TRIANGLES, "cube");
    assert!(step.contains("FACETED_BREP"));
    assert!(step.contains("CARTESIAN_POINT"));
    assert!(step.contains("CLOSED_SHELL"));

    let imported = import_step_faceted_mesh(&step, Vec::new()).unwrap();
    assert_eq!(imported.point_ids, (1..=8).collect::<Vec<usize>>());
    assert_eq!(imported.triangles, CUBE_TRIANGLES.to_vec());
    for (texts, expected) in imported.point_coordinates.iter().zip(coordinates.iter()) {
        assert_eq!(texts, &expected.to_vec());
    }
    let mesh = HalfEdgeMesh::from_triangles(imported.point_ids.len(), &imported.triangles).unwrap();
    assert_eq!(mesh.edge_halfedges.len(), 18);
}

#[test]
fn iges_faceted_subset_round_trips_closed_solid() {
    let coordinates = cube_coordinates();
    let iges = iges_faceted_text(&coordinates, &CUBE_TRIANGLES, "cube");
    assert!(iges.contains("BREP_KERNEL_IGES_FACETED_SUBSET"));
    assert!(iges.contains("116,"));
    assert!(iges.contains("106,"));

    let imported = import_iges_faceted_mesh(&iges, Vec::new()).unwrap();
    assert_eq!(imported.point_ids, (1..=8).collect::<Vec<usize>>());
    assert_eq!(imported.triangles, CUBE_TRIANGLES.to_vec());
    for (texts, expected) in imported.point_coordinates.iter().zip(coordinates.iter()) {
        assert_eq!(texts, &expected.to_vec());
    }
    let mesh = HalfEdgeMesh::from_triangles(imported.point_ids.len(), &imported.triangles).unwrap();
    assert_eq!(mesh.face_halfedges.len(), 12);
}

#[test]
fn exchange_parse_errors_are_structured() {
    let error = import_step_faceted_mesh(
        "ISO-10303-21;\nDATA;\n#1=CARTESIAN_POINT('',(0,0));\nENDSEC;\nEND-ISO-10303-21;",
        Vec::new(),
    )
    .unwrap_err();

    assert_eq!(error.primary.subsystem, KernelSubsystem::Exchange);
    assert_eq!(error.primary.kind, KernelErrorKind::Parse);
    assert_eq!(error.primary.code, "exchange.parse");
    assert_eq!(
        error.primary.operation.as_deref(),
        Some("import_step_faceted_brep")
    );
}

#[test]
fn subsystem_errors_convert_to_kernel_errors() {
    let error = KernelError::from(TopologyError::InvalidVertex(7));

    assert_eq!(error.primary.subsystem, KernelSubsystem::Topology);
    assert_eq!(error.primary.kind, KernelErrorKind::Topology);
    assert_eq!(error.primary.code, "topology.error");
    assert!(error.primary.source.unwrap().contains("InvalidVertex(7)"));
}

#[test]
fn step_text_has_exact_records() {
    let coordinates = vec![
        ["0".to_owned(), "0".to_owned(), "0".to_owned()],
        ["1".to_owned(), "0".to_owned(), "0".to_owned()],
        ["0".to_owned(), "1".to_owned(), "0".to_owned()],
    ];
    let step = step_faceted_text(&coordinates, &[[0, 1, 2]], "it's");
    let expected = "ISO-10303-21;\nHEADER;\nFILE_DESCRIPTION(('brep-kernel faceted B-rep subset'),'2;1');\nFILE_NAME('it''s','',('brep-kernel'),('brep-kernel'),'brep-kernel','brep-kernel','');\nFILE_SCHEMA(('CONFIG_CONTROL_DESIGN'));\nENDSEC;\nDATA;\n#1=CARTESIAN_POINT('',(0, 0, 0));\n#2=CARTESIAN_POINT('',(1, 0, 0));\n#3=CARTESIAN_POINT('',(0, 1, 0));\n#4=POLY_LOOP('',(#1,#2,#3));\n#5=FACE_OUTER_BOUND('',#4,.T.);\n#6=FACE('F0',(#5));\n#7=CLOSED_SHELL('',(#6));\n#8=FACETED_BREP('it''s',#7);\nENDSEC;\nEND-ISO-10303-21;\n";
    assert_eq!(step, expected);
}

#[test]
fn iges_text_has_exact_records() {
    let coordinates = vec![
        ["0".to_owned(), "0".to_owned(), "0".to_owned()],
        ["1".to_owned(), "0".to_owned(), "0".to_owned()],
        ["0".to_owned(), "1".to_owned(), "0".to_owned()],
    ];
    let iges = iges_faceted_text(&coordinates, &[[0, 1, 2]], "a,b;c");
    let expected = "BREP_KERNEL_IGES_FACETED_SUBSET,1;S      1\nPRODUCT,a_b_c;G      1\n116,1,0,0,0;P      1\n116,2,1,0,0;P      2\n116,3,0,1,0;P      3\n106,1,1,2,3;P      4\nT,3,1,0;T      1\n";
    assert_eq!(iges, expected);
}

#[test]
fn step_string_doubles_quotes_and_iges_token_replaces_separators() {
    assert_eq!(step_string("a'b''"), "a''b''''");
    assert_eq!(step_string(""), "");
    assert_eq!(iges_token("x,y;z"), "x_y_z");
}

#[test]
fn step_references_and_loops() {
    assert_eq!(parse_step_refs("POLY_LOOP('',(#1,#22,# 3,#4x))"), vec![1, 22, 4]);
    assert_eq!(
        parse_step_refs("#99999999999999999999999,#5"),
        vec![5]
    );
    assert_eq!(normalize_loop_refs(&[1, 2, 3, 1]), &[1, 2, 3]);
    assert_eq!(normalize_loop_refs(&[1, 2, 3]), &[1, 2, 3]);
    assert_eq!(normalize_loop_refs(&[4]), &[4]);
}

#[test]
fn unsigned_fields_follow_integer_parsing() {
    assert_eq!(parse_usize("+42", "field").unwrap(), 42);
    let empty = parse_usize("", "point id").unwrap_err();
    assert_eq!(empty.primary.message, "could not parse point id as unsigned integer");
    assert_eq!(
        empty.primary.source.as_deref(),
        Some("cannot parse integer from empty string")
    );
    let digit = parse_usize("-1", "x").unwrap_err();
    assert_eq!(digit.primary.source.as_deref(), Some("invalid digit found in string"));
    let plus = parse_usize("+", "x").unwrap_err();
    assert_eq!(plus.primary.source.as_deref(), Some("invalid digit found in string"));
    let big = parse_usize("99999999999999999999999", "x").unwrap_err();
    assert_eq!(
        big.primary.source.as_deref(),
        Some("number too large to fit in target type")
    );
}

#[test]
fn step_entities_are_sorted_and_later_records_win() {
    let entities =
        parse_step_entities("header;data;\n#3=B;\n#1 = A ;\n#3=C;\n junk;\nendsec;").unwrap();
    assert_eq!(
        entities,
        vec![(1, "A".to_owned()), (3, "C".to_owned())]
    );
}

#[test]
fn step_entity_errors_name_their_cause() {
    let missing = parse_step_entities("no data here").unwrap_err();
    assert_eq!(missing.primary.message, "STEP input is missing DATA section");
    let open = parse_step_entities("DATA;#1=A;").unwrap_err();
    assert_eq!(open.primary.message, "STEP input is missing DATA ENDSEC");
    let equals = parse_step_entities("DATA;#1 A;ENDSEC;").unwrap_err();
    assert_eq!(equals.primary.message, "STEP entity is missing `=`");
    let empty = parse_step_entities("DATA;;ENDSEC;").unwrap_err();
    assert_eq!(empty.primary.message, "STEP DATA section contains no entities");
    let id = parse_step_entities("DATA;#x=A;ENDSEC;").unwrap_err();
    assert_eq!(id.primary.message, "could not parse STEP entity id as unsigned integer");
    assert_eq!(id.primary.operation, None);
}

#[test]
fn step_point_coordinates_take_last_tuple() {
    assert_eq!(
        step_point_coordinates("CARTESIAN_POINT('',( 1, 2 ,3))").unwrap(),
        vec!["1".to_owned(), "2".to_owned(), "3".to_owned()]
    );
    let missing = step_point_coordinates("CARTESIAN_POINT").unwrap_err();
    assert_eq!(missing.primary.message, "STEP point is missing coordinate tuple");
    let open = step_point_coordinates("CARTESIAN_POINT('',(1,2,3").unwrap_err();
    assert_eq!(open.primary.message, "STEP point coordinate tuple is not closed");
    let arity = step_point_coordinates("CARTESIAN_POINT('',(1,2))").unwrap_err();
    assert_eq!(arity.primary.message, "STEP point must contain exactly three coordinates");
}

#[test]
fn step_import_reports_missing_references_with_entity() {
    let text = "DATA;#1=CARTESIAN_POINT('',(0,0,0));#2=FACE('',(#9));ENDSEC;";
    let error = import_step_faceted_mesh(text, Vec::new()).unwrap_err();
    assert_eq!(error.primary.message, "STEP face references a missing face bound");
    assert_eq!(
        error.primary.entity,
        Some(brep_kernel::errors::KernelEntityRef::ExchangeEntity {
            format: "STEP".to_owned(),
            id: 9
        })
    );
    let no_faces = import_step_faceted_mesh("DATA;#1=CARTESIAN_POINT('',(0,0,0));ENDSEC;", Vec::new())
        .unwrap_err();
    assert_eq!(no_faces.primary.message, "STEP input did not contain points and faces");
}

#[test]
fn step_import_reports_caller_coordinate_errors_in_record_order() {
    let coordinates = cube_coordinates();
    let step = step_faceted_text(&coordinates, &CUBE_TRIANGLES, "cube");
    let caller = exchange_parse_error("could not parse STEP point x as floating-point value");
    let error = import_step_faceted_mesh(&step, vec![(3, caller)]).unwrap_err();
    assert_eq!(error.primary.message, "could not parse STEP point x as floating-point value");
    assert_eq!(error.primary.operation.as_deref(), Some("import_step_faceted_brep"));
    assert_eq!(
        error.primary.entity,
        Some(brep_kernel::errors::KernelEntityRef::ExchangeEntity {
            format: "STEP".to_owned(),
            id: 3
        })
    );
}

#[test]
fn iges_import_reports_line_numbers_and_missing_points() {
    let arity = import_iges_faceted_mesh("116,1,2\n", Vec::new()).unwrap_err();
    assert_eq!(arity.primary.message, "IGES point record must have id,x,y,z");
    assert_eq!(arity.primary.notes, vec!["line 1".to_owned()]);
    let triangle = import_iges_faceted_mesh("\n\n106,1,2;P 3\n", Vec::new()).unwrap_err();
    assert_eq!(
        triangle.primary.message,
        "IGES triangle record must have id,vertex_a,vertex_b,vertex_c"
    );
    assert_eq!(triangle.primary.notes, vec!["line 3".to_owned()]);
    let missing = import_iges_faceted_mesh("116,1,0,0,0\n106,1,1,2,1\n", Vec::new()).unwrap_err();
    assert_eq!(missing.primary.message, "IGES triangle references a missing point");
    let empty = import_iges_faceted_mesh("", Vec::new()).unwrap_err();
    assert_eq!(
        empty.primary.message,
        "IGES input did not contain point and triangle records"
    );
    let vertex = import_iges_faceted_mesh("106,1,a,2,3\n", Vec::new()).unwrap_err();
    assert_eq!(
        vertex.primary.message,
        "could not parse IGES triangle vertex a as unsigned integer"
    );
}

#[test]
fn iges_later_point_records_replace_earlier_ones() {
    let text = "116,2,5,5,5;\n116,1,0,0,0;\n116,2,1,1,1;\n106,1,1,2,2;\n";
    let mesh = import_iges_faceted_mesh(text, Vec::new()).unwrap();
    assert_eq!(mesh.point_ids, vec![1, 2]);
    assert_eq!(
        mesh.point_coordinates[1],
        vec!["1".to_owned(), "1".to_owned(), "1".to_owned()]
    );
    assert_eq!(mesh.triangles, vec![[0, 1, 1]]);
}

#[test]
fn exchange_formats_are_distinct() {
    assert_ne!(ExchangeFormat::Step, ExchangeFormat::Iges);
}

fn small_coordinates() -> Vec<[String; 3]> {
    vec![
        ["".to_owned(), "1".to_owned(), "-2.5e3".to_owned()],
        ["0".to_owned(), "".to_owned(), "".to_owned()],
        ["7".to_owned(), "8".to_owned(), "9".to_owned()],
    ]
}

#[test]
fn exchange_round_trips_keep_empty_texts_and_quoted_names() {
    let coordinates = small_coordinates();
    let triangles = [[0, 1, 2], [1, 1, 2], [2, 0, 1]];
    let expected: Vec<Vec<String>> = coordinates.iter().map(|c| c.to_vec()).collect();

    let step = step_faceted_text(&coordinates, &triangles, "it's");
    assert!(step.contains("FACETED_BREP('it''s'"));
    let from_step = import_step_faceted_mesh(&step, Vec::new()).unwrap();
    assert_eq!(from_step.point_ids, vec![1, 2, 3]);
    assert_eq!(from_step.point_coordinates, expected);
    assert_eq!(from_step.triangles, triangles.to_vec());

    let iges = iges_faceted_text(&coordinates, &triangles, "it's");
    let from_iges = import_iges_faceted_mesh(&iges, Vec::new()).unwrap();
    assert_eq!(from_iges.point_ids, vec![1, 2, 3]);
    assert_eq!(from_iges.point_coordinates, expected);
    assert_eq!(from_iges.triangles, triangles.to_vec());
}

#[test]
fn step_round_trip_stops_at_a_triangle_whose_loop_closes_early() {
    let coordinates = small_coordinates();
    let step = step_faceted_text(&coordinates, &[[0, 1, 0]], "loop");
    let error = import_step_faceted_mesh(&step, Vec::new()).unwrap_err();
    assert_eq!(error.primary.message, "STEP poly-loop has fewer than three vertices");
}

#[test]
fn step_round_trip_stops_at_a_name_that_opens_the_data_section() {
    let coordinates = small_coordinates();
    let step = step_faceted_text(&coordinates, &[[0, 1, 2]], "data;");
    let error = import_step_faceted_mesh(&step, Vec::new()).unwrap_err();
    assert_eq!(error.primary.message, "STEP DATA section contains no entities");
}

#[test]
fn iges_point_records_list_coordinate_texts_by_line() {
    let input = "A\n116,1,x, y ,z;P 1\n106,1,1,1,1\n116,2,1,2;P\n 116 , 3 , 4,5,6\n";
    let records = iges_point_records(input);
    assert_eq!(
        records,
        vec![
            (1, vec!["x".to_owned(), "y".to_owned(), "z".to_owned()]),
            (4, vec!["4".to_owned(), "5".to_owned(), "6".to_owned()]),
        ]
    );
    assert!(iges_point_records("").is_empty());
}
