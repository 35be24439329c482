use softrender::mesh::{
    assemble, load_from_obj, read_record, read_records, MeshError, Record, Triangle, Vertex,
};
use softrender::text::Span;

fn text_of(text: &[u8], span: Span) -> &str {
    std::str::from_utf8(&text[span.start..span.end]).unwrap()
}

fn coordinates(text: &[u8], v: &Vertex) -> [f32; 3] {
    [
        text_of(text, v.x).parse().unwrap(),
        text_of(text, v.y).parse().unwrap(),
        text_of(text, v.z).parse().unwrap(),
    ]
}

fn corners(text: &[u8], t: &Triangle) -> [[f32; 3]; 3] {
    [coordinates(text, &t.a), coordinates(text, &t.b), coordinates(text, &t.c)]
}

fn vertex(n: usize) -> Vertex {
    Vertex {
        x: Span { start: 10 * n, end: 10 * n + 1 },
        y: Span { start: 10 * n + 2, end: 10 * n + 3 },
        z: Span { start: 10 * n + 4, end: 10 * n + 5 },
    }
}

fn face(indices: &[i64]) -> Record {
    Record::Face(indices.iter().map(|i| Some(*i)).collect())
}

const SQUARE: &[u8] = b"# a unit square\nv 0 0 0\nv 1 0 0\nv 1 1 0\nv 0 1 0\nf 1 2 3 4\n";

#[test]
fn single_triangle_is_loaded() {
    let text = b"v 0 0 0\nv 1 0 0\nv 0 1 0\nf 1 2 3";
    let mesh = load_from_obj(text).unwrap();
    assert_eq!(mesh.len(), 1);
    assert_eq!(
        corners(text, &mesh[0]),
        [[0.0, 0.0, 0.0], [1.0, 0.0, 0.0], [0.0, 1.0, 0.0]]
    );
    assert_eq!(mesh[0].b.x, Span { start: 10, end: 11 });
}

#[test]
fn triangular_faces_give_one_triangle_each() {
    let text = b"v 0 0 0\nv 1 0 0\nv 0 1 0\nv 0 0 1\nf 1 2 3\nf 1 3 4\nf 4 2 1\n";
    let mesh = load_from_obj(text).unwrap();
    assert_eq!(mesh.len(), 3);
    assert_eq!(corners(text, &mesh[1]), [[0.0, 0.0, 0.0], [0.0, 1.0, 0.0], [0.0, 0.0, 1.0]]);
    assert_eq!(corners(text, &mesh[2]), [[0.0, 0.0, 1.0], [1.0, 0.0, 0.0], [0.0, 0.0, 0.0]]);
}

#[test]
fn quad_becomes_a_fan_of_two() {
    let mesh = load_from_obj(SQUARE).unwrap();
    assert_eq!(mesh.len(), 2);
    assert_eq!(corners(SQUARE, &mesh[0]), [[0.0, 0.0, 0.0], [1.0, 0.0, 0.0], [1.0, 1.0, 0.0]]);
    assert_eq!(corners(SQUARE, &mesh[1]), [[0.0, 0.0, 0.0], [1.0, 1.0, 0.0], [0.0, 1.0, 0.0]]);
}

#[test]
fn pentagon_becomes_a_fan_of_three() {
    let text = b"v 0 0 0\nv 1 0 0\nv 2 1 0\nv 1 2 0\nv 0 1 0\nf 1 2 3 4 5";
    let mesh = load_from_obj(text).unwrap();
    assert_eq!(mesh.len(), 3);
    for (i, t) in mesh.iter().enumerate() {
        assert_eq!(coordinates(text, &t.a), [0.0, 0.0, 0.0]);
        assert_eq!(t.b, [mesh[0].b, mesh[0].c, mesh[1].c][i]);
    }
    assert_eq!(coordinates(text, &mesh[2].c), [0.0, 1.0, 0.0]);
}

#[test]
fn index_zero_is_malformed() {
    assert_eq!(
        load_from_obj(b"v 0 0 0\nv 1 0 0\nv 0 1 0\nf 0 1 2"),
        Err(MeshError::MalformedIndex)
    );
}

#[test]
fn index_beyond_the_vertices_is_malformed() {
    assert_eq!(
        load_from_obj(b"v 0 0 0\nv 1 0 0\nv 0 1 0\nf 1 2 4"),
        Err(MeshError::MalformedIndex)
    );
    assert_eq!(load_from_obj(b"f 1 2 3"), Err(MeshError::MalformedIndex));
}

#[test]
fn index_of_a_later_vertex_is_malformed() {
    assert_eq!(
        load_from_obj(b"v 0 0 0\nv 1 0 0\nf 1 2 3\nv 0 1 0\n"),
        Err(MeshError::MalformedIndex)
    );
}

#[test]
fn index_that_is_no_number_is_malformed() {
    for line in ["f 1 2 x", "f 1 2 3.0", "f 1 2 /3", "f a b c", "f 1 2 99999999999999999999"] {
        let text = format!("v 0 0 0\nv 1 0 0\nv 0 1 0\n{}\n", line);
        assert_eq!(load_from_obj(text.as_bytes()), Err(MeshError::MalformedIndex), "{}", line);
    }
}

#[test]
fn negative_indices_count_back_from_the_latest_vertex() {
    let text = b"v 0 0 0\nv 1 0 0\nv 0 1 0\nf -3 -2 -1\nv 5 5 5\nf -1 1 -2";
    let mesh = load_from_obj(text).unwrap();
    assert_eq!(corners(text, &mesh[0]), [[0.0, 0.0, 0.0], [1.0, 0.0, 0.0], [0.0, 1.0, 0.0]]);
    assert_eq!(corners(text, &mesh[1]), [[5.0, 5.0, 5.0], [0.0, 0.0, 0.0], [0.0, 1.0, 0.0]]);
}

#[test]
fn negative_index_out_of_range_is_malformed() {
    assert_eq!(
        load_from_obj(b"v 0 0 0\nv 1 0 0\nv 0 1 0\nf -4 -2 -1"),
        Err(MeshError::MalformedIndex)
    );
}

#[test]
fn empty_input_is_an_empty_mesh() {
    assert_eq!(load_from_obj(b""), Err(MeshError::EmptyMesh));
    assert_eq!(load_from_obj(b"\n\n"), Err(MeshError::EmptyMesh));
}

#[test]
fn input_without_faces_is_an_empty_mesh() {
    assert_eq!(load_from_obj(b"v 0 0 0\nv 1 0 0\nv 0 1 0\n"), Err(MeshError::EmptyMesh));
    assert_eq!(load_from_obj(b"# nothing here\no thing\n"), Err(MeshError::EmptyMesh));
}

#[test]
fn faces_with_fewer_than_three_corners_give_no_triangle() {
    assert_eq!(load_from_obj(b"v 0 0 0\nv 1 0 0\nf 1 2\nf 1\nf\n"), Err(MeshError::EmptyMesh));
    let text = b"v 0 0 0\nv 1 0 0\nv 0 1 0\nf 1 2\nf 3 2 1\n";
    assert_eq!(load_from_obj(text).unwrap().len(), 1);
}

#[test]
fn vertex_without_three_decimals_is_unreadable() {
    for line in ["v", "v 1", "v 1 2", "v 1 2 x", "v a 2 3", "v 1 nan 3", "v 1,5 2 3"] {
        let text = format!("{}\nv 0 0 0\nv 1 0 0\nv 0 1 0\nf 1 2 3\n", line);
        assert_eq!(load_from_obj(text.as_bytes()), Err(MeshError::UnreadableSource), "{}", line);
    }
}

#[test]
fn first_failing_line_decides_the_error() {
    assert_eq!(load_from_obj(b"f 1 2 3\nv 1 2\n"), Err(MeshError::MalformedIndex));
    assert_eq!(load_from_obj(b"v 1 2\nf 1 2 3\n"), Err(MeshError::UnreadableSource));
}

#[test]
fn other_records_are_passed_over() {
    let text = b"mtllib a.mtl\no cube\nvn 0 0 1\nvt 0.5 0.5\nv 0 0 0\nv 1 0 0\nv 0 1 0\n\
        usemtl red\ns off\ng side\nvp 1 2\nfoo bar\nf 1 2 3\n# f 9 9 9\n";
    assert_eq!(load_from_obj(text).unwrap().len(), 1);
}

#[test]
fn texture_and_normal_indices_are_ignored() {
    let text = b"v 0 0 0\nv 1 0 0\nv 0 1 0\nvn 0 0 1\nf 1/7/1 2//1 3/9\n";
    let mesh = load_from_obj(text).unwrap();
    assert_eq!(corners(text, &mesh[0]), [[0.0, 0.0, 0.0], [1.0, 0.0, 0.0], [0.0, 1.0, 0.0]]);
}

#[test]
fn coordinates_keep_their_text() {
    let text = b"v -1.5 2e3 +.25 1.0\r\nv  1\t0   0\r\nv 0 1 0\r\nf 1 2 3\r\n";
    let mesh = load_from_obj(text).unwrap();
    assert_eq!(text_of(text, mesh[0].a.x), "-1.5");
    assert_eq!(text_of(text, mesh[0].a.y), "2e3");
    assert_eq!(text_of(text, mesh[0].a.z), "+.25");
    assert_eq!(corners(text, &mesh[0])[0], [-1.5, 2000.0, 0.25]);
    assert_eq!(corners(text, &mesh[0])[1], [1.0, 0.0, 0.0]);
}

#[test]
fn records_are_read_line_by_line() {
    let text = b"v 1 2 3\nf 1 -1 x 2/3\nv 1 2\n# note\n\nvn 1 2 3";
    let records = read_records(text);
    assert_eq!(records.len(), 6);
    match &records[0] {
        Record::Vertex(v) => assert_eq!(coordinates(text, v), [1.0, 2.0, 3.0]),
        other => panic!("{:?}", other),
    }
    match &records[1] {
        Record::Face(indices) => assert_eq!(indices, &vec![Some(1), Some(-1), None, Some(2)]),
        other => panic!("{:?}", other),
    }
    assert!(matches!(records[2], Record::Unreadable));
    assert!(matches!(records[3], Record::Other));
    assert!(matches!(records[4], Record::Other));
    assert!(matches!(records[5], Record::Other));
}

#[test]
fn one_record_is_read_from_its_line() {
    let text = b"xx\nf 3 2 1\nyy";
    match read_record(text, Span { start: 3, end: 10 }) {
        Record::Face(indices) => assert_eq!(indices, vec![Some(3), Some(2), Some(1)]),
        other => panic!("{:?}", other),
    }
    assert!(matches!(read_record(text, Span { start: 0, end: 2 }), Record::Other));
    assert!(matches!(read_record(text, Span { start: 5, end: 5 }), Record::Other));
}

#[test]
fn records_are_assembled_in_order() {
    let records = vec![
        Record::Vertex(vertex(0)),
        Record::Other,
        Record::Vertex(vertex(1)),
        Record::Vertex(vertex(2)),
        face(&[1, 2, 3]),
        Record::Vertex(vertex(3)),
        face(&[4, 3, 2, 1]),
    ];
    let mesh = assemble(&records).unwrap();
    assert_eq!(
        mesh,
        vec![
            Triangle { a: vertex(0), b: vertex(1), c: vertex(2) },
            Triangle { a: vertex(3), b: vertex(2), c: vertex(1) },
            Triangle { a: vertex(3), b: vertex(1), c: vertex(0) },
        ]
    );
}

#[test]
fn assembling_fails_on_the_first_bad_record() {
    let good = vec![Record::Vertex(vertex(0)), Record::Vertex(vertex(1)), Record::Vertex(vertex(2))];
    let with = |last: Vec<Record>| {
        let mut all = vec![Record::Vertex(vertex(0)), Record::Vertex(vertex(1)), Record::Vertex(vertex(2))];
        all.extend(last);
        assemble(&all)
    };
    assert_eq!(assemble(&good), Err(MeshError::EmptyMesh));
    assert_eq!(assemble(&[]), Err(MeshError::EmptyMesh));
    assert_eq!(with(vec![face(&[1, 2, 0])]), Err(MeshError::MalformedIndex));
    assert_eq!(with(vec![face(&[1, 2, 4])]), Err(MeshError::MalformedIndex));
    assert_eq!(with(vec![face(&[1, 2, i64::MIN])]), Err(MeshError::MalformedIndex));
    assert_eq!(with(vec![face(&[1, 2, i64::MAX])]), Err(MeshError::MalformedIndex));
    assert_eq!(with(vec![Record::Face(vec![Some(1), None, Some(2)])]), Err(MeshError::MalformedIndex));
    assert_eq!(with(vec![Record::Unreadable, face(&[1, 2, 0])]), Err(MeshError::UnreadableSource));
    assert_eq!(with(vec![face(&[1, 2, 0]), Record::Unreadable]), Err(MeshError::MalformedIndex));
    assert_eq!(with(vec![face(&[1, 2, 3]), Record::Unreadable]), Err(MeshError::UnreadableSource));
    assert_eq!(with(vec![face(&[3, 2, 1])]).unwrap().len(), 1);
}

#[test]
fn errors_say_what_went_wrong() {
    assert_eq!(MeshError::UnreadableSource.message(), "the mesh source cannot be read");
    assert_eq!(MeshError::MalformedIndex.message(), "a face names a vertex that does not exist");
    assert_eq!(MeshError::EmptyMesh.message(), "the mesh has no triangles");
}
