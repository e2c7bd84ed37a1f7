use rust_renderer::obj::{parse_obj, split_bytes, ObjData, ObjFace};

fn texts(d: &ObjData) -> Vec<(String, String, String)> {
    d.vertices
        .iter()
        .map(|v| {
            (
                String::from_utf8(v.x.clone()).unwrap(),
                String::from_utf8(v.y.clone()).unwrap(),
                String::from_utf8(v.z.clone()).unwrap(),
            )
        })
        .collect()
}

fn faces(d: &ObjData) -> Vec<(usize, usize, usize)> {
    d.faces.iter().map(|f| (f.a, f.b, f.c)).collect()
}

#[test]
fn split_keeps_empty_pieces() {
    let parts = split_bytes(b"a  b ", b' ');
    assert_eq!(parts, vec![b"a".to_vec(), vec![], b"b".to_vec(), vec![]]);
    assert_eq!(split_bytes(b"", b' '), vec![Vec::<u8>::new()]);
}

#[test]
fn parses_vertices_and_faces() {
    let text = b"# a triangle\nv 0.0 1.5 -2\nv 1 0 0\nv 0 0 1\nf 1 2 3\n";
    let d = parse_obj(text).unwrap();
    assert_eq!(
        texts(&d),
        vec![
            ("0.0".to_string(), "1.5".to_string(), "-2".to_string()),
            ("1".to_string(), "0".to_string(), "0".to_string()),
            ("0".to_string(), "0".to_string(), "1".to_string()),
        ]
    );
    assert_eq!(faces(&d), vec![(0, 1, 2)]);
    assert_eq!(d.faces[0], ObjFace { a: 0, b: 1, c: 2 });
}

#[test]
fn face_fields_ignore_texture_and_normal_indices() {
    let text = b"v 0 0 0\nv 1 0 0\nv 0 1 0\nf 3/1/1 1//2 +2/7\n";
    let d = parse_obj(text).unwrap();
    assert_eq!(faces(&d), vec![(2, 0, 1)]);
}

#[test]
fn other_records_and_extra_fields_are_ignored() {
    let text = b"o cube\nvn 0 0 1\nvt 0 0\nv 1 2 3 4\nv 4 5 6\nv 7 8 9\ns off\nf 1 2 3 1\nusemtl x";
    let d = parse_obj(text).unwrap();
    assert_eq!(d.vertices.len(), 3);
    assert_eq!(texts(&d)[0], ("1".to_string(), "2".to_string(), "3".to_string()));
    assert_eq!(faces(&d), vec![(0, 1, 2)]);
}

#[test]
fn carriage_returns_are_dropped() {
    let text = b"v 1 2 3\r\nv 4 5 6\r\nv 7 8 9\r\nf 1 2 3\r\n";
    let d = parse_obj(text).unwrap();
    assert_eq!(texts(&d)[2], ("7".to_string(), "8".to_string(), "9".to_string()));
    assert_eq!(faces(&d), vec![(0, 1, 2)]);
}

#[test]
fn empty_file_is_an_empty_model() {
    let d = parse_obj(b"").unwrap();
    assert!(d.vertices.is_empty());
    assert!(d.faces.is_empty());
}

#[test]
fn short_vertex_record_is_rejected() {
    assert!(parse_obj(b"v 1 2\n").is_none());
}

#[test]
fn short_face_record_is_rejected() {
    assert!(parse_obj(b"v 1 2 3\nv 1 2 3\nf 1 2\n").is_none());
}

#[test]
fn face_naming_a_later_vertex_is_rejected() {
    assert!(parse_obj(b"v 1 2 3\nv 1 2 3\nf 1 2 3\nv 1 2 3\n").is_none());
}

#[test]
fn face_index_zero_or_negative_is_rejected() {
    assert!(parse_obj(b"v 1 2 3\nv 1 2 3\nv 1 2 3\nf 0 1 2\n").is_none());
    assert!(parse_obj(b"v 1 2 3\nv 1 2 3\nv 1 2 3\nf -1 1 2\n").is_none());
}

#[test]
fn face_index_that_is_not_a_number_is_rejected() {
    assert!(parse_obj(b"v 1 2 3\nv 1 2 3\nv 1 2 3\nf a 1 2\n").is_none());
    assert!(parse_obj(b"v 1 2 3\nv 1 2 3\nv 1 2 3\nf /1 1 2\n").is_none());
    assert!(parse_obj(b"v 1 2 3\nv 1 2 3\nv 1 2 3\nf 99999999999999999999 1 2\n").is_none());
}

#[test]
fn double_space_gives_an_empty_field() {
    let d = parse_obj(b"v  1 2\n").unwrap();
    assert_eq!(texts(&d)[0], (String::new(), "1".to_string(), "2".to_string()));
}

#[test]
fn unit_cube_has_twelve_triangles() {
    let text = b"v 0 0 0\nv 0 1 0\nv 1 1 0\nv 1 0 0\nv 0 1 1\nv 1 1 1\nv 1 0 1\nv 0 0 1\n\
f 1 2 3\nf 1 3 4\nf 4 3 6\nf 4 6 7\nf 7 6 5\nf 7 5 8\nf 8 5 2\nf 8 2 1\nf 2 5 6\nf 2 6 3\nf 7 8 1\nf 7 1 4\n";
    let d = parse_obj(text).unwrap();
    assert_eq!(d.vertices.len(), 8);
    assert_eq!(d.faces.len(), 12);
    assert_eq!(d.faces[11], ObjFace { a: 6, b: 0, c: 3 });
}
