use arachne::asset::obj::{build_faces, obj_index, obj_lines, parse_face_vertex, ObjError, ObjKind};

#[test]
fn obj_index_conversions() {
    assert_eq!(obj_index(1, 3), Ok(0));
    assert_eq!(obj_index(3, 3), Ok(2));
    assert_eq!(obj_index(4, 3), Err(ObjError::IndexOutOfRange(4, 3)));
    assert_eq!(obj_index(-1, 3), Ok(2));
    assert_eq!(obj_index(-3, 3), Ok(0));
    assert_eq!(obj_index(-4, 3), Err(ObjError::NegativeIndexOutOfRange(-4, 3)));
    assert_eq!(obj_index(0, 3), Err(ObjError::IndexZero));
    assert_eq!(obj_index(i64::MIN, 3), Err(ObjError::NegativeIndexOutOfRange(i64::MIN, 3)));
}

#[test]
fn face_vertex_forms() {
    assert_eq!(parse_face_vertex("7"), Ok((7, None, None)));
    assert_eq!(parse_face_vertex("7/2"), Ok((7, Some(2), None)));
    assert_eq!(parse_face_vertex("7//3"), Ok((7, None, Some(3))));
    assert_eq!(parse_face_vertex("7/2/3"), Ok((7, Some(2), Some(3))));
    assert_eq!(parse_face_vertex("-1/-2/-3"), Ok((-1, Some(-2), Some(-3))));
    assert_eq!(parse_face_vertex("x"), Err(ObjError::InvalidVertexIndex));
    assert_eq!(parse_face_vertex("1/y"), Err(ObjError::InvalidTexcoordIndex));
    assert_eq!(parse_face_vertex("1/2/"), Err(ObjError::InvalidNormalIndex));
    assert_eq!(parse_face_vertex("1/2/3/4"), Err(ObjError::InvalidFaceVertex));
}

fn face(tokens: &[&str]) -> Vec<String> {
    tokens.iter().map(|t| t.to_string()).collect()
}

#[test]
fn triangle_face() {
    let faces = vec![face(&["1", "2", "3"])];
    let (keys, tris) = build_faces(&faces, 3, 0, 0).unwrap();
    assert_eq!(keys, vec![(0, None, None), (1, None, None), (2, None, None)]);
    assert_eq!(tris, vec![0, 1, 2]);
    assert_eq!(tris.len() / 3, 1);
}

#[test]
fn quad_fans_and_shares_vertices() {
    let faces = vec![
        face(&["1/1", "2/2", "3/3", "4/4"]),
        face(&["1/1", "3/3", "-1/-1"]),
    ];
    let (keys, tris) = build_faces(&faces, 4, 4, 0).unwrap();
    assert_eq!(keys.len(), 4);
    assert_eq!(tris, vec![0, 1, 2, 0, 2, 3, 0, 2, 3]);
}

#[test]
fn same_position_different_texcoord_is_new_vertex() {
    let faces = vec![face(&["1/1", "2/1", "1/2"])];
    let (keys, tris) = build_faces(&faces, 2, 2, 0).unwrap();
    assert_eq!(keys, vec![(0, Some(0), None), (1, Some(0), None), (0, Some(1), None)]);
    assert_eq!(tris, vec![0, 1, 2]);
}

#[test]
fn face_errors() {
    let small = vec![face(&["1", "2"])];
    assert_eq!(build_faces(&small, 3, 0, 0).err(), Some(ObjError::FaceTooSmall(0)));
    let bad = vec![face(&["1", "2", "9"])];
    assert_eq!(build_faces(&bad, 3, 0, 0).err(), Some(ObjError::IndexOutOfRange(9, 3)));
    let bad_normal = vec![face(&["1//5", "2", "3"])];
    assert_eq!(build_faces(&bad_normal, 3, 0, 1).err(), Some(ObjError::IndexOutOfRange(5, 1)));
}

#[test]
fn face_errors_come_face_by_face_token_by_token() {
    // A bad index in the first face is reported before a token that does
    // not read in the second.
    let faces = vec![face(&["1", "2", "7"]), face(&["1", "x", "2"])];
    assert_eq!(build_faces(&faces, 3, 0, 0).err(), Some(ObjError::IndexOutOfRange(7, 3)));
    // Within a face, the token that does not read comes before a later bad
    // index.
    let faces = vec![face(&["1", "y", "9"])];
    assert_eq!(build_faces(&faces, 3, 0, 0).err(), Some(ObjError::InvalidVertexIndex));
    // A face that is too small is reported before its tokens are read.
    let faces = vec![face(&["z", "1"])];
    assert_eq!(build_faces(&faces, 3, 0, 0).err(), Some(ObjError::FaceTooSmall(0)));
}

#[test]
fn obj_lines_keeps_keyword_lines_in_order() {
    let text = "# a comment\n\n  v 1 2 3  \r\nvt 0.5 0.5\nvn 0 0 1\n\tf 1/1/1 2/2/1 3/3/1\nusemtl red\n   #indented comment\nf\u{3000}1 2 3";
    let lines = obj_lines(text);
    let kinds: Vec<ObjKind> = lines.iter().map(|l| l.kind).collect();
    assert_eq!(kinds, vec![ObjKind::Position, ObjKind::Texcoord, ObjKind::Normal, ObjKind::Face, ObjKind::Face]);
    assert_eq!(lines[0].line, "v 1 2 3");
    assert_eq!(lines[0].words, vec!["1", "2", "3"]);
    assert_eq!(lines[3].words, vec!["1/1/1", "2/2/1", "3/3/1"]);
    assert_eq!(lines[4].words, vec!["1", "2", "3"]);
    assert!(obj_lines("").is_empty());
    assert!(obj_lines("vx 1 2\nfoo\n").is_empty());
}
