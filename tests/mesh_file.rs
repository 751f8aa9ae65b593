use softrender::mesh_file::{directive, face_vertex, Directive, FaceError, FaceVertex};

#[test]
fn position_only() {
    assert_eq!(
        face_vertex(b"3", 5, 0, 0),
        Ok(FaceVertex { position: 2, uv: None, normal: None })
    );
}

#[test]
fn all_three_indices() {
    assert_eq!(
        face_vertex(b"1/2/3", 4, 4, 4),
        Ok(FaceVertex { position: 0, uv: Some(1), normal: Some(2) })
    );
}

#[test]
fn empty_texture_field() {
    assert_eq!(
        face_vertex(b"2//1", 2, 0, 1),
        Ok(FaceVertex { position: 1, uv: None, normal: Some(0) })
    );
}

#[test]
fn optional_indices_out_of_range_are_unset() {
    assert_eq!(
        face_vertex(b"1/9/0", 1, 3, 3),
        Ok(FaceVertex { position: 0, uv: None, normal: None })
    );
    assert_eq!(
        face_vertex(b"1/x/2", 1, 3, 3),
        Ok(FaceVertex { position: 0, uv: None, normal: Some(1) })
    );
}

#[test]
fn leading_plus_is_accepted() {
    assert_eq!(
        face_vertex(b"+2/+1", 2, 1, 0),
        Ok(FaceVertex { position: 1, uv: Some(0), normal: None })
    );
}

#[test]
fn position_must_be_a_number() {
    assert_eq!(face_vertex(b"", 3, 0, 0), Err(FaceError::NotAnIndex));
    assert_eq!(face_vertex(b"/1", 3, 1, 0), Err(FaceError::NotAnIndex));
    assert_eq!(face_vertex(b"-1", 3, 0, 0), Err(FaceError::NotAnIndex));
    assert_eq!(face_vertex(b"+", 3, 0, 0), Err(FaceError::NotAnIndex));
    assert_eq!(face_vertex(b"1a", 3, 0, 0), Err(FaceError::NotAnIndex));
    assert_eq!(
        face_vertex(b"99999999999999999999999", 3, 0, 0),
        Err(FaceError::NotAnIndex)
    );
}

#[test]
fn position_must_be_in_range() {
    assert_eq!(face_vertex(b"0", 3, 0, 0), Err(FaceError::OutOfBounds(0)));
    assert_eq!(face_vertex(b"4/1/1", 3, 1, 1), Err(FaceError::OutOfBounds(4)));
}

#[test]
fn directives_by_first_word() {
    assert_eq!(directive(b"v"), Directive::Position);
    assert_eq!(directive(b"vt"), Directive::TexCoord);
    assert_eq!(directive(b"vn"), Directive::Normal);
    assert_eq!(directive(b"f"), Directive::Face);
    assert_eq!(directive(b"usemtl"), Directive::UseMaterial);
    assert_eq!(directive(b"newmtl"), Directive::NewMaterial);
    assert_eq!(directive(b"Kd"), Directive::DiffuseColor);
}

#[test]
fn other_words_are_ignored() {
    assert_eq!(directive(b"#"), Directive::Other);
    assert_eq!(directive(b"#v"), Directive::Other);
    assert_eq!(directive(b"vp"), Directive::Other);
    assert_eq!(directive(b"V"), Directive::Other);
    assert_eq!(directive(b"kd"), Directive::Other);
    assert_eq!(directive(b""), Directive::Other);
    assert_eq!(directive(b"usemtlx"), Directive::Other);
}
