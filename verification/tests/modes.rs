use obj_projector::err::ErrorKind;
use obj_projector::projector::ProjectionType;

#[test]
fn long_tokens_name_their_mode() {
    assert_eq!(ProjectionType::parse("face"), Ok(ProjectionType::Face));
    assert_eq!(ProjectionType::parse("vertex"), Ok(ProjectionType::Vertex));
    assert_eq!(ProjectionType::parse("vertex_normal"), Ok(ProjectionType::VertexNormal));
    assert_eq!(ProjectionType::parse("face_normal"), Ok(ProjectionType::FaceNormal));
}

#[test]
fn short_tokens_name_their_mode() {
    assert_eq!(ProjectionType::parse("f"), Ok(ProjectionType::Face));
    assert_eq!(ProjectionType::parse("v"), Ok(ProjectionType::Vertex));
    assert_eq!(ProjectionType::parse("vn"), Ok(ProjectionType::VertexNormal));
    assert_eq!(ProjectionType::parse("fn"), Ok(ProjectionType::FaceNormal));
}

#[test]
fn tokens_are_read_in_any_case() {
    assert_eq!(ProjectionType::parse("FACE"), Ok(ProjectionType::Face));
    assert_eq!(ProjectionType::parse("Vertex_Normal"), Ok(ProjectionType::VertexNormal));
    assert_eq!(ProjectionType::parse("vN"), Ok(ProjectionType::VertexNormal));
    assert_eq!(ProjectionType::parse("Fn"), Ok(ProjectionType::FaceNormal));
    assert_eq!(ProjectionType::parse("V"), Ok(ProjectionType::Vertex));
}

#[test]
fn unknown_tokens_name_no_mode() {
    assert_eq!(ProjectionType::parse(""), Err(ErrorKind::InvalidConfiguration));
    assert_eq!(ProjectionType::parse("faces"), Err(ErrorKind::InvalidConfiguration));
    assert_eq!(ProjectionType::parse("fac"), Err(ErrorKind::InvalidConfiguration));
    assert_eq!(ProjectionType::parse("vertex-normal"), Err(ErrorKind::InvalidConfiguration));
    assert_eq!(ProjectionType::parse(" face"), Err(ErrorKind::InvalidConfiguration));
    assert_eq!(ProjectionType::parse("normal"), Err(ErrorKind::InvalidConfiguration));
    assert_eq!(ProjectionType::parse("nv"), Err(ErrorKind::InvalidConfiguration));
}

#[test]
fn letters_beyond_ascii_are_not_folded() {
    // U+212A, the Kelvin sign, and a full-width letter.
    assert_eq!(ProjectionType::parse("\u{212a}"), Err(ErrorKind::InvalidConfiguration));
    assert_eq!(ProjectionType::parse("\u{ff46}"), Err(ErrorKind::InvalidConfiguration));
    assert_eq!(ProjectionType::parse("fac\u{e9}"), Err(ErrorKind::InvalidConfiguration));
}

#[test]
fn a_character_before_a_capital_is_no_letter() {
    // '&' is 0x26, and 0x26 + 0x20 is 'F' (0x46), which is no lower-case letter.
    assert_eq!(ProjectionType::parse("&"), Err(ErrorKind::InvalidConfiguration));
    // '6' is 0x36, and 0x36 + 0x20 is 'V' (0x56).
    assert_eq!(ProjectionType::parse("6"), Err(ErrorKind::InvalidConfiguration));
}

#[test]
fn from_gives_what_parse_gives() {
    assert_eq!(ProjectionType::from("face"), ProjectionType::Face);
    assert_eq!(ProjectionType::from("V"), ProjectionType::Vertex);
    assert_eq!(ProjectionType::from("VN"), ProjectionType::VertexNormal);
    assert_eq!(ProjectionType::from("face_normal"), ProjectionType::FaceNormal);
}

fn lowered(token: &str) -> Option<ProjectionType> {
    match token.to_lowercase().as_str() {
        "face" | "f" => Some(ProjectionType::Face),
        "vertex" | "v" => Some(ProjectionType::Vertex),
        "vertex_normal" | "vn" => Some(ProjectionType::VertexNormal),
        "face_normal" | "fn" => Some(ProjectionType::FaceNormal),
        _ => None,
    }
}

#[test]
fn tokens_are_read_as_their_lower_case_is() {
    for code in 0u32..0x3000 {
        let c = match char::from_u32(code) {
            Some(c) => c,
            None => panic!("no character {}", code),
        };
        for token in [
            format!("{}", c),
            format!("{}n", c),
            format!("f{}", c),
            format!("fac{}", c),
            format!("verte{}", c),
            format!("{}ertex_normal", c),
            format!("face{}normal", c),
        ] {
            assert_eq!(ProjectionType::parse(&token).ok(), lowered(&token), "{}", token);
        }
    }
}

#[test]
fn tokens_in_mixed_case_are_read_as_their_lower_case_is() {
    for word in ["face", "f", "vertex", "v", "vertex_normal", "vn", "face_normal", "fn"] {
        for mask in 0u32..(1 << word.len().min(8)) {
            let token: String = word
                .chars()
                .enumerate()
                .map(|(i, c)| if mask >> (i % 8) & 1 == 1 { c.to_ascii_uppercase() } else { c })
                .collect();
            assert_eq!(ProjectionType::parse(&token).ok(), lowered(&token), "{}", token);
            assert!(ProjectionType::parse(&token).is_ok(), "{}", token);
        }
    }
}
