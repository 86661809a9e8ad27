use rglgen::dom::{Element, Node};
use rglgen::error::GenError;
use rglgen::versions::parse_version;

fn el(name: &str, attrs: &[(&str, &str)]) -> Element {
    Element::new(
        name.to_string(),
        attrs.iter().map(|(k, v)| (k.to_string(), v.to_string())).collect(),
        Vec::<Node>::new(),
    )
}

#[test]
fn glcore_token_fields() {
    let v = parse_version("glcore4.5").ok().unwrap();
    assert_eq!(v.api, "gl");
    assert_eq!(v.profile, "core");
    assert_eq!(v.extension_space, "glcore");
    assert_eq!(v.number, "4.5");
}

#[test]
fn gl_token_is_compatibility() {
    let v = parse_version("gl2.1").ok().unwrap();
    assert_eq!(v.api, "gl");
    assert_eq!(v.profile, "compatibility");
    assert_eq!(v.extension_space, "gl");
    assert_eq!(v.number, "2.1");
}

#[test]
fn gles_tokens_keep_major_digit() {
    let v = parse_version("gles2.0").ok().unwrap();
    assert_eq!(v.api, "gles2");
    assert_eq!(v.profile, "");
    assert_eq!(v.extension_space, "gles2");
    assert_eq!(v.number, "2.0");
    let v = parse_version("gles3.2").ok().unwrap();
    assert_eq!(v.api, "gles2");
    assert_eq!(v.number, "3.2");
    let v = parse_version("gles1.1").ok().unwrap();
    assert_eq!(v.api, "gles1");
    assert_eq!(v.extension_space, "gles1");
    assert_eq!(v.number, "1.1");
}

#[test]
fn bad_tokens_are_rejected() {
    for t in ["vk1.0", "gl10.0", "gl4", "glcore4.5x", "", "gles", "gl4.a"] {
        match parse_version(t) {
            Err(GenError::InvalidVersionToken(s)) => assert_eq!(s, t),
            _ => panic!("{} should be rejected", t),
        }
    }
}

#[test]
fn predicates_follow_attributes() {
    let v = parse_version("glcore3.3").ok().unwrap();
    assert!(v.correct_api(&el("feature", &[])));
    assert!(v.correct_api(&el("feature", &[("api", "gl")])));
    assert!(!v.correct_api(&el("feature", &[("api", "gles2")])));
    assert!(v.correct_version(&el("feature", &[("number", "3.3")])));
    assert!(v.correct_version(&el("feature", &[("number", "1.0")])));
    assert!(!v.correct_version(&el("feature", &[("number", "4.0")])));
    assert!(!v.correct_version(&el("feature", &[])));
    assert!(v.correct_profile(&el("require", &[])));
    assert!(v.correct_profile(&el("require", &[("profile", "core")])));
    assert!(!v.correct_profile(&el("remove", &[("profile", "compatibility")])));
    assert!(v.supported(&el("extension", &[("supported", "gles2|gl|glcore")])));
    assert!(v.supported(&el("extension", &[("supported", "gl")])));
    assert!(!v.supported(&el("extension", &[("supported", "gles2|glcore")])));
    assert!(!v.supported(&el("extension", &[])));
}

#[test]
fn describe_and_indexed_query() {
    let v = parse_version("glcore4.5").ok().unwrap();
    assert_eq!(v.describe(), "OpenGL Core 4.5");
    assert!(v.needs_getstringi_extensions());
    let v = parse_version("gles2.0").ok().unwrap();
    assert_eq!(v.describe(), "OpenGL ES 2.0");
    assert!(!v.needs_getstringi_extensions());
    let v = parse_version("gl3.0").ok().unwrap();
    assert_eq!(v.describe(), "OpenGL 3.0");
    assert!(v.needs_getstringi_extensions());
}
