use rglgen::cmdline::CmdLine;
use rglgen::dom::{Element, Node};
use rglgen::error::{ExtensionProblem, GenError};
use rglgen::features::{apply_block, gather_features, BlockKind, Owner, OwnerMap};
use rglgen::versions::parse_version;

fn el(name: &str, attrs: &[(&str, &str)], kids: Vec<Node>) -> Node {
    Node::Element(Element::new(
        name.to_string(),
        attrs.iter().map(|(k, v)| (k.to_string(), v.to_string())).collect(),
        kids,
    ))
}

fn entry(kind: &str, name: &str) -> Node {
    el(kind, &[("name", name)], vec![])
}

fn chars(s: &str) -> Vec<char> {
    s.chars().collect()
}

fn opts(version: &str, exts: &[&str]) -> CmdLine {
    CmdLine {
        version: parse_version(version).ok().unwrap(),
        xml_path: "gl.xml".to_string(),
        extensions: exts.iter().map(|s| s.to_string()).collect(),
        use_libc: false,
        used_identifiers_path: None,
    }
}

fn registry() -> Element {
    Element::new("registry".to_string(), Vec::new(), vec![
        el("feature", &[("api", "gl"), ("number", "1.0")], vec![
            el("require", &[], vec![entry("type", "GLenum"), entry("enum", "GL_A"), entry("command", "glA"), entry("command", "glC")]),
        ]),
        el("feature", &[("api", "gl"), ("number", "3.2")], vec![
            el("remove", &[("profile", "core")], vec![entry("command", "glA")]),
            el("require", &[("profile", "compatibility")], vec![entry("command", "glCompat")]),
            el("require", &[], vec![entry("command", "glB")]),
        ]),
        el("feature", &[("api", "gl"), ("number", "4.6")], vec![
            el("require", &[], vec![entry("command", "glFuture")]),
        ]),
        el("feature", &[("api", "gles2"), ("number", "2.0")], vec![
            el("require", &[], vec![entry("command", "glEs")]),
        ]),
        el("extensions", &[], vec![
            el("extension", &[("name", "GL_EXT_x"), ("supported", "gl|glcore")], vec![
                el("require", &[], vec![entry("command", "glX"), entry("command", "glC")]),
            ]),
            el("extension", &[("name", "GL_EXT_es"), ("supported", "gles2")], vec![
                el("require", &[], vec![entry("command", "glEsExt")]),
            ]),
            el("extension", &[("name", "GL_EXT_unused"), ("supported", "gl")], vec![
                el("require", &[], vec![entry("command", "glUnused")]),
            ]),
        ]),
    ])
}

fn owner_of(m: &OwnerMap, n: &str) -> Option<Option<String>> {
    m.get(&chars(n)).map(|o| match o {
        Owner::Core => None,
        Owner::Extension(e) => Some(e.clone()),
    })
}

#[test]
fn require_then_remove_and_back() {
    let mut m = OwnerMap::new();
    let x = "X".to_string();
    apply_block(BlockKind::Require, &mut m, &x, &Owner::Core);
    apply_block(BlockKind::Remove, &mut m, &x, &Owner::Core);
    assert!(!m.contains_key(&chars("X")));
    let ext = Owner::Extension("GL_EXT_later".to_string());
    apply_block(BlockKind::Remove, &mut m, &x, &Owner::Core);
    apply_block(BlockKind::Require, &mut m, &x, &ext);
    assert_eq!(owner_of(&m, "X"), Some(Some("GL_EXT_later".to_string())));
}

#[test]
fn core_profile_resolution() {
    let res = gather_features(&registry(), &opts("glcore3.3", &["GL_EXT_x"])).ok().unwrap();
    assert_eq!(owner_of(&res.types, "GLenum"), Some(None));
    assert_eq!(owner_of(&res.values, "GL_A"), Some(None));
    assert_eq!(owner_of(&res.commands, "glA"), None);
    assert_eq!(owner_of(&res.commands, "glB"), Some(None));
    assert_eq!(owner_of(&res.commands, "glCompat"), None);
    assert_eq!(owner_of(&res.commands, "glFuture"), None);
    assert_eq!(owner_of(&res.commands, "glEs"), None);
    assert_eq!(owner_of(&res.commands, "glX"), Some(Some("GL_EXT_x".to_string())));
    assert_eq!(owner_of(&res.commands, "glC"), Some(Some("GL_EXT_x".to_string())));
    assert_eq!(owner_of(&res.commands, "glUnused"), None);
}

#[test]
fn compatibility_profile_keeps_removed() {
    let res = gather_features(&registry(), &opts("gl3.3", &[])).ok().unwrap();
    assert_eq!(owner_of(&res.commands, "glA"), Some(None));
    assert_eq!(owner_of(&res.commands, "glCompat"), Some(None));
    assert_eq!(owner_of(&res.commands, "glC"), Some(None));
}

#[test]
fn absent_and_unsupported_reported_together() {
    match gather_features(&registry(), &opts("gl3.3", &["GL_EXT_missing", "GL_EXT_es"])) {
        Err(GenError::UnresolvableExtension(ps)) => {
            assert!(ps.iter().any(|p| matches!(p, ExtensionProblem::NotFound(n) if n == "GL_EXT_missing")));
            assert!(ps.iter().any(|p| matches!(p, ExtensionProblem::Unsupported(n) if n == "GL_EXT_es")));
            assert_eq!(ps.len(), 2);
        },
        _ => panic!("resolution should fail"),
    }
}

#[test]
fn duplicate_request_is_a_problem() {
    match gather_features(&registry(), &opts("gl3.3", &["GL_EXT_x", "GL_EXT_x"])) {
        Err(GenError::UnresolvableExtension(ps)) => {
            assert_eq!(ps.len(), 1);
            assert!(matches!(&ps[0], ExtensionProblem::Duplicate(n) if n == "GL_EXT_x"));
        },
        _ => panic!("resolution should fail"),
    }
}
