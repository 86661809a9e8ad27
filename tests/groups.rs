use rglgen::cmdline::CmdLine;
use rglgen::dom::{Element, Node};
use rglgen::error::GenError;
use rglgen::groups::{gather_groups, new_group, GroupType};
use rglgen::versions::parse_version;

fn el(name: &str, attrs: &[(&str, &str)], kids: Vec<Node>) -> Node {
    Node::Element(Element::new(
        name.to_string(),
        attrs.iter().map(|(k, v)| (k.to_string(), v.to_string())).collect(),
        kids,
    ))
}

fn opts() -> CmdLine {
    CmdLine {
        version: parse_version("gl4.6").ok().unwrap(),
        xml_path: "gl.xml".to_string(),
        extensions: Vec::new(),
        use_libc: false,
        used_identifiers_path: None,
    }
}

fn enm(name: &str) -> Node {
    el("enum", &[("name", name)], vec![])
}

#[test]
fn groups_collect_sorted_members() {
    let r = Element::new("registry".to_string(), Vec::new(), vec![
        el("groups", &[], vec![el("group", &[("name", "Boolean")], vec![enm("GL_TRUE"), enm("GL_FALSE"), enm("GL_TRUE")])]),
        el("enums", &[("group", "Mask"), ("type", "bitmask"), ("comment", "bits")], vec![
            el("enum", &[("name", "GL_B_BIT"), ("value", "2")], vec![]),
            el("enum", &[("name", "GL_A_BIT"), ("value", "1")], vec![]),
            el("enum", &[("name", "GL_A_BIT"), ("value", "1")], vec![]),
            el("enum", &[("name", "GL_ALIAS_BIT"), ("value", "1"), ("alias", "GL_A_BIT")], vec![]),
        ]),
        el("enums", &[("group", "Boolean")], vec![enm("GL_MAYBE")]),
    ]);
    let (map, order) = gather_groups(&r, &opts()).ok().unwrap();
    assert_eq!(order, vec!["Boolean".to_string(), "Mask".to_string()]);
    let b = &map.iter().find(|e| e.0 == "Boolean").unwrap().1;
    assert_eq!(b.elements, vec!["GL_FALSE".to_string(), "GL_MAYBE".to_string(), "GL_TRUE".to_string()]);
    assert_eq!(b.group_type, Some(GroupType::Ordinary));
    let m = &map.iter().find(|e| e.0 == "Mask").unwrap().1;
    assert_eq!(m.elements, vec!["GL_A_BIT".to_string(), "GL_B_BIT".to_string()]);
    assert_eq!(m.comment, Some("bits".to_string()));
    assert_eq!(m.group_type, Some(GroupType::Bitmask));
}

#[test]
fn group_given_a_kind_twice_is_refused() {
    let r = Element::new("registry".to_string(), Vec::new(), vec![
        el("enums", &[("group", "G")], vec![enm("GL_A")]),
        el("enums", &[("group", "G")], vec![enm("GL_B")]),
    ]);
    match gather_groups(&r, &opts()) {
        Err(GenError::MalformedDeclaration(n)) => assert_eq!(n, "G"),
        _ => panic!("expected a refusal"),
    }
    let r = Element::new("registry".to_string(), Vec::new(), vec![el("enums", &[("group", "G"), ("type", "weird")], vec![])]);
    match gather_groups(&r, &opts()) {
        Err(GenError::MalformedDeclaration(n)) => assert_eq!(n, "weird"),
        _ => panic!("expected a refusal"),
    }
}

#[test]
fn new_group_is_empty() {
    let g = new_group();
    assert!(g.elements.is_empty());
    assert!(g.comment.is_none());
    assert!(g.group_type.is_none());
}
