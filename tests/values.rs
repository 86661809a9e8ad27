use rglgen::cmdline::CmdLine;
use rglgen::dom::{Element, Node};
use rglgen::error::GenError;
use rglgen::values::{gather_values, parse_value, Val};

fn el(name: &str, attrs: &[(&str, &str)], kids: Vec<Node>) -> Node {
    Node::Element(Element::new(
        name.to_string(),
        attrs.iter().map(|(k, v)| (k.to_string(), v.to_string())).collect(),
        kids,
    ))
}

fn any_opts() -> CmdLine {
    CmdLine {
        version: rglgen::versions::parse_version("gl4.6").ok().unwrap(),
        xml_path: "gl.xml".to_string(),
        extensions: Vec::new(),
        use_libc: false,
        used_identifiers_path: None,
    }
}

#[test]
fn literals_of_each_width() {
    assert_eq!(parse_value("0x1F", None).ok(), Some(Val::U32(31)));
    assert_eq!(parse_value("0x1f", Some("u")).ok(), Some(Val::U32(31)));
    assert_eq!(parse_value("42", None).ok(), Some(Val::U32(42)));
    assert_eq!(parse_value("-1", None).ok(), Some(Val::I32(-1)));
    assert_eq!(parse_value("-2147483648", None).ok(), Some(Val::I32(i32::MIN)));
    assert_eq!(parse_value("0xFFFFFFFFFFFFFFFF", Some("ull")).ok(), Some(Val::U64(u64::MAX)));
    assert_eq!(parse_value("0xFFFFFFFF", None).ok(), Some(Val::U32(u32::MAX)));
}

#[test]
fn malformed_literals_are_errors() {
    assert!(matches!(parse_value("0x100000000", Some("u")), Err(GenError::MalformedDeclaration(_))));
    assert!(matches!(parse_value("-2147483649", None), Err(GenError::MalformedDeclaration(_))));
    assert!(matches!(parse_value("0xZZ", None), Err(GenError::MalformedDeclaration(_))));
    assert!(matches!(parse_value("", None), Err(GenError::MalformedDeclaration(_))));
    match parse_value("1", Some("ul")) {
        Err(GenError::MalformedDeclaration(t)) => assert_eq!(t, "ul"),
        _ => panic!("unknown type should be named"),
    }
}

#[test]
fn declarations_render_in_literal_form() {
    assert_eq!(Val::U32(0x8B31).output("GL_VERTEX_SHADER", &any_opts()), "pub const GL_VERTEX_SHADER: u32 = 0x8b31;");
    assert_eq!(Val::I32(-1).output("GL_INVALID_INDEX", &any_opts()), "pub const GL_INVALID_INDEX: i32 = -1;");
    assert_eq!(Val::U64(u64::MAX).output("GL_TIMEOUT_IGNORED", &any_opts()), "pub const GL_TIMEOUT_IGNORED: u64 = 0xffffffffffffffff;");
    assert_eq!(Val::U32(0).output("GL_ZERO", &any_opts()), "pub const GL_ZERO: u32 = 0x0;");
}

#[test]
fn rendered_literals_read_back() {
    for (lit, typ) in [("0x8B31", None), ("-5", None), ("0x1", Some("ull")), ("4294967295", Some("u"))] {
        let v = parse_value(lit, typ).ok().unwrap();
        let line = v.output("X", &any_opts());
        let rendered = line.trim_start_matches("pub const X: ").split(" = ").nth(1).unwrap().trim_end_matches(';').to_string();
        let back_typ = match v {
            Val::U32(_) => Some("u"),
            Val::I32(_) => None,
            Val::U64(_) => Some("ull"),
        };
        assert_eq!(parse_value(&rendered, back_typ).ok(), Some(v));
    }
}

#[test]
fn gather_skips_aliases_and_sorts_names() {
    let r = Element::new("registry".to_string(), Vec::new(), vec![
        el("enums", &[("namespace", "GL")], vec![
            el("enum", &[("value", "0x0001"), ("name", "GL_B")], vec![]),
            el("enum", &[("value", "0x0002"), ("name", "GL_A")], vec![]),
            el("enum", &[("value", "0x0002"), ("name", "GL_A_ALIAS"), ("alias", "GL_A")], vec![]),
            el("enum", &[("value", "0xFFFFFFFFFFFFFFFF"), ("type", "ull"), ("name", "GL_C")], vec![]),
        ]),
    ]);
    let (map, order) = gather_values(&r, &any_opts()).ok().unwrap();
    assert_eq!(order, vec!["GL_A".to_string(), "GL_B".to_string(), "GL_C".to_string()]);
    assert_eq!(map.len(), 3);
    assert_eq!(map[0], ("GL_B".to_string(), Val::U32(1)));
    assert_eq!(map[2].1, Val::U64(u64::MAX));
}

#[test]
fn gather_refuses_duplicates() {
    let r = Element::new("registry".to_string(), Vec::new(), vec![
        el("enums", &[], vec![
            el("enum", &[("value", "1"), ("name", "GL_X")], vec![]),
            el("enum", &[("value", "2"), ("name", "GL_X")], vec![]),
        ]),
    ]);
    match gather_values(&r, &any_opts()) {
        Err(GenError::DuplicateName(n)) => assert_eq!(n, "GL_X"),
        _ => panic!("expected a duplicate"),
    }
}
