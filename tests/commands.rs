use rglgen::cmdline::CmdLine;
use rglgen::commands::gather_commands;
use rglgen::dom::{Element, Node};
use rglgen::error::GenError;
use rglgen::features::{Owner, OwnerMap};
use rglgen::used_identifiers::used_identifiers_from_text;
use rglgen::versions::parse_version;

fn el(name: &str, attrs: &[(&str, &str)], kids: Vec<Node>) -> Node {
    Node::Element(Element::new(
        name.to_string(),
        attrs.iter().map(|(k, v)| (k.to_string(), v.to_string())).collect(),
        kids,
    ))
}

fn text(s: &str) -> Node {
    Node::Text(s.to_string())
}

fn opts(libc: bool) -> CmdLine {
    CmdLine {
        version: parse_version("gl4.6").ok().unwrap(),
        xml_path: "gl.xml".to_string(),
        extensions: Vec::new(),
        use_libc: libc,
        used_identifiers_path: None,
    }
}

fn param(head: &str, ptype: &str, mid: &str, name: &str, tail: &str) -> Node {
    el("param", &[], vec![text(head), el("ptype", &[], vec![text(ptype)]), text(mid), el("name", &[], vec![text(name)]), text(tail)])
}

fn registry() -> Element {
    Element::new("registry".to_string(), Vec::new(), vec![el("commands", &[], vec![
        el("command", &[], vec![
            el("proto", &[], vec![text("void "), el("name", &[], vec![text("glUniformMatrix")])]),
            param("", "GLenum", " ", "mode", ""),
            param("const ", "GLfloat", " *", "v", ""),
            param("", "GLuint", " ", "type", ""),
            param("", "GLfloat", " ", "m", "[16]"),
        ]),
        el("command", &[], vec![
            el("proto", &[], vec![text("const "), el("ptype", &[], vec![text("GLubyte")]), text(" *"), el("name", &[], vec![text("glGetString")])]),
            param("", "GLenum", " ", "name", ""),
        ]),
    ])])
}

#[test]
fn signatures_are_translated() {
    let (map, order) = gather_commands(&registry(), &opts(false)).ok().unwrap();
    assert_eq!(order, vec!["glGetString".to_string(), "glUniformMatrix".to_string()]);
    let c = &map[0].1;
    assert_eq!(map[0].0, "glUniformMatrix");
    assert_eq!(c.returns, "()");
    assert_eq!(c.params, "mode: GLenum, v: *const GLfloat, p_type: GLuint, m: *mut GLfloat");
    assert_eq!(c.ignored_params, "_: GLenum, _: *const GLfloat, _: GLuint, _: *mut GLfloat");
    assert_eq!(c.param_names, "mode, v, p_type, m");
    assert_eq!(c.param_count, 4);
    assert_eq!(c.param_types, vec!["GLenum".to_string(), "GLfloat".to_string(), "GLuint".to_string()]);
    let g = &map[1].1;
    assert_eq!(g.returns, "*const GLubyte");
    let (libc_map, _) = gather_commands(&registry(), &opts(true)).ok().unwrap();
    assert_eq!(libc_map[0].1.returns, "libc::c_void");
}

#[test]
fn forwarding_and_stub_text() {
    let (map, _) = gather_commands(&registry(), &opts(false)).ok().unwrap();
    let g = &map[1].1;
    assert_eq!(
        g.output_imp(&opts(false), 7),
        "    #[inline(always)] pub unsafe fn GetString(&self, name: GLenum) -> *const GLubyte { (transmute::<_, extern \"C\" fn(name: GLenum) -> *const GLubyte>(self.procs[7]))(name) }"
    );
    assert_eq!(
        g.output_dummy_imp("GL_EXT_x", &opts(false)),
        "extern \"C\" fn glGetString_null_imp(_: GLenum) -> *const GLubyte { missing_ext_panic(\"glGetString\", \"GL_EXT_x\"); }"
    );
}

#[test]
fn allow_list_reaches_signature_types() {
    let (map, _) = gather_commands(&registry(), &opts(false)).ok().unwrap();
    let mut exts = OwnerMap::new();
    exts.require(&"glUniformMatrix".to_string(), &Owner::Core);
    exts.require(&"glGetString".to_string(), &Owner::Core);
    let used = used_identifiers_from_text("glUniformMatrix\n");
    let mut type_set = OwnerMap::new();
    rglgen::commands::touch_pass(&used, &map, &exts, &Vec::new(), &mut type_set);
    for t in ["GLenum", "GLfloat", "GLuint"] {
        assert!(type_set.contains_key(&t.chars().collect::<Vec<char>>()));
    }
    assert!(!type_set.contains_key(&"GLubyte".chars().collect::<Vec<char>>()));
}

#[test]
fn malformed_and_duplicate_commands() {
    let nameless = Element::new("registry".to_string(), Vec::new(), vec![el("commands", &[], vec![
        el("command", &[], vec![param("", "GLenum", " ", "mode", "")]),
    ])]);
    assert!(matches!(gather_commands(&nameless, &opts(false)), Err(GenError::MalformedDeclaration(_))));
    let twice = Element::new("registry".to_string(), Vec::new(), vec![el("commands", &[], vec![
        el("command", &[], vec![el("proto", &[], vec![text("void "), el("name", &[], vec![text("glA")])])]),
        el("command", &[], vec![el("proto", &[], vec![text("void "), el("name", &[], vec![text("glA")])])]),
    ])]);
    match gather_commands(&twice, &opts(false)) {
        Err(GenError::DuplicateName(n)) => assert_eq!(n, "glA"),
        _ => panic!("expected a duplicate"),
    }
}
