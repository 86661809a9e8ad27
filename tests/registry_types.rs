use rglgen::cmdline::CmdLine;
use rglgen::dom::{Element, Node};
use rglgen::error::GenError;
use rglgen::types::gather_types;
use rglgen::versions::parse_version;

fn el(name: &str, attrs: &[(&str, &str)], kids: Vec<Node>) -> Node {
    Node::Element(Element::new(
        name.to_string(),
        attrs.iter().map(|(k, v)| (k.to_string(), v.to_string())).collect(),
        kids,
    ))
}

fn text(s: &str) -> Node {
    Node::Text(s.to_string())
}

fn root(kids: Vec<Node>) -> Element {
    Element::new("registry".to_string(), Vec::new(), kids)
}

fn opts(libc: bool) -> CmdLine {
    CmdLine {
        version: parse_version("gl4.6").ok().unwrap(),
        xml_path: "gl.xml".to_string(),
        extensions: Vec::new(),
        use_libc: libc,
        used_identifiers_path: None,
    }
}

fn named(decl_head: &str, name: &str, tail: &str) -> Node {
    el("type", &[], vec![text(decl_head), el("name", &[], vec![text(name)]), text(tail)])
}

fn codes(r: &Element, libc: bool) -> Vec<(String, Option<String>)> {
    let (map, order) = gather_types(r, &opts(libc)).ok().unwrap();
    let mut names: Vec<String> = map.iter().map(|e| e.0.clone()).collect();
    names.sort();
    assert_eq!(order, names);
    map.into_iter().map(|(n, t)| (n, t.code)).collect()
}

#[test]
fn simple_typedefs_and_dependencies() {
    let r = root(vec![el("types", &[], vec![
        named("typedef unsigned int ", "GLenum", ";"),
        named("typedef khronos_float_t ", "GLfloat", ";"),
        named("typedef GLfloat *", "GLfloatPtr", ";"),
    ])]);
    let (map, order) = gather_types(&r, &opts(false)).ok().unwrap();
    assert_eq!(order, vec!["GLenum".to_string(), "GLfloat".to_string(), "GLfloatPtr".to_string()]);
    assert_eq!(map[2].1.deps, vec!["GLfloat".to_string()]);
    let c = codes(&r, false);
    assert_eq!(c[0], ("GLenum".to_string(), Some("pub type GLenum = u32;".to_string())));
    assert_eq!(c[1], ("GLfloat".to_string(), Some("pub type GLfloat = f32;".to_string())));
    assert_eq!(c[2], ("GLfloatPtr".to_string(), Some("pub type GLfloatPtr = *mut GLfloat;".to_string())));
}

#[test]
fn opaque_struct_and_preprocessor_entries() {
    let r = root(vec![el("types", &[], vec![
        el("type", &[("name", "stddef")], vec![text("#include <stddef.h>")]),
        el("type", &[("name", "struct _cl_event")], vec![text("struct _cl_event;")]),
    ])]);
    let c = codes(&r, true);
    assert_eq!(c[0], ("stddef".to_string(), None));
    assert_eq!(c[1], ("struct _cl_event".to_string(), Some("type struct__cl_event = ();".to_string())));
}

#[test]
fn function_pointer_typedef() {
    let r = root(vec![el("types", &[], vec![
        named("typedef unsigned int ", "GLenum", ";"),
        named("typedef int ", "GLsizei", ";"),
        named("typedef char ", "GLchar", ";"),
        named("typedef void ( *", "GLDEBUGPROC", ")(GLenum source,GLenum type,GLsizei length,const GLchar *message,const void *userParam);"),
        named("typedef void ( *", "GLVULKANPROCNV", ")(void);"),
    ])]);
    let c = codes(&r, false);
    assert_eq!(c[3].1, Some(
        "pub type GLDEBUGPROC = Option<extern \"C\" fn(source: GLenum, r#type: GLenum, length: GLsizei, message: *const GLchar, userParam: *const()) -> ()>;".to_string()));
    assert_eq!(c[4].1, Some("pub type GLVULKANPROCNV = Option<extern \"C\" fn() -> ()>;".to_string()));
}

#[test]
fn function_pointer_unnamed_parameter() {
    let r = root(vec![el("types", &[], vec![
        named("typedef int ", "GLint", ";"),
        named("typedef void (*", "PFN", ")(GLint, GLint *x);"),
    ])]);
    let c = codes(&r, false);
    assert_eq!(c[1].1, Some("pub type PFN = Option<extern \"C\" fn(_: GLint, x: *mut GLint) -> ()>;".to_string()));
}

#[test]
fn platform_handle_and_comments() {
    let handle = "#ifdef __APPLE__\ntypedef void *GLhandleARB;\n#else\ntypedef unsigned int GLhandleARB;\n#endif";
    let r = root(vec![el("types", &[], vec![
        el("type", &[("name", "GLhandleARB")], vec![text(handle)]),
        el("type", &[("comment", "first\nsecond")], vec![text("typedef int "), el("name", &[], vec![text("GLint")]), text(";")]),
    ])]);
    let c = codes(&r, false);
    let code = c[0].1.clone().unwrap();
    assert!(code.ends_with("type GLhandleARB = libc::c_uint;"));
    assert_eq!(c[1].1, Some("// first\n// second\npub type GLint = i32;".to_string()));
}

#[test]
fn api_filter_skips_other_apis() {
    let r = root(vec![el("types", &[], vec![
        el("type", &[("api", "gles2")], vec![text("typedef int "), el("name", &[], vec![text("GLfixed")]), text(";")]),
        el("type", &[("api", "gl")], vec![text("typedef int "), el("name", &[], vec![text("GLfixed")]), text(";")]),
    ])]);
    let c = codes(&r, false);
    assert_eq!(c.len(), 1);
}

#[test]
fn errors_name_the_symbol() {
    let bad = root(vec![el("types", &[], vec![named("typedef int ", "GLint", " garbage")])]);
    match gather_types(&bad, &opts(false)) {
        Err(GenError::MalformedDeclaration(n)) => assert_eq!(n, "GLint"),
        _ => panic!("expected malformed"),
    }
    let mismatch = root(vec![el("types", &[], vec![el("type", &[("name", "GLint")], vec![text("typedef int GLuint;")])])]);
    match gather_types(&mismatch, &opts(false)) {
        Err(GenError::DuplicateName(n)) => assert_eq!(n, "GLint"),
        _ => panic!("expected a name mismatch"),
    }
    let twice = root(vec![el("types", &[], vec![named("typedef int ", "GLint", ";"), named("typedef int ", "GLint", ";")])]);
    match gather_types(&twice, &opts(false)) {
        Err(GenError::DuplicateName(n)) => assert_eq!(n, "GLint"),
        _ => panic!("expected a duplicate"),
    }
    let unknown = root(vec![el("types", &[], vec![named("typedef GLmystery ", "GLint", ";")])]);
    match gather_types(&unknown, &opts(false)) {
        Err(GenError::UnknownType(n)) => assert_eq!(n, "GLmystery"),
        _ => panic!("expected unknown type"),
    }
    let two_names = root(vec![el("types", &[], vec![el("type", &[("name", "A")], vec![text("typedef int "), el("name", &[], vec![text("B")]), text(";")])])]);
    match gather_types(&two_names, &opts(false)) {
        Err(GenError::DuplicateName(n)) => assert_eq!(n, "A"),
        _ => panic!("expected two differing names to be refused"),
    }
    let repeated = root(vec![el("types", &[], vec![el("type", &[("name", "A")], vec![text("typedef int "), el("name", &[], vec![text("A")]), text(";")])])]);
    match gather_types(&repeated, &opts(false)) {
        Err(GenError::MalformedDeclaration(n)) => assert_eq!(n, "A"),
        _ => panic!("expected a twice-named type to be refused"),
    }
}
