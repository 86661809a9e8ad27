use rglgen::cmdline::CmdLine;
use rglgen::commands::{gather_commands, touch_pass};
use rglgen::dom::{Element, Node};
use rglgen::emit::{type_section, value_section};
use rglgen::error::GenError;
use rglgen::features::gather_features;
use rglgen::procs::sort_commands;
use rglgen::types::gather_types;
use rglgen::used_identifiers::used_identifiers_from_text;
use rglgen::values::gather_values;
use rglgen::versions::parse_version;

fn el(name: &str, attrs: &[(&str, &str)], kids: Vec<Node>) -> Node {
    Node::Element(Element::new(
        name.to_string(),
        attrs.iter().map(|(k, v)| (k.to_string(), v.to_string())).collect(),
        kids,
    ))
}

fn text(s: &str) -> Node {
    Node::Text(s.to_string())
}

fn entry(kind: &str, name: &str) -> Node {
    el(kind, &[("name", name)], vec![])
}

fn typedef(c: &str, name: &str) -> Node {
    el("type", &[], vec![text(c), el("name", &[], vec![text(name)]), text(";")])
}

fn registry() -> Element {
    Element::new("registry".to_string(), Vec::new(), vec![
        el("types", &[], vec![
            typedef("typedef unsigned int ", "GLenum"),
            typedef("typedef int ", "GLint"),
            typedef("typedef float ", "GLfloat"),
            typedef("typedef unsigned char ", "GLubyte"),
            typedef("typedef GLint ", "GLsizei"),
            el("type", &[("requires", "GLubyte")], vec![text("typedef GLsizei "), el("name", &[], vec![text("GLcount")]), text(";")]),
        ]),
        el("enums", &[], vec![
            el("enum", &[("name", "GL_VENDOR"), ("value", "0x1F00")], vec![]),
            el("enum", &[("name", "GL_FLOAT"), ("value", "0x1406")], vec![]),
        ]),
        el("commands", &[], vec![
            el("command", &[], vec![
                el("proto", &[], vec![text("void "), el("name", &[], vec![text("glUniform1f")])]),
                el("param", &[], vec![el("ptype", &[], vec![text("GLint")]), text(" "), el("name", &[], vec![text("location")])]),
                el("param", &[], vec![el("ptype", &[], vec![text("GLfloat")]), text(" "), el("name", &[], vec![text("v0")])]),
                el("param", &[], vec![el("ptype", &[], vec![text("GLcount")]), text(" "), el("name", &[], vec![text("n")])]),
            ]),
            el("command", &[], vec![
                el("proto", &[], vec![text("const "), el("ptype", &[], vec![text("GLubyte")]), text(" *"), el("name", &[], vec![text("glGetString")])]),
                el("param", &[], vec![el("ptype", &[], vec![text("GLenum")]), text(" "), el("name", &[], vec![text("name")])]),
            ]),
            el("command", &[], vec![
                el("proto", &[], vec![text("void "), el("name", &[], vec![text("glExtThing")])]),
            ]),
        ]),
        el("feature", &[("api", "gl"), ("number", "2.0")], vec![
            el("require", &[], vec![
                entry("enum", "GL_VENDOR"), entry("enum", "GL_FLOAT"),
                entry("command", "glUniform1f"), entry("command", "glGetString"),
            ]),
        ]),
        el("extensions", &[], vec![
            el("extension", &[("name", "GL_EXT_thing"), ("supported", "gl")], vec![
                el("require", &[], vec![entry("command", "glExtThing")]),
            ]),
            el("extension", &[("name", "GL_ES_only"), ("supported", "gles2")], vec![]),
        ]),
    ])
}

fn opts(exts: &[&str]) -> CmdLine {
    CmdLine {
        version: parse_version("gl2.1").ok().unwrap(),
        xml_path: "gl.xml".to_string(),
        extensions: exts.iter().map(|s| s.to_string()).collect(),
        use_libc: false,
        used_identifiers_path: Some("used.txt".to_string()),
    }
}

#[test]
fn allow_listed_command_pulls_in_its_types() {
    let xml = registry();
    let o = opts(&["GL_EXT_thing"]);
    let (types, _) = gather_types(&xml, &o).ok().unwrap();
    let (values, value_order) = gather_values(&xml, &o).ok().unwrap();
    let (commands, command_order) = gather_commands(&xml, &o).ok().unwrap();
    let mut res = gather_features(&xml, &o).ok().unwrap();
    let used = used_identifiers_from_text("glUniform1f\nglExtThing\nGL_FLOAT\n");
    touch_pass(&used, &commands, &res.commands, &types, &mut res.types);
    assert_eq!(
        type_section(&types, &res.types, &o),
        vec![
            "pub type GLint = i32;".to_string(),
            "pub type GLfloat = f32;".to_string(),
            "pub type GLubyte = u8;".to_string(),
            "pub type GLsizei = GLint;".to_string(),
            "pub type GLcount = GLsizei;".to_string(),
        ]
    );
    assert_eq!(value_section(&values, &value_order, &used, &res.values, &o), vec!["pub const GL_FLOAT: u32 = 0x1406;".to_string()]);
    let layout = sort_commands(&used, &res.commands, &command_order, &o.extensions);
    assert_eq!(layout.sorted, vec!["glUniform1f".to_string(), "glExtThing".to_string()]);
    assert_eq!(layout.ranges.len(), 2);
}

#[test]
fn unresolvable_extensions_stop_before_output() {
    let xml = registry();
    let o = opts(&["GL_missing", "GL_ES_only"]);
    match gather_features(&xml, &o) {
        Err(GenError::UnresolvableExtension(ps)) => assert_eq!(ps.len(), 2),
        _ => panic!("expected both problems"),
    }
}
