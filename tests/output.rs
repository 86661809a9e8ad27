use rglgen::commands::gather_commands;
use rglgen::cmdline::CmdLine;
use rglgen::comments::output_comment_elements;
use rglgen::dom::{build_tree, Element, Node, TreeEvent};
use rglgen::error::GenError;
use rglgen::emit::{constructor_section, flag_name, imp_section, stub_section, type_section, value_section};
use rglgen::features::{Owner, OwnerMap};
use rglgen::procs::sort_commands;
use rglgen::types::Type;
use rglgen::used_identifiers::{used_identifiers_from_text, UsedIdentifiers};
use rglgen::values::Val;
use rglgen::versions::parse_version;

fn el(name: &str, attrs: &[(&str, &str)], kids: Vec<Node>) -> Node {
    Node::Element(Element::new(
        name.to_string(),
        attrs.iter().map(|(k, v)| (k.to_string(), v.to_string())).collect(),
        kids,
    ))
}

fn text(s: &str) -> Node {
    Node::Text(s.to_string())
}

fn any_opts() -> CmdLine {
    CmdLine {
        version: rglgen::versions::parse_version("gl4.6").ok().unwrap(),
        xml_path: "gl.xml".to_string(),
        extensions: Vec::new(),
        use_libc: false,
        used_identifiers_path: None,
    }
}

fn strings(v: &[&str]) -> Vec<String> {
    v.iter().map(|s| s.to_string()).collect()
}

#[test]
fn comment_block_lines() {
    let r = Element::new("registry".to_string(), Vec::new(), vec![
        el("comment", &[], vec![text("Copyright  \n\nLicensed")]),
        el("types", &[], vec![text("not a comment")]),
    ]);
    assert_eq!(output_comment_elements(&r), "//\n// Copyright\n//\n// Licensed\n");
    let r = Element::new("registry".to_string(), Vec::new(), vec![el("comment", &[], vec![text("\nA")])]);
    assert_eq!(output_comment_elements(&r), "//\n// A\n");
}

#[test]
fn element_text_and_attributes() {
    let e = Element::new("proto".to_string(), vec![("a".to_string(), "1".to_string()), ("a".to_string(), "2".to_string())], vec![
        text("const "),
        el("ptype", &[], vec![text("GLubyte")]),
        text(" *"),
        el("name", &[], vec![text("glGetString")]),
    ]);
    assert_eq!(e.get_text(), "const GLubyte *glGetString");
    assert_eq!(e.get_text_as_bytes(), b"const GLubyte *glGetString".to_vec());
    assert_eq!(e.get_attribute("a"), Some(&"1".to_string()));
    assert_eq!(e.get_attribute("b"), None);
    assert!(e.has_attribute("a"));
    assert_eq!(e.get_name(), "proto");
    assert_eq!(e.get_children().len(), 4);
    assert_eq!(e.get_attributes().len(), 2);
}

#[test]
fn allow_list_lines() {
    match used_identifiers_from_text("glA\r\n\nglB") {
        UsedIdentifiers::Applicable(v) => assert_eq!(v, strings(&["glA", "", "glB"])),
        UsedIdentifiers::NotApplicable => panic!("expected a list"),
    }
    match used_identifiers_from_text("") {
        UsedIdentifiers::Applicable(v) => assert!(v.is_empty()),
        UsedIdentifiers::NotApplicable => panic!("expected a list"),
    }
    assert!(UsedIdentifiers::NotApplicable.contains("anything"));
}

#[test]
fn flag_names_drop_prefix() {
    assert_eq!(flag_name("GL_KHR_debug"), "KHR_debug");
    assert_eq!(flag_name("WGL_EXT_x"), "WGL_EXT_x");
}

#[test]
fn sections_follow_the_resolution() {
    let types = vec![
        ("GLenum".to_string(), Type { code: Some("pub type GLenum = u32;".to_string()), deps: Vec::new() }),
        ("stddef".to_string(), Type { code: None, deps: Vec::new() }),
        ("GLunused".to_string(), Type { code: Some("pub type GLunused = u8;".to_string()), deps: Vec::new() }),
    ];
    let mut reached = OwnerMap::new();
    reached.require(&"GLenum".to_string(), &Owner::Core);
    reached.require(&"stddef".to_string(), &Owner::Core);
    assert_eq!(type_section(&types, &reached, &any_opts()), strings(&["pub type GLenum = u32;"]));

    let values = vec![("GL_B".to_string(), Val::U32(2)), ("GL_A".to_string(), Val::I32(-1))];
    let mut value_set = OwnerMap::new();
    value_set.require(&"GL_A".to_string(), &Owner::Core);
    value_set.require(&"GL_B".to_string(), &Owner::Core);
    let used = used_identifiers_from_text("GL_A\nGL_B\n");
    assert_eq!(
        value_section(&values, &strings(&["GL_A", "GL_B"]), &used, &value_set, &any_opts()),
        strings(&["pub const GL_A: i32 = -1;", "pub const GL_B: u32 = 0x2;"])
    );
    let only_b = used_identifiers_from_text("GL_B\n");
    assert_eq!(value_section(&values, &strings(&["GL_A", "GL_B"]), &only_b, &value_set, &any_opts()), strings(&["pub const GL_B: u32 = 0x2;"]));
}

#[test]
fn stubs_and_forwarders() {
    let reg = Element::new("registry".to_string(), Vec::new(), vec![el("commands", &[], vec![
        el("command", &[], vec![el("proto", &[], vec![text("void "), el("name", &[], vec![text("glCore")])])]),
        el("command", &[], vec![el("proto", &[], vec![text("void "), el("name", &[], vec![text("glExt")])])]),
    ])]);
    let opts = CmdLine {
        version: parse_version("gl4.6").ok().unwrap(),
        xml_path: "gl.xml".to_string(),
        extensions: strings(&["GL_X"]),
        use_libc: false,
        used_identifiers_path: None,
    };
    let (cmds, order) = gather_commands(&reg, &opts).ok().unwrap();
    let mut exts = OwnerMap::new();
    exts.require(&"glCore".to_string(), &Owner::Core);
    exts.require(&"glExt".to_string(), &Owner::Extension("GL_X".to_string()));
    let used = UsedIdentifiers::NotApplicable;
    assert_eq!(
        stub_section(&used, &cmds, &order, &exts, &opts),
        strings(&["extern \"C\" fn glExt_null_imp() -> () { missing_ext_panic(\"glExt\", \"GL_X\"); }"])
    );
    let layout = sort_commands(&used, &exts, &order, &opts.extensions);
    let imps = imp_section(&cmds, &order, &layout, &opts);
    assert_eq!(imps.len(), 2);
    assert!(imps[0].contains("pub unsafe fn Core(&self, ) -> ()"));
    assert!(imps[0].contains("self.procs[0]"));
    assert!(imps[1].contains("self.procs[1]"));
}

fn start(n: &str, attrs: &[(&str, &str)]) -> TreeEvent {
    TreeEvent::Start(n.to_string(), attrs.iter().map(|(k, v)| (k.to_string(), v.to_string())).collect())
}

#[test]
fn tree_from_events() {
    let events = vec![
        TreeEvent::Text("\n".to_string()),
        start("registry", &[]),
        start("comment", &[("x", "1")]),
        TreeEvent::Text("hello".to_string()),
        TreeEvent::End("comment".to_string()),
        TreeEvent::Text(" ".to_string()),
        TreeEvent::End("registry".to_string()),
        TreeEvent::Text("after".to_string()),
    ];
    let root = build_tree(&events).ok().unwrap();
    assert_eq!(root.get_name(), "registry");
    assert_eq!(root.get_children().len(), 2);
    assert_eq!(root.get_text(), "hello ");
    match &root.get_children()[0] {
        Node::Element(c) => {
            assert_eq!(c.get_name(), "comment");
            assert_eq!(c.get_attribute("x"), Some(&"1".to_string()));
        }
        Node::Text(_) => panic!("expected an element"),
    }
}

#[test]
fn tree_refuses_unbalanced_events() {
    let mismatched = vec![start("a", &[]), TreeEvent::End("b".to_string())];
    match build_tree(&mismatched) {
        Err(GenError::MalformedDeclaration(n)) => assert_eq!(n, "b"),
        _ => panic!("expected a refusal"),
    }
    let unclosed = vec![start("a", &[]), start("b", &[]), TreeEvent::End("b".to_string())];
    assert!(build_tree(&unclosed).is_err());
    assert!(build_tree(&vec![TreeEvent::End("a".to_string())]).is_err());
}

#[test]
fn constructor_loads_core_first_and_stubs_extensions() {
    let mut exts = OwnerMap::new();
    exts.require(&"glA".to_string(), &Owner::Core);
    exts.require(&"glGetString".to_string(), &Owner::Core);
    exts.require(&"glX1".to_string(), &Owner::Extension("GL_EXT_x".to_string()));
    exts.require(&"glX2".to_string(), &Owner::Extension("GL_EXT_x".to_string()));
    let order = strings(&["glA", "glGetString", "glX1", "glX2"]);
    let requested = strings(&["GL_EXT_x"]);
    let layout = sort_commands(&UsedIdentifiers::NotApplicable, &exts, &order, &requested);
    let lines = constructor_section(&layout, &requested, false);
    let pos = |l: &str| lines.iter().position(|x| x == l).unwrap();
    let core = pos("        Procs::getprocs(&get_proc, &mut procs[0..2], &[");
    let detect = pos("        let disabled_extensions = std::env::var(\"GL_DISABLED_EXTENSIONS\");");
    let stub2 = pos("        procs[2].write(glX1_null_imp as *const ());");
    let stub3 = pos("        procs[3].write(glX2_null_imp as *const ());");
    let load = pos("        if ret.has_EXT_x {");
    assert!(core < stub2 && stub2 < stub3 && stub3 < detect && detect < load);
    assert_eq!(lines[load + 2], "                            unsafe { transmute(&mut ret.procs[2..4]) }, &[");
    assert_eq!(lines[load + 3], "                b\"glX1\\0\",");
    assert_eq!(lines[load + 4], "                b\"glX2\\0\",");
    assert_eq!(lines[3], "        let mut procs: [MaybeUninit<*const()>; 4] = unsafe {");
    assert!(lines.contains(&"            has_EXT_x: false,".to_string()));
    assert!(lines.contains(&"                b\"GL_EXT_x\" => ret.has_EXT_x = true,".to_string()));
    assert_eq!(lines.last().unwrap(), "    }");
}

#[test]
fn constructor_without_extensions_skips_detection() {
    let mut exts = OwnerMap::new();
    exts.require(&"glA".to_string(), &Owner::Core);
    let layout = sort_commands(&UsedIdentifiers::NotApplicable, &exts, &strings(&["glA"]), &strings(&[]));
    let lines = constructor_section(&layout, &strings(&[]), true);
    assert!(!lines.iter().any(|l| l.contains("disabled_extensions")));
    assert!(lines.contains(&"            b\"glA\\0\",".to_string()));
}
