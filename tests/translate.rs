use rglgen::decl::split_declaration;
use rglgen::error::GenError;
use rglgen::types::{c_type_to_rust_type, lookup_primitive, Type};

fn chars(s: &str) -> Vec<char> {
    s.chars().collect()
}

fn translate(map: &Vec<(String, Type)>, t: &str, libc: bool) -> Result<String, GenError> {
    let mut deps: Vec<String> = Vec::new();
    c_type_to_rust_type(map, &chars(t), &mut deps, libc).map(|v| v.into_iter().collect())
}

fn known(names: &[&str]) -> Vec<(String, Type)> {
    names.iter().map(|n| (n.to_string(), Type { code: None, deps: Vec::new() })).collect()
}

#[test]
fn double_const_spacing_translates_identically() {
    let map = known(&["GLchar"]);
    let a = translate(&map, "const GLchar*const *", false).ok().unwrap();
    let b = translate(&map, "const GLchar *const*", false).ok().unwrap();
    assert_eq!(a, b);
    assert_eq!(a, "*mut*const GLchar");
}

#[test]
fn pointer_levels_take_base_constness_innermost() {
    let map = known(&["GLubyte", "GLfloat"]);
    assert_eq!(translate(&map, "const GLubyte *", false).ok().unwrap(), "*const GLubyte");
    assert_eq!(translate(&map, "GLfloat *", false).ok().unwrap(), "*mut GLfloat");
    assert_eq!(translate(&map, "const GLubyte **", false).ok().unwrap(), "*mut*const GLubyte");
    assert_eq!(translate(&map, "GLfloat", false).ok().unwrap(), "GLfloat");
}

#[test]
fn primitives_in_both_tables() {
    let map = known(&[]);
    assert_eq!(translate(&map, "unsigned int", false).ok().unwrap(), "u32");
    assert_eq!(translate(&map, "unsigned int", true).ok().unwrap(), "libc::c_uint");
    assert_eq!(translate(&map, "long", false).ok().unwrap(), "i32");
    assert_eq!(translate(&map, "long", true).ok().unwrap(), "libc::c_long");
    assert_eq!(translate(&map, "const void *", false).ok().unwrap(), "*const()");
    assert_eq!(translate(&map, "void *", true).ok().unwrap(), "*mut libc::c_void");
    assert_eq!(translate(&map, "khronos_float_t", true).ok().unwrap(), "f32");
    assert_eq!(lookup_primitive(&chars("khronos_int64_t"), false), Some("i64"));
    assert_eq!(lookup_primitive(&chars("GLenum"), false), None);
}

#[test]
fn struct_references_become_void() {
    let map = known(&[]);
    assert_eq!(translate(&map, "struct _cl_context *", false).ok().unwrap(), "*mut()");
    assert_eq!(translate(&map, "  struct __GLsync   *", true).ok().unwrap(), "*mut libc::c_void");
}

#[test]
fn unknown_base_type_is_named() {
    let map = known(&["GLint"]);
    match translate(&map, "const FooBar *", false) {
        Err(GenError::UnknownType(n)) => assert_eq!(n, "FooBar"),
        _ => panic!("expected an unknown type"),
    }
}

#[test]
fn known_types_are_recorded_once() {
    let map = known(&["GLint"]);
    let mut deps: Vec<String> = Vec::new();
    let _ = c_type_to_rust_type(&map, &chars("GLint *"), &mut deps, false);
    let _ = c_type_to_rust_type(&map, &chars("const GLint"), &mut deps, false);
    let _ = c_type_to_rust_type(&map, &chars("int"), &mut deps, false);
    assert_eq!(deps, vec!["GLint".to_string()]);
}

#[test]
fn split_reports_parts() {
    let p = split_declaration(&chars("const GLchar*const*"));
    assert!(p.lead_const);
    assert_eq!(p.base.iter().collect::<String>(), "GLchar");
    assert_eq!(p.levels, vec![false, true]);
}

#[test]
fn space_runs_translate_identically() {
    let map = known(&["GLchar"]);
    let a = translate(&map, "GLchar *", false).ok().unwrap();
    assert_eq!(translate(&map, "GLchar*", false).ok().unwrap(), a);
    assert_eq!(translate(&map, "  GLchar  *  ", false).ok().unwrap(), a);
    assert_eq!(a, "*mut GLchar");
}

#[test]
fn command_signature_spacing_is_irrelevant() {
    let opts = rglgen::cmdline::CmdLine {
        version: rglgen::versions::parse_version("gl4.6").ok().unwrap(),
        xml_path: "gl.xml".to_string(),
        extensions: Vec::new(),
        use_libc: false,
        used_identifiers_path: None,
    };
    let mut out1: Vec<char> = Vec::new();
    let mut out2: Vec<char> = Vec::new();
    let mut pt1: Vec<String> = Vec::new();
    let mut pt2: Vec<String> = Vec::new();
    rglgen::commands::write_type(&opts, &mut out1, &chars("const GLchar*const *"), &mut pt1);
    rglgen::commands::write_type(&opts, &mut out2, &chars("const GLchar *const*"), &mut pt2);
    assert_eq!(out1, out2);
    assert_eq!(pt1, pt2);
    assert_eq!(out1.into_iter().collect::<String>(), "*mut*const GLchar");
    assert_eq!(pt1, vec!["GLchar".to_string()]);
}
