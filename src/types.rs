//! Translation of C type declarations into Rust type expressions.

use vstd::prelude::*;
use crate::decl::{
    lemma_space_before_star_ignored,
    find_first, find_last, has_no_newline, ident_chars_at, is_ident, is_identifier, first_index_of,
    last_index_of, lemma_first_index_bound, lemma_last_index_bound, no_newline,
    render_levels, skip_spaces, split_decl, split_declaration, star_run, stars_at, starts_struct_kw,
    strip_leading_spaces, ident_run, DeclParts,
};
use crate::text::{copy_range, eq_lit, has_prefix, starts_with, chars_eq as seq_eq};
use crate::error::ErrorV;
use crate::dom::{attr, text_of, Element, Node};
use crate::cmdline::CmdLine;
use crate::versions::api_ok;
use crate::error::GenError;
use crate::table::{contains_name, find_name, names_of, sort_strings, sorted_views, views_of};
use crate::text::{chars_eq, chars_of, push_all, push_lit, string_of};

verus! {

/// A type of the registry: the Rust code emitted for it, if any (types that
/// only serve the C preprocessor emit none).
pub struct Type {
    pub code: Option<String>,
    /// The types this declaration depends on: its `requires` attribute and
    /// the table types its declaration names.
    pub deps: Vec<String>,
}

impl View for Type {
    type V = Option<Seq<char>>;

    open spec fn view(&self) -> Option<Seq<char>> {
        match self.code {
            Some(c) => Some(c@),
            None => None,
        }
    }
}

/// A type as a row: its name, its emitted code, and the types its
/// declaration depends on.
pub type TypeRow = (Seq<char>, Option<Seq<char>>, Seq<Seq<char>>);

/// A table of types as rows of name, emitted code and dependencies.
pub open spec fn rows_of(entries: Seq<(String, Type)>) -> Seq<TypeRow> {
    entries.map_values(|e: (String, Type)| (e.0@, e.1@, views_of(e.1.deps@)))
}

/// The names of a table of rows.
pub open spec fn row_names(rows: Seq<TypeRow>) -> Seq<Seq<char>> {
    rows.map_values(|r: TypeRow| r.0)
}

/// The primitive C types: name, Rust spelling through the `libc` crate, and
/// Rust spelling without it.
pub open spec fn primitive_table() -> Seq<(Seq<char>, Seq<char>, Seq<char>)> {
    seq![
        ("void"@, "libc::c_void"@, "()"@),
        ("char"@, "libc::c_char"@, "u8"@),
        ("unsigned char"@, "libc::c_uchar"@, "u8"@),
        ("signed char"@, "libc::c_schar"@, "i8"@),
        ("short"@, "libc::c_short"@, "i16"@),
        ("unsigned short"@, "libc::c_ushort"@, "u16"@),
        ("int"@, "libc::c_int"@, "i32"@),
        ("unsigned int"@, "libc::c_uint"@, "u32"@),
        ("long"@, "libc::c_long"@, "i32"@),
        ("unsigned long"@, "libc::c_ulong"@, "u32"@),
        ("float"@, "libc::c_float"@, "f32"@),
        ("double"@, "libc::c_double"@, "f64"@),
        ("ptrdiff_t"@, "libc::ptrdiff_t"@, "isize"@),
        ("intptr_t"@, "libc::intptr_t"@, "usize"@),
        ("size_t"@, "libc::size_t"@, "usize"@),
        ("ssize_t"@, "libc::ssize_t"@, "isize"@),
        ("int8_t"@, "libc::int8_t"@, "i8"@),
        ("int16_t"@, "libc::int16_t"@, "i16"@),
        ("int32_t"@, "libc::int32_t"@, "i32"@),
        ("int64_t"@, "libc::int64_t"@, "i64"@),
        ("uint8_t"@, "libc::uint8_t"@, "u8"@),
        ("uint16_t"@, "libc::uint16_t"@, "u16"@),
        ("uint32_t"@, "libc::uint32_t"@, "u32"@),
        ("uint64_t"@, "libc::uint64_t"@, "u64"@),
        ("khronos_ptrdiff_t"@, "isize"@, "isize"@),
        ("khronos_intptr_t"@, "usize"@, "usize"@),
        ("khronos_size_t"@, "usize"@, "usize"@),
        ("khronos_ssize_t"@, "isize"@, "isize"@),
        ("khronos_int8_t"@, "i8"@, "i8"@),
        ("khronos_int16_t"@, "i16"@, "i16"@),
        ("khronos_int32_t"@, "i32"@, "i32"@),
        ("khronos_int64_t"@, "i64"@, "i64"@),
        ("khronos_uint8_t"@, "u8"@, "u8"@),
        ("khronos_uint16_t"@, "u16"@, "u16"@),
        ("khronos_uint32_t"@, "u32"@, "u32"@),
        ("khronos_uint64_t"@, "u64"@, "u64"@),
        ("khronos_float_t"@, "f32"@, "f32"@),
        ("khronos_double_t"@, "f64"@, "f64"@),
    ]
}

/// The first entry of `t` named `name`: its spelling with or without `libc`.
pub open spec fn lookup_in(t: Seq<(Seq<char>, Seq<char>, Seq<char>)>, name: Seq<char>, use_libc: bool) -> Option<Seq<char>>
    decreases t.len(),
{
    if t.len() == 0 {
        None
    } else if t[0].0 == name {
        Some(if use_libc { t[0].1 } else { t[0].2 })
    } else {
        lookup_in(t.drop_first(), name, use_libc)
    }
}

/// The Rust spelling of the primitive C type `name`, if it is one.
pub open spec fn primitive(name: Seq<char>, use_libc: bool) -> Option<Seq<char>> {
    lookup_in(primitive_table(), name, use_libc)
}

fn primitive_entries() -> (t: Vec<(&'static str, &'static str, &'static str)>)
    ensures
        t@.len() == primitive_table().len(),
        forall|i: int| 0 <= i < t@.len() ==> (#[trigger] t@[i]).0@ == primitive_table()[i].0
            && t@[i].1@ == primitive_table()[i].1 && t@[i].2@ == primitive_table()[i].2,
{
    let mut t: Vec<(&'static str, &'static str, &'static str)> = Vec::new();
    t.push(("void", "libc::c_void", "()"));
    t.push(("char", "libc::c_char", "u8"));
    t.push(("unsigned char", "libc::c_uchar", "u8"));
    t.push(("signed char", "libc::c_schar", "i8"));
    t.push(("short", "libc::c_short", "i16"));
    t.push(("unsigned short", "libc::c_ushort", "u16"));
    t.push(("int", "libc::c_int", "i32"));
    t.push(("unsigned int", "libc::c_uint", "u32"));
    t.push(("long", "libc::c_long", "i32"));
    t.push(("unsigned long", "libc::c_ulong", "u32"));
    t.push(("float", "libc::c_float", "f32"));
    t.push(("double", "libc::c_double", "f64"));
    t.push(("ptrdiff_t", "libc::ptrdiff_t", "isize"));
    t.push(("intptr_t", "libc::intptr_t", "usize"));
    t.push(("size_t", "libc::size_t", "usize"));
    t.push(("ssize_t", "libc::ssize_t", "isize"));
    t.push(("int8_t", "libc::int8_t", "i8"));
    t.push(("int16_t", "libc::int16_t", "i16"));
    t.push(("int32_t", "libc::int32_t", "i32"));
    t.push(("int64_t", "libc::int64_t", "i64"));
    t.push(("uint8_t", "libc::uint8_t", "u8"));
    t.push(("uint16_t", "libc::uint16_t", "u16"));
    t.push(("uint32_t", "libc::uint32_t", "u32"));
    t.push(("uint64_t", "libc::uint64_t", "u64"));
    t.push(("khronos_ptrdiff_t", "isize", "isize"));
    t.push(("khronos_intptr_t", "usize", "usize"));
    t.push(("khronos_size_t", "usize", "usize"));
    t.push(("khronos_ssize_t", "isize", "isize"));
    t.push(("khronos_int8_t", "i8", "i8"));
    t.push(("khronos_int16_t", "i16", "i16"));
    t.push(("khronos_int32_t", "i32", "i32"));
    t.push(("khronos_int64_t", "i64", "i64"));
    t.push(("khronos_uint8_t", "u8", "u8"));
    t.push(("khronos_uint16_t", "u16", "u16"));
    t.push(("khronos_uint32_t", "u32", "u32"));
    t.push(("khronos_uint64_t", "u64", "u64"));
    t.push(("khronos_float_t", "f32", "f32"));
    t.push(("khronos_double_t", "f64", "f64"));
    t
}

/// The Rust spelling of the primitive C type `name`, if it is one.
pub fn lookup_primitive(name: &[char], use_libc: bool) -> (r: Option<&'static str>)
    ensures
        match r {
            Some(p) => primitive(name@, use_libc) == Some(p@),
            None => primitive(name@, use_libc) is None,
        },
{
    let t = primitive_entries();
    let ghost tab = primitive_table();
    let mut i: usize = 0;
    assert(tab.subrange(0, tab.len() as int) =~= tab);
    while i < t.len()
        invariant
            i <= t@.len(),
            t@.len() == tab.len(),
            tab == primitive_table(),
            forall|k: int| 0 <= k < t@.len() ==> (#[trigger] t@[k]).0@ == tab[k].0 && t@[k].1@
                == tab[k].1 && t@[k].2@ == tab[k].2,
            primitive(name@, use_libc) == lookup_in(tab.subrange(i as int, tab.len() as int), name@, use_libc),
        decreases t@.len() - i,
    {
        assert(tab.subrange(i as int, tab.len() as int).drop_first() =~= tab.subrange(i + 1, tab.len() as int));
        let entry = t[i];
        let key = chars_of(entry.0);
        if chars_eq(key.as_slice(), name) {
            return Some(if use_libc { entry.1 } else { entry.2 });
        }
        i = i + 1;
    }
    None
}

/// The Rust type expression for the C declaration fragment `t`, with the
/// types already known named in `known`: the pointer levels, then the base
/// type spelled as a primitive or, if it is a known type, by its own name.
/// `None` when the base type is neither.
pub open spec fn translate(t: Seq<char>, known: Seq<Seq<char>>, use_libc: bool) -> Option<Seq<char>> {
    let parts = split_decl(t);
    let ls = parts.2;
    let sep: Seq<char> = if ls.len() > 0 { seq![' '] } else { Seq::empty() };
    match primitive(parts.1, use_libc) {
        Some(p) => Some(render_levels(ls) + (if p == seq!['(', ')'] { Seq::empty() } else { sep }) + p),
        None => if known.contains(parts.1) {
            Some(render_levels(ls) + sep + parts.1)
        } else {
            None
        },
    }
}

/// The dependency list after translating `t`: a known, non-primitive base
/// type is added once.
pub open spec fn requires_after(old_req: Seq<Seq<char>>, t: Seq<char>, known: Seq<Seq<char>>, use_libc: bool) -> Seq<Seq<char>> {
    let base = split_decl(t).1;
    if primitive(base, use_libc) is None && known.contains(base) && !old_req.contains(base) {
        old_req.push(base)
    } else {
        old_req
    }
}

fn render_levels_exec(levels: &Vec<bool>, out: &mut Vec<char>)
    ensures
        final(out)@ == old(out)@ + render_levels(levels@),
{
    let mut i: usize = 0;
    assert(levels@.subrange(0, 0) =~= Seq::<bool>::empty());
    while i < levels.len()
        invariant
            i <= levels@.len(),
            out@ == old(out)@ + render_levels(levels@.subrange(0, i as int)),
        decreases levels@.len() - i,
    {
        assert(levels@.subrange(0, i + 1).drop_last() =~= levels@.subrange(0, i as int));
        proof {
            reveal_strlit("*const");
            reveal_strlit("*mut");
        }
        let ghost before = out@;
        if levels[i] {
            push_lit(out, "*const");
        } else {
            push_lit(out, "*mut");
        }
        i = i + 1;
        assert(out@ =~= old(out)@ + render_levels(levels@.subrange(0, i as int)));
    }
    assert(levels@.subrange(0, levels@.len() as int) =~= levels@);
}

/// Translates the C declaration fragment `c_type` into a Rust type
/// expression. A base type found among the types gathered so far is recorded
/// in `deps`; one that is neither primitive nor known is an
/// `UnknownType` error naming it.
pub fn c_type_to_rust_type(
    map: &Vec<(String, Type)>,
    c_type: &[char],
    deps: &mut Vec<String>,
    use_libc: bool,
) -> (r: Result<Vec<char>, GenError>)
    ensures
        match r {
            Ok(v) => translate(c_type@, names_of(map@), use_libc) == Some(v@),
            Err(e) => translate(c_type@, names_of(map@), use_libc) is None && (e matches GenError::UnknownType(n) && n@ == split_decl(c_type@).1),
        },
        views_of(final(deps)@) == requires_after(views_of(old(deps)@), c_type@, names_of(map@), use_libc),
{
    let parts = split_declaration(c_type);
    let DeclParts { lead_const, base, levels } = parts;
    let mut out: Vec<char> = Vec::new();
    render_levels_exec(&levels, &mut out);
    match lookup_primitive(base.as_slice(), use_libc) {
        Some(p) => {
            let pc = chars_of(p);
            proof {
                reveal_strlit("()");
            }
            let unit = chars_of("()");
            assert("()"@ =~= seq!['(', ')']);
            if !chars_eq(pc.as_slice(), unit.as_slice()) && levels.len() > 0 {
                out.push(' ');
            }
            push_all(&mut out, pc.as_slice());
            assert(out@ =~= translate(c_type@, names_of(map@), use_libc).unwrap());
            Ok(out)
        },
        None => {
            match find_name(map, base.as_slice()) {
                Some(idx) => {
                    assert(names_of(map@)[idx as int] == base@);
                    if !contains_name(deps, base.as_slice()) {
                        let ghost old_req = views_of(deps@);
                        deps.push(string_of(base.as_slice()));
                        assert(views_of(deps@) =~= old_req.push(base@));
                    }
                    if levels.len() > 0 {
                        out.push(' ');
                    }
                    push_all(&mut out, base.as_slice());
                    assert(names_of(map@).contains(base@));
                    assert(out@ =~= translate(c_type@, names_of(map@), use_libc).unwrap());
                    Ok(out)
                },
                None => Err(GenError::UnknownType(string_of(base.as_slice()))),
            }
        },
    }
}

/// The text between `typedef ` and the final `;`.
pub open spec fn typedef_body(t: Seq<char>) -> Option<Seq<char>> {
    if t.len() >= 9 && has_prefix(t, "typedef "@) && t.last() == ';' {
        Some(t.subrange(8, t.len() - 1))
    } else {
        None
    }
}

/// `m` split into a type part that ends with a space and any number of `*`,
/// and the identifier that follows it up to the end: the type part, then the
/// identifier.
pub open spec fn named_tail(m: Seq<char>) -> Option<(Seq<char>, Seq<char>)> {
    let j = last_index_of(m, ' ');
    if j < 0 {
        None
    } else {
        let q = j + 1 + star_run(m.subrange(j + 1, m.len() as int));
        let name = m.subrange(q, m.len() as int);
        let ty = m.subrange(0, q);
        if is_ident(name) && no_newline(ty) {
            Some((ty, name))
        } else {
            None
        }
    }
}

/// `typedef TYPE NAME;`: the type and the name.
pub open spec fn simple_typedef(t: Seq<char>) -> Option<(Seq<char>, Seq<char>)> {
    match typedef_body(t) {
        Some(m) => named_tail(m),
        None => None,
    }
}

/// `struct NAME;`: the text `struct NAME`.
pub open spec fn opaque_struct(t: Seq<char>) -> Option<Seq<char>> {
    if t.len() >= 9 && starts_struct_kw(t) && t.last() == ';' && is_ident(t.subrange(7, t.len() - 1)) {
        Some(t.subrange(0, t.len() - 1))
    } else {
        None
    }
}

/// `typedef RET (*NAME)(PARAMS);`, spaces allowed around the parentheses and
/// the star: the return type, the name and the parameter text.
pub open spec fn fn_pointer(t: Seq<char>) -> Option<(Seq<char>, Seq<char>, Seq<char>)> {
    if !(t.len() >= 10 && has_prefix(t, "typedef "@) && t[t.len() - 2] == ')' && t[t.len() - 1] == ';') {
        None
    } else {
        let b = t.subrange(8, t.len() - 2);
        let p = first_index_of(b, '(');
        if p < 0 {
            None
        } else {
            let a = strip_leading_spaces(b.subrange(p + 1, b.len() as int));
            if !(a.len() > 0 && a[0] == '*') {
                None
            } else {
                let c = strip_leading_spaces(a.drop_first());
                let k = ident_run(c) as int;
                let name = c.subrange(0, k);
                let d = strip_leading_spaces(c.subrange(k, c.len() as int));
                if !(is_ident(name) && d.len() > 0 && d[0] == ')') {
                    None
                } else {
                    let e = strip_leading_spaces(d.drop_first());
                    if !(e.len() > 0 && e[0] == '(') {
                        None
                    } else {
                        let ret = b.subrange(0, p);
                        let params = e.drop_first();
                        if no_newline(ret) && no_newline(params) {
                            Some((ret, name, params))
                        } else {
                            None
                        }
                    }
                }
            }
        }
    }
}

/// Splits `s` on the commas outside parentheses, with `depth` the current
/// nesting, `cur` the piece being read and `done` the pieces before it.
pub open spec fn split_acc(s: Seq<char>, depth: int, cur: Seq<char>, done: Seq<Seq<char>>) -> Seq<Seq<char>>
    decreases s.len(),
{
    if s.len() == 0 {
        done.push(cur)
    } else if s[0] == ',' && depth == 0 {
        split_acc(s.drop_first(), depth, Seq::empty(), done.push(cur))
    } else {
        let nd = if s[0] == '(' {
            depth + 1
        } else if s[0] == ')' {
            depth - 1
        } else {
            depth
        };
        split_acc(s.drop_first(), nd, cur.push(s[0]), done)
    }
}

/// The pieces of a parameter list, split on its top-level commas.
pub open spec fn split_params(s: Seq<char>) -> Seq<Seq<char>> {
    split_acc(s, 0, Seq::empty(), Seq::empty())
}

fn named_tail_exec(m: &[char]) -> (r: Option<(Vec<char>, Vec<char>)>)
    ensures
        match r {
            Some(p) => named_tail(m@) == Some((p.0@, p.1@)),
            None => named_tail(m@) is None,
        },
{
    let n = m.len();
    match find_last(m, ' ') {
        None => None,
        Some(j) => {
            proof {
                lemma_last_index_bound(m@, ' ');
                assert(j < n);
            }
            let st = stars_at(m, j + 1);
            let q = j + 1 + st;
            let name = copy_range(m, q, m.len());
            let ty = copy_range(m, 0, q);
            if is_identifier(name.as_slice()) && has_no_newline(ty.as_slice()) {
                Some((ty, name))
            } else {
                None
            }
        },
    }
}

fn simple_typedef_exec(t: &[char]) -> (r: Option<(Vec<char>, Vec<char>)>)
    ensures
        match r {
            Some(p) => simple_typedef(t@) == Some((p.0@, p.1@)),
            None => simple_typedef(t@) is None,
        },
{
    proof {
        reveal_strlit("typedef ");
    }
    if t.len() >= 9 && starts_with(t, "typedef ") && t[t.len() - 1] == ';' {
        let m = copy_range(t, 8, t.len() - 1);
        named_tail_exec(m.as_slice())
    } else {
        None
    }
}

fn opaque_struct_exec(t: &[char]) -> (r: Option<Vec<char>>)
    ensures
        match r {
            Some(p) => opaque_struct(t@) == Some(p@),
            None => opaque_struct(t@) is None,
        },
{
    if t.len() >= 9 && t[0] == 's' && t[1] == 't' && t[2] == 'r' && t[3] == 'u' && t[4] == 'c' && t[5] == 't'
        && t[6] == ' ' && t[t.len() - 1] == ';' {
        let n = copy_range(t, 7, t.len() - 1);
        if is_identifier(n.as_slice()) {
            return Some(copy_range(t, 0, t.len() - 1));
        }
    }
    None
}

fn fn_pointer_exec(t: &[char]) -> (r: Option<(Vec<char>, Vec<char>, Vec<char>)>)
    ensures
        match r {
            Some(p) => fn_pointer(t@) == Some((p.0@, p.1@, p.2@)),
            None => fn_pointer(t@) is None,
        },
{
    proof {
        reveal_strlit("typedef ");
    }
    if !(t.len() >= 10 && starts_with(t, "typedef ") && t[t.len() - 2] == ')' && t[t.len() - 1] == ';') {
        return None;
    }
    let b = copy_range(t, 8, t.len() - 2);
    let ghost bs = b@;
    let n = b.len();
    let p = match find_first(b.as_slice(), '(') {
        None => return None,
        Some(p) => p,
    };
    proof {
        lemma_first_index_bound(bs, '(');
    }
    let r1 = skip_spaces(b.as_slice(), p + 1);
    if !(r1 < n && b[r1] == '*') {
        return None;
    }
    let ghost a = bs.subrange(r1 as int, n as int);
    assert(a.drop_first() =~= bs.subrange(r1 + 1, n as int));
    let r2 = skip_spaces(b.as_slice(), r1 + 1);
    let k = ident_chars_at(b.as_slice(), r2);
    let ghost c = bs.subrange(r2 as int, n as int);
    assert(c.subrange(0, k as int) =~= bs.subrange(r2 as int, r2 + k));
    assert(c.subrange(k as int, c.len() as int) =~= bs.subrange(r2 + k, n as int));
    let name = copy_range(b.as_slice(), r2, r2 + k);
    let r3 = skip_spaces(b.as_slice(), r2 + k);
    if !(is_identifier(name.as_slice()) && r3 < n && b[r3] == ')') {
        return None;
    }
    let ghost d = bs.subrange(r3 as int, n as int);
    assert(d.drop_first() =~= bs.subrange(r3 + 1, n as int));
    let r4 = skip_spaces(b.as_slice(), r3 + 1);
    if !(r4 < n && b[r4] == '(') {
        return None;
    }
    let ghost e = bs.subrange(r4 as int, n as int);
    assert(e.drop_first() =~= bs.subrange(r4 + 1, n as int));
    let ret = copy_range(b.as_slice(), 0, p);
    let params = copy_range(b.as_slice(), r4 + 1, n);
    if has_no_newline(ret.as_slice()) && has_no_newline(params.as_slice()) {
        Some((ret, name, params))
    } else {
        None
    }
}

/// The declaration fragment of one parameter: its type when it is named,
/// else the whole piece.
pub open spec fn piece_fragment(piece: Seq<char>) -> Seq<char> {
    match named_tail(strip_leading_spaces(piece)) {
        Some(tn) => tn.0,
        None => piece,
    }
}

/// The dependency list after translating each of `frags` in turn.
pub open spec fn deps_chain(acc: Seq<Seq<char>>, frags: Seq<Seq<char>>, known: Seq<Seq<char>>, use_libc: bool) -> Seq<Seq<char>>
    decreases frags.len(),
{
    if frags.len() == 0 {
        acc
    } else {
        requires_after(deps_chain(acc, frags.drop_last(), known, use_libc), frags.last(), known, use_libc)
    }
}

/// The declaration fragments of a parameter list; `void` has none.
pub open spec fn param_frags(params: Seq<char>) -> Seq<Seq<char>> {
    if params == "void"@ {
        Seq::empty()
    } else {
        split_params(params).map_values(|p: Seq<char>| piece_fragment(p))
    }
}

/// The dependency list of the declaration `t`, after `init`: the base
/// types its translation finds in the table, in order, each once.
pub open spec fn code_deps(t: Seq<char>, init: Seq<Seq<char>>, known: Seq<Seq<char>>, use_libc: bool) -> Seq<Seq<char>> {
    match simple_typedef(t) {
        Some(tn) => requires_after(init, tn.0, known, use_libc),
        None => match opaque_struct(t) {
            Some(_) => init,
            None => match fn_pointer(t) {
                Some(f) => deps_chain(requires_after(init, f.0, known, use_libc), param_frags(f.2), known, use_libc),
                None => init,
            },
        },
    }
}

/// The views of a list of character vectors.
pub open spec fn pieces_view(v: Seq<Vec<char>>) -> Seq<Seq<char>> {
    v.map_values(|p: Vec<char>| p@)
}

fn split_params_exec(s: &[char]) -> (r: Vec<Vec<char>>)
    ensures
        pieces_view(r@) == split_params(s@),
{
    let mut done: Vec<Vec<char>> = Vec::new();
    let mut cur: Vec<char> = Vec::new();
    let mut opens: usize = 0;
    let mut closes: usize = 0;
    let mut i: usize = 0;
    assert(s@.subrange(0, s@.len() as int) =~= s@);
    assert(pieces_view(done@) =~= Seq::<Seq<char>>::empty());
    while i < s.len()
        invariant
            i <= s@.len(),
            opens <= i,
            closes <= i,
            split_acc(s@.subrange(i as int, s@.len() as int), opens - closes, cur@, pieces_view(done@))
                == split_params(s@),
        decreases s@.len() - i,
    {
        assert(s@.subrange(i as int, s@.len() as int).drop_first() =~= s@.subrange(i + 1, s@.len() as int));
        let c = s[i];
        if c == ',' && opens == closes {
            let piece = cur;
            cur = Vec::new();
            let ghost before = pieces_view(done@);
            done.push(piece);
            assert(pieces_view(done@) =~= before.push(piece@));
        } else {
            if c == '(' {
                opens = opens + 1;
            } else if c == ')' {
                closes = closes + 1;
            }
            cur.push(c);
        }
        i = i + 1;
    }
    let ghost before = pieces_view(done@);
    done.push(cur);
    assert(pieces_view(done@) =~= before.push(cur@));
    done
}

/// The Rust name of a parameter: the keywords `type` and `ref` are written
/// as raw identifiers.
pub open spec fn param_rust_name(n: Seq<char>) -> Seq<char> {
    if n == "type"@ {
        "r#type"@
    } else if n == "ref"@ {
        "r#ref"@
    } else {
        n
    }
}

/// One parameter of a function-pointer type written in Rust, or the unknown
/// base type that stops it. A parameter without a name gets `_`.
pub open spec fn render_param(piece: Seq<char>, known: Seq<Seq<char>>, use_libc: bool) -> Result<Seq<char>, Seq<char>> {
    match named_tail(strip_leading_spaces(piece)) {
        Some(tn) => match translate(tn.0, known, use_libc) {
            Some(u) => Ok(param_rust_name(tn.1) + ": "@ + u),
            None => Err(split_decl(tn.0).1),
        },
        None => match translate(piece, known, use_libc) {
            Some(u) => Ok("_: "@ + u),
            None => Err(split_decl(piece).1),
        },
    }
}

/// The parameters `ps` written in Rust and separated by `, `, or the first
/// unknown base type.
pub open spec fn render_pieces(ps: Seq<Seq<char>>, known: Seq<Seq<char>>, use_libc: bool) -> Result<Seq<char>, Seq<char>>
    decreases ps.len(),
{
    if ps.len() == 0 {
        Ok(Seq::empty())
    } else {
        match render_pieces(ps.drop_last(), known, use_libc) {
            Err(b) => Err(b),
            Ok(acc) => match render_param(ps.last(), known, use_libc) {
                Err(b) => Err(b),
                Ok(x) => Ok(if ps.len() == 1 { x } else { acc + ", "@ + x }),
            },
        }
    }
}

/// A parameter list written in Rust; `void` is the empty list.
pub open spec fn render_params(params: Seq<char>, known: Seq<Seq<char>>, use_libc: bool) -> Result<Seq<char>, Seq<char>> {
    if params == "void"@ {
        Ok(Seq::empty())
    } else {
        render_pieces(split_params(params), known, use_libc)
    }
}

proof fn lemma_render_err_prefix(ps: Seq<Seq<char>>, i: int, known: Seq<Seq<char>>, use_libc: bool)
    requires
        0 <= i <= ps.len(),
        render_pieces(ps.subrange(0, i), known, use_libc) is Err,
    ensures
        render_pieces(ps, known, use_libc) == render_pieces(ps.subrange(0, i), known, use_libc),
    decreases ps.len(),
{
    if i == ps.len() {
        assert(ps.subrange(0, i) =~= ps);
    } else {
        assert(ps.drop_last().subrange(0, i) =~= ps.subrange(0, i));
        lemma_render_err_prefix(ps.drop_last(), i, known, use_libc);
    }
}

fn render_param_exec(map: &Vec<(String, Type)>, piece: &[char], deps: &mut Vec<String>, use_libc: bool) -> (r: Result<Vec<char>, GenError>)
    ensures
        match r {
            Ok(v) => render_param(piece@, names_of(map@), use_libc) == Ok::<Seq<char>, Seq<char>>(v@),
            Err(e) => render_param(piece@, names_of(map@), use_libc) matches Err(b) && e@ == ErrorV::UnknownType(b),
        },
        views_of(final(deps)@) == requires_after(views_of(old(deps)@), piece_fragment(piece@), names_of(map@), use_libc),
{
    let start = skip_spaces(piece, 0);
    let stripped = copy_range(piece, start, piece.len());
    assert(piece@.subrange(0, piece@.len() as int) =~= piece@);
    match named_tail_exec(stripped.as_slice()) {
        Some((ty, name)) => {
            let u = c_type_to_rust_type(map, ty.as_slice(), deps, use_libc)?;
            let mut out: Vec<char> = Vec::new();
            if eq_lit(string_of(name.as_slice()).as_str(), "type") {
                push_lit(&mut out, "r#type");
            } else if eq_lit(string_of(name.as_slice()).as_str(), "ref") {
                push_lit(&mut out, "r#ref");
            } else {
                push_all(&mut out, name.as_slice());
            }
            push_lit(&mut out, ": ");
            push_all(&mut out, u.as_slice());
            Ok(out)
        },
        None => {
            let u = c_type_to_rust_type(map, piece, deps, use_libc)?;
            let mut out: Vec<char> = Vec::new();
            push_lit(&mut out, "_: ");
            push_all(&mut out, u.as_slice());
            Ok(out)
        },
    }
}

fn render_params_exec(map: &Vec<(String, Type)>, params: &[char], deps: &mut Vec<String>, use_libc: bool) -> (r: Result<Vec<char>, GenError>)
    ensures
        match r {
            Ok(v) => render_params(params@, names_of(map@), use_libc) == Ok::<Seq<char>, Seq<char>>(v@),
            Err(e) => render_params(params@, names_of(map@), use_libc) matches Err(b) && e@ == ErrorV::UnknownType(b),
        },
        r is Ok ==> views_of(final(deps)@) == deps_chain(views_of(old(deps)@), param_frags(params@), names_of(map@), use_libc),
{
    let mut out: Vec<char> = Vec::new();
    if eq_lit(string_of(params).as_str(), "void") {
        assert(param_frags(params@) =~= Seq::<Seq<char>>::empty());
        return Ok(out);
    }
    let pieces = split_params_exec(params);
    let ghost ps = pieces_view(pieces@);
    let mut i: usize = 0;
    assert(ps.subrange(0, 0) =~= Seq::<Seq<char>>::empty());
    assert(ps.subrange(0, 0).map_values(|p: Seq<char>| piece_fragment(p)) =~= Seq::<Seq<char>>::empty());
    while i < pieces.len()
        invariant
            i <= pieces@.len(),
            ps == pieces_view(pieces@),
            ps == split_params(params@),
            params@ != "void"@,
            views_of(deps@) == deps_chain(views_of(old(deps)@), ps.subrange(0, i as int).map_values(|p: Seq<char>| piece_fragment(p)), names_of(map@), use_libc),
            render_pieces(ps.subrange(0, i as int), names_of(map@), use_libc) == Ok::<Seq<char>, Seq<char>>(out@),
        decreases pieces@.len() - i,
    {
        assert(ps.subrange(0, i + 1).drop_last() =~= ps.subrange(0, i as int));
        assert(ps.subrange(0, i + 1).last() == pieces@[i as int]@);
        assert(ps.subrange(0, i + 1).map_values(|p: Seq<char>| piece_fragment(p)).drop_last()
            =~= ps.subrange(0, i as int).map_values(|p: Seq<char>| piece_fragment(p)));
        match render_param_exec(map, pieces[i].as_slice(), deps, use_libc) {
            Err(e) => {
                proof {
                    let b = render_param(pieces@[i as int]@, names_of(map@), use_libc)->Err_0;
                    assert(render_pieces(ps.subrange(0, i + 1), names_of(map@), use_libc) == Err::<Seq<char>, Seq<char>>(b));
                    lemma_render_err_prefix(ps, i + 1, names_of(map@), use_libc);
                    assert(render_params(params@, names_of(map@), use_libc) == Err::<Seq<char>, Seq<char>>(b));
                }
                return Err(e);
            },
            Ok(x) => {
                if i > 0 {
                    push_lit(&mut out, ", ");
                }
                push_all(&mut out, x.as_slice());
            },
        }
        i = i + 1;
    }
    assert(ps.subrange(0, ps.len() as int) =~= ps);
    assert(ps.subrange(0, ps.len() as int).map_values(|p: Seq<char>| piece_fragment(p)) =~= param_frags(params@));
    Ok(out)
}

/// The declaration that the registry gives `GLhandleARB`, which differs by
/// platform.
pub open spec fn handle_arb_text() -> Seq<char> {
    "#ifdef __APPLE__\ntypedef void *GLhandleARB;\n#else\ntypedef unsigned int GLhandleARB;\n#endif"@
}

/// The Rust code emitted for `GLhandleARB`.
pub open spec fn handle_arb_code() -> Seq<char> {
    "// For historical reasons, this definition differs between macOS and other\n// platforms. When the extension was promoted to core in GL 2.0, the definition\n// was tightened. It's best to use the core versions of the routines that need\n// handles rather than the extensions.\n#[cfg(target_os = \"macos\")]\ntype GLhandleARB = *mut();\n#[cfg(not(target_os = \"macos\"))]\ntype GLhandleARB = libc::c_uint;"@
}

/// Spaces replaced by underscores.
pub open spec fn underscored(n: Seq<char>) -> Seq<char> {
    n.map_values(|c: char| if c == ' ' { '_' } else { c })
}

/// The code emitted for the type `name` declared by the text `t`, with the
/// types `known` declared before it: a simple typedef, an opaque struct, a
/// function-pointer typedef, the platform-dependent handle, or nothing for
/// the preprocessor-only entries. A declared name other than `name` is a
/// `DuplicateName` error; a text of no known form a `MalformedDeclaration`.
pub open spec fn type_code(t: Seq<char>, name: Seq<char>, known: Seq<Seq<char>>, use_libc: bool) -> Result<Option<Seq<char>>, ErrorV> {
    match simple_typedef(t) {
        Some(tn) => if tn.1 != name {
            Err(ErrorV::DuplicateName(name))
        } else {
            match translate(tn.0, known, use_libc) {
                Some(u) => Ok(Some("pub type "@ + tn.1 + " = "@ + u + ";"@)),
                None => Err(ErrorV::UnknownType(split_decl(tn.0).1)),
            }
        },
        None => match opaque_struct(t) {
            Some(n) => if n != name {
                Err(ErrorV::DuplicateName(name))
            } else {
                Ok(Some("type "@ + underscored(n) + " = ();"@))
            },
            None => match fn_pointer(t) {
                Some(f) => if f.1 != name {
                    Err(ErrorV::DuplicateName(name))
                } else {
                    match translate(f.0, known, use_libc) {
                        None => Err(ErrorV::UnknownType(split_decl(f.0).1)),
                        Some(rt) => match render_params(f.2, known, use_libc) {
                            Err(b) => Err(ErrorV::UnknownType(b)),
                            Ok(ps) => Ok(Some("pub type "@ + f.1 + " = Option<extern \"C\" fn("@ + ps + ") -> "@ + rt + ">;"@)),
                        },
                    }
                },
                None => if name == "GLhandleARB"@ {
                    if t == handle_arb_text() {
                        Ok(Some(handle_arb_code()))
                    } else {
                        Err(ErrorV::MalformedDeclaration(name))
                    }
                } else if name == "stddef"@ || name == "khrplatform"@ || name == "inttypes"@ {
                    Ok(None)
                } else {
                    Err(ErrorV::MalformedDeclaration(name))
                },
            },
        },
    }
}

pub fn space_to_underscore(x: char) -> (r: char)
    ensures
        r == if x == ' ' { '_' } else { x },
{
    if x == ' ' {
        '_'
    } else {
        x
    }
}

fn underscored_exec(n: &[char]) -> (r: Vec<char>)
    ensures
        r@ == underscored(n@),
{
    let mut out: Vec<char> = Vec::new();
    let mut i: usize = 0;
    while i < n.len()
        invariant
            i <= n@.len(),
            out@ == underscored(n@).subrange(0, i as int),
        decreases n@.len() - i,
    {
        out.push(space_to_underscore(n[i]));
        i = i + 1;
        assert(out@ =~= underscored(n@).subrange(0, i as int));
    }
    assert(underscored(n@).subrange(0, n@.len() as int) =~= underscored(n@));
    out
}

fn type_code_exec(map: &Vec<(String, Type)>, t: &[char], name: &String, deps: &mut Vec<String>, use_libc: bool) -> (r: Result<Option<Vec<char>>, GenError>)
    ensures
        match r {
            Ok(c) => type_code(t@, name@, names_of(map@), use_libc) == Ok::<Option<Seq<char>>, ErrorV>(match c {
                Some(v) => Some(v@),
                None => None,
            }),
            Err(e) => type_code(t@, name@, names_of(map@), use_libc) == Err::<Option<Seq<char>>, ErrorV>(e@),
        },
        r is Ok ==> views_of(final(deps)@) == code_deps(t@, views_of(old(deps)@), names_of(map@), use_libc),
{
    let nm = chars_of(name.as_str());
    if let Some((ty, n)) = simple_typedef_exec(t) {
        if !seq_eq(n.as_slice(), nm.as_slice()) {
            return Err(GenError::DuplicateName(name.clone()));
        }
        let u = c_type_to_rust_type(map, ty.as_slice(), deps, use_libc)?;
        let mut out: Vec<char> = Vec::new();
        push_lit(&mut out, "pub type ");
        push_all(&mut out, n.as_slice());
        push_lit(&mut out, " = ");
        push_all(&mut out, u.as_slice());
        push_lit(&mut out, ";");
        return Ok(Some(out));
    }
    if let Some(n) = opaque_struct_exec(t) {
        if !seq_eq(n.as_slice(), nm.as_slice()) {
            return Err(GenError::DuplicateName(name.clone()));
        }
        let mut out: Vec<char> = Vec::new();
        push_lit(&mut out, "type ");
        let un = underscored_exec(n.as_slice());
        push_all(&mut out, un.as_slice());
        push_lit(&mut out, " = ();");
        return Ok(Some(out));
    }
    if let Some((ret, n, params)) = fn_pointer_exec(t) {
        if !seq_eq(n.as_slice(), nm.as_slice()) {
            return Err(GenError::DuplicateName(name.clone()));
        }
        let rt = c_type_to_rust_type(map, ret.as_slice(), deps, use_libc)?;
        let ps = render_params_exec(map, params.as_slice(), deps, use_libc)?;
        let mut out: Vec<char> = Vec::new();
        push_lit(&mut out, "pub type ");
        push_all(&mut out, n.as_slice());
        push_lit(&mut out, " = Option<extern \"C\" fn(");
        push_all(&mut out, ps.as_slice());
        push_lit(&mut out, ") -> ");
        push_all(&mut out, rt.as_slice());
        push_lit(&mut out, ">;");
        return Ok(Some(out));
    }
    if eq_lit(name.as_str(), "GLhandleARB") {
        let expected = chars_of("#ifdef __APPLE__\ntypedef void *GLhandleARB;\n#else\ntypedef unsigned int GLhandleARB;\n#endif");
        if seq_eq(t, expected.as_slice()) {
            return Ok(Some(chars_of("// For historical reasons, this definition differs between macOS and other\n// platforms. When the extension was promoted to core in GL 2.0, the definition\n// was tightened. It's best to use the core versions of the routines that need\n// handles rather than the extensions.\n#[cfg(target_os = \"macos\")]\ntype GLhandleARB = *mut();\n#[cfg(not(target_os = \"macos\"))]\ntype GLhandleARB = libc::c_uint;")));
        }
        return Err(GenError::MalformedDeclaration(name.clone()));
    }
    if eq_lit(name.as_str(), "stddef") || eq_lit(name.as_str(), "khrplatform") || eq_lit(name.as_str(), "inttypes") {
        return Ok(None);
    }
    Err(GenError::MalformedDeclaration(name.clone()))
}

/// The texts of the `<name>` elements among the first `i` children of `e`
/// and below them, in document order.
pub open spec fn names_upto(e: Element, i: int) -> Seq<Seq<char>>
    decreases e, i,
{
    if i <= 0 || i > e.contents@.len() {
        Seq::empty()
    } else {
        let prev = names_upto(e, i - 1);
        match e.contents@[i - 1] {
            Node::Text(_) => prev,
            Node::Element(c) => prev + (if c.name@ == "name"@ {
                seq![text_of(c)]
            } else {
                Seq::empty()
            }) + names_upto(c, c.contents@.len() as int),
        }
    }
}

/// The texts of the `<name>` elements in `e`, `e` itself included.
pub open spec fn names_in(e: Element) -> Seq<Seq<char>> {
    (if e.name@ == "name"@ {
        seq![text_of(e)]
    } else {
        Seq::empty()
    }) + names_upto(e, e.contents@.len() as int)
}

/// The error for a type given two names: a `DuplicateName` for the first
/// when they differ, else a `MalformedDeclaration`.
pub open spec fn name_clash(first: Seq<char>, second: Seq<char>) -> ErrorV {
    if first != second {
        ErrorV::DuplicateName(first)
    } else {
        ErrorV::MalformedDeclaration(first)
    }
}

/// The name held, as a sequence of at most one name.
pub open spec fn opt_seq(o: Option<String>) -> Seq<Seq<char>> {
    match o {
        Some(s) => seq![s@],
        None => Seq::empty(),
    }
}

proof fn lemma_names_upto_grows(e: Element, i: int, j: int)
    requires
        0 <= i <= j <= e.contents@.len(),
    ensures
        names_upto(e, i).len() <= names_upto(e, j).len(),
        forall|k: int| 0 <= k < names_upto(e, i).len() ==> names_upto(e, j)[k] == names_upto(e, i)[k],
    decreases j - i,
{
    if i < j {
        lemma_names_upto_grows(e, i, j - 1);
    }
}

/// Appends the text inside `root` to `out` and looks for the `<name>`
/// element in it; finding a second name, after the one already held in
/// `found_name`, is a `MalformedDeclaration` error naming the first.
fn gather_text_content_and_search_for_name(root: &Element, found_name: &mut Option<String>, out: &mut Vec<char>) -> (r: Result<(), GenError>)
    ensures
        r is Ok <==> (opt_seq(*old(found_name)) + names_in(*root)).len() <= 1,
        r is Ok ==> opt_seq(*final(found_name)) == opt_seq(*old(found_name)) + names_in(*root) && final(out)@ == old(out)@ + text_of(*root),
        r matches Err(e) ==> e@ == name_clash((opt_seq(*old(found_name)) + names_in(*root))[0], (opt_seq(*old(found_name)) + names_in(*root))[1]),
    decreases root,
{
    let ghost own: Seq<Seq<char>> = if root.name@ == "name"@ { seq![text_of(*root)] } else { Seq::empty() };
    if eq_lit(root.get_name(), "name") {
        match found_name {
            Some(n) => {
                let second = root.get_text();
                if *n != second {
                    return Err(GenError::DuplicateName(n.clone()));
                }
                return Err(GenError::MalformedDeclaration(n.clone()));
            },
            None => {
                *found_name = Some(root.get_text());
            },
        }
    }
    assert(opt_seq(*found_name) =~= opt_seq(*old(found_name)) + own);
    let mut i: usize = 0;
    while i < root.contents.len()
        invariant
            i <= root.contents@.len(),
            opt_seq(*found_name) == opt_seq(*old(found_name)) + own + names_upto(*root, i as int),
            out@ == old(out)@ + crate::dom::text_upto(*root, i as int),
            own == (if root.name@ == "name"@ { seq![text_of(*root)] } else { Seq::<Seq<char>>::empty() }),
        decreases root.contents@.len() - i,
    {
        match &root.contents[i] {
            Node::Text(t) => {
                let cs = chars_of(t.as_str());
                push_all(out, cs.as_slice());
            },
            Node::Element(c) => {
                let ghost before = opt_seq(*found_name);
                match gather_text_content_and_search_for_name(c, found_name, out) {
                    Ok(()) => {},
                    Err(e) => {
                        proof {
                            let whole = opt_seq(*old(found_name)) + names_in(*root);
                            let part = before + names_in(*c);
                            lemma_names_upto_grows(*root, i + 1, root.contents@.len() as int);
                            assert(opt_seq(*old(found_name)) + own + names_upto(*root, i + 1) =~= part);
                            assert(whole =~= opt_seq(*old(found_name)) + own + names_upto(*root, root.contents@.len() as int));
                            let pre = opt_seq(*old(found_name)) + own;
                            assert(part.len() > 1);
                            assert forall|k: int| 0 <= k < part.len() implies whole[k] == part[k] by {
                                if k >= pre.len() {
                                    assert(whole[k] == names_upto(*root, root.contents@.len() as int)[k - pre.len()]);
                                    assert(part[k] == names_upto(*root, i + 1)[k - pre.len()]);
                                }
                            }
                            assert(whole[0] == part[0]);
                            assert(whole[1] == part[1]);
                        }
                        return Err(e);
                    },
                }
            },
        }
        i = i + 1;
        assert(opt_seq(*found_name) =~= opt_seq(*old(found_name)) + own + names_upto(*root, i as int));
        assert(out@ =~= old(out)@ + crate::dom::text_upto(*root, i as int));
    }
    assert(opt_seq(*found_name) =~= opt_seq(*old(found_name)) + names_in(*root));
    Ok(())
}

/// `out` followed by each line of `s` (split on line breaks) as a `// `
/// comment line; `cur` is the line being read.
pub open spec fn comment_acc(s: Seq<char>, cur: Seq<char>, out: Seq<char>) -> Seq<char>
    decreases s.len(),
{
    if s.len() == 0 {
        out + "// "@ + cur + seq!['\n']
    } else if s[0] == '\n' {
        comment_acc(s.drop_first(), Seq::empty(), out + "// "@ + cur + seq!['\n'])
    } else {
        comment_acc(s.drop_first(), cur.push(s[0]), out)
    }
}

/// The code of a type preceded by its `comment` attribute, if it has one.
pub open spec fn with_comment(code: Option<Seq<char>>, comment: Option<Seq<char>>) -> Option<Seq<char>> {
    match comment {
        None => code,
        Some(c) => Some(comment_acc(c, Seq::empty(), Seq::empty()) + match code {
            Some(x) => x,
            None => Seq::empty(),
        }),
    }
}

fn comment_lines(c: &[char], out: &mut Vec<char>)
    ensures
        final(out)@ == comment_acc(c@, Seq::empty(), old(out)@),
{
    let mut cur: Vec<char> = Vec::new();
    let mut i: usize = 0;
    assert(c@.subrange(0, c@.len() as int) =~= c@);
    while i < c.len()
        invariant
            i <= c@.len(),
            comment_acc(c@.subrange(i as int, c@.len() as int), cur@, out@) == comment_acc(c@, Seq::empty(), old(out)@),
        decreases c@.len() - i,
    {
        assert(c@.subrange(i as int, c@.len() as int).drop_first() =~= c@.subrange(i + 1, c@.len() as int));
        if c[i] == '\n' {
            let ghost before = out@;
            push_lit(out, "// ");
            push_all(out, cur.as_slice());
            out.push('\n');
            assert(out@ =~= before + "// "@ + cur@ + seq!['\n']);
            cur = Vec::new();
        } else {
            cur.push(c[i]);
        }
        i = i + 1;
    }
    let ghost before = out@;
    push_lit(out, "// ");
    push_all(out, cur.as_slice());
    out.push('\n');
    assert(out@ =~= before + "// "@ + cur@ + seq!['\n']);
}

/// The `name` attribute as a sequence of at most one name.
pub open spec fn attr_seq(o: Option<Seq<char>>) -> Seq<Seq<char>> {
    match o {
        Some(s) => seq![s],
        None => Seq::empty(),
    }
}

/// The row that the `<type>` element `tag` adds to a table whose names are
/// `known`, or the error that stops it. The name comes from the `name`
/// attribute or from a `<name>` element; none is a `MalformedDeclaration`,
/// two that differ a `DuplicateName`, two equal ones a
/// `MalformedDeclaration`; a name already in the table a `DuplicateName`.
pub open spec fn type_row(tag: Element, known: Seq<Seq<char>>, use_libc: bool) -> Result<TypeRow, ErrorV> {
    let found = attr_seq(attr(tag, "name"@)) + names_in(tag);
    if found.len() > 1 {
        Err(name_clash(found[0], found[1]))
    } else if found.len() == 0 {
        Err(ErrorV::MalformedDeclaration(text_of(tag)))
    } else {
        match type_code(text_of(tag), found[0], known, use_libc) {
            Err(e) => Err(e),
            Ok(code) => if known.contains(found[0]) {
                Err(ErrorV::DuplicateName(found[0]))
            } else {
                Ok((found[0], with_comment(code, attr(tag, "comment"@)), code_deps(text_of(tag), attr_seq(attr(tag, "requires"@)), known, use_libc)))
            },
        }
    }
}

/// Reads one `<type>` element into the table `map` and its name into
/// `order`.
pub fn gather_type(tag: &Element, map: &mut Vec<(String, Type)>, order: &mut Vec<String>, opts: &CmdLine) -> (r: Result<(), GenError>)
    ensures
        match r {
            Ok(()) => type_row(*tag, names_of(old(map)@), opts.use_libc) matches Ok(row) && rows_of(final(map)@) == rows_of(old(map)@).push(row)
                && views_of(final(order)@) == views_of(old(order)@).push(row.0),
            Err(e) => type_row(*tag, names_of(old(map)@), opts.use_libc) == Err::<TypeRow, ErrorV>(e@),
        },
{
    let mut found: Option<String> = match tag.get_attribute("name") {
        Some(n) => Some(n.clone()),
        None => None,
    };
    let mut text: Vec<char> = Vec::new();
    gather_text_content_and_search_for_name(tag, &mut found, &mut text)?;
    assert(text@ =~= text_of(*tag));
    let name = match found {
        Some(n) => n,
        None => {
            return Err(GenError::MalformedDeclaration(string_of(text.as_slice())));
        },
    };
    let mut deps: Vec<String> = Vec::new();
    match tag.get_attribute("requires") {
        Some(req) => deps.push(req.clone()),
        None => {},
    }
    assert(views_of(deps@) =~= attr_seq(attr(*tag, "requires"@)));
    let code = type_code_exec(map, text.as_slice(), &name, &mut deps, opts.use_libc)?;
    let nm = chars_of(name.as_str());
    match find_name(map, nm.as_slice()) {
        Some(idx) => {
            assert(names_of(map@)[idx as int] == name@);
            return Err(GenError::DuplicateName(name));
        },
        None => {},
    }
    let code = match tag.get_attribute("comment") {
        None => code,
        Some(c) => {
            let cc = chars_of(c.as_str());
            let mut out: Vec<char> = Vec::new();
            comment_lines(cc.as_slice(), &mut out);
            match code {
                Some(x) => push_all(&mut out, x.as_slice()),
                None => {},
            }
            Some(out)
        },
    };
    let code_s = match code {
        Some(x) => Some(string_of(x.as_slice())),
        None => None,
    };
    let ghost old_rows = rows_of(map@);
    let ghost old_order = views_of(order@);
    order.push(name.clone());
    map.push((name, Type { code: code_s, deps }));
    assert(rows_of(map@) =~= old_rows.push(rows_of(map@).last()));
    assert(views_of(order@) =~= old_order.push(views_of(order@).last()));
    Ok(())
}

/// The table after the node `n` of a `<types>` block: a `<type>` element
/// for the selected API adds its row.
pub open spec fn add_type(acc: Result<Seq<TypeRow>, ErrorV>, n: Node, v: crate::versions::ActiveVersion, use_libc: bool) -> Result<Seq<TypeRow>, ErrorV> {
    match acc {
        Err(e) => Err(e),
        Ok(rows) => match n {
            Node::Element(e) => if e.name@ == "type"@ && api_ok(v, e) {
                match type_row(e, row_names(rows), use_libc) {
                    Ok(row) => Ok(rows.push(row)),
                    Err(x) => Err(x),
                }
            } else {
                Ok(rows)
            },
            Node::Text(_) => Ok(rows),
        },
    }
}

/// The table after the nodes `items` of a `<types>` block, from `start`.
pub open spec fn types_block(items: Seq<Node>, start: Result<Seq<TypeRow>, ErrorV>, v: crate::versions::ActiveVersion, use_libc: bool) -> Result<Seq<TypeRow>, ErrorV>
    decreases items.len(),
{
    if items.len() == 0 {
        start
    } else {
        add_type(types_block(items.drop_last(), start, v, use_libc), items.last(), v, use_libc)
    }
}

/// The table of types declared in the `<types>` elements among `children`,
/// in document order.
pub open spec fn types_of_nodes(children: Seq<Node>, v: crate::versions::ActiveVersion, use_libc: bool) -> Result<Seq<TypeRow>, ErrorV>
    decreases children.len(),
{
    if children.len() == 0 {
        Ok(Seq::empty())
    } else {
        let prev = types_of_nodes(children.drop_last(), v, use_libc);
        match children.last() {
            Node::Element(e) => if e.name@ == "types"@ {
                types_block(e.contents@, prev, v, use_libc)
            } else {
                prev
            },
            Node::Text(_) => prev,
        }
    }
}

proof fn lemma_types_block_err(items: Seq<Node>, e: ErrorV, v: crate::versions::ActiveVersion, use_libc: bool)
    ensures
        types_block(items, Err(e), v, use_libc) == Err::<Seq<TypeRow>, ErrorV>(e),
    decreases items.len(),
{
    if items.len() > 0 {
        lemma_types_block_err(items.drop_last(), e, v, use_libc);
    }
}

proof fn lemma_types_block_prefix(items: Seq<Node>, i: int, start: Result<Seq<TypeRow>, ErrorV>, v: crate::versions::ActiveVersion, use_libc: bool)
    requires
        0 <= i <= items.len(),
        types_block(items.subrange(0, i), start, v, use_libc) is Err,
    ensures
        types_block(items, start, v, use_libc) == types_block(items.subrange(0, i), start, v, use_libc),
    decreases items.len(),
{
    if i == items.len() {
        assert(items.subrange(0, i) =~= items);
    } else {
        assert(items.drop_last().subrange(0, i) =~= items.subrange(0, i));
        lemma_types_block_prefix(items.drop_last(), i, start, v, use_libc);
    }
}

proof fn lemma_types_nodes_prefix(children: Seq<Node>, i: int, v: crate::versions::ActiveVersion, use_libc: bool)
    requires
        0 <= i <= children.len(),
        types_of_nodes(children.subrange(0, i), v, use_libc) is Err,
    ensures
        types_of_nodes(children, v, use_libc) == types_of_nodes(children.subrange(0, i), v, use_libc),
    decreases children.len(),
{
    if i == children.len() {
        assert(children.subrange(0, i) =~= children);
    } else {
        assert(children.drop_last().subrange(0, i) =~= children.subrange(0, i));
        lemma_types_nodes_prefix(children.drop_last(), i, v, use_libc);
        let e = types_of_nodes(children.subrange(0, i), v, use_libc)->Err_0;
        match children.last() {
            Node::Element(el) => {
                lemma_types_block_err(el.contents@, e, v, use_libc);
            },
            Node::Text(_) => {},
        }
    }
}

/// Reads the types of the selected API from the registry: the table, in
/// document order, and its names in lexicographic order.
pub fn gather_types(root: &Element, opts: &CmdLine) -> (r: Result<(Vec<(String, Type)>, Vec<String>), GenError>)
    ensures
        match r {
            Ok((map, order)) => types_of_nodes(root.contents@, opts.version, opts.use_libc) == Ok::<Seq<TypeRow>, ErrorV>(rows_of(map@))
                && views_of(order@).to_multiset() == row_names(rows_of(map@)).to_multiset()
                && sorted_views(order@),
            Err(e) => types_of_nodes(root.contents@, opts.version, opts.use_libc) == Err::<Seq<TypeRow>, ErrorV>(e@),
        },
{
    let mut map: Vec<(String, Type)> = Vec::new();
    let mut order: Vec<String> = Vec::new();
    let ghost v = opts.version;
    let ghost libc = opts.use_libc;
    let mut i: usize = 0;
    assert(rows_of(map@) =~= Seq::<TypeRow>::empty());
    assert(views_of(order@) =~= Seq::<Seq<char>>::empty());
    while i < root.contents.len()
        invariant
            i <= root.contents@.len(),
            v == opts.version,
            libc == opts.use_libc,
            types_of_nodes(root.contents@.subrange(0, i as int), v, libc) == Ok::<Seq<TypeRow>, ErrorV>(rows_of(map@)),
            views_of(order@) == row_names(rows_of(map@)),
        decreases root.contents@.len() - i,
    {
        let ghost kids = root.contents@;
        assert(kids.subrange(0, i + 1).drop_last() =~= kids.subrange(0, i as int));
        match &root.contents[i] {
            Node::Element(block) => {
                if crate::text::eq_lit(block.get_name(), "types") {
                    let ghost prev = types_of_nodes(kids.subrange(0, i as int), v, libc);
                    let mut j: usize = 0;
                    assert(block.contents@.subrange(0, 0) =~= Seq::<Node>::empty());
                    while j < block.contents.len()
                        invariant
                            j <= block.contents@.len(),
                            i < kids.len(),
                            kids == root.contents@,
                            kids[i as int] == Node::Element(*block),
                            block.name@ == "types"@,
                            prev == types_of_nodes(kids.subrange(0, i as int), v, libc),
                            kids.subrange(0, i + 1).drop_last() == kids.subrange(0, i as int),
                            v == opts.version,
                            libc == opts.use_libc,
                            types_block(block.contents@.subrange(0, j as int), prev, v, libc) == Ok::<Seq<TypeRow>, ErrorV>(rows_of(map@)),
                            views_of(order@) == row_names(rows_of(map@)),
                        decreases block.contents@.len() - j,
                    {
                        let ghost items = block.contents@;
                        assert(items.subrange(0, j + 1).drop_last() =~= items.subrange(0, j as int));
                        match &block.contents[j] {
                            Node::Element(tag) => {
                                if crate::text::eq_lit(tag.get_name(), "type") && opts.version.correct_api(tag) {
                                    assert(names_of(map@) =~= row_names(rows_of(map@)));
                                    match gather_type(tag, &mut map, &mut order, opts) {
                                        Ok(()) => {},
                                        Err(e) => {
                                            proof {
                                                lemma_types_block_prefix(items, j + 1, prev, v, libc);
                                                lemma_types_nodes_prefix(kids, i + 1, v, libc);
                                            }
                                            return Err(e);
                                        },
                                    }
                                }
                            },
                            Node::Text(_) => {},
                        }
                        j = j + 1;
                    }
                    assert(block.contents@.subrange(0, block.contents@.len() as int) =~= block.contents@);
                }
            },
            Node::Text(_) => {},
        }
        i = i + 1;
    }
    assert(root.contents@.subrange(0, root.contents@.len() as int) =~= root.contents@);
    assert(views_of(order@) == row_names(rows_of(map@)));
    sort_strings(&mut order);
    Ok((map, order))
}

impl Type {
    /// The code emitted for this type, if any.
    pub fn output(&self, _opts: &CmdLine) -> (r: Option<String>)
        ensures
            match r {
                Some(c) => self@ == Some(c@),
                None => self@ is None,
            },
    {
        match &self.code {
            Some(c) => Some(c.clone()),
            None => None,
        }
    }
}

/// `const BASE*const *` and `const BASE *const*` split and translate
/// identically, in type declarations and in command signatures, whatever
/// types are known and whichever primitive table is used.
pub proof fn lemma_double_const_spacing(base: Seq<char>, known: Seq<Seq<char>>, use_libc: bool)
    ensures
        split_decl("const "@ + base + "*const *"@) == split_decl("const "@ + base + " *const*"@),
        translate("const "@ + base + "*const *"@, known, use_libc) == translate("const "@ + base + " *const*"@, known, use_libc),
        crate::commands::command_type("const "@ + base + "*const *"@, use_libc) == crate::commands::command_type("const "@ + base + " *const*"@, use_libc),
        crate::commands::touched_after(known, "const "@ + base + "*const *"@) == crate::commands::touched_after(known, "const "@ + base + " *const*"@),
{
    reveal_strlit("const ");
    reveal_strlit("*const *");
    reveal_strlit(" *const*");
    let canon = "const "@ + base + seq!['*', 'c', 'o', 'n', 's', 't', '*'];
    let a = "const "@ + base + seq!['*', 'c', 'o', 'n', 's', 't'];
    assert("const "@ + base + "*const *"@ =~= a + seq![' '] + seq!['*']);
    assert(a + seq!['*'] =~= canon);
    lemma_space_before_star_ignored(a, seq!['*']);
    let b = "const "@ + base;
    assert("const "@ + base + " *const*"@ =~= b + seq![' '] + seq!['*', 'c', 'o', 'n', 's', 't', '*']);
    assert(b + seq!['*', 'c', 'o', 'n', 's', 't', '*'] =~= canon);
    lemma_space_before_star_ignored(b, seq!['*', 'c', 'o', 'n', 's', 't', '*']);
}

} // verus!
