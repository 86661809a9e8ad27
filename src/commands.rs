//! Commands: their prototypes and parameters, written as Rust signatures.

use vstd::prelude::*;
use crate::cmdline::CmdLine;
use crate::decl::{
    is_ident_char, is_ident_start, no_newline, render_levels, split_decl, split_declaration,
    has_no_newline,
};
use crate::dom::{text_of, Element, Node};
use crate::error::{ErrorV, GenError};
use crate::features::{Owner, OwnerMap};
use crate::types::{rows_of, Type, TypeRow};
use crate::table::{contains_name, find_name, names_of, sort_strings, sorted_views, views_of};
use crate::text::{chars_of, copy_range, eq_lit, has_prefix, push_all, push_lit, string_of};
use crate::versions::api_ok;
use crate::used_identifiers::{allows, UsedIdentifiers};

verus! {

/// The Rust spelling of a C type in a command signature: the pointer levels,
/// then `void` as `()` (or `libc::c_void`) and any other base type by its
/// own name.
pub open spec fn command_type(t: Seq<char>, use_libc: bool) -> Seq<char> {
    let p = split_decl(t);
    (if p.2.len() > 0 {
        render_levels(p.2) + seq![' ']
    } else {
        Seq::empty()
    }) + (if p.1 == "void"@ {
        if use_libc {
            "libc::c_void"@
        } else {
            "()"@
        }
    } else {
        p.1
    })
}

/// The raw type names touched, after one more type: its base, unless it is
/// `void` or already there.
pub open spec fn touched_after(old_types: Seq<Seq<char>>, t: Seq<char>) -> Seq<Seq<char>> {
    let b = split_decl(t).1;
    if b != "void"@ && !old_types.contains(b) {
        old_types.push(b)
    } else {
        old_types
    }
}

/// Writes the Rust spelling of the C type `ptype` to `out` and records its
/// base type in `param_types`.
pub fn write_type(opts: &CmdLine, out: &mut Vec<char>, ptype: &[char], param_types: &mut Vec<String>)
    ensures
        final(out)@ == old(out)@ + command_type(ptype@, opts.use_libc),
        views_of(final(param_types)@) == touched_after(views_of(old(param_types)@), ptype@),
{
    let parts = split_declaration(ptype);
    let ghost before = out@;
    if parts.levels.len() > 0 {
        let mut i: usize = 0;
        assert(parts.levels@.subrange(0, 0) =~= Seq::<bool>::empty());
        while i < parts.levels.len()
            invariant
                i <= parts.levels@.len(),
                out@ == before + render_levels(parts.levels@.subrange(0, i as int)),
            decreases parts.levels@.len() - i,
        {
            assert(parts.levels@.subrange(0, i + 1).drop_last() =~= parts.levels@.subrange(0, i as int));
            proof {
                reveal_strlit("*const");
                reveal_strlit("*mut");
            }
            if parts.levels[i] {
                push_lit(out, "*const");
            } else {
                push_lit(out, "*mut");
            }
            i = i + 1;
            assert(out@ =~= before + render_levels(parts.levels@.subrange(0, i as int)));
        }
        assert(parts.levels@.subrange(0, parts.levels@.len() as int) =~= parts.levels@);
        out.push(' ');
    }
    let ghost mid = out@;
    if eq_lit(string_of(parts.base.as_slice()).as_str(), "void") {
        if opts.use_libc {
            push_lit(out, "libc::c_void");
        } else {
            push_lit(out, "()");
        }
    } else {
        if !contains_name(param_types, parts.base.as_slice()) {
            let ghost old_types = views_of(param_types@);
            param_types.push(string_of(parts.base.as_slice()));
            assert(views_of(param_types@) =~= old_types.push(parts.base@));
        }
        push_all(out, parts.base.as_slice());
    }
    assert(out@ =~= before + command_type(ptype@, opts.use_libc));
}

/// The number of digits that `s` ends with.
pub open spec fn digit_tail(s: Seq<char>) -> nat
    decreases s.len(),
{
    if s.len() > 0 && '0' <= s.last() && s.last() <= '9' {
        1 + digit_tail(s.drop_last())
    } else {
        0
    }
}

/// The number of identifier characters that `s` ends with.
pub open spec fn ident_tail(s: Seq<char>) -> nat
    decreases s.len(),
{
    if s.len() > 0 && is_ident_char(s.last()) {
        1 + ident_tail(s.drop_last())
    } else {
        0
    }
}

/// The length of an array suffix `[N]` at the end of `t`, or 0.
pub open spec fn array_suffix_len(t: Seq<char>) -> int {
    if t.len() >= 3 && t.last() == ']' {
        let d = digit_tail(t.drop_last()) as int;
        if d >= 1 && t.len() >= d + 2 && t[t.len() - 2 - d] == '[' {
            d + 2
        } else {
            0
        }
    } else {
        0
    }
}

/// The position of the first identifier start in `s`, or -1.
pub open spec fn first_ident_start(s: Seq<char>) -> int
    decreases s.len(),
{
    if s.len() == 0 {
        -1
    } else if is_ident_start(s[0]) {
        0
    } else {
        let k = first_ident_start(s.drop_first());
        if k < 0 {
            -1
        } else {
            k + 1
        }
    }
}

/// A prototype or parameter text split into its type, the identifier that
/// ends it (before an optional array suffix `[N]`), and whether that suffix
/// is there. The type is the shortest non-empty prefix that leaves an
/// identifier.
pub open spec fn type_and_name(t: Seq<char>) -> Option<(Seq<char>, Seq<char>, bool)> {
    let al = array_suffix_len(t);
    let body = t.subrange(0, t.len() - al);
    let run = ident_tail(body) as int;
    let lo = if body.len() - run >= 1 {
        body.len() - run
    } else {
        1
    };
    if lo > body.len() {
        None
    } else {
        let k = first_ident_start(body.subrange(lo, body.len() as int));
        if k < 0 {
            None
        } else {
            let p = lo + k;
            let ty = t.subrange(0, p);
            if no_newline(ty) {
                Some((ty, body.subrange(p, body.len() as int), al > 0))
            } else {
                None
            }
        }
    }
}

fn array_suffix(t: &[char]) -> (r: usize)
    ensures
        r as int == array_suffix_len(t@),
        r <= t@.len(),
{
    let n = t.len();
    if !(n >= 3 && t[n - 1] == ']') {
        return 0;
    }
    let mut j: usize = n - 1;
    assert(t@.drop_last() =~= t@.subrange(0, j as int));
    while j > 0 && '0' <= t[j - 1] && t[j - 1] <= '9'
        invariant
            j <= n - 1,
            n == t@.len(),
            digit_tail(t@.drop_last()) == (n - 1 - j) + digit_tail(t@.subrange(0, j as int)),
        decreases j,
    {
        assert(t@.subrange(0, j as int).drop_last() =~= t@.subrange(0, j - 1));
        j = j - 1;
    }
    let d = n - 1 - j;
    if d >= 1 && n - d >= 2 && t[n - 2 - d] == '[' {
        d + 2
    } else {
        0
    }
}

fn type_and_name_exec(t: &[char]) -> (r: Option<(Vec<char>, Vec<char>, bool)>)
    ensures
        match r {
            Some(x) => type_and_name(t@) == Some((x.0@, x.1@, x.2)),
            None => type_and_name(t@) is None,
        },
{
    let al = array_suffix(t);
    let blen = t.len() - al;
    let body = copy_range(t, 0, blen);
    let mut j: usize = blen;
    assert(body@.subrange(0, j as int) =~= body@);
    while j > 0 && (body[j - 1] == '_' || ('a' <= body[j - 1] && body[j - 1] <= 'z') || ('A' <= body[j - 1] && body[j - 1] <= 'Z') || ('0' <= body[j - 1] && body[j - 1] <= '9'))
        invariant
            j <= blen,
            blen == body@.len(),
            ident_tail(body@) == (blen - j) + ident_tail(body@.subrange(0, j as int)),
        decreases j,
    {
        assert(body@.subrange(0, j as int).drop_last() =~= body@.subrange(0, j - 1));
        j = j - 1;
    }
    let lo = if j >= 1 { j } else { 1 };
    if lo > blen {
        return None;
    }
    let ghost seg = body@.subrange(lo as int, blen as int);
    let mut k: usize = lo;
    assert(body@.subrange(k as int, blen as int) =~= seg);
    while k < blen && !(body[k] == '_' || ('a' <= body[k] && body[k] <= 'z') || ('A' <= body[k] && body[k] <= 'Z'))
        invariant
            lo <= k <= blen,
            blen == body@.len(),
            seg == body@.subrange(lo as int, blen as int),
            first_ident_start(seg) == if first_ident_start(body@.subrange(k as int, blen as int)) < 0 {
                -1
            } else {
                first_ident_start(body@.subrange(k as int, blen as int)) + (k - lo)
            },
        decreases blen - k,
    {
        assert(body@.subrange(k as int, blen as int).drop_first() =~= body@.subrange(k + 1, blen as int));
        k = k + 1;
    }
    if k == blen {
        return None;
    }
    let ty = copy_range(t, 0, k);
    if !has_no_newline(ty.as_slice()) {
        return None;
    }
    let name = copy_range(body.as_slice(), k, blen);
    Some((ty, name, al > 0))
}

/// The mathematical value of a command, and of one being read.
pub struct CommandSpec {
    pub name: Option<Seq<char>>,
    pub returns: Seq<char>,
    pub params: Seq<char>,
    pub ignored_params: Seq<char>,
    pub param_names: Seq<char>,
    pub param_count: nat,
    pub param_types: Seq<Seq<char>>,
}

/// A command of the registry, written as a Rust signature.
pub struct Command {
    pub name: String,
    /// The return type.
    pub returns: String,
    /// The parameters, `name: type`, separated by `, `.
    pub params: String,
    /// The parameters with placeholder names, for stub bodies.
    pub ignored_params: String,
    /// The parameter names, separated by `, `.
    pub param_names: String,
    pub param_count: usize,
    /// The raw type names that the signature mentions.
    pub param_types: Vec<String>,
    /// The position in the procedure table, once assigned.
    pub index: Option<u32>,
}

impl View for Command {
    type V = CommandSpec;

    open spec fn view(&self) -> CommandSpec {
        CommandSpec {
            name: Some(self.name@),
            returns: self.returns@,
            params: self.params@,
            ignored_params: self.ignored_params@,
            param_names: self.param_names@,
            param_count: self.param_count as nat,
            param_types: views_of(self.param_types@),
        }
    }
}

/// The Rust name of a command parameter: `type` and `ref` get a `p_` prefix.
pub open spec fn param_c_name(n: Seq<char>) -> Seq<char> {
    if n == "type"@ {
        "p_type"@
    } else if n == "ref"@ {
        "p_ref"@
    } else {
        n
    }
}

/// The command being read, before any child.
pub open spec fn command_start() -> CommandSpec {
    CommandSpec {
        name: None,
        returns: Seq::empty(),
        params: Seq::empty(),
        ignored_params: Seq::empty(),
        param_names: Seq::empty(),
        param_count: 0,
        param_types: Seq::empty(),
    }
}

/// The command being read after one more child: a `<proto>` gives the name
/// and return type (a second one is an error), a `<param>` adds a parameter
/// (an array parameter is a pointer); a text of neither form is a
/// `MalformedDeclaration`.
pub open spec fn command_step(acc: Result<CommandSpec, ErrorV>, n: Node, use_libc: bool) -> Result<CommandSpec, ErrorV> {
    match acc {
        Err(e) => Err(e),
        Ok(a) => match n {
            Node::Element(e) => if e.name@ == "proto"@ {
                match a.name {
                    Some(prev) => Err(ErrorV::MalformedDeclaration(prev)),
                    None => match type_and_name(text_of(e)) {
                        None => Err(ErrorV::MalformedDeclaration(text_of(e))),
                        Some(tn) => Ok(CommandSpec {
                            name: Some(tn.1),
                            returns: command_type(tn.0, use_libc),
                            params: a.params,
                            ignored_params: a.ignored_params,
                            param_names: a.param_names,
                            param_count: a.param_count,
                            param_types: touched_after(a.param_types, tn.0),
                        }),
                    },
                }
            } else if e.name@ == "param"@ {
                match type_and_name(text_of(e)) {
                    None => Err(ErrorV::MalformedDeclaration(text_of(e))),
                    Some(tn) => {
                        let pty = if tn.2 { tn.0.push('*') } else { tn.0 };
                        let pn = param_c_name(tn.1);
                        let sep = if a.param_count > 0 { ", "@ } else { Seq::empty() };
                        let ct = command_type(pty, use_libc);
                        Ok(CommandSpec {
                            name: a.name,
                            returns: a.returns,
                            params: a.params + sep + pn + ": "@ + ct,
                            ignored_params: a.ignored_params + sep + "_: "@ + ct,
                            param_names: a.param_names + sep + pn,
                            param_count: a.param_count + 1,
                            param_types: touched_after(a.param_types, pty),
                        })
                    },
                }
            } else {
                Ok(a)
            },
            Node::Text(_) => Ok(a),
        },
    }
}

/// The command being read after the children `items`.
pub open spec fn command_fold(items: Seq<Node>, use_libc: bool) -> Result<CommandSpec, ErrorV>
    decreases items.len(),
{
    if items.len() == 0 {
        Ok(command_start())
    } else {
        command_step(command_fold(items.drop_last(), use_libc), items.last(), use_libc)
    }
}

/// The command that the `<command>` element `tag` declares, given the names
/// `known` already in the table: one without a `<proto>` is a
/// `MalformedDeclaration`, one whose name is taken a `DuplicateName`.
pub open spec fn command_entry(tag: Element, known: Seq<Seq<char>>, use_libc: bool) -> Result<CommandSpec, ErrorV> {
    match command_fold(tag.contents@, use_libc) {
        Err(e) => Err(e),
        Ok(c) => match c.name {
            None => Err(ErrorV::MalformedDeclaration(text_of(tag))),
            Some(n) => if known.contains(n) {
                Err(ErrorV::DuplicateName(n))
            } else {
                Ok(c)
            },
        },
    }
}

proof fn lemma_command_fold_prefix(items: Seq<Node>, i: int, use_libc: bool)
    requires
        0 <= i <= items.len(),
        command_fold(items.subrange(0, i), use_libc) is Err,
    ensures
        command_fold(items, use_libc) == command_fold(items.subrange(0, i), use_libc),
    decreases items.len(),
{
    if i == items.len() {
        assert(items.subrange(0, i) =~= items);
    } else {
        assert(items.drop_last().subrange(0, i) =~= items.subrange(0, i));
        lemma_command_fold_prefix(items.drop_last(), i, use_libc);
    }
}

/// The commands of a table, in order.
pub open spec fn command_rows(entries: Seq<(String, Command)>) -> Seq<CommandSpec> {
    entries.map_values(|e: (String, Command)| e.1@)
}

/// Reads one `<command>` element into the table `map`.
fn gather_command(tag: &Element, opts: &CmdLine, map: &mut Vec<(String, Command)>) -> (r: Result<(), GenError>)
    requires
        forall|k: int| 0 <= k < old(map)@.len() ==> old(map)@[k].0@ == old(map)@[k].1.name@ && old(map)@[k].1.index is None,
    ensures
        forall|k: int| 0 <= k < final(map)@.len() ==> final(map)@[k].0@ == final(map)@[k].1.name@ && final(map)@[k].1.index is None,
        match r {
            Ok(()) => command_entry(*tag, names_of(old(map)@), opts.use_libc) matches Ok(c)
                && command_rows(final(map)@) == command_rows(old(map)@).push(c),
            Err(e) => command_entry(*tag, names_of(old(map)@), opts.use_libc) == Err::<CommandSpec, ErrorV>(e@) && final(map)@ == old(map)@,
        },
{
    let mut name: Option<String> = None;
    let mut ret_type: Vec<char> = Vec::new();
    let mut params: Vec<char> = Vec::new();
    let mut ignored: Vec<char> = Vec::new();
    let mut names: Vec<char> = Vec::new();
    let mut count: usize = 0;
    let mut types: Vec<String> = Vec::new();
    let ghost items = tag.contents@;
    let mut i: usize = 0;
    assert(items.subrange(0, 0) =~= Seq::<Node>::empty());
    assert(views_of(types@) =~= Seq::<Seq<char>>::empty());
    while i < tag.contents.len()
        invariant
            i <= items.len(),
            items == tag.contents@,
            map@ == old(map)@,
            forall|k: int| 0 <= k < map@.len() ==> map@[k].0@ == map@[k].1.name@ && map@[k].1.index is None,
            count <= i,
            command_fold(items.subrange(0, i as int), opts.use_libc) == Ok::<CommandSpec, ErrorV>(CommandSpec {
                name: match name { Some(n) => Some(n@), None => None },
                returns: ret_type@,
                params: params@,
                ignored_params: ignored@,
                param_names: names@,
                param_count: count as nat,
                param_types: views_of(types@),
            }),
        decreases items.len() - i,
    {
        assert(items.subrange(0, i + 1).drop_last() =~= items.subrange(0, i as int));
        if let Node::Element(element) = &tag.contents[i] {
            if eq_lit(element.get_name(), "proto") {
                if let Some(prev) = &name {
                    let e = GenError::MalformedDeclaration(prev.clone());
                    proof {
                        lemma_command_fold_prefix(items, i + 1, opts.use_libc);
                    }
                    return Err(e);
                }
                let text = chars_of(element.get_text().as_str());
                match type_and_name_exec(text.as_slice()) {
                    None => {
                        proof {
                            lemma_command_fold_prefix(items, i + 1, opts.use_libc);
                        }
                        return Err(GenError::MalformedDeclaration(string_of(text.as_slice())));
                    },
                    Some((ty, nm, _)) => {
                        name = Some(string_of(nm.as_slice()));
                        let mut rt: Vec<char> = Vec::new();
                        write_type(opts, &mut rt, ty.as_slice(), &mut types);
                        assert(rt@ =~= command_type(ty@, opts.use_libc));
                        ret_type = rt;
                    },
                }
            } else if eq_lit(element.get_name(), "param") {
                let text = chars_of(element.get_text().as_str());
                match type_and_name_exec(text.as_slice()) {
                    None => {
                        proof {
                            lemma_command_fold_prefix(items, i + 1, opts.use_libc);
                        }
                        return Err(GenError::MalformedDeclaration(string_of(text.as_slice())));
                    },
                    Some((ty, nm, arr)) => {
                        let mut pty = ty;
                        if arr {
                            pty.push('*');
                        }
                        let mut pn: Vec<char> = Vec::new();
                        let nms = string_of(nm.as_slice());
                        if eq_lit(nms.as_str(), "type") {
                            push_lit(&mut pn, "p_type");
                        } else if eq_lit(nms.as_str(), "ref") {
                            push_lit(&mut pn, "p_ref");
                        } else {
                            push_all(&mut pn, nm.as_slice());
                        }
                        let mut ct: Vec<char> = Vec::new();
                        write_type(opts, &mut ct, pty.as_slice(), &mut types);
                        assert(ct@ =~= command_type(pty@, opts.use_libc));
                        if count > 0 {
                            push_lit(&mut params, ", ");
                            push_lit(&mut ignored, ", ");
                            push_lit(&mut names, ", ");
                        }
                        push_all(&mut params, pn.as_slice());
                        push_lit(&mut params, ": ");
                        push_all(&mut params, ct.as_slice());
                        push_lit(&mut ignored, "_: ");
                        push_all(&mut ignored, ct.as_slice());
                        push_all(&mut names, pn.as_slice());
                        count = count + 1;
                    },
                }
            }
        }
        i = i + 1;
    }
    assert(items.subrange(0, items.len() as int) =~= items);
    let name = match name {
        Some(n) => n,
        None => {
            return Err(GenError::MalformedDeclaration(tag.get_text()));
        },
    };
    let nc = chars_of(name.as_str());
    match find_name(map, nc.as_slice()) {
        Some(idx) => {
            assert(names_of(map@)[idx as int] == name@);
            return Err(GenError::DuplicateName(name));
        },
        None => {},
    }
    let cmd = Command {
        name: name.clone(),
        returns: string_of(ret_type.as_slice()),
        params: string_of(params.as_slice()),
        ignored_params: string_of(ignored.as_slice()),
        param_names: string_of(names.as_slice()),
        param_count: count,
        param_types: types,
        index: None,
    };
    let ghost old_rows = command_rows(map@);
    map.push((name, cmd));
    assert(command_rows(map@) =~= old_rows.push(command_rows(map@).last()));
    Ok(())
}

/// The names of a list of commands.
pub open spec fn command_names(rows: Seq<CommandSpec>) -> Seq<Seq<char>> {
    rows.map_values(|c: CommandSpec| c.name.unwrap())
}

/// The commands after the node `n` of a `<commands>` block: a `<command>`
/// for the selected API adds its entry.
pub open spec fn add_command(acc: Result<Seq<CommandSpec>, ErrorV>, n: Node, v: crate::versions::ActiveVersion, use_libc: bool) -> Result<Seq<CommandSpec>, ErrorV> {
    match acc {
        Err(e) => Err(e),
        Ok(rows) => match n {
            Node::Element(e) => if e.name@ == "command"@ && api_ok(v, e) {
                match command_entry(e, command_names(rows), use_libc) {
                    Ok(c) => Ok(rows.push(c)),
                    Err(x) => Err(x),
                }
            } else {
                Ok(rows)
            },
            Node::Text(_) => Ok(rows),
        },
    }
}

/// The commands after the nodes `items` of a `<commands>` block.
pub open spec fn commands_block(items: Seq<Node>, start: Result<Seq<CommandSpec>, ErrorV>, v: crate::versions::ActiveVersion, use_libc: bool) -> Result<Seq<CommandSpec>, ErrorV>
    decreases items.len(),
{
    if items.len() == 0 {
        start
    } else {
        add_command(commands_block(items.drop_last(), start, v, use_libc), items.last(), v, use_libc)
    }
}

/// The commands declared in the `<commands>` elements among `children`, in
/// document order.
pub open spec fn commands_of_nodes(children: Seq<Node>, v: crate::versions::ActiveVersion, use_libc: bool) -> Result<Seq<CommandSpec>, ErrorV>
    decreases children.len(),
{
    if children.len() == 0 {
        Ok(Seq::empty())
    } else {
        let prev = commands_of_nodes(children.drop_last(), v, use_libc);
        match children.last() {
            Node::Element(e) => if e.name@ == "commands"@ {
                commands_block(e.contents@, prev, v, use_libc)
            } else {
                prev
            },
            Node::Text(_) => prev,
        }
    }
}

proof fn lemma_commands_block_err(items: Seq<Node>, e: ErrorV, v: crate::versions::ActiveVersion, use_libc: bool)
    ensures
        commands_block(items, Err(e), v, use_libc) == Err::<Seq<CommandSpec>, ErrorV>(e),
    decreases items.len(),
{
    if items.len() > 0 {
        lemma_commands_block_err(items.drop_last(), e, v, use_libc);
    }
}

proof fn lemma_commands_block_prefix(items: Seq<Node>, i: int, start: Result<Seq<CommandSpec>, ErrorV>, v: crate::versions::ActiveVersion, use_libc: bool)
    requires
        0 <= i <= items.len(),
        commands_block(items.subrange(0, i), start, v, use_libc) is Err,
    ensures
        commands_block(items, start, v, use_libc) == commands_block(items.subrange(0, i), start, v, use_libc),
    decreases items.len(),
{
    if i == items.len() {
        assert(items.subrange(0, i) =~= items);
    } else {
        assert(items.drop_last().subrange(0, i) =~= items.subrange(0, i));
        lemma_commands_block_prefix(items.drop_last(), i, start, v, use_libc);
    }
}

proof fn lemma_commands_nodes_prefix(children: Seq<Node>, i: int, v: crate::versions::ActiveVersion, use_libc: bool)
    requires
        0 <= i <= children.len(),
        commands_of_nodes(children.subrange(0, i), v, use_libc) is Err,
    ensures
        commands_of_nodes(children, v, use_libc) == commands_of_nodes(children.subrange(0, i), v, use_libc),
    decreases children.len(),
{
    if i == children.len() {
        assert(children.subrange(0, i) =~= children);
    } else {
        assert(children.drop_last().subrange(0, i) =~= children.subrange(0, i));
        lemma_commands_nodes_prefix(children.drop_last(), i, v, use_libc);
        let e = commands_of_nodes(children.subrange(0, i), v, use_libc)->Err_0;
        match children.last() {
            Node::Element(el) => {
                lemma_commands_block_err(el.contents@, e, v, use_libc);
            },
            Node::Text(_) => {},
        }
    }
}

/// Reads the commands from the registry: the table, in document order, each
/// entry keyed by the command's name and without a table index yet, and the
/// names in lexicographic order.
pub fn gather_commands(root: &Element, opts: &CmdLine) -> (r: Result<(Vec<(String, Command)>, Vec<String>), GenError>)
    ensures
        match r {
            Ok((map, order)) => commands_of_nodes(root.contents@, opts.version, opts.use_libc) == Ok::<Seq<CommandSpec>, ErrorV>(command_rows(map@))
                && (forall|k: int| 0 <= k < map@.len() ==> map@[k].0@ == map@[k].1.name@ && map@[k].1.index is None)
                && views_of(order@).to_multiset() == names_of(map@).to_multiset()
                && sorted_views(order@),
            Err(e) => commands_of_nodes(root.contents@, opts.version, opts.use_libc) == Err::<Seq<CommandSpec>, ErrorV>(e@),
        },
{
    let mut map: Vec<(String, Command)> = Vec::new();
    let ghost v = opts.version;
    let ghost libc = opts.use_libc;
    let mut i: usize = 0;
    assert(command_rows(map@) =~= Seq::<CommandSpec>::empty());
    while i < root.contents.len()
        invariant
            i <= root.contents@.len(),
            v == opts.version,
            libc == opts.use_libc,
            commands_of_nodes(root.contents@.subrange(0, i as int), v, libc) == Ok::<Seq<CommandSpec>, ErrorV>(command_rows(map@)),
            forall|k: int| 0 <= k < map@.len() ==> map@[k].0@ == map@[k].1.name@ && map@[k].1.index is None,
        decreases root.contents@.len() - i,
    {
        let ghost kids = root.contents@;
        assert(kids.subrange(0, i + 1).drop_last() =~= kids.subrange(0, i as int));
        match &root.contents[i] {
            Node::Element(block) => {
                if eq_lit(block.get_name(), "commands") {
                    let ghost prev = commands_of_nodes(kids.subrange(0, i as int), v, libc);
                    let mut j: usize = 0;
                    assert(block.contents@.subrange(0, 0) =~= Seq::<Node>::empty());
                    while j < block.contents.len()
                        invariant
                            j <= block.contents@.len(),
                            i < kids.len(),
                            kids == root.contents@,
                            kids[i as int] == Node::Element(*block),
                            block.name@ == "commands"@,
                            prev == commands_of_nodes(kids.subrange(0, i as int), v, libc),
                            kids.subrange(0, i + 1).drop_last() == kids.subrange(0, i as int),
                            v == opts.version,
                            libc == opts.use_libc,
                            commands_block(block.contents@.subrange(0, j as int), prev, v, libc) == Ok::<Seq<CommandSpec>, ErrorV>(command_rows(map@)),
                            forall|k: int| 0 <= k < map@.len() ==> map@[k].0@ == map@[k].1.name@ && map@[k].1.index is None,
                        decreases block.contents@.len() - j,
                    {
                        let ghost items = block.contents@;
                        assert(items.subrange(0, j + 1).drop_last() =~= items.subrange(0, j as int));
                        match &block.contents[j] {
                            Node::Element(tag) => {
                                if eq_lit(tag.get_name(), "command") && opts.version.correct_api(tag) {
                                    assert(names_of(map@) =~= command_names(command_rows(map@)));
                                    match gather_command(tag, opts, &mut map) {
                                        Ok(()) => {},
                                        Err(e) => {
                                            proof {
                                                lemma_commands_block_prefix(items, j + 1, prev, v, libc);
                                                lemma_commands_nodes_prefix(kids, i + 1, v, libc);
                                            }
                                            return Err(e);
                                        },
                                    }
                                }
                            },
                            Node::Text(_) => {},
                        }
                        j = j + 1;
                    }
                    assert(block.contents@.subrange(0, block.contents@.len() as int) =~= block.contents@);
                }
            },
            Node::Text(_) => {},
        }
        i = i + 1;
    }
    assert(root.contents@.subrange(0, root.contents@.len() as int) =~= root.contents@);
    let mut order: Vec<String> = Vec::new();
    let mut k: usize = 0;
    while k < map.len()
        invariant
            k <= map@.len(),
            views_of(order@) == names_of(map@).subrange(0, k as int),
        decreases map@.len() - k,
    {
        let ghost before = views_of(order@);
        let nm = map[k].0.clone();
        assert(nm@ == names_of(map@)[k as int]);
        order.push(nm);
        assert(views_of(order@) =~= before.push(names_of(map@)[k as int]));
        k = k + 1;
        assert(views_of(order@) =~= names_of(map@).subrange(0, k as int));
    }
    assert(names_of(map@).subrange(0, map@.len() as int) =~= names_of(map@));
    sort_strings(&mut order);
    Ok((map, order))
}

impl Command {
    /// Marks the raw types that this command's signature mentions as reached,
    /// owned by `ext`.
    pub fn touch_types(&self, map: &mut OwnerMap, ext: &Owner)
        ensures
            final(map)@ == touch_spec(old(map)@, views_of(self.param_types@), ext@),
    {
        let mut i: usize = 0;
        assert(views_of(self.param_types@).subrange(0, 0) =~= Seq::<Seq<char>>::empty());
        while i < self.param_types.len()
            invariant
                i <= self.param_types@.len(),
                map@ == touch_spec(old(map)@, views_of(self.param_types@).subrange(0, i as int), ext@),
            decreases self.param_types@.len() - i,
        {
            assert(views_of(self.param_types@).subrange(0, i + 1).drop_last() =~= views_of(self.param_types@).subrange(0, i as int));
            map.require(&self.param_types[i], ext);
            i = i + 1;
        }
        assert(views_of(self.param_types@).subrange(0, self.param_types@.len() as int) =~= views_of(self.param_types@));
    }
}

/// The map after each of `types` is required with owner `ext`, in order.
pub open spec fn touch_spec(m: Map<Seq<char>, Option<Seq<char>>>, types: Seq<Seq<char>>, ext: Option<Seq<char>>) -> Map<Seq<char>, Option<Seq<char>>>
    decreases types.len(),
{
    if types.len() == 0 {
        m
    } else {
        touch_spec(m, types.drop_last(), ext).insert(types.last(), ext)
    }
}

/// The types map after the touch pass over `cmds`: every command that the
/// allow-list admits and that has an owner in `exts` marks the types its
/// signature mentions as reached, owned by the command's owner.
pub open spec fn touch_all(
    m: Map<Seq<char>, Option<Seq<char>>>,
    cmds: Seq<CommandSpec>,
    used: Option<Seq<Seq<char>>>,
    exts: Map<Seq<char>, Option<Seq<char>>>,
) -> Map<Seq<char>, Option<Seq<char>>>
    decreases cmds.len(),
{
    if cmds.len() == 0 {
        m
    } else {
        let prev = touch_all(m, cmds.drop_last(), used, exts);
        let c = cmds.last();
        let n = c.name.unwrap();
        if allows(used, n) && exts.contains_key(n) {
            touch_spec(prev, c.param_types, exts[n])
        } else {
            prev
        }
    }
}

/// Marks as reached the types that the signatures of the selected commands
/// mention: the commands that the allow-list admits and that the command
/// map gives an owner.
fn touch_signatures(
    used: &UsedIdentifiers,
    commands: &Vec<(String, Command)>,
    command_exts: &OwnerMap,
    type_set: &mut OwnerMap,
)
    ensures
        final(type_set)@ == touch_all(old(type_set)@, command_rows(commands@), used@, command_exts@),
{
    let ghost rows = command_rows(commands@);
    let mut i: usize = 0;
    assert(rows.subrange(0, 0) =~= Seq::<CommandSpec>::empty());
    while i < commands.len()
        invariant
            i <= commands@.len(),
            rows == command_rows(commands@),
            type_set@ == touch_all(old(type_set)@, rows.subrange(0, i as int), used@, command_exts@),
        decreases commands@.len() - i,
    {
        let ghost pre = rows.subrange(0, i + 1);
        assert(pre.drop_last() =~= rows.subrange(0, i as int));
        assert(pre.last() == commands@[i as int].1@);
        let cmd = &commands[i].1;
        if used.contains(cmd.name.as_str()) {
            let nc = chars_of(cmd.name.as_str());
            if let Some(ext) = command_exts.get(nc.as_slice()) {
                cmd.touch_types(type_set, ext);
            }
        }
        i = i + 1;
    }
    assert(rows.subrange(0, rows.len() as int) =~= rows);
}

proof fn lemma_touch_spec_keeps(m: Map<Seq<char>, Option<Seq<char>>>, types: Seq<Seq<char>>, ext: Option<Seq<char>>, t: Seq<char>)
    requires
        m.contains_key(t) || types.contains(t),
    ensures
        touch_spec(m, types, ext).contains_key(t),
    decreases types.len(),
{
    if types.len() > 0 {
        if types.last() != t {
            if !m.contains_key(t) {
                let k = choose|k: int| 0 <= k < types.len() && types[k] == t;
                assert(types.drop_last()[k] == t);
            }
            lemma_touch_spec_keeps(m, types.drop_last(), ext, t);
        }
    }
}

/// A command that the allow-list admits and that has an owner brings in
/// every type its signature mentions, whether or not the allow-list names
/// those types.
pub proof fn lemma_touch_reaches_signature_types(
    m: Map<Seq<char>, Option<Seq<char>>>,
    cmds: Seq<CommandSpec>,
    used: Option<Seq<Seq<char>>>,
    exts: Map<Seq<char>, Option<Seq<char>>>,
    i: int,
    t: Seq<char>,
)
    requires
        0 <= i < cmds.len(),
        allows(used, cmds[i].name.unwrap()),
        exts.contains_key(cmds[i].name.unwrap()),
        cmds[i].param_types.contains(t),
    ensures
        touch_all(m, cmds, used, exts).contains_key(t),
    decreases cmds.len(),
{
    if i == cmds.len() - 1 {
        let prev = touch_all(m, cmds.drop_last(), used, exts);
        lemma_touch_spec_keeps(prev, cmds[i].param_types, exts[cmds[i].name.unwrap()], t);
    } else {
        assert(cmds.drop_last()[i] == cmds[i]);
        lemma_touch_reaches_signature_types(m, cmds.drop_last(), used, exts, i, t);
        let prev = touch_all(m, cmds.drop_last(), used, exts);
        let c = cmds.last();
        if allows(used, c.name.unwrap()) && exts.contains_key(c.name.unwrap()) {
            lemma_touch_spec_keeps(prev, c.param_types, exts[c.name.unwrap()], t);
        }
    }
}

/// The method name of a command: without its `gl` prefix.
pub open spec fn method_name(n: Seq<char>) -> Seq<char> {
    if has_prefix(n, "gl"@) {
        n.subrange(2, n.len() as int)
    } else {
        n
    }
}

/// The decimal digits of `n`.
pub open spec fn decimal(n: nat) -> Seq<char> {
    crate::values::digits(n, 10)
}

/// The forwarding method of a command whose entry point is at `procid`.
pub open spec fn imp_line(c: CommandSpec, procid: nat) -> Seq<char> {
    "    #[inline(always)] pub unsafe fn "@ + method_name(c.name.unwrap()) + "(&self, "@ + c.params + ") -> "@
        + c.returns + " { (transmute::<_, extern \"C\" fn("@ + c.params + ") -> "@ + c.returns
        + ">(self.procs["@ + decimal(procid) + "]))("@ + c.param_names + ") }"@
}

/// The stub installed for a command of the extension `ext` that is absent.
pub open spec fn dummy_imp_line(c: CommandSpec, ext: Seq<char>) -> Seq<char> {
    "extern \"C\" fn "@ + c.name.unwrap() + "_null_imp("@ + c.ignored_params + ") -> "@ + c.returns
        + " { missing_ext_panic(\""@ + c.name.unwrap() + "\", \""@ + ext + "\"); }"@
}

impl Command {
    /// The forwarding method of this command, whose entry point is at
    /// `procid` in the procedure table.
    pub fn output_imp(&self, _opts: &CmdLine, procid: usize) -> (r: String)
        ensures
            r@ == imp_line(self@, procid as nat),
    {
        let name = chars_of(self.name.as_str());
        let params = chars_of(self.params.as_str());
        let rets = chars_of(self.returns.as_str());
        let names = chars_of(self.param_names.as_str());
        let mut out: Vec<char> = Vec::new();
        push_lit(&mut out, "    #[inline(always)] pub unsafe fn ");
        proof {
            reveal_strlit("gl");
        }
        if crate::text::starts_with(name.as_slice(), "gl") {
            let short = copy_range(name.as_slice(), 2, name.len());
            push_all(&mut out, short.as_slice());
        } else {
            push_all(&mut out, name.as_slice());
        }
        push_lit(&mut out, "(&self, ");
        push_all(&mut out, params.as_slice());
        push_lit(&mut out, ") -> ");
        push_all(&mut out, rets.as_slice());
        push_lit(&mut out, " { (transmute::<_, extern \"C\" fn(");
        push_all(&mut out, params.as_slice());
        push_lit(&mut out, ") -> ");
        push_all(&mut out, rets.as_slice());
        push_lit(&mut out, ">(self.procs[");
        crate::values::push_digits(&mut out, procid as u64, 10);
        push_lit(&mut out, "]))(");
        push_all(&mut out, names.as_slice());
        push_lit(&mut out, ") }");
        assert(out@ =~= imp_line(self@, procid as nat));
        string_of(out.as_slice())
    }

    /// The stub that stands for this command when the extension `ext` is
    /// absent.
    pub fn output_dummy_imp(&self, ext: &str, _opts: &CmdLine) -> (r: String)
        ensures
            r@ == dummy_imp_line(self@, ext@),
    {
        let name = chars_of(self.name.as_str());
        let ignored = chars_of(self.ignored_params.as_str());
        let rets = chars_of(self.returns.as_str());
        let e = chars_of(ext);
        let mut out: Vec<char> = Vec::new();
        push_lit(&mut out, "extern \"C\" fn ");
        push_all(&mut out, name.as_slice());
        push_lit(&mut out, "_null_imp(");
        push_all(&mut out, ignored.as_slice());
        push_lit(&mut out, ") -> ");
        push_all(&mut out, rets.as_slice());
        push_lit(&mut out, " { missing_ext_panic(\"");
        push_all(&mut out, name.as_slice());
        push_lit(&mut out, "\", \"");
        push_all(&mut out, e.as_slice());
        push_lit(&mut out, "\"); }");
        assert(out@ =~= dummy_imp_line(self@, ext@));
        string_of(out.as_slice())
    }
}

/// Every type of `rows` that `m` holds has each of its dependencies in `m`.
pub open spec fn deps_closed(rows: Seq<TypeRow>, m: Map<Seq<char>, Option<Seq<char>>>) -> bool {
    forall|i: int, j: int|
        0 <= i < rows.len() && m.contains_key(rows[i].0) && 0 <= j < rows[i].2.len() ==> m.contains_key(
            #[trigger] rows[i].2[j],
        )
}

/// `k` is a dependency of a type of `rows` that `m` holds.
pub open spec fn dep_of_held(rows: Seq<TypeRow>, m: Map<Seq<char>, Option<Seq<char>>>, k: Seq<char>) -> bool {
    exists|i: int, j: int|
        0 <= i < rows.len() && 0 <= j < rows[i].2.len() && m.contains_key(rows[i].0) && #[trigger] rows[i].2[j] == k
}

/// The dependencies named anywhere in `rows`, in order.
pub open spec fn all_deps(rows: Seq<TypeRow>) -> Seq<Seq<char>>
    decreases rows.len(),
{
    if rows.len() == 0 {
        Seq::empty()
    } else {
        all_deps(rows.drop_last()) + rows.last().2
    }
}

/// How many entries of `d` are not keys of `m`.
pub open spec fn missing(d: Seq<Seq<char>>, m: Map<Seq<char>, Option<Seq<char>>>) -> nat
    decreases d.len(),
{
    if d.len() == 0 {
        0
    } else {
        missing(d.drop_last(), m) + if m.contains_key(d.last()) { 0nat } else { 1nat }
    }
}

proof fn lemma_missing_shrinks(d: Seq<Seq<char>>, m1: Map<Seq<char>, Option<Seq<char>>>, m2: Map<Seq<char>, Option<Seq<char>>>, k: Seq<char>)
    requires
        forall|x: Seq<char>| m1.contains_key(x) ==> m2.contains_key(x),
    ensures
        missing(d, m2) <= missing(d, m1),
        d.contains(k) && !m1.contains_key(k) && m2.contains_key(k) ==> missing(d, m2) < missing(d, m1),
    decreases d.len(),
{
    if d.len() > 0 {
        lemma_missing_shrinks(d.drop_last(), m1, m2, k);
        if d.contains(k) && d.last() != k {
            let a = choose|a: int| 0 <= a < d.len() && d[a] == k;
            assert(d.drop_last()[a] == k);
        }
    }
}

proof fn lemma_all_deps_has(rows: Seq<TypeRow>, i: int, j: int)
    requires
        0 <= i < rows.len(),
        0 <= j < rows[i].2.len(),
    ensures
        all_deps(rows).contains(rows[i].2[j]),
    decreases rows.len(),
{
    if i == rows.len() - 1 {
        let p = all_deps(rows.drop_last());
        assert(all_deps(rows)[p.len() + j] == rows[i].2[j]);
    } else {
        assert(rows.drop_last()[i] == rows[i]);
        lemma_all_deps_has(rows.drop_last(), i, j);
        let p = all_deps(rows.drop_last());
        let a = choose|a: int| 0 <= a < p.len() && p[a] == rows[i].2[j];
        assert(all_deps(rows)[a] == p[a]);
    }
}

/// One pass over the types: the dependencies of each held type that are
/// missing are added, owned as that type is. Whether anything was added.
fn close_round(types: &Vec<(String, Type)>, type_set: &mut OwnerMap) -> (added: bool)
    ensures
        forall|k: Seq<char>| old(type_set)@.contains_key(k) ==> final(type_set)@.contains_key(k),
        forall|k: Seq<char>|
            final(type_set)@.contains_key(k) && !old(type_set)@.contains_key(k) ==> dep_of_held(
                rows_of(types@),
                final(type_set)@,
                k,
            ),
        !added ==> final(type_set)@ == old(type_set)@ && deps_closed(rows_of(types@), final(type_set)@),
        added ==> exists|k: Seq<char>| final(type_set)@.contains_key(k) && !old(type_set)@.contains_key(k) && all_deps(rows_of(types@)).contains(k),
{
    let ghost rows = rows_of(types@);
    let ghost start = type_set@;
    let mut added = false;
    let mut i: usize = 0;
    while i < types.len()
        invariant
            i <= types@.len(),
            rows == rows_of(types@),
            forall|k: Seq<char>| start.contains_key(k) ==> type_set@.contains_key(k),
            forall|k: Seq<char>| type_set@.contains_key(k) && !start.contains_key(k) ==> dep_of_held(rows, type_set@, k),
            !added ==> type_set@ == start,
            !added ==> forall|a: int, b: int|
                0 <= a < i && type_set@.contains_key(rows[a].0) && 0 <= b < rows[a].2.len() ==> type_set@.contains_key(
                    #[trigger] rows[a].2[b],
                ),
            added ==> exists|k: Seq<char>| type_set@.contains_key(k) && !start.contains_key(k) && all_deps(rows).contains(k),
        decreases types@.len() - i,
    {
        let name = chars_of(types[i].0.as_str());
        let owner = match type_set.get(name.as_slice()) {
            Some(o) => Some(o.duplicate()),
            None => None,
        };
        assert(rows[i as int].0 == types@[i as int].0@);
        assert(rows[i as int].2 == views_of(types@[i as int].1.deps@));
        if let Some(o) = owner {
            let deps = &types[i].1.deps;
            let mut j: usize = 0;
            while j < deps.len()
                invariant
                    j <= deps@.len(),
                    i < types@.len(),
                    deps == &types@[i as int].1.deps,
                    rows == rows_of(types@),
                    rows[i as int].0 == types@[i as int].0@,
                    rows[i as int].2 == views_of(deps@),
                    type_set@.contains_key(rows[i as int].0),
                    forall|k: Seq<char>| start.contains_key(k) ==> type_set@.contains_key(k),
                    forall|k: Seq<char>| type_set@.contains_key(k) && !start.contains_key(k) ==> dep_of_held(rows, type_set@, k),
                    !added ==> type_set@ == start,
                    !added ==> forall|a: int, b: int|
                        0 <= a < i && type_set@.contains_key(rows[a].0) && 0 <= b < rows[a].2.len() ==> type_set@.contains_key(
                            #[trigger] rows[a].2[b],
                        ),
                    !added ==> forall|b: int| 0 <= b < j ==> type_set@.contains_key(#[trigger] rows[i as int].2[b]),
                    added ==> exists|k: Seq<char>| type_set@.contains_key(k) && !start.contains_key(k) && all_deps(rows).contains(k),
                decreases deps@.len() - j,
            {
                let dc = chars_of(deps[j].as_str());
                assert(rows[i as int].2[j as int] == deps@[j as int]@);
                if !type_set.contains_key(dc.as_slice()) {
                    let ghost before = type_set@;
                    type_set.require(&deps[j], &o);
                    proof {
                        let k0 = deps@[j as int]@;
                        lemma_all_deps_has(rows, i as int, j as int);
                        assert(type_set@.contains_key(k0) && !start.contains_key(k0));
                        assert forall|k: Seq<char>| type_set@.contains_key(k) && !start.contains_key(k) implies dep_of_held(rows, type_set@, k) by {
                            if k == k0 {
                                assert(rows[i as int].2[j as int] == k);
                            } else {
                                assert(before.contains_key(k));
                                let (a, b) = choose|a: int, b: int|
                                    0 <= a < rows.len() && 0 <= b < rows[a].2.len() && before.contains_key(rows[a].0) && #[trigger] rows[a].2[b] == k;
                                assert(type_set@.contains_key(rows[a].0));
                            }
                        }
                    }
                    added = true;
                }
                j = j + 1;
            }
        }
        i = i + 1;
    }
    added
}

/// Marks as reached the types that the selected commands need: those their
/// signatures mention, then, to a fixed point, the dependencies of every
/// reached type, owned as the type that needs them. Nothing else is added.
pub fn touch_pass(
    used: &UsedIdentifiers,
    commands: &Vec<(String, Command)>,
    command_exts: &OwnerMap,
    types: &Vec<(String, Type)>,
    type_set: &mut OwnerMap,
)
    ensures
        forall|k: Seq<char>|
            touch_all(old(type_set)@, command_rows(commands@), used@, command_exts@).contains_key(k)
                ==> final(type_set)@.contains_key(k),
        deps_closed(rows_of(types@), final(type_set)@),
        forall|k: Seq<char>|
            final(type_set)@.contains_key(k) ==> touch_all(old(type_set)@, command_rows(commands@), used@, command_exts@).contains_key(k)
                || dep_of_held(rows_of(types@), final(type_set)@, k),
{
    touch_signatures(used, commands, command_exts, type_set);
    let ghost base = type_set@;
    let ghost d = all_deps(rows_of(types@));
    loop
        invariant
            forall|k: Seq<char>| base.contains_key(k) ==> type_set@.contains_key(k),
            forall|k: Seq<char>| type_set@.contains_key(k) ==> base.contains_key(k) || dep_of_held(rows_of(types@), type_set@, k),
            d == all_deps(rows_of(types@)),
        ensures
            deps_closed(rows_of(types@), type_set@),
        decreases missing(d, type_set@),
    {
        let ghost before = type_set@;
        let added = close_round(types, type_set);
        proof {
            assert forall|k: Seq<char>| type_set@.contains_key(k) implies base.contains_key(k) || dep_of_held(rows_of(types@), type_set@, k) by {
                if !before.contains_key(k) {
                } else if !base.contains_key(k) {
                    let (a, b) = choose|a: int, b: int|
                        0 <= a < rows_of(types@).len() && 0 <= b < rows_of(types@)[a].2.len() && before.contains_key(rows_of(types@)[a].0) && #[trigger] rows_of(types@)[a].2[b] == k;
                    assert(type_set@.contains_key(rows_of(types@)[a].0));
                }
            }
            if added {
                let k = choose|k: Seq<char>| type_set@.contains_key(k) && !before.contains_key(k) && d.contains(k);
                lemma_missing_shrinks(d, before, type_set@, k);
            }
        }
        if !added {
            break;
        }
    }
}

} // verus!
