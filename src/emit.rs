//! What the output module holds, section by section, decided from the
//! resolved tables.

use vstd::prelude::*;
use crate::cmdline::CmdLine;
use crate::features::{Owner, OwnerMap};
use crate::procs::{ranges_view, tiles, ProcLayout};
use crate::commands::decimal;
use crate::values::push_digits;
use crate::text::{push_all, push_lit};
use crate::table::views_of;
use crate::text::{chars_eq, chars_of, copy_range, has_prefix, starts_with, string_of};
use crate::types::{rows_of, Type, TypeRow};
use crate::used_identifiers::{allows, UsedIdentifiers};
use crate::values::{const_line, Val};
use crate::commands::{command_rows, dummy_imp_line, imp_line, Command, CommandSpec};

verus! {

/// The code of the reached types, in table order; types without code are
/// left out.
pub open spec fn type_codes(rows: Seq<TypeRow>, reached: Map<Seq<char>, Option<Seq<char>>>) -> Seq<Seq<char>>
    decreases rows.len(),
{
    if rows.len() == 0 {
        Seq::empty()
    } else {
        let prev = type_codes(rows.drop_last(), reached);
        let r = rows.last();
        if reached.contains_key(r.0) && r.1 is Some {
            prev.push(r.1.unwrap())
        } else {
            prev
        }
    }
}

/// The code of the types that the resolution reached, in table order.
pub fn type_section(types: &Vec<(String, Type)>, type_set: &OwnerMap, opts: &CmdLine) -> (r: Vec<String>)
    ensures
        views_of(r@) == type_codes(rows_of(types@), type_set@),
{
    let ghost rows = rows_of(types@);
    let mut out: Vec<String> = Vec::new();
    let mut i: usize = 0;
    assert(rows.subrange(0, 0) =~= Seq::<TypeRow>::empty());
    assert(views_of(out@) =~= Seq::<Seq<char>>::empty());
    while i < types.len()
        invariant
            i <= types@.len(),
            rows == rows_of(types@),
            views_of(out@) == type_codes(rows.subrange(0, i as int), type_set@),
        decreases types@.len() - i,
    {
        assert(rows.subrange(0, i + 1).drop_last() =~= rows.subrange(0, i as int));
        assert(rows.subrange(0, i + 1).last() == rows[i as int]);
        let nc = chars_of(types[i].0.as_str());
        if type_set.contains_key(nc.as_slice()) {
            if let Some(code) = types[i].1.output(opts) {
                let ghost before = views_of(out@);
                out.push(code);
                assert(views_of(out@) =~= before.push(code@));
            }
        }
        i = i + 1;
    }
    assert(rows.subrange(0, rows.len() as int) =~= rows);
    out
}

/// The declaration lines of the constants named in `order` that the
/// allow-list admits and the resolution reached, in that order.
pub open spec fn value_lines(
    order: Seq<Seq<char>>,
    table: Seq<(Seq<char>, Val)>,
    used: Option<Seq<Seq<char>>>,
    reached: Map<Seq<char>, Option<Seq<char>>>,
) -> Seq<Seq<char>>
    decreases order.len(),
{
    if order.len() == 0 {
        Seq::empty()
    } else {
        let prev = value_lines(order.drop_last(), table, used, reached);
        let n = order.last();
        if allows(used, n) && reached.contains_key(n) && exists|k: int| 0 <= k < table.len() && table[k].0 == n {
            let k = choose|k: int| 0 <= k < table.len() && table[k].0 == n;
            prev.push(const_line(n, table[k].1))
        } else {
            prev
        }
    }
}

/// The declaration lines of the constants to emit, in the order of `order`.
pub fn value_section(values: &Vec<(String, Val)>, order: &Vec<String>, used: &UsedIdentifiers, value_set: &OwnerMap, opts: &CmdLine) -> (r: Vec<String>)
    requires
        forall|a: int, b: int| 0 <= a < b < values@.len() ==> values@[a].0@ != values@[b].0@,
    ensures
        views_of(r@) == value_lines(views_of(order@), crate::values::value_rows(values@), used@, value_set@),
{
    let ghost table = crate::values::value_rows(values@);
    let ghost ov = views_of(order@);
    let mut out: Vec<String> = Vec::new();
    let mut i: usize = 0;
    assert(ov.subrange(0, 0) =~= Seq::<Seq<char>>::empty());
    assert(views_of(out@) =~= Seq::<Seq<char>>::empty());
    while i < order.len()
        invariant
            i <= order@.len(),
            ov == views_of(order@),
            table == crate::values::value_rows(values@),
            forall|a: int, b: int| 0 <= a < b < values@.len() ==> values@[a].0@ != values@[b].0@,
            views_of(out@) == value_lines(ov.subrange(0, i as int), table, used@, value_set@),
        decreases order@.len() - i,
    {
        let ghost pre = ov.subrange(0, i + 1);
        assert(pre.drop_last() =~= ov.subrange(0, i as int));
        assert(pre.last() == order@[i as int]@);
        let name = &order[i];
        let nc = chars_of(name.as_str());
        if used.contains(name.as_str()) && value_set.contains_key(nc.as_slice()) {
            match crate::table::find_name(values, nc.as_slice()) {
                Some(k) => {
                    let line = values[k].1.output(name.as_str(), opts);
                    proof {
                        assert(table[k as int].0 == name@);
                        let kk = choose|kk: int| 0 <= kk < table.len() && table[kk].0 == name@;
                        assert(kk == k);
                    }
                    let ghost before = views_of(out@);
                    out.push(line);
                    assert(views_of(out@) =~= before.push(line@));
                },
                None => {
                    proof {
                        if exists|kk: int| 0 <= kk < table.len() && table[kk].0 == name@ {
                            let kk = choose|kk: int| 0 <= kk < table.len() && table[kk].0 == name@;
                            assert(crate::table::names_of(values@)[kk] == name@);
                        }
                    }
                },
            }
        }
        i = i + 1;
    }
    assert(ov.subrange(0, ov.len() as int) =~= ov);
    out
}

/// The name of an extension's presence flag: without its `GL_` prefix.
pub open spec fn flag_name_spec(ext: Seq<char>) -> Seq<char> {
    if has_prefix(ext, "GL_"@) {
        ext.subrange(3, ext.len() as int)
    } else {
        ext
    }
}

/// The name of the presence flag of the extension `ext`.
pub fn flag_name(ext: &str) -> (r: String)
    ensures
        r@ == flag_name_spec(ext@),
{
    proof {
        reveal_strlit("GL_");
    }
    let cs = chars_of(ext);
    if starts_with(cs.as_slice(), "GL_") {
        let rest = copy_range(cs.as_slice(), 3, cs.len());
        string_of(rest.as_slice())
    } else {
        string_of(cs.as_slice())
    }
}

/// The position of the first of `names` equal to `n`, or -1.
pub open spec fn first_with(names: Seq<Seq<char>>, n: Seq<char>) -> int
    decreases names.len(),
{
    if names.len() == 0 {
        -1
    } else {
        let k = first_with(names.drop_last(), n);
        if k >= 0 {
            k
        } else if names.last() == n {
            names.len() - 1
        } else {
            -1
        }
    }
}

proof fn lemma_first_with(names: Seq<Seq<char>>, n: Seq<char>, i: int)
    requires
        -1 <= i < names.len(),
        i >= 0 ==> names[i] == n,
        forall|j: int| 0 <= j < names.len() && (i < 0 || j < i) ==> names[j] != n,
    ensures
        first_with(names, n) == i,
    decreases names.len(),
{
    if names.len() > 0 {
        if i == names.len() - 1 {
            lemma_first_with(names.drop_last(), n, -1);
        } else {
            lemma_first_with(names.drop_last(), n, i);
        }
    }
}

/// The stubs of the commands named in `order` that the table holds, that
/// the allow-list admits and that an extension owns, in the order of
/// `order`.
pub open spec fn stub_lines(
    order: Seq<Seq<char>>,
    names: Seq<Seq<char>>,
    cmds: Seq<CommandSpec>,
    used: Option<Seq<Seq<char>>>,
    exts: Map<Seq<char>, Option<Seq<char>>>,
) -> Seq<Seq<char>>
    decreases order.len(),
{
    if order.len() == 0 {
        Seq::empty()
    } else {
        let prev = stub_lines(order.drop_last(), names, cmds, used, exts);
        let n = order.last();
        let k = first_with(names, n);
        if k >= 0 && allows(used, n) && exts.contains_key(n) && exts[n] is Some {
            prev.push(dummy_imp_line(cmds[k], exts[n].unwrap()))
        } else {
            prev
        }
    }
}

/// The "extension unavailable" stubs of the selected extension commands, in
/// the order of `order`.
pub fn stub_section(
    used: &UsedIdentifiers,
    commands: &Vec<(String, Command)>,
    order: &Vec<String>,
    command_exts: &OwnerMap,
    opts: &CmdLine,
) -> (r: Vec<String>)
    ensures
        views_of(r@) == stub_lines(views_of(order@), crate::table::names_of(commands@), command_rows(commands@), used@, command_exts@),
{
    let ghost ov = views_of(order@);
    let ghost names = crate::table::names_of(commands@);
    let ghost rows = command_rows(commands@);
    let mut out: Vec<String> = Vec::new();
    let mut i: usize = 0;
    assert(ov.subrange(0, 0) =~= Seq::<Seq<char>>::empty());
    assert(views_of(out@) =~= Seq::<Seq<char>>::empty());
    while i < order.len()
        invariant
            i <= order@.len(),
            ov == views_of(order@),
            names == crate::table::names_of(commands@),
            rows == command_rows(commands@),
            views_of(out@) == stub_lines(ov.subrange(0, i as int), names, rows, used@, command_exts@),
        decreases order@.len() - i,
    {
        assert(ov.subrange(0, i + 1).drop_last() =~= ov.subrange(0, i as int));
        assert(ov.subrange(0, i + 1).last() == order@[i as int]@);
        let name = &order[i];
        let nc = chars_of(name.as_str());
        match crate::table::find_name(commands, nc.as_slice()) {
            Some(k) => {
                proof {
                    lemma_first_with(names, name@, k as int);
                }
                if used.contains(name.as_str()) {
                    if let Some(Owner::Extension(ext)) = command_exts.get(nc.as_slice()) {
                        let line = commands[k].1.output_dummy_imp(ext.as_str(), opts);
                        assert(rows[k as int] == commands@[k as int].1@);
                        let ghost before = views_of(out@);
                        out.push(line);
                        assert(views_of(out@) =~= before.push(line@));
                    }
                }
            },
            None => {
                proof {
                    assert forall|j: int| 0 <= j < names.len() implies names[j] != name@ by {
                        if names[j] == name@ {
                            assert(names.contains(name@));
                        }
                    }
                    lemma_first_with(names, name@, -1);
                }
            },
        }
        i = i + 1;
    }
    assert(ov.subrange(0, ov.len() as int) =~= ov);
    out
}

/// The forwarding methods of the commands named in `order` that the table
/// holds and the layout places, in the order of `order`, each with its
/// index in the layout.
pub open spec fn imp_lines(order: Seq<Seq<char>>, names: Seq<Seq<char>>, cmds: Seq<CommandSpec>, sorted: Seq<Seq<char>>) -> Seq<Seq<char>>
    decreases order.len(),
{
    if order.len() == 0 {
        Seq::empty()
    } else {
        let prev = imp_lines(order.drop_last(), names, cmds, sorted);
        let n = order.last();
        let k = first_with(names, n);
        let p = first_with(sorted, n);
        if k >= 0 && p >= 0 {
            prev.push(imp_line(cmds[k], p as nat))
        } else {
            prev
        }
    }
}

/// The forwarding methods of the commands placed in the procedure table, in
/// the order of `order`.
pub fn imp_section(commands: &Vec<(String, Command)>, order: &Vec<String>, layout: &ProcLayout, opts: &CmdLine) -> (r: Vec<String>)
    ensures
        views_of(r@) == imp_lines(views_of(order@), crate::table::names_of(commands@), command_rows(commands@), views_of(layout.sorted@)),
{
    let ghost ov = views_of(order@);
    let ghost names = crate::table::names_of(commands@);
    let ghost rows = command_rows(commands@);
    let ghost sorted = views_of(layout.sorted@);
    let mut out: Vec<String> = Vec::new();
    let mut i: usize = 0;
    assert(ov.subrange(0, 0) =~= Seq::<Seq<char>>::empty());
    assert(views_of(out@) =~= Seq::<Seq<char>>::empty());
    while i < order.len()
        invariant
            i <= order@.len(),
            ov == views_of(order@),
            names == crate::table::names_of(commands@),
            rows == command_rows(commands@),
            sorted == views_of(layout.sorted@),
            views_of(out@) == imp_lines(ov.subrange(0, i as int), names, rows, sorted),
        decreases order@.len() - i,
    {
        assert(ov.subrange(0, i + 1).drop_last() =~= ov.subrange(0, i as int));
        assert(ov.subrange(0, i + 1).last() == order@[i as int]@);
        let name = &order[i];
        let nc = chars_of(name.as_str());
        let found = crate::table::find_name(commands, nc.as_slice());
        proof {
            match found {
                Some(k) => {
                    lemma_first_with(names, name@, k as int);
                },
                None => {
                    assert forall|j: int| 0 <= j < names.len() implies names[j] != name@ by {
                        if names[j] == name@ {
                            assert(names.contains(name@));
                        }
                    }
                    lemma_first_with(names, name@, -1);
                },
            }
        }
        let placed = layout.index_of(name.as_str());
        proof {
            match placed {
                Some(p) => {
                    lemma_first_with(sorted, name@, p as int);
                },
                None => {
                    assert forall|j: int| 0 <= j < sorted.len() implies sorted[j] != name@ by {
                        if sorted[j] == name@ {
                            assert(sorted.contains(name@));
                        }
                    }
                    lemma_first_with(sorted, name@, -1);
                },
            }
        }
        match (found, placed) {
            (Some(k), Some(p)) => {
                let line = commands[k].1.output_imp(opts, p);
                assert(rows[k as int] == commands@[k as int].1@);
                let ghost before = views_of(out@);
                out.push(line);
                assert(views_of(out@) =~= before.push(line@));
            },
            _ => {},
        }
        i = i + 1;
    }
    assert(ov.subrange(0, ov.len() as int) =~= ov);
    out
}

impl ProcLayout {
    /// The range of the procedure table that holds the commands of `owner`.
    pub fn range_of(&self, owner: &Owner) -> (r: Option<(usize, usize)>)
        requires
            tiles(ranges_view(self.ranges@), self.sorted@.len() as int),
        ensures
            match r {
                Some((s, e)) => range_for(ranges_view(self.ranges@), owner@) == Some((s as int, e as int)) && s < e <= self.sorted@.len(),
                None => range_for(ranges_view(self.ranges@), owner@) is None,
            },
    {
        let ghost rv = ranges_view(self.ranges@);
        let mut i: usize = 0;
        assert(rv.subrange(0, rv.len() as int) =~= rv);
        while i < self.ranges.len()
            invariant
                i <= self.ranges@.len(),
                rv == ranges_view(self.ranges@),
                tiles(rv, self.sorted@.len() as int),
                range_for(rv, owner@) == range_for(rv.subrange(i as int, rv.len() as int), owner@),
            decreases self.ranges@.len() - i,
        {
            assert(rv.subrange(i as int, rv.len() as int).drop_first() =~= rv.subrange(i + 1, rv.len() as int));
            assert(rv.subrange(i as int, rv.len() as int)[0] == rv[i as int]);
            if self.ranges[i].owner.same(owner) {
                proof {
                    crate::procs::lemma_tiles_bound(rv, self.sorted@.len() as int, i as int);
                    assert(rv[i as int].1 < rv[i as int].2);
                }
                return Some((self.ranges[i].start, self.ranges[i].end));
            }
            i = i + 1;
        }
        None
    }

    /// The index of the command `name` in the procedure table.
    pub fn index_of(&self, name: &str) -> (r: Option<usize>)
        ensures
            match r {
                Some(i) => i < self.sorted@.len() && self.sorted@[i as int]@ == name@ && forall|j: int| 0 <= j < i ==> self.sorted@[j]@ != name@,
                None => !views_of(self.sorted@).contains(name@),
            },
    {
        let nc = chars_of(name);
        let mut i: usize = 0;
        while i < self.sorted.len()
            invariant
                i <= self.sorted@.len(),
                nc@ == name@,
                forall|k: int| 0 <= k < i ==> self.sorted@[k]@ != name@,
            decreases self.sorted@.len() - i,
        {
            let k = chars_of(self.sorted[i].as_str());
            if chars_eq(k.as_slice(), nc.as_slice()) {
                return Some(i);
            }
            i = i + 1;
        }
        proof {
            if views_of(self.sorted@).contains(name@) {
                let k = choose|k: int| 0 <= k < views_of(self.sorted@).len() && views_of(self.sorted@)[k] == name@;
                assert(self.sorted@[k]@ == name@);
            }
        }
        None
    }
}

/// The first range of `ranges` owned by `o`, as start and end.
pub open spec fn range_for(ranges: Seq<(Option<Seq<char>>, int, int)>, o: Option<Seq<char>>) -> Option<(int, int)>
    decreases ranges.len(),
{
    if ranges.len() == 0 {
        None
    } else if ranges[0].0 == o {
        Some((ranges[0].1, ranges[0].2))
    } else {
        range_for(ranges.drop_first(), o)
    }
}

/// The stub lines of each of `exts`, one block after another.
pub open spec fn all_stubs(sorted: Seq<Seq<char>>, ranges: Seq<(Option<Seq<char>>, int, int)>, exts: Seq<Seq<char>>) -> Seq<Seq<char>>
    decreases exts.len(),
{
    if exts.len() == 0 {
        Seq::empty()
    } else {
        all_stubs(sorted, ranges, exts.drop_last()) + ext_stubs(sorted, ranges, exts.last())
    }
}

/// The conditional loads of each of `exts`, one block after another.
pub open spec fn all_loads(sorted: Seq<Seq<char>>, ranges: Seq<(Option<Seq<char>>, int, int)>, exts: Seq<Seq<char>>) -> Seq<Seq<char>>
    decreases exts.len(),
{
    if exts.len() == 0 {
        Seq::empty()
    } else {
        all_loads(sorted, ranges, exts.drop_last()) + ext_load(sorted, ranges, exts.last())
    }
}

/// The cleared presence flag of each of `exts`.
pub open spec fn flag_inits(exts: Seq<Seq<char>>) -> Seq<Seq<char>>
    decreases exts.len(),
{
    if exts.len() == 0 {
        Seq::empty()
    } else {
        flag_inits(exts.drop_last()).push("            has_"@ + flag_name_spec(exts.last()) + ": false,"@)
    }
}

/// The match arm that sets the presence flag of each of `exts`.
pub open spec fn flag_arms(exts: Seq<Seq<char>>) -> Seq<Seq<char>>
    decreases exts.len(),
{
    if exts.len() == 0 {
        Seq::empty()
    } else {
        flag_arms(exts.drop_last()).push("                b\""@ + exts.last() + "\" => ret.has_"@ + flag_name_spec(exts.last()) + " = true,"@)
    }
}

/// The line that names entry point `n` in a load list.
pub open spec fn name_line(indent: Seq<char>, n: Seq<char>) -> Seq<char> {
    indent + "b\""@ + n + "\\0\","@
}

/// The name lines of the table entries in `[s, e)`.
pub open spec fn name_lines(sorted: Seq<Seq<char>>, s: int, e: int, indent: Seq<char>) -> Seq<Seq<char>>
    decreases e - s,
{
    if e <= s {
        Seq::empty()
    } else {
        name_lines(sorted, s, e - 1, indent).push(name_line(indent, sorted[e - 1]))
    }
}

/// The line that installs the stub of table entry `i`.
pub open spec fn stub_line(sorted: Seq<Seq<char>>, i: int) -> Seq<char> {
    "        procs["@ + decimal(i as nat) + "].write("@ + sorted[i] + "_null_imp as *const ());"@
}

/// The stub lines of the table entries in `[s, e)`.
pub open spec fn stub_writes(sorted: Seq<Seq<char>>, s: int, e: int) -> Seq<Seq<char>>
    decreases e - s,
{
    if e <= s {
        Seq::empty()
    } else {
        stub_writes(sorted, s, e - 1).push(stub_line(sorted, e - 1))
    }
}

/// The lines that load the core range before anything else.
pub open spec fn core_load(sorted: Seq<Seq<char>>, ranges: Seq<(Option<Seq<char>>, int, int)>) -> Seq<Seq<char>> {
    match range_for(ranges, None) {
        Some(r) => seq!["        Procs::getprocs(&get_proc, &mut procs["@ + decimal(r.0 as nat) + ".."@ + decimal(r.1 as nat) + "], &["@]
            + name_lines(sorted, r.0, r.1, "            "@) + seq!["        ])?;"@],
        None => Seq::empty(),
    }
}

/// The stub lines of extension `x`'s range.
pub open spec fn ext_stubs(sorted: Seq<Seq<char>>, ranges: Seq<(Option<Seq<char>>, int, int)>, x: Seq<char>) -> Seq<Seq<char>> {
    match range_for(ranges, Some(x)) {
        Some(r) => stub_writes(sorted, r.0, r.1),
        None => Seq::empty(),
    }
}

/// The block that loads extension `x`'s range when the extension is present.
pub open spec fn ext_load(sorted: Seq<Seq<char>>, ranges: Seq<(Option<Seq<char>>, int, int)>, x: Seq<char>) -> Seq<Seq<char>> {
    match range_for(ranges, Some(x)) {
        Some(r) => cond_load(sorted, x, r.0, r.1),
        None => Seq::empty(),
    }
}

/// The conditional load of the entries `[s, e)` for extension `x`.
pub open spec fn cond_load(sorted: Seq<Seq<char>>, x: Seq<char>, s: int, e: int) -> Seq<Seq<char>> {
    seq![
        "        if ret.has_"@ + flag_name_spec(x) + " {"@,
        "            Procs::getprocs(&get_proc,"@,
        "                            unsafe { transmute(&mut ret.procs["@ + decimal(s as nat) + ".."@ + decimal(e as nat) + "]) }, &["@,
    ] + name_lines(sorted, s, e, "                "@) + seq!["            ])?;"@, "        }"@]
}

/// The lines that detect which requested extensions the context offers.
pub open spec fn detection(exts: Seq<Seq<char>>, getstringi: bool) -> Seq<Seq<char>> {
    if exts.len() == 0 {
        Seq::empty()
    } else {
        seq![
            "        let disabled_extensions = std::env::var(\"GL_DISABLED_EXTENSIONS\");"@,
            "        let disabled_extensions = disabled_extensions.as_ref()"@,
            "            .map(|x| x.as_bytes()).unwrap_or(b\"\");"@,
            "        let disabled_extensions"@,
            "            = build_disabled_extension_list(disabled_extensions);"@,
        ] + (if getstringi {
            seq![
                "        let mut num_extensions = 0;"@,
                "        unsafe { ret.GetIntegerv(GL_NUM_EXTENSIONS, &mut num_extensions) };"@,
                "        for i in 0 .. num_extensions as GLuint {"@,
                "            let ext = unsafe {CStr::from_ptr(transmute(ret.GetStringi(GL_EXTENSIONS, i)))}.to_bytes();"@,
            ]
        } else {
            seq![
                "        let extensions = unsafe {CStr::from_ptr(transmute(ret.GetString(GL_EXTENSIONS)))};"@,
                "        let extensions = extensions.to_bytes();"@,
                "        for ext in extensions.split(|x| *x == b' ') {"@,
            ]
        }) + seq!["            if disabled_extensions.contains(ext) { continue }"@, "            match ext {"@]
            + flag_arms(exts)
            + seq!["            _ => (),"@, "            }"@, "        }"@]
    }
}

/// The constructor's opening lines, for a table of `n` entries.
pub open spec fn ctor_head(n: nat) -> Seq<Seq<char>> {
    seq![
        "impl Procs {"@,
        "    pub fn new<E, F: Fn(&[u8])->Result<*const(),E>>(get_proc: F)"@,
        "                 -> Result<Procs, E> {"@,
        "        let mut procs: [MaybeUninit<*const()>; "@ + decimal(n) + "] = unsafe {"@,
        "        MaybeUninit::uninit().assume_init()"@,
        "    };"@,
    ]
}

/// The lines that build the table value, every presence flag cleared.
pub open spec fn ctor_init(exts: Seq<Seq<char>>) -> Seq<Seq<char>> {
    seq![
        "        let procs = unsafe { transmute(procs) };"@,
        "        #[allow(unused_mut)] let mut ret = Procs {"@,
        "            procs,"@,
    ] + flag_inits(exts) + seq!["        };"@]
}

/// The resolution constructor: the core range loads first; every requested
/// extension's range gets its stubs; the presence of the extensions is
/// detected; then each present extension's range loads.
pub open spec fn constructor_lines(
    sorted: Seq<Seq<char>>,
    ranges: Seq<(Option<Seq<char>>, int, int)>,
    exts: Seq<Seq<char>>,
    getstringi: bool,
) -> Seq<Seq<char>> {
    ctor_head(sorted.len()) + core_load(sorted, ranges) + all_stubs(sorted, ranges, exts)
        + ctor_init(exts) + detection(exts, getstringi) + all_loads(sorted, ranges, exts)
        + seq!["        Ok(ret)"@, "    }"@]
}

fn push_line(out: &mut Vec<String>, line: &Vec<char>)
    ensures
        views_of(final(out)@) == views_of(old(out)@).push(line@),
{
    let ghost before = views_of(out@);
    out.push(string_of(line.as_slice()));
    assert(views_of(out@) =~= before.push(line@));
}

fn push_lit_line(out: &mut Vec<String>, lit: &str)
    ensures
        views_of(final(out)@) == views_of(old(out)@).push(lit@),
{
    let ghost before = views_of(out@);
    out.push(lit.to_owned());
    assert(views_of(out@) =~= before.push(lit@));
}

fn push_name_lines(out: &mut Vec<String>, sorted: &Vec<String>, s: usize, e: usize, indent: &str)
    requires
        s <= e <= sorted@.len(),
    ensures
        views_of(final(out)@) == views_of(old(out)@) + name_lines(views_of(sorted@), s as int, e as int, indent@),
{
    let mut i: usize = s;
    assert(views_of(old(out)@) + name_lines(views_of(sorted@), s as int, s as int, indent@) =~= views_of(old(out)@));
    while i < e
        invariant
            s <= i <= e <= sorted@.len(),
            views_of(out@) == views_of(old(out)@) + name_lines(views_of(sorted@), s as int, i as int, indent@),
        decreases e - i,
    {
        let mut buf: Vec<char> = Vec::new();
        push_lit(&mut buf, indent);
        push_lit(&mut buf, "b\"");
        let nc = chars_of(sorted[i].as_str());
        push_all(&mut buf, nc.as_slice());
        push_lit(&mut buf, "\\0\",");
        assert(buf@ =~= name_line(indent@, views_of(sorted@)[i as int]));
        let ghost before = views_of(out@);
        push_line(out, &buf);
        i = i + 1;
        assert(views_of(out@) =~= views_of(old(out)@) + name_lines(views_of(sorted@), s as int, i as int, indent@));
    }
}

fn push_stub_writes(out: &mut Vec<String>, sorted: &Vec<String>, s: usize, e: usize)
    requires
        s <= e <= sorted@.len(),
    ensures
        views_of(final(out)@) == views_of(old(out)@) + stub_writes(views_of(sorted@), s as int, e as int),
{
    let mut i: usize = s;
    assert(views_of(old(out)@) + stub_writes(views_of(sorted@), s as int, s as int) =~= views_of(old(out)@));
    while i < e
        invariant
            s <= i <= e <= sorted@.len(),
            views_of(out@) == views_of(old(out)@) + stub_writes(views_of(sorted@), s as int, i as int),
        decreases e - i,
    {
        let mut buf: Vec<char> = Vec::new();
        push_lit(&mut buf, "        procs[");
        push_digits(&mut buf, i as u64, 10);
        push_lit(&mut buf, "].write(");
        let nc = chars_of(sorted[i].as_str());
        push_all(&mut buf, nc.as_slice());
        push_lit(&mut buf, "_null_imp as *const ());");
        assert(buf@ =~= stub_line(views_of(sorted@), i as int));
        push_line(out, &buf);
        i = i + 1;
        assert(views_of(out@) =~= views_of(old(out)@) + stub_writes(views_of(sorted@), s as int, i as int));
    }
}


fn push_head(out: &mut Vec<String>, layout: &ProcLayout)
    ensures
        views_of(final(out)@) == views_of(old(out)@) + ctor_head(layout.sorted@.len()),
{
    let ghost p0 = views_of(out@);
    push_lit_line(out, "impl Procs {");
    push_lit_line(out, "    pub fn new<E, F: Fn(&[u8])->Result<*const(),E>>(get_proc: F)");
    push_lit_line(out, "                 -> Result<Procs, E> {");
    let mut buf: Vec<char> = Vec::new();
    push_lit(&mut buf, "        let mut procs: [MaybeUninit<*const()>; ");
    push_digits(&mut buf, layout.sorted.len() as u64, 10);
    push_lit(&mut buf, "] = unsafe {");
    push_line(out, &buf);
    push_lit_line(out, "        MaybeUninit::uninit().assume_init()");
    push_lit_line(out, "    };");
    assert(views_of(out@) =~= p0 + ctor_head(layout.sorted@.len()));
}

fn push_core(out: &mut Vec<String>, layout: &ProcLayout)
    requires
        tiles(ranges_view(layout.ranges@), layout.sorted@.len() as int),
    ensures
        views_of(final(out)@) == views_of(old(out)@) + core_load(views_of(layout.sorted@), ranges_view(layout.ranges@)),
{
    let ghost sv = views_of(layout.sorted@);
    let ghost rv = ranges_view(layout.ranges@);
    let ghost p1 = views_of(out@);
    match layout.range_of(&Owner::Core) {
        Some((s, e)) => {
            let mut b: Vec<char> = Vec::new();
            push_lit(&mut b, "        Procs::getprocs(&get_proc, &mut procs[");
            push_digits(&mut b, s as u64, 10);
            push_lit(&mut b, "..");
            push_digits(&mut b, e as u64, 10);
            push_lit(&mut b, "], &[");
            push_line(out, &b);
            push_name_lines(out, &layout.sorted, s, e, "            ");
            push_lit_line(out, "        ])?;");
        },
        None => {},
    }
    assert(views_of(out@) =~= p1 + core_load(sv, rv));
}

fn push_all_stubs(out: &mut Vec<String>, layout: &ProcLayout, extensions: &Vec<String>)
    requires
        tiles(ranges_view(layout.ranges@), layout.sorted@.len() as int),
    ensures
        views_of(final(out)@) == views_of(old(out)@) + all_stubs(views_of(layout.sorted@), ranges_view(layout.ranges@), views_of(extensions@)),
{
    let ghost sv = views_of(layout.sorted@);
    let ghost rv = ranges_view(layout.ranges@);
    let ghost ev = views_of(extensions@);
    let ghost p2 = views_of(out@);
    let mut q: usize = 0;
    assert(ev.subrange(0, 0) =~= Seq::<Seq<char>>::empty());
    assert(p2 + all_stubs(sv, rv, ev.subrange(0, 0)) =~= p2);
    while q < extensions.len()
        invariant
            q <= extensions@.len(),
            ev == views_of(extensions@),
            sv == views_of(layout.sorted@),
            rv == ranges_view(layout.ranges@),
            tiles(rv, layout.sorted@.len() as int),
            views_of(out@) == p2 + all_stubs(sv, rv, ev.subrange(0, q as int)),
        decreases extensions@.len() - q,
    {
        assert(ev.subrange(0, q + 1).drop_last() =~= ev.subrange(0, q as int));
        assert(ev.subrange(0, q + 1).last() == extensions@[q as int]@);
        let o = Owner::Extension(extensions[q].clone());
        match layout.range_of(&o) {
            Some((s, e)) => {
                push_stub_writes(out, &layout.sorted, s, e);
            },
            None => {},
        }
        q = q + 1;
        assert(views_of(out@) =~= p2 + all_stubs(sv, rv, ev.subrange(0, q as int)));
    }
    assert(ev.subrange(0, ev.len() as int) =~= ev);
}

fn push_init(out: &mut Vec<String>, extensions: &Vec<String>)
    ensures
        views_of(final(out)@) == views_of(old(out)@) + ctor_init(views_of(extensions@)),
{
    let ghost ev = views_of(extensions@);
    let ghost p3 = views_of(out@);
    push_lit_line(out, "        let procs = unsafe { transmute(procs) };");
    push_lit_line(out, "        #[allow(unused_mut)] let mut ret = Procs {");
    push_lit_line(out, "            procs,");
    let ghost p3b = views_of(out@);
    assert(p3b =~= p3 + seq![
        "        let procs = unsafe { transmute(procs) };"@,
        "        #[allow(unused_mut)] let mut ret = Procs {"@,
        "            procs,"@,
    ]);
    let mut q: usize = 0;
    assert(p3b + flag_inits(ev.subrange(0, 0)) =~= p3b);
    while q < extensions.len()
        invariant
            q <= extensions@.len(),
            ev == views_of(extensions@),
            views_of(out@) == p3b + flag_inits(ev.subrange(0, q as int)),
            p3b == p3 + seq![
                "        let procs = unsafe { transmute(procs) };"@,
                "        #[allow(unused_mut)] let mut ret = Procs {"@,
                "            procs,"@,
            ],
        decreases extensions@.len() - q,
    {
        assert(ev.subrange(0, q + 1).drop_last() =~= ev.subrange(0, q as int));
        assert(ev.subrange(0, q + 1).last() == extensions@[q as int]@);
        let f = flag_name(extensions[q].as_str());
        let mut b: Vec<char> = Vec::new();
        push_lit(&mut b, "            has_");
        let fc = chars_of(f.as_str());
        push_all(&mut b, fc.as_slice());
        push_lit(&mut b, ": false,");
        push_line(out, &b);
        q = q + 1;
        assert(views_of(out@) =~= p3b + flag_inits(ev.subrange(0, q as int)));
    }
    assert(ev.subrange(0, ev.len() as int) =~= ev);
    push_lit_line(out, "        };");
    assert(views_of(out@) =~= p3 + ctor_init(ev));
}

fn push_detection(out: &mut Vec<String>, extensions: &Vec<String>, getstringi: bool)
    ensures
        views_of(final(out)@) == views_of(old(out)@) + detection(views_of(extensions@), getstringi),
{
    let ghost ev = views_of(extensions@);
    let ghost p4 = views_of(out@);
    if extensions.len() > 0 {
        push_lit_line(out, "        let disabled_extensions = std::env::var(\"GL_DISABLED_EXTENSIONS\");");
        push_lit_line(out, "        let disabled_extensions = disabled_extensions.as_ref()");
        push_lit_line(out, "            .map(|x| x.as_bytes()).unwrap_or(b\"\");");
        push_lit_line(out, "        let disabled_extensions");
        push_lit_line(out, "            = build_disabled_extension_list(disabled_extensions);");
        if getstringi {
            push_lit_line(out, "        let mut num_extensions = 0;");
            push_lit_line(out, "        unsafe { ret.GetIntegerv(GL_NUM_EXTENSIONS, &mut num_extensions) };");
            push_lit_line(out, "        for i in 0 .. num_extensions as GLuint {");
            push_lit_line(out, "            let ext = unsafe {CStr::from_ptr(transmute(ret.GetStringi(GL_EXTENSIONS, i)))}.to_bytes();");
        } else {
            push_lit_line(out, "        let extensions = unsafe {CStr::from_ptr(transmute(ret.GetString(GL_EXTENSIONS)))};");
            push_lit_line(out, "        let extensions = extensions.to_bytes();");
            push_lit_line(out, "        for ext in extensions.split(|x| *x == b' ') {");
        }
        push_lit_line(out, "            if disabled_extensions.contains(ext) { continue }");
        push_lit_line(out, "            match ext {");
        let ghost p4b = views_of(out@);
        let mut q: usize = 0;
        assert(p4b + flag_arms(ev.subrange(0, 0)) =~= p4b);
        while q < extensions.len()
            invariant
                q <= extensions@.len(),
                ev == views_of(extensions@),
                views_of(out@) == p4b + flag_arms(ev.subrange(0, q as int)),
                p4b == p4 + detection(ev, getstringi).subrange(0, p4b.len() - p4.len()),
                p4b.len() >= p4.len(),
            decreases extensions@.len() - q,
        {
            assert(ev.subrange(0, q + 1).drop_last() =~= ev.subrange(0, q as int));
            assert(ev.subrange(0, q + 1).last() == extensions@[q as int]@);
            let f = flag_name(extensions[q].as_str());
            let mut b: Vec<char> = Vec::new();
            push_lit(&mut b, "                b\"");
            let xc = chars_of(extensions[q].as_str());
            push_all(&mut b, xc.as_slice());
            push_lit(&mut b, "\" => ret.has_");
            let fc = chars_of(f.as_str());
            push_all(&mut b, fc.as_slice());
            push_lit(&mut b, " = true,");
            push_line(out, &b);
            q = q + 1;
            assert(views_of(out@) =~= p4b + flag_arms(ev.subrange(0, q as int)));
        }
        assert(ev.subrange(0, ev.len() as int) =~= ev);
        push_lit_line(out, "            _ => (),");
        push_lit_line(out, "            }");
        push_lit_line(out, "        }");
    }
    assert(views_of(out@) =~= p4 + detection(ev, getstringi));
}

fn push_all_loads(out: &mut Vec<String>, layout: &ProcLayout, extensions: &Vec<String>)
    requires
        tiles(ranges_view(layout.ranges@), layout.sorted@.len() as int),
    ensures
        views_of(final(out)@) == views_of(old(out)@) + all_loads(views_of(layout.sorted@), ranges_view(layout.ranges@), views_of(extensions@)),
{
    let ghost sv = views_of(layout.sorted@);
    let ghost rv = ranges_view(layout.ranges@);
    let ghost ev = views_of(extensions@);
    let ghost p5 = views_of(out@);
    let mut q: usize = 0;
    assert(p5 + all_loads(sv, rv, ev.subrange(0, 0)) =~= p5);
    while q < extensions.len()
        invariant
            q <= extensions@.len(),
            ev == views_of(extensions@),
            sv == views_of(layout.sorted@),
            rv == ranges_view(layout.ranges@),
            tiles(rv, layout.sorted@.len() as int),
            views_of(out@) == p5 + all_loads(sv, rv, ev.subrange(0, q as int)),
        decreases extensions@.len() - q,
    {
        assert(ev.subrange(0, q + 1).drop_last() =~= ev.subrange(0, q as int));
        assert(ev.subrange(0, q + 1).last() == extensions@[q as int]@);
        let o = Owner::Extension(extensions[q].clone());
        match layout.range_of(&o) {
            Some((s, e)) => {
                let ghost b0 = views_of(out@);
                let f = flag_name(extensions[q].as_str());
                let fc = chars_of(f.as_str());
                let mut b: Vec<char> = Vec::new();
                push_lit(&mut b, "        if ret.has_");
                push_all(&mut b, fc.as_slice());
                push_lit(&mut b, " {");
                push_line(out, &b);
                push_lit_line(out, "            Procs::getprocs(&get_proc,");
                let mut b2: Vec<char> = Vec::new();
                push_lit(&mut b2, "                            unsafe { transmute(&mut ret.procs[");
                push_digits(&mut b2, s as u64, 10);
                push_lit(&mut b2, "..");
                push_digits(&mut b2, e as u64, 10);
                push_lit(&mut b2, "]) }, &[");
                push_line(out, &b2);
                push_name_lines(out, &layout.sorted, s, e, "                ");
                push_lit_line(out, "            ])?;");
                push_lit_line(out, "        }");
                assert(views_of(out@) =~= b0 + cond_load(sv, extensions@[q as int]@, s as int, e as int));
            },
            None => {},
        }
        q = q + 1;
        assert(views_of(out@) =~= p5 + all_loads(sv, rv, ev.subrange(0, q as int)));
    }
    assert(ev.subrange(0, ev.len() as int) =~= ev);
}

/// The resolution constructor of the procedure table, line by line: the
/// core range loads first, every requested extension's range gets its
/// stubs, presence is detected, then each present extension's range loads.
pub fn constructor_section(layout: &ProcLayout, extensions: &Vec<String>, getstringi: bool) -> (r: Vec<String>)
    requires
        tiles(ranges_view(layout.ranges@), layout.sorted@.len() as int),
    ensures
        views_of(r@) == constructor_lines(views_of(layout.sorted@), ranges_view(layout.ranges@), views_of(extensions@), getstringi),
{
    let mut out: Vec<String> = Vec::new();
    assert(views_of(out@) =~= Seq::<Seq<char>>::empty());
    push_head(&mut out, layout);
    push_core(&mut out, layout);
    push_all_stubs(&mut out, layout, extensions);
    push_init(&mut out, extensions);
    push_detection(&mut out, extensions, getstringi);
    push_all_loads(&mut out, layout, extensions);
    push_lit_line(&mut out, "        Ok(ret)");
    push_lit_line(&mut out, "    }");
    assert(views_of(out@) =~= constructor_lines(
        views_of(layout.sorted@),
        ranges_view(layout.ranges@),
        views_of(extensions@),
        getstringi,
    ));
    out
}

proof fn lemma_stub_writes(sorted: Seq<Seq<char>>, s: int, e: int, i: int)
    requires
        s <= i < e,
    ensures
        stub_writes(sorted, s, e).len() == e - s,
        stub_writes(sorted, s, e)[i - s] == stub_line(sorted, i),
    decreases e - s,
{
    if i < e - 1 {
        lemma_stub_writes(sorted, s, e - 1, i);
    } else {
        lemma_stub_writes_len(sorted, s, e - 1);
    }
}

proof fn lemma_stub_writes_len(sorted: Seq<Seq<char>>, s: int, e: int)
    ensures
        e >= s ==> stub_writes(sorted, s, e).len() == e - s,
    decreases e - s,
{
    if e > s {
        lemma_stub_writes_len(sorted, s, e - 1);
    }
}

proof fn lemma_stubs_prefix(sorted: Seq<Seq<char>>, ranges: Seq<(Option<Seq<char>>, int, int)>, exts: Seq<Seq<char>>, k: int)
    requires
        0 <= k <= exts.len(),
    ensures
        all_stubs(sorted, ranges, exts.subrange(0, k)).len() <= all_stubs(sorted, ranges, exts).len(),
        forall|t: int| 0 <= t < all_stubs(sorted, ranges, exts.subrange(0, k)).len()
            ==> all_stubs(sorted, ranges, exts)[t] == all_stubs(sorted, ranges, exts.subrange(0, k))[t],
    decreases exts.len(),
{
    if k == exts.len() {
        assert(exts.subrange(0, k) =~= exts);
    } else {
        assert(exts.drop_last().subrange(0, k) =~= exts.subrange(0, k));
        lemma_stubs_prefix(sorted, ranges, exts.drop_last(), k);
    }
}

proof fn lemma_loads_prefix(sorted: Seq<Seq<char>>, ranges: Seq<(Option<Seq<char>>, int, int)>, exts: Seq<Seq<char>>, k: int)
    requires
        0 <= k <= exts.len(),
    ensures
        all_loads(sorted, ranges, exts.subrange(0, k)).len() <= all_loads(sorted, ranges, exts).len(),
        forall|t: int| 0 <= t < all_loads(sorted, ranges, exts.subrange(0, k)).len()
            ==> all_loads(sorted, ranges, exts)[t] == all_loads(sorted, ranges, exts.subrange(0, k))[t],
    decreases exts.len(),
{
    if k == exts.len() {
        assert(exts.subrange(0, k) =~= exts);
    } else {
        assert(exts.drop_last().subrange(0, k) =~= exts.subrange(0, k));
        lemma_loads_prefix(sorted, ranges, exts.drop_last(), k);
    }
}

/// Where the detection of extensions begins in the constructor's lines.
pub open spec fn detection_start(sorted: Seq<Seq<char>>, ranges: Seq<(Option<Seq<char>>, int, int)>, exts: Seq<Seq<char>>) -> int {
    (ctor_head(sorted.len()).len() + core_load(sorted, ranges).len() + all_stubs(sorted, ranges, exts).len() + ctor_init(exts).len()) as int
}

/// In the constructor: the core range's load comes before the detection of
/// extensions; every requested extension with a range `[s, e)` has, before
/// the detection, one stub line for each index in `[s, e)`, and, after it,
/// a conditional load that names exactly the entries `sorted[s..e]`.
pub proof fn lemma_constructor_order(
    sorted: Seq<Seq<char>>,
    ranges: Seq<(Option<Seq<char>>, int, int)>,
    exts: Seq<Seq<char>>,
    getstringi: bool,
    q: int,
)
    requires
        0 <= q < exts.len(),
    ensures
        ({
            let lines = constructor_lines(sorted, ranges, exts, getstringi);
            let h = ctor_head(sorted.len()).len() as int;
            &&& (range_for(ranges, None) is Some ==> h < detection_start(sorted, ranges, exts) && lines[h]
                == core_load(sorted, ranges)[0])
            &&& (range_for(ranges, Some(exts[q])) matches Some(r) ==> (forall|i: int|
                r.0 <= i < r.1 ==> #[trigger] lines.subrange(0, detection_start(sorted, ranges, exts)).contains(stub_line(sorted, i)))
                && exists|p: int|
                    detection_start(sorted, ranges, exts) <= p && p + cond_load(sorted, exts[q], r.0, r.1).len() <= lines.len()
                    && #[trigger] lines.subrange(p, p + cond_load(sorted, exts[q], r.0, r.1).len()) == cond_load(sorted, exts[q], r.0, r.1))
        }),
{
    let lines = constructor_lines(sorted, ranges, exts, getstringi);
    let head = ctor_head(sorted.len());
    let core = core_load(sorted, ranges);
    let stubs = all_stubs(sorted, ranges, exts);
    let init = ctor_init(exts);
    let det = detection(exts, getstringi);
    let loads = all_loads(sorted, ranges, exts);
    let tail = seq!["        Ok(ret)"@, "    }"@];
    assert(lines == head + core + stubs + init + det + loads + tail);
    let h = head.len() as int;
    let ds = detection_start(sorted, ranges, exts);
    assert(init.len() > 0);
    if range_for(ranges, None) is Some {
        assert(core.len() > 0);
        assert(lines[h] == core[0]);
    }
    let x = exts[q];
    match range_for(ranges, Some(x)) {
        Some(r) => {
            let pre = exts.subrange(0, q);
            let upto = exts.subrange(0, q + 1);
            assert(upto.drop_last() =~= pre);
            assert(upto.last() == x);
            lemma_stubs_prefix(sorted, ranges, exts, q + 1);
            lemma_loads_prefix(sorted, ranges, exts, q + 1);
            let so = all_stubs(sorted, ranges, pre).len();
            let lo = all_loads(sorted, ranges, pre).len();
            let block = ext_stubs(sorted, ranges, x);
            assert(all_stubs(sorted, ranges, upto) == all_stubs(sorted, ranges, pre) + block);
            assert forall|i: int| r.0 <= i < r.1 implies #[trigger] lines.subrange(0, ds).contains(stub_line(sorted, i)) by {
                lemma_stub_writes(sorted, r.0, r.1, i);
                let t = i - r.0;
                assert(block[t] == stub_line(sorted, i));
                assert(all_stubs(sorted, ranges, upto)[so + t] == block[t]);
                assert(stubs[so + t] == block[t]);
                let p = h + core.len() + so + t;
                assert(lines[p] == stubs[so + t]);
                assert(lines.subrange(0, ds)[p] == stub_line(sorted, i));
            }
            let cl = cond_load(sorted, x, r.0, r.1);
            assert(all_loads(sorted, ranges, upto) == all_loads(sorted, ranges, pre) + cl);
            let p = ds + det.len() + lo;
            assert forall|t: int| 0 <= t < cl.len() implies lines[p + t] == cl[t] by {
                assert(all_loads(sorted, ranges, upto)[lo + t] == cl[t]);
                assert(loads[lo + t] == cl[t]);
            }
            assert(lines.subrange(p, p + cl.len()) =~= cl);
        },
        None => {},
    }
}

} // verus!
