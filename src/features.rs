//! Feature resolution: which types, constants and commands the selected
//! version and extensions bring in, and which extension owns each.

use vstd::prelude::*;
use crate::dom::{attr, Element, Node};
use crate::text::{chars_of, eq_lit};
use crate::versions::{api_ok, profile_ok, supported_ok, version_ok, ActiveVersion};
use crate::cmdline::CmdLine;
use crate::error::{ExtensionProblem, GenError, ProblemV};
use crate::table::{contains_name, views_of};

verus! {

/// Who brings a symbol in: the core version, or a named extension.
pub enum Owner {
    Core,
    Extension(String),
}

impl View for Owner {
    /// `None` for the core, else the extension's name.
    type V = Option<Seq<char>>;

    open spec fn view(&self) -> Option<Seq<char>> {
        match self {
            Owner::Core => None,
            Owner::Extension(s) => Some(s@),
        }
    }
}

impl Owner {
    /// A copy of this owner.
    pub fn duplicate(&self) -> (r: Owner)
        ensures
            r@ == self@,
    {
        match self {
            Owner::Core => Owner::Core,
            Owner::Extension(s) => Owner::Extension(s.clone()),
        }
    }

    /// The two owners are the same.
    pub fn same(&self, other: &Owner) -> (r: bool)
        ensures
            r == (self@ == other@),
    {
        match (self, other) {
            (Owner::Core, Owner::Core) => true,
            (Owner::Extension(a), Owner::Extension(b)) => *a == *b,
            _ => false,
        }
    }
}

/// The kind of a `<require>` or `<remove>` block.
#[derive(PartialEq, Eq, Structural, Clone, Copy)]
pub enum BlockKind {
    Require,
    Remove,
}

/// The map described by a list of entries in which a later entry for a name
/// overrides an earlier one.
pub open spec fn entries_map(s: Seq<(String, Owner)>) -> Map<Seq<char>, Option<Seq<char>>>
    decreases s.len(),
{
    if s.len() == 0 {
        Map::empty()
    } else {
        entries_map(s.drop_last()).insert(s.last().0@, s.last().1@)
    }
}

/// A map from symbol name to owner.
pub struct OwnerMap {
    pub entries: Vec<(String, Owner)>,
}

impl View for OwnerMap {
    type V = Map<Seq<char>, Option<Seq<char>>>;

    open spec fn view(&self) -> Map<Seq<char>, Option<Seq<char>>> {
        entries_map(self.entries@)
    }
}

/// What a block does to a map: `require` inserts or overwrites the name
/// with the block's owner, `remove` deletes it whoever owned it.
pub open spec fn block_apply(
    kind: BlockKind,
    m: Map<Seq<char>, Option<Seq<char>>>,
    name: Seq<char>,
    owner: Option<Seq<char>>,
) -> Map<Seq<char>, Option<Seq<char>>> {
    match kind {
        BlockKind::Require => m.insert(name, owner),
        BlockKind::Remove => m.remove(name),
    }
}

impl OwnerMap {
    /// The empty map.
    pub fn new() -> (r: OwnerMap)
        ensures
            r@ == Map::<Seq<char>, Option<Seq<char>>>::empty(),
    {
        OwnerMap { entries: Vec::new() }
    }

    /// Makes `owner` the owner of `name`.
    pub fn require(&mut self, name: &String, owner: &Owner)
        ensures
            final(self)@ == old(self)@.insert(name@, owner@),
    {
        self.entries.push((name.clone(), owner.duplicate()));
        assert(self.entries@.drop_last() =~= old(self).entries@);
    }

    /// Takes `name` out of the map.
    pub fn remove(&mut self, name: &String)
        ensures
            final(self)@ == old(self)@.remove(name@),
    {
        let mut kept: Vec<(String, Owner)> = Vec::new();
        let mut i: usize = 0;
        assert(self.entries@.subrange(0, 0) =~= Seq::<(String, Owner)>::empty());
        assert(entries_map(kept@) =~= entries_map(Seq::<(String, Owner)>::empty()).remove(name@));
        while i < self.entries.len()
            invariant
                i <= self.entries@.len(),
                entries_map(kept@) == entries_map(self.entries@.subrange(0, i as int)).remove(name@),
            decreases self.entries@.len() - i,
        {
            let ghost prefix = self.entries@.subrange(0, i + 1);
            assert(prefix.drop_last() =~= self.entries@.subrange(0, i as int));
            if self.entries[i].0 != *name {
                let ghost before = kept@;
                kept.push((self.entries[i].0.clone(), self.entries[i].1.duplicate()));
                assert(kept@.drop_last() =~= before);
                assert(entries_map(kept@) =~= entries_map(prefix).remove(name@));
            } else {
                assert(entries_map(kept@) =~= entries_map(prefix).remove(name@));
            }
            i = i + 1;
        }
        assert(self.entries@.subrange(0, self.entries@.len() as int) =~= self.entries@);
        self.entries = kept;
    }

    /// The owner of `name`, if it is in the map.
    pub fn get(&self, name: &[char]) -> (r: Option<&Owner>)
        ensures
            match r {
                Some(o) => self@.contains_key(name@) && self@[name@] == o@,
                None => !self@.contains_key(name@),
            },
    {
        let key = crate::text::string_of(name);
        let mut j: usize = self.entries.len();
        assert(self.entries@.subrange(0, j as int) =~= self.entries@);
        while j > 0
            invariant
                j <= self.entries@.len(),
                key@ == name@,
                self@.contains_key(name@) == entries_map(self.entries@.subrange(0, j as int)).contains_key(name@),
                self@.contains_key(name@) ==> self@[name@] == entries_map(self.entries@.subrange(0, j as int))[name@],
            decreases j,
        {
            let ghost prefix = self.entries@.subrange(0, j as int);
            assert(prefix.drop_last() =~= self.entries@.subrange(0, j - 1));
            assert(entries_map(prefix) == entries_map(prefix.drop_last()).insert(prefix.last().0@, prefix.last().1@));
            if self.entries[j - 1].0 == key {
                return Some(&self.entries[j - 1].1);
            }
            j = j - 1;
        }
        assert(self.entries@.subrange(0, 0) =~= Seq::<(String, Owner)>::empty());
        None
    }

    /// `name` is in the map.
    pub fn contains_key(&self, name: &[char]) -> (r: bool)
        ensures
            r == self@.contains_key(name@),
    {
        self.get(name).is_some()
    }
}

/// Applies one entry of a block to a map.
pub fn apply_block(kind: BlockKind, map: &mut OwnerMap, name: &String, owner: &Owner)
    ensures
        final(map)@ == block_apply(kind, old(map)@, name@, owner@),
{
    match kind {
        BlockKind::Require => map.require(name, owner),
        BlockKind::Remove => map.remove(name),
    }
}

/// A block that requires a name and a later one that removes it leave the
/// name out; a block that removes it and a later one that requires it leave
/// it in, owned by the later block.
pub proof fn lemma_require_remove_order(
    m: Map<Seq<char>, Option<Seq<char>>>,
    name: Seq<char>,
    first: Option<Seq<char>>,
    second: Option<Seq<char>>,
)
    ensures
        !block_apply(BlockKind::Remove, block_apply(BlockKind::Require, m, name, first), name, second).contains_key(name),
        block_apply(BlockKind::Require, block_apply(BlockKind::Remove, m, name, first), name, second).contains_key(name),
        block_apply(BlockKind::Require, block_apply(BlockKind::Remove, m, name, first), name, second)[name] == second,
{
}

/// The owner maps of types, constants and commands.
pub struct Resolution {
    pub types: OwnerMap,
    pub values: OwnerMap,
    pub commands: OwnerMap,
}

/// The mathematical value of a [`Resolution`]: types, constants, commands.
pub type ResolutionV = (
    Map<Seq<char>, Option<Seq<char>>>,
    Map<Seq<char>, Option<Seq<char>>>,
    Map<Seq<char>, Option<Seq<char>>>,
);

impl View for Resolution {
    type V = ResolutionV;

    open spec fn view(&self) -> ResolutionV {
        (self.types@, self.values@, self.commands@)
    }
}

/// The maps after one entry of a block: a named `<type>`, `<enum>` or
/// `<command>` applies the block to its map.
pub open spec fn entry_step(r: ResolutionV, n: Node, owner: Option<Seq<char>>, kind: BlockKind) -> ResolutionV {
    match n {
        Node::Element(e) => match attr(e, "name"@) {
            Some(k) => if e.name@ == "type"@ {
                (block_apply(kind, r.0, k, owner), r.1, r.2)
            } else if e.name@ == "enum"@ {
                (r.0, block_apply(kind, r.1, k, owner), r.2)
            } else if e.name@ == "command"@ {
                (r.0, r.1, block_apply(kind, r.2, k, owner))
            } else {
                r
            },
            None => r,
        },
        Node::Text(_) => r,
    }
}

/// The maps after the entries `items` of a block, in order.
pub open spec fn entries_fold(items: Seq<Node>, r: ResolutionV, owner: Option<Seq<char>>, kind: BlockKind) -> ResolutionV
    decreases items.len(),
{
    if items.len() == 0 {
        r
    } else {
        entry_step(entries_fold(items.drop_last(), r, owner, kind), items.last(), owner, kind)
    }
}

/// The maps after one child of a feature or extension: a `<require>` or
/// `<remove>` block for the selected profile applies its entries.
pub open spec fn block_step(r: ResolutionV, n: Node, owner: Option<Seq<char>>, v: ActiveVersion) -> ResolutionV {
    match n {
        Node::Element(e) => if (e.name@ == "require"@ || e.name@ == "remove"@) && profile_ok(v, e) {
            entries_fold(e.contents@, r, owner, if e.name@ == "require"@ { BlockKind::Require } else { BlockKind::Remove })
        } else {
            r
        },
        Node::Text(_) => r,
    }
}

/// The maps after the children `items` of a feature or extension, in order.
pub open spec fn blocks_fold(items: Seq<Node>, r: ResolutionV, owner: Option<Seq<char>>, v: ActiveVersion) -> ResolutionV
    decreases items.len(),
{
    if items.len() == 0 {
        r
    } else {
        block_step(blocks_fold(items.drop_last(), r, owner, v), items.last(), owner, v)
    }
}

/// Applies the entries of one `<require>` or `<remove>` block.
fn process_feature(tag: &Element, owner: &Owner, kind: BlockKind, res: &mut Resolution)
    ensures
        final(res)@ == entries_fold(tag.contents@, old(res)@, owner@, kind),
{
    let mut i: usize = 0;
    assert(tag.contents@.subrange(0, 0) =~= Seq::<Node>::empty());
    while i < tag.contents.len()
        invariant
            i <= tag.contents@.len(),
            res@ == entries_fold(tag.contents@.subrange(0, i as int), old(res)@, owner@, kind),
        decreases tag.contents@.len() - i,
    {
        assert(tag.contents@.subrange(0, i + 1).drop_last() =~= tag.contents@.subrange(0, i as int));
        if let Node::Element(element) = &tag.contents[i] {
            if let Some(name) = element.get_attribute("name") {
                if eq_lit(element.get_name(), "type") {
                    apply_block(kind, &mut res.types, name, owner);
                } else if eq_lit(element.get_name(), "enum") {
                    apply_block(kind, &mut res.values, name, owner);
                } else if eq_lit(element.get_name(), "command") {
                    apply_block(kind, &mut res.commands, name, owner);
                }
            }
        }
        i = i + 1;
    }
    assert(tag.contents@.subrange(0, tag.contents@.len() as int) =~= tag.contents@);
}

/// Applies the `<require>` and `<remove>` blocks of a feature or extension
/// that the selected profile admits.
fn gather_blocks(tag: &Element, owner: &Owner, version: &ActiveVersion, res: &mut Resolution)
    ensures
        final(res)@ == blocks_fold(tag.contents@, old(res)@, owner@, *version),
{
    let mut i: usize = 0;
    assert(tag.contents@.subrange(0, 0) =~= Seq::<Node>::empty());
    while i < tag.contents.len()
        invariant
            i <= tag.contents@.len(),
            res@ == blocks_fold(tag.contents@.subrange(0, i as int), old(res)@, owner@, *version),
        decreases tag.contents@.len() - i,
    {
        assert(tag.contents@.subrange(0, i + 1).drop_last() =~= tag.contents@.subrange(0, i as int));
        if let Node::Element(element) = &tag.contents[i] {
            let is_req = eq_lit(element.get_name(), "require");
            let is_rem = eq_lit(element.get_name(), "remove");
            if (is_req || is_rem) && version.correct_profile(element) {
                let kind = if is_req { BlockKind::Require } else { BlockKind::Remove };
                process_feature(element, owner, kind, res);
            }
        }
        i = i + 1;
    }
    assert(tag.contents@.subrange(0, tag.contents@.len() as int) =~= tag.contents@);
}

/// Applies a version feature block: its symbols belong to the core.
pub fn gather_feature(tag: &Element, opts: &CmdLine, res: &mut Resolution)
    ensures
        final(res)@ == blocks_fold(tag.contents@, old(res)@, None, opts.version),
{
    let core = Owner::Core;
    gather_blocks(tag, &core, &opts.version, res);
}

/// Applies an extension block: its symbols belong to the extension `name`.
pub fn gather_extension(tag: &Element, name: &String, opts: &CmdLine, res: &mut Resolution)
    ensures
        final(res)@ == blocks_fold(tag.contents@, old(res)@, Some(name@), opts.version),
{
    let owner = Owner::Extension(name.clone());
    gather_blocks(tag, &owner, &opts.version, res);
}

/// The maps after one child of an `<extensions>` element: a requested
/// `<extension>` applies its blocks, owned by itself.
pub open spec fn ext_step(r: ResolutionV, n: Node, v: ActiveVersion, exts: Seq<Seq<char>>) -> ResolutionV {
    match n {
        Node::Element(e) => if e.name@ == "extension"@ {
            match attr(e, "name"@) {
                Some(x) => if exts.contains(x) {
                    blocks_fold(e.contents@, r, Some(x), v)
                } else {
                    r
                },
                None => r,
            }
        } else {
            r
        },
        Node::Text(_) => r,
    }
}

/// The maps after the children `items` of an `<extensions>` element.
pub open spec fn exts_fold(items: Seq<Node>, r: ResolutionV, v: ActiveVersion, exts: Seq<Seq<char>>) -> ResolutionV
    decreases items.len(),
{
    if items.len() == 0 {
        r
    } else {
        ext_step(exts_fold(items.drop_last(), r, v, exts), items.last(), v, exts)
    }
}

/// The maps after one child of the registry: a `<feature>` of the selected
/// API, at most the selected version, belongs to the core; an
/// `<extensions>` element brings in its requested extensions.
pub open spec fn root_step(r: ResolutionV, n: Node, v: ActiveVersion, exts: Seq<Seq<char>>) -> ResolutionV {
    match n {
        Node::Element(e) => if e.name@ == "feature"@ && api_ok(v, e) && version_ok(v, e) {
            blocks_fold(e.contents@, r, None, v)
        } else if e.name@ == "extensions"@ {
            exts_fold(e.contents@, r, v, exts)
        } else {
            r
        },
        Node::Text(_) => r,
    }
}

/// The owner maps that the children of the registry resolve to, in
/// document order, from empty maps.
pub open spec fn resolve_fold(children: Seq<Node>, v: ActiveVersion, exts: Seq<Seq<char>>) -> ResolutionV
    decreases children.len(),
{
    if children.len() == 0 {
        (Map::empty(), Map::empty(), Map::empty())
    } else {
        root_step(resolve_fold(children.drop_last(), v, exts), children.last(), v, exts)
    }
}

/// `n` is an `<extension>` element named `x`.
pub open spec fn is_ext_named(n: Node, x: Seq<char>) -> bool {
    match n {
        Node::Element(e) => e.name@ == "extension"@ && attr(e, "name"@) == Some(x),
        Node::Text(_) => false,
    }
}

/// `n` is an `<extension>` element named `x` that does not support the API
/// of `v`.
pub open spec fn is_ext_unsupported(n: Node, x: Seq<char>, v: ActiveVersion) -> bool {
    match n {
        Node::Element(e) => e.name@ == "extension"@ && attr(e, "name"@) == Some(x) && !supported_ok(v, e),
        Node::Text(_) => false,
    }
}

/// `n` is an `<extensions>` element with an extension named `x`.
pub open spec fn container_has(n: Node, x: Seq<char>) -> bool {
    match n {
        Node::Element(c) => c.name@ == "extensions"@ && exists|j: int| 0 <= j < c.contents@.len() && #[trigger] is_ext_named(c.contents@[j], x),
        Node::Text(_) => false,
    }
}

/// `n` is an `<extensions>` element with an extension named `x` that does
/// not support the API of `v`.
pub open spec fn container_unsupported(n: Node, x: Seq<char>, v: ActiveVersion) -> bool {
    match n {
        Node::Element(c) => c.name@ == "extensions"@ && exists|j: int| 0 <= j < c.contents@.len() && #[trigger] is_ext_unsupported(c.contents@[j], x, v),
        Node::Text(_) => false,
    }
}

/// One of the first `i` children of the registry declares extension `x`.
pub open spec fn ext_found(children: Seq<Node>, i: int, x: Seq<char>) -> bool {
    exists|a: int| 0 <= a < i && #[trigger] container_has(children[a], x)
}

/// One of the first `i` children of the registry declares extension `x`
/// without support for the API of `v`.
pub open spec fn ext_unsupported(children: Seq<Node>, i: int, x: Seq<char>, v: ActiveVersion) -> bool {
    exists|a: int| 0 <= a < i && #[trigger] container_unsupported(children[a], x, v)
}

/// `x` is requested twice among the first `j` requests.
pub open spec fn duplicated(exts: Seq<Seq<char>>, j: int, x: Seq<char>) -> bool {
    exists|a: int, b: int| #![trigger exts[a], exts[b]] 0 <= a < b < j && exts[a] == x && exts[b] == x
}

/// `p` is a problem with the requested extensions `exts`: one absent from
/// the registry, one present without support for the selected API, or one
/// requested twice.
pub open spec fn problem_holds(children: Seq<Node>, v: ActiveVersion, exts: Seq<Seq<char>>, p: ProblemV) -> bool {
    match p {
        ProblemV::NotFound(x) => exts.contains(x) && !ext_found(children, children.len() as int, x),
        ProblemV::Unsupported(x) => exts.contains(x) && ext_unsupported(children, children.len() as int, x, v),
        ProblemV::Duplicate(x) => duplicated(exts, exts.len() as int, x),
    }
}

/// Every requested extension can be used.
pub open spec fn resolvable(children: Seq<Node>, v: ActiveVersion, exts: Seq<Seq<char>>) -> bool {
    forall|p: ProblemV| !problem_holds(children, v, exts, p)
}

/// The views of a list of problems.
pub open spec fn problems_view(ps: Seq<ExtensionProblem>) -> Seq<ProblemV> {
    ps.map_values(|p: ExtensionProblem| p@)
}

fn position_before(v: &Vec<String>, upto: usize, x: &String) -> (r: bool)
    requires
        upto <= v@.len(),
    ensures
        r == exists|a: int| 0 <= a < upto && #[trigger] v@[a]@ == x@,
{
    let mut i: usize = 0;
    while i < upto
        invariant
            i <= upto <= v@.len(),
            forall|a: int| 0 <= a < i ==> v@[a]@ != x@,
        decreases upto - i,
    {
        if v[i] == *x {
            return true;
        }
        i = i + 1;
    }
    false
}

/// Whether the registry declares the extension `x`, and whether it declares
/// it without support for the selected API.
fn scan_extension(root: &Element, x: &String, version: &ActiveVersion) -> (r: (bool, bool))
    ensures
        r.0 == ext_found(root.contents@, root.contents@.len() as int, x@),
        r.1 == ext_unsupported(root.contents@, root.contents@.len() as int, x@, *version),
{
    let ghost kids = root.contents@;
    let mut found = false;
    let mut unsupported = false;
    let mut a: usize = 0;
    while a < root.contents.len()
        invariant
            a <= kids.len(),
            kids == root.contents@,
            found == ext_found(kids, a as int, x@),
            unsupported == ext_unsupported(kids, a as int, x@, *version),
        decreases kids.len() - a,
    {
        let ghost f0 = found;
        let ghost u0 = unsupported;
        let mut has = false;
        let mut bad = false;
        if let Node::Element(c) = &root.contents[a] {
            if eq_lit(c.get_name(), "extensions") {
                let mut j: usize = 0;
                while j < c.contents.len()
                    invariant
                        j <= c.contents@.len(),
                        has == exists|b: int| 0 <= b < j && #[trigger] is_ext_named(c.contents@[b], x@),
                        bad == exists|b: int| 0 <= b < j && #[trigger] is_ext_unsupported(c.contents@[b], x@, *version),
                    decreases c.contents@.len() - j,
                {
                    let ghost h0 = has;
                    let ghost b0 = bad;
                    if let Node::Element(e) = &c.contents[j] {
                        if eq_lit(e.get_name(), "extension") {
                            if let Some(n) = e.get_attribute("name") {
                                if *n == *x {
                                    has = true;
                                    if !version.supported(e) {
                                        bad = true;
                                    }
                                }
                            }
                        }
                    }
                    proof {
                        assert(is_ext_named(c.contents@[j as int], x@) ==> has);
                        assert(is_ext_unsupported(c.contents@[j as int], x@, *version) ==> bad);
                        assert(has && !h0 ==> is_ext_named(c.contents@[j as int], x@));
                        assert(bad && !b0 ==> is_ext_unsupported(c.contents@[j as int], x@, *version));
                        if !is_ext_named(c.contents@[j as int], x@) {
                            assert(has == h0);
                        }
                        if !is_ext_unsupported(c.contents@[j as int], x@, *version) {
                            assert(bad == b0);
                        }
                    }
                    j = j + 1;
                }
            }
        }
        assert(has == container_has(kids[a as int], x@));
        assert(bad == container_unsupported(kids[a as int], x@, *version));
        found = found || has;
        unsupported = unsupported || bad;
        proof {
            if has {
                assert(ext_found(kids, a + 1, x@));
            }
            if bad {
                assert(ext_unsupported(kids, a + 1, x@, *version));
            }
            if ext_found(kids, a + 1, x@) && !f0 {
                let w = choose|w: int| 0 <= w < a + 1 && #[trigger] container_has(kids[w], x@);
                assert(w == a);
            }
            if ext_unsupported(kids, a + 1, x@, *version) && !u0 {
                let w = choose|w: int| 0 <= w < a + 1 && #[trigger] container_unsupported(kids[w], x@, *version);
                assert(w == a);
            }
        }
        a = a + 1;
    }
    (found, unsupported)
}

/// Collects the problems with the requested extensions.
fn extension_problems(root: &Element, opts: &CmdLine) -> (r: Vec<ExtensionProblem>)
    ensures
        forall|p: ProblemV| problems_view(r@).contains(p) <==> problem_holds(root.contents@, opts.version, views_of(opts.extensions@), p),
{
    let exts = &opts.extensions;
    let ghost ev = views_of(exts@);
    let ghost kids = root.contents@;
    let ghost n = kids.len() as int;
    let ghost v = opts.version;
    let mut problems: Vec<ExtensionProblem> = Vec::new();
    let mut j: usize = 0;
    while j < exts.len()
        invariant
            j <= exts@.len(),
            ev == views_of(exts@),
            exts == &opts.extensions,
            kids == root.contents@,
            n == kids.len(),
            v == opts.version,
            forall|p: ProblemV| problems_view(problems@).contains(p) <==> (match p {
                ProblemV::Duplicate(x) => duplicated(ev, j as int, x),
                ProblemV::NotFound(x) => exists|a: int| 0 <= a < j && ev[a] == x && !ext_found(kids, n, x),
                ProblemV::Unsupported(x) => exists|a: int| 0 <= a < j && ev[a] == x && ext_unsupported(kids, n, x, v),
            }),
        decreases exts@.len() - j,
    {
        let ghost before = problems_view(problems@);
        let ghost xj = ev[j as int];
        let dup = position_before(exts, j, &exts[j]);
        let (found, unsupported) = scan_extension(root, &exts[j], &opts.version);
        if dup {
            problems.push(ExtensionProblem::Duplicate(exts[j].clone()));
        }
        if !found {
            problems.push(ExtensionProblem::NotFound(exts[j].clone()));
        }
        if unsupported {
            problems.push(ExtensionProblem::Unsupported(exts[j].clone()));
        }
        let ghost after = problems_view(problems@);
        proof {
            assert(ev[j as int] == exts@[j as int]@);
            assert(after =~= before + (if dup { seq![ProblemV::Duplicate(xj)] } else { Seq::empty() })
                + (if !found { seq![ProblemV::NotFound(xj)] } else { Seq::empty() })
                + (if unsupported { seq![ProblemV::Unsupported(xj)] } else { Seq::empty() }));
            assert forall|p: ProblemV| after.contains(p) <==> (match p {
                ProblemV::Duplicate(x) => duplicated(ev, j + 1, x),
                ProblemV::NotFound(x) => exists|a: int| 0 <= a < j + 1 && ev[a] == x && !ext_found(kids, n, x),
                ProblemV::Unsupported(x) => exists|a: int| 0 <= a < j + 1 && ev[a] == x && ext_unsupported(kids, n, x, v),
            }) by {
                if after.contains(p) {
                    let k = choose|k: int| 0 <= k < after.len() && after[k] == p;
                    if k < before.len() {
                        assert(before.contains(p));
                        match p {
                            ProblemV::Duplicate(x) => {
                                let (a, b) = choose|a: int, b: int| #![trigger ev[a], ev[b]] 0 <= a < b < j && ev[a] == x && ev[b] == x;
                                assert(0 <= a < b < j + 1 && ev[a] == x && ev[b] == x);
                            },
                            _ => {},
                        }
                    } else {
                        match p {
                            ProblemV::Duplicate(x) => {
                                let a = choose|a: int| 0 <= a < j && #[trigger] exts@[a]@ == exts@[j as int]@;
                                assert(ev[a] == x && ev[j as int] == x);
                            },
                            _ => {},
                        }
                    }
                } else {
                    if before.contains(p) {
                        let k = choose|k: int| 0 <= k < before.len() && before[k] == p;
                        assert(after[k] == p);
                    }
                    assert(!before.contains(p));
                    match p {
                        ProblemV::Duplicate(x) => {
                            if duplicated(ev, j + 1, x) {
                                let (a, b) = choose|a: int, b: int| #![trigger ev[a], ev[b]] 0 <= a < b < j + 1 && ev[a] == x && ev[b] == x;
                                if b == j {
                                    assert(exts@[a]@ == exts@[j as int]@);
                                    assert(dup);
                                    assert(after[after.len() - 1 - (if unsupported { 1int } else { 0 }) - (if !found { 1int } else { 0 })] == p);
                                } else {
                                    assert(duplicated(ev, j as int, x));
                                }
                            }
                        },
                        ProblemV::NotFound(x) => {
                            if exists|a: int| 0 <= a < j + 1 && ev[a] == x && !ext_found(kids, n, x) {
                                let a = choose|a: int| 0 <= a < j + 1 && ev[a] == x && !ext_found(kids, n, x);
                                if a < j {
                                    assert(before.contains(p));
                                } else {
                                    assert(!found);
                                    assert(after[after.len() - 1 - (if unsupported { 1int } else { 0 })] == p);
                                }
                            }
                        },
                        ProblemV::Unsupported(x) => {
                            if exists|a: int| 0 <= a < j + 1 && ev[a] == x && ext_unsupported(kids, n, x, v) {
                                let a = choose|a: int| 0 <= a < j + 1 && ev[a] == x && ext_unsupported(kids, n, x, v);
                                if a < j {
                                    assert(before.contains(p));
                                } else {
                                    assert(unsupported);
                                    assert(after[after.len() - 1] == p);
                                }
                            }
                        },
                    }
                }
            }
        }
        j = j + 1;
    }
    proof {
        assert forall|p: ProblemV| problems_view(problems@).contains(p) <==> problem_holds(kids, v, ev, p) by {
            match p {
                ProblemV::NotFound(x) => {
                    if ev.contains(x) {
                        let a = choose|a: int| 0 <= a < ev.len() && ev[a] == x;
                    }
                },
                ProblemV::Unsupported(x) => {
                    if ev.contains(x) {
                        let a = choose|a: int| 0 <= a < ev.len() && ev[a] == x;
                    }
                },
                _ => {},
            }
        }
    }
    problems
}

/// Resolves which types, constants and commands the selected version and
/// the requested extensions bring in, and who owns each. Every problem with
/// the requested extensions is collected, and any one of them fails the
/// whole resolution.
pub fn gather_features(root: &Element, opts: &CmdLine) -> (r: Result<Resolution, GenError>)
    ensures
        r is Ok <==> resolvable(root.contents@, opts.version, views_of(opts.extensions@)),
        r matches Ok(res) ==> res@ == resolve_fold(root.contents@, opts.version, views_of(opts.extensions@))
            && owners_in(res.commands@, owner_keys(views_of(opts.extensions@)))
            && views_of(opts.extensions@).no_duplicates(),
        r matches Err(e) ==> (e matches GenError::UnresolvableExtension(ps) && forall|p: ProblemV|
            problems_view(ps@).contains(p) <==> problem_holds(root.contents@, opts.version, views_of(opts.extensions@), p)),
{
    let problems = extension_problems(root, opts);
    if problems.len() > 0 {
        proof {
            assert(problems_view(problems@).contains(problems_view(problems@)[0]));
        }
        return Err(GenError::UnresolvableExtension(problems));
    }
    proof {
        assert forall|p: ProblemV| !problem_holds(root.contents@, opts.version, views_of(opts.extensions@), p) by {
            assert(!problems_view(problems@).contains(p));
        }
    }
    let ghost ev = views_of(opts.extensions@);
    let ghost kids = root.contents@;
    let ghost v = opts.version;
    let mut res = Resolution { types: OwnerMap::new(), values: OwnerMap::new(), commands: OwnerMap::new() };
    let mut i: usize = 0;
    assert(kids.subrange(0, 0) =~= Seq::<Node>::empty());
    while i < root.contents.len()
        invariant
            i <= kids.len(),
            kids == root.contents@,
            ev == views_of(opts.extensions@),
            v == opts.version,
            res@ == resolve_fold(kids.subrange(0, i as int), v, ev),
        decreases kids.len() - i,
    {
        assert(kids.subrange(0, i + 1).drop_last() =~= kids.subrange(0, i as int));
        if let Node::Element(element) = &root.contents[i] {
            if eq_lit(element.get_name(), "feature") && opts.version.correct_api(element) && opts.version.correct_version(element) {
                gather_feature(element, opts, &mut res);
            } else if eq_lit(element.get_name(), "extensions") {
                let ghost start = res@;
                let mut j: usize = 0;
                assert(element.contents@.subrange(0, 0) =~= Seq::<Node>::empty());
                while j < element.contents.len()
                    invariant
                        j <= element.contents@.len(),
                        ev == views_of(opts.extensions@),
                        v == opts.version,
                        res@ == exts_fold(element.contents@.subrange(0, j as int), start, v, ev),
                    decreases element.contents@.len() - j,
                {
                    assert(element.contents@.subrange(0, j + 1).drop_last() =~= element.contents@.subrange(0, j as int));
                    if let Node::Element(ext) = &element.contents[j] {
                        if eq_lit(ext.get_name(), "extension") {
                            if let Some(name) = ext.get_attribute("name") {
                                let nc = chars_of(name.as_str());
                                if contains_name(&opts.extensions, nc.as_slice()) {
                                    gather_extension(ext, name, opts, &mut res);
                                }
                            }
                        }
                    }
                    j = j + 1;
                }
                assert(element.contents@.subrange(0, element.contents@.len() as int) =~= element.contents@);
            }
        }
        i = i + 1;
    }
    assert(kids.subrange(0, kids.len() as int) =~= kids);
    proof {
        lemma_resolve_owners(kids, v, ev);
        assert forall|a: int, b: int| 0 <= a < ev.len() && 0 <= b < ev.len() && a != b implies ev[a] != ev[b] by {
            if ev[a] == ev[b] {
                if a < b {
                    assert(duplicated(ev, ev.len() as int, ev[a]));
                    assert(problem_holds(kids, v, ev, ProblemV::Duplicate(ev[a])));
                } else {
                    assert(duplicated(ev, ev.len() as int, ev[a]));
                    assert(problem_holds(kids, v, ev, ProblemV::Duplicate(ev[a])));
                }
            }
        }
    }
    Ok(res)
}

/// A requested extension that the registry lacks and one that it declares
/// without support for the selected API are both reported, and the
/// resolution fails.
pub proof fn lemma_absent_and_unsupported_reported(root: Element, v: ActiveVersion, exts: Seq<Seq<char>>, absent: Seq<char>, unsupported: Seq<char>)
    requires
        exts.contains(absent),
        exts.contains(unsupported),
        !ext_found(root.contents@, root.contents@.len() as int, absent),
        ext_unsupported(root.contents@, root.contents@.len() as int, unsupported, v),
    ensures
        problem_holds(root.contents@, v, exts, ProblemV::NotFound(absent)),
        problem_holds(root.contents@, v, exts, ProblemV::Unsupported(unsupported)),
        !resolvable(root.contents@, v, exts),
{
}

/// The owners in the order their ranges are laid out: the core, then the
/// requested extensions in the order requested.
pub open spec fn owner_keys(exts: Seq<Seq<char>>) -> Seq<Option<Seq<char>>> {
    seq![None] + exts.map_values(|x: Seq<char>| Some(x))
}

/// Every owner in `m` is one of `keys`.
pub open spec fn owners_in(m: Map<Seq<char>, Option<Seq<char>>>, keys: Seq<Option<Seq<char>>>) -> bool {
    forall|k: Seq<char>| #[trigger] m.contains_key(k) ==> keys.contains(m[k])
}

proof fn lemma_entries_owners(items: Seq<Node>, r: ResolutionV, owner: Option<Seq<char>>, kind: BlockKind, keys: Seq<Option<Seq<char>>>)
    requires
        owners_in(r.2, keys),
        keys.contains(owner),
    ensures
        owners_in(entries_fold(items, r, owner, kind).2, keys),
    decreases items.len(),
{
    if items.len() > 0 {
        lemma_entries_owners(items.drop_last(), r, owner, kind, keys);
        let prev = entries_fold(items.drop_last(), r, owner, kind);
        let next = entry_step(prev, items.last(), owner, kind);
        assert forall|k: Seq<char>| #[trigger] next.2.contains_key(k) implies keys.contains(next.2[k]) by {
            if next.2 != prev.2 {
                if prev.2.contains_key(k) && next.2[k] == prev.2[k] {
                } else {
                    assert(next.2[k] == owner);
                }
            }
        }
    }
}

proof fn lemma_blocks_owners(items: Seq<Node>, r: ResolutionV, owner: Option<Seq<char>>, v: ActiveVersion, keys: Seq<Option<Seq<char>>>)
    requires
        owners_in(r.2, keys),
        keys.contains(owner),
    ensures
        owners_in(blocks_fold(items, r, owner, v).2, keys),
    decreases items.len(),
{
    if items.len() > 0 {
        lemma_blocks_owners(items.drop_last(), r, owner, v, keys);
        let prev = blocks_fold(items.drop_last(), r, owner, v);
        match items.last() {
            Node::Element(e) => {
                let kind = if e.name@ == "require"@ { BlockKind::Require } else { BlockKind::Remove };
                lemma_entries_owners(e.contents@, prev, owner, kind, keys);
            },
            Node::Text(_) => {},
        }
    }
}

proof fn lemma_exts_owners(items: Seq<Node>, r: ResolutionV, v: ActiveVersion, exts: Seq<Seq<char>>)
    requires
        owners_in(r.2, owner_keys(exts)),
    ensures
        owners_in(exts_fold(items, r, v, exts).2, owner_keys(exts)),
    decreases items.len(),
{
    if items.len() > 0 {
        lemma_exts_owners(items.drop_last(), r, v, exts);
        let prev = exts_fold(items.drop_last(), r, v, exts);
        match items.last() {
            Node::Element(e) => {
                match attr(e, "name"@) {
                    Some(x) => {
                        if exts.contains(x) {
                            let j = choose|j: int| 0 <= j < exts.len() && exts[j] == x;
                            assert(owner_keys(exts)[j + 1] == Some(x));
                            lemma_blocks_owners(e.contents@, prev, Some(x), v, owner_keys(exts));
                        }
                    },
                    None => {},
                }
            },
            Node::Text(_) => {},
        }
    }
}

/// Every command that the resolution keeps is owned by the core or by a
/// requested extension.
pub proof fn lemma_resolve_owners(children: Seq<Node>, v: ActiveVersion, exts: Seq<Seq<char>>)
    ensures
        owners_in(resolve_fold(children, v, exts).2, owner_keys(exts)),
    decreases children.len(),
{
    if children.len() > 0 {
        lemma_resolve_owners(children.drop_last(), v, exts);
        let prev = resolve_fold(children.drop_last(), v, exts);
        assert(owner_keys(exts)[0] == None::<Seq<char>>);
        match children.last() {
            Node::Element(e) => {
                lemma_blocks_owners(e.contents@, prev, None, v, owner_keys(exts));
                lemma_exts_owners(e.contents@, prev, v, exts);
            },
            Node::Text(_) => {},
        }
    }
}

/// `n` is a `<command>` entry naming `x`.
pub open spec fn names_command(n: Node, x: Seq<char>) -> bool {
    match n {
        Node::Element(e) => e.name@ == "command"@ && attr(e, "name"@) == Some(x),
        Node::Text(_) => false,
    }
}

/// After a block that names the command `x`, whatever came before: a
/// `remove` block leaves `x` out, and a `require` block leaves it in, owned
/// by that block's owner. So of a block that requires `x` and a later one
/// that removes it, the later one wins, and the other way round.
pub proof fn lemma_block_decides(items: Seq<Node>, r: ResolutionV, owner: Option<Seq<char>>, x: Seq<char>, i: int)
    requires
        0 <= i < items.len(),
        names_command(items[i], x),
    ensures
        !entries_fold(items, r, owner, BlockKind::Remove).2.contains_key(x),
        entries_fold(items, r, owner, BlockKind::Require).2.contains_key(x),
        entries_fold(items, r, owner, BlockKind::Require).2[x] == owner,
    decreases items.len(),
{
    reveal_strlit("command");
    reveal_strlit("type");
    reveal_strlit("enum");
    assert("command"@ != "type"@) by {
        assert("command"@.len() != "type"@.len());
    }
    assert("command"@ != "enum"@) by {
        assert("command"@[0] != "enum"@[0]);
    }
    if i < items.len() - 1 {
        assert(items.drop_last()[i] == items[i]);
        lemma_block_decides(items.drop_last(), r, owner, x, i);
        let last = items.last();
        let rm = entries_fold(items.drop_last(), r, owner, BlockKind::Remove);
        let rq = entries_fold(items.drop_last(), r, owner, BlockKind::Require);
        match last {
            Node::Element(e) => {
                match attr(e, "name"@) {
                    Some(k) => {
                        if k == x {
                        } else {
                            assert(block_apply(BlockKind::Remove, rm.2, k, owner) =~= rm.2.remove(k));
                        }
                    },
                    None => {},
                }
            },
            Node::Text(_) => {},
        }
    }
}

proof fn lemma_entries_frame(items: Seq<Node>, r: ResolutionV, owner: Option<Seq<char>>, kind: BlockKind, x: Seq<char>)
    requires
        forall|i: int| 0 <= i < items.len() ==> !names_command(#[trigger] items[i], x),
    ensures
        entries_fold(items, r, owner, kind).2.contains_key(x) == r.2.contains_key(x),
        r.2.contains_key(x) ==> entries_fold(items, r, owner, kind).2[x] == r.2[x],
    decreases items.len(),
{
    if items.len() > 0 {
        assert(forall|i: int| 0 <= i < items.len() - 1 ==> items.drop_last()[i] == items[i]);
        lemma_entries_frame(items.drop_last(), r, owner, kind, x);
        assert(!names_command(items[items.len() - 1], x));
    }
}

/// `n` is a `<require>` or `<remove>` block for the profile of `v` that names
/// the command `x`.
pub open spec fn applied_block_names(n: Node, v: ActiveVersion, x: Seq<char>) -> bool {
    match n {
        Node::Element(e) => (e.name@ == "require"@ || e.name@ == "remove"@) && profile_ok(v, e)
            && exists|i: int| 0 <= i < e.contents@.len() && #[trigger] names_command(e.contents@[i], x),
        Node::Text(_) => false,
    }
}

proof fn lemma_blocks_frame(items: Seq<Node>, r: ResolutionV, owner: Option<Seq<char>>, v: ActiveVersion, x: Seq<char>)
    requires
        forall|i: int| 0 <= i < items.len() ==> !applied_block_names(#[trigger] items[i], v, x),
    ensures
        blocks_fold(items, r, owner, v).2.contains_key(x) == r.2.contains_key(x),
        r.2.contains_key(x) ==> blocks_fold(items, r, owner, v).2[x] == r.2[x],
    decreases items.len(),
{
    if items.len() > 0 {
        assert(forall|i: int| 0 <= i < items.len() - 1 ==> items.drop_last()[i] == items[i]);
        lemma_blocks_frame(items.drop_last(), r, owner, v, x);
        let last = items[items.len() - 1];
        assert(!applied_block_names(last, v, x));
        match last {
            Node::Element(e) => {
                if (e.name@ == "require"@ || e.name@ == "remove"@) && profile_ok(v, e) {
                    let kind = if e.name@ == "require"@ { BlockKind::Require } else { BlockKind::Remove };
                    lemma_entries_frame(e.contents@, blocks_fold(items.drop_last(), r, owner, v), owner, kind, x);
                }
            },
            Node::Text(_) => {},
        }
    }
}

proof fn lemma_blocks_split(a: Seq<Node>, b: Seq<Node>, r: ResolutionV, owner: Option<Seq<char>>, v: ActiveVersion)
    ensures
        blocks_fold(a + b, r, owner, v) == blocks_fold(b, blocks_fold(a, r, owner, v), owner, v),
    decreases b.len(),
{
    if b.len() == 0 {
        assert(a + b =~= a);
    } else {
        assert((a + b).drop_last() =~= a + b.drop_last());
        assert((a + b).last() == b.last());
        lemma_blocks_split(a, b.drop_last(), r, owner, v);
    }
}

/// Within a feature or an extension, the last applied block that names a
/// command decides it: after a `remove` the command is out, after a
/// `require` it is in, owned by the feature or extension, whatever blocks
/// came before.
pub proof fn lemma_later_block_wins(items: Seq<Node>, r: ResolutionV, owner: Option<Seq<char>>, v: ActiveVersion, x: Seq<char>, j: int)
    requires
        0 <= j < items.len(),
        applied_block_names(items[j], v, x),
        forall|i: int| j < i < items.len() ==> !applied_block_names(#[trigger] items[i], v, x),
    ensures
        items[j] matches Node::Element(e) && e.name@ == "remove"@ ==> !blocks_fold(items, r, owner, v).2.contains_key(x),
        items[j] matches Node::Element(e) && e.name@ == "require"@ ==> blocks_fold(items, r, owner, v).2.contains_key(x)
            && blocks_fold(items, r, owner, v).2[x] == owner,
{
    reveal_strlit("require");
    reveal_strlit("remove");
    assert("require"@ != "remove"@) by {
        assert("require"@[2] != "remove"@[2]);
    }
    let a = items.subrange(0, j + 1);
    let b = items.subrange(j + 1, items.len() as int);
    assert(items =~= a + b);
    lemma_blocks_split(a, b, r, owner, v);
    assert(a.drop_last() =~= items.subrange(0, j));
    assert(a.last() == items[j]);
    let mid = blocks_fold(a, r, owner, v);
    let before = blocks_fold(items.subrange(0, j), r, owner, v);
    assert forall|i: int| 0 <= i < b.len() implies !applied_block_names(#[trigger] b[i], v, x) by {
        assert(b[i] == items[j + 1 + i]);
    }
    lemma_blocks_frame(b, mid, owner, v, x);
    match items[j] {
        Node::Element(e) => {
            let k = choose|k: int| 0 <= k < e.contents@.len() && #[trigger] names_command(e.contents@[k], x);
            let kind = if e.name@ == "require"@ { BlockKind::Require } else { BlockKind::Remove };
            lemma_block_decides(e.contents@, before, owner, x, k);
            assert(mid == entries_fold(e.contents@, before, owner, kind));
        },
        Node::Text(_) => {},
    }
}

/// `n` is a requested `<extension>` with an applied block naming the
/// command `x`.
pub open spec fn ext_touches(n: Node, v: ActiveVersion, exts: Seq<Seq<char>>, x: Seq<char>) -> bool {
    match n {
        Node::Element(e) => e.name@ == "extension"@ && (match attr(e, "name"@) {
            Some(y) => exts.contains(y),
            None => false,
        }) && exists|i: int| 0 <= i < e.contents@.len() && #[trigger] applied_block_names(e.contents@[i], v, x),
        Node::Text(_) => false,
    }
}

/// `n` is a child of the registry with an applied block naming the command
/// `x`: a selected feature, or an `<extensions>` element with a requested
/// extension that names it.
pub open spec fn root_touches(n: Node, v: ActiveVersion, exts: Seq<Seq<char>>, x: Seq<char>) -> bool {
    match n {
        Node::Element(e) => (e.name@ == "feature"@ && api_ok(v, e) && version_ok(v, e) && exists|i: int|
            0 <= i < e.contents@.len() && #[trigger] applied_block_names(e.contents@[i], v, x)) || (e.name@
            == "extensions"@ && exists|i: int| 0 <= i < e.contents@.len() && #[trigger] ext_touches(e.contents@[i], v, exts, x)),
        Node::Text(_) => false,
    }
}

proof fn lemma_exts_frame(items: Seq<Node>, r: ResolutionV, v: ActiveVersion, exts: Seq<Seq<char>>, x: Seq<char>)
    requires
        forall|i: int| 0 <= i < items.len() ==> !ext_touches(#[trigger] items[i], v, exts, x),
    ensures
        exts_fold(items, r, v, exts).2.contains_key(x) == r.2.contains_key(x),
        r.2.contains_key(x) ==> exts_fold(items, r, v, exts).2[x] == r.2[x],
    decreases items.len(),
{
    if items.len() > 0 {
        assert(forall|i: int| 0 <= i < items.len() - 1 ==> items.drop_last()[i] == items[i]);
        lemma_exts_frame(items.drop_last(), r, v, exts, x);
        let last = items[items.len() - 1];
        assert(!ext_touches(last, v, exts, x));
        match last {
            Node::Element(e) => {
                match attr(e, "name"@) {
                    Some(y) => {
                        if e.name@ == "extension"@ && exts.contains(y) {
                            assert forall|i: int| 0 <= i < e.contents@.len() implies !applied_block_names(#[trigger] e.contents@[i], v, x) by {}
                            lemma_blocks_frame(e.contents@, exts_fold(items.drop_last(), r, v, exts), Some(y), v, x);
                        }
                    },
                    None => {},
                }
            },
            Node::Text(_) => {},
        }
    }
}

proof fn lemma_resolve_frame(children: Seq<Node>, j: int, v: ActiveVersion, exts: Seq<Seq<char>>, x: Seq<char>)
    requires
        0 <= j <= children.len(),
        forall|i: int| j <= i < children.len() ==> !root_touches(#[trigger] children[i], v, exts, x),
    ensures
        resolve_fold(children, v, exts).2.contains_key(x) == resolve_fold(children.subrange(0, j), v, exts).2.contains_key(x),
        resolve_fold(children.subrange(0, j), v, exts).2.contains_key(x) ==> resolve_fold(children, v, exts).2[x]
            == resolve_fold(children.subrange(0, j), v, exts).2[x],
    decreases children.len(),
{
    if j == children.len() {
        assert(children.subrange(0, j) =~= children);
    } else {
        assert(children.drop_last().subrange(0, j) =~= children.subrange(0, j));
        assert(forall|i: int| j <= i < children.len() - 1 ==> children.drop_last()[i] == children[i]);
        lemma_resolve_frame(children.drop_last(), j, v, exts, x);
        let prev = resolve_fold(children.drop_last(), v, exts);
        let last = children[children.len() - 1];
        assert(!root_touches(last, v, exts, x));
        match last {
            Node::Element(e) => {
                if e.name@ == "feature"@ && api_ok(v, e) && version_ok(v, e) {
                    assert forall|i: int| 0 <= i < e.contents@.len() implies !applied_block_names(#[trigger] e.contents@[i], v, x) by {}
                    lemma_blocks_frame(e.contents@, prev, None, v, x);
                } else if e.name@ == "extensions"@ {
                    assert forall|i: int| 0 <= i < e.contents@.len() implies !ext_touches(#[trigger] e.contents@[i], v, exts, x) by {}
                    lemma_exts_frame(e.contents@, prev, v, exts, x);
                }
            },
            Node::Text(_) => {},
        }
    }
}

/// In the whole registry, a selected feature's block that is the last
/// applied block naming a command decides it: a `remove` leaves it out, a
/// `require` leaves it in, owned by the core, whatever came before.
pub proof fn lemma_document_later_feature_block_wins(
    children: Seq<Node>,
    v: ActiveVersion,
    exts: Seq<Seq<char>>,
    x: Seq<char>,
    j: int,
    k: int,
)
    requires
        0 <= j < children.len(),
        children[j] matches Node::Element(f) && f.name@ == "feature"@ && api_ok(v, f) && version_ok(v, f)
            && 0 <= k < f.contents@.len() && applied_block_names(f.contents@[k], v, x)
            && forall|i: int| k < i < f.contents@.len() ==> !applied_block_names(#[trigger] f.contents@[i], v, x),
        forall|i: int| j < i < children.len() ==> !root_touches(#[trigger] children[i], v, exts, x),
    ensures
        children[j] matches Node::Element(f) && (f.contents@[k] matches Node::Element(b) && b.name@ == "remove"@)
            ==> !resolve_fold(children, v, exts).2.contains_key(x),
        children[j] matches Node::Element(f) && (f.contents@[k] matches Node::Element(b) && b.name@ == "require"@)
            ==> resolve_fold(children, v, exts).2.contains_key(x) && resolve_fold(children, v, exts).2[x] == None::<Seq<char>>,
{
    lemma_resolve_frame(children, j + 1, v, exts, x);
    let upto = children.subrange(0, j + 1);
    assert(upto.drop_last() =~= children.subrange(0, j));
    assert(upto.last() == children[j]);
    match children[j] {
        Node::Element(f) => {
            lemma_later_block_wins(f.contents@, resolve_fold(children.subrange(0, j), v, exts), None, v, x, k);
        },
        Node::Text(_) => {},
    }
}

proof fn lemma_exts_split(a: Seq<Node>, b: Seq<Node>, r: ResolutionV, v: ActiveVersion, exts: Seq<Seq<char>>)
    ensures
        exts_fold(a + b, r, v, exts) == exts_fold(b, exts_fold(a, r, v, exts), v, exts),
    decreases b.len(),
{
    if b.len() == 0 {
        assert(a + b =~= a);
    } else {
        assert((a + b).drop_last() =~= a + b.drop_last());
        assert((a + b).last() == b.last());
        lemma_exts_split(a, b.drop_last(), r, v, exts);
    }
}

/// In the whole registry, a requested extension's block that is the last
/// applied block naming a command decides it: a `remove` leaves it out, a
/// `require` leaves it in, owned by that extension, whatever came before.
pub proof fn lemma_document_later_extension_block_wins(
    children: Seq<Node>,
    v: ActiveVersion,
    exts: Seq<Seq<char>>,
    x: Seq<char>,
    j: int,
    m: int,
    k: int,
    y: Seq<char>,
)
    requires
        0 <= j < children.len(),
        children[j] matches Node::Element(c) && c.name@ == "extensions"@ && 0 <= m < c.contents@.len()
            && (c.contents@[m] matches Node::Element(e) && e.name@ == "extension"@ && attr(e, "name"@) == Some(y)
                && exts.contains(y) && 0 <= k < e.contents@.len() && applied_block_names(e.contents@[k], v, x)
                && forall|i: int| k < i < e.contents@.len() ==> !applied_block_names(#[trigger] e.contents@[i], v, x))
            && forall|i: int| m < i < c.contents@.len() ==> !ext_touches(#[trigger] c.contents@[i], v, exts, x),
        forall|i: int| j < i < children.len() ==> !root_touches(#[trigger] children[i], v, exts, x),
    ensures
        children[j] matches Node::Element(c) && (c.contents@[m] matches Node::Element(e) && (e.contents@[k] matches Node::Element(b)
            && b.name@ == "remove"@)) ==> !resolve_fold(children, v, exts).2.contains_key(x),
        children[j] matches Node::Element(c) && (c.contents@[m] matches Node::Element(e) && (e.contents@[k] matches Node::Element(b)
            && b.name@ == "require"@)) ==> resolve_fold(children, v, exts).2.contains_key(x)
            && resolve_fold(children, v, exts).2[x] == Some(y),
{
    reveal_strlit("feature");
    reveal_strlit("extensions");
    assert("feature"@ != "extensions"@) by {
        assert("feature"@[0] != "extensions"@[0]);
    }
    lemma_resolve_frame(children, j + 1, v, exts, x);
    let upto = children.subrange(0, j + 1);
    assert(upto.drop_last() =~= children.subrange(0, j));
    assert(upto.last() == children[j]);
    let prev = resolve_fold(children.subrange(0, j), v, exts);
    match children[j] {
        Node::Element(c) => {
            let items = c.contents@;
            let a = items.subrange(0, m + 1);
            let b = items.subrange(m + 1, items.len() as int);
            assert(items =~= a + b);
            lemma_exts_split(a, b, prev, v, exts);
            assert(a.drop_last() =~= items.subrange(0, m));
            assert(a.last() == items[m]);
            let before = exts_fold(items.subrange(0, m), prev, v, exts);
            let mid = exts_fold(a, prev, v, exts);
            assert forall|i: int| 0 <= i < b.len() implies !ext_touches(#[trigger] b[i], v, exts, x) by {
                assert(b[i] == items[m + 1 + i]);
            }
            lemma_exts_frame(b, mid, v, exts, x);
            match items[m] {
                Node::Element(e) => {
                    lemma_later_block_wins(e.contents@, before, Some(y), v, x, k);
                },
                Node::Text(_) => {},
            }
        },
        Node::Text(_) => {},
    }
}

} // verus!
