//! Named enumeration groups: which constants belong together.

use vstd::prelude::*;
use crate::cmdline::CmdLine;
use crate::dom::{attr, Element, Node};
use crate::error::{ErrorV, GenError};
use crate::table::{contains_name, find_name, names_of, sort_strings, sorted_views, views_of};
use crate::text::{chars_of, eq_lit};

verus! {

/// Whether a group's constants are bit flags.
#[derive(PartialEq, Eq, Structural, Clone, Copy, Debug)]
pub enum GroupType {
    Bitmask,
    Ordinary,
}

/// A group of constants: its members, its comment and its kind.
pub struct Group {
    pub elements: Vec<String>,
    pub comment: Option<String>,
    pub group_type: Option<GroupType>,
}

/// The mathematical value of a [`Group`].
pub struct GroupSpec {
    pub elements: Seq<Seq<char>>,
    pub comment: Option<Seq<char>>,
    pub group_type: Option<GroupType>,
}

impl View for Group {
    type V = GroupSpec;

    open spec fn view(&self) -> GroupSpec {
        GroupSpec {
            elements: views_of(self.elements@),
            comment: match self.comment {
                Some(c) => Some(c@),
                None => None,
            },
            group_type: self.group_type,
        }
    }
}

/// A group with no member, comment or kind.
pub fn new_group() -> (r: Group)
    ensures
        r@ == (GroupSpec { elements: Seq::empty(), comment: None, group_type: None }),
{
    let r = Group { elements: Vec::new(), comment: None, group_type: None };
    assert(views_of(r.elements@) =~= Seq::<Seq<char>>::empty());
    r
}

/// A table of groups as rows of name and group.
pub open spec fn group_rows(entries: Seq<(String, Group)>) -> Seq<(Seq<char>, GroupSpec)> {
    entries.map_values(|e: (String, Group)| (e.0@, e.1@))
}

/// The position of the first row named `name`, or -1.
pub open spec fn row_index(rows: Seq<(Seq<char>, GroupSpec)>, name: Seq<char>) -> int
    decreases rows.len(),
{
    if rows.len() == 0 {
        -1
    } else {
        let k = row_index(rows.drop_last(), name);
        if k >= 0 {
            k
        } else if rows.last().0 == name {
            rows.len() - 1
        } else {
            -1
        }
    }
}

/// The rows with the group `name` set to `g`: in place if it is there,
/// else added at the end.
pub open spec fn group_put(rows: Seq<(Seq<char>, GroupSpec)>, name: Seq<char>, g: GroupSpec) -> Seq<(Seq<char>, GroupSpec)> {
    let k = row_index(rows, name);
    if k >= 0 {
        rows.update(k, (name, g))
    } else {
        rows.push((name, g))
    }
}

/// The members named by the `<enum>` children among `items`, after `acc`;
/// with `dedup`, a name already there is not added again, and with
/// `skip_alias` aliases are left out.
pub open spec fn members_fold(items: Seq<Node>, acc: Seq<Seq<char>>, dedup: bool, skip_alias: bool) -> Seq<Seq<char>>
    decreases items.len(),
{
    if items.len() == 0 {
        acc
    } else {
        let prev = members_fold(items.drop_last(), acc, dedup, skip_alias);
        match items.last() {
            Node::Element(e) => if skip_alias && attr(e, "alias"@) is Some {
                prev
            } else if e.name@ == "enum"@ {
                match attr(e, "name"@) {
                    Some(n) => if dedup && prev.contains(n) {
                        prev
                    } else {
                        prev.push(n)
                    },
                    None => prev,
                }
            } else {
                prev
            },
            Node::Text(_) => prev,
        }
    }
}

/// The kind that an `<enums>` element's `type` attribute gives its group.
pub open spec fn group_kind(t: Option<Seq<char>>) -> Option<GroupType> {
    match t {
        None => Some(GroupType::Ordinary),
        Some(x) => if x == "bitmask"@ {
            Some(GroupType::Bitmask)
        } else {
            None
        },
    }
}

/// The groups after one child of the registry: a `<groups>` element sets
/// each named `<group>` to its members; an `<enums>` element with a `group`
/// attribute adds its constants, its comment and its kind to that group. A
/// group given a kind or comment twice, or an unknown kind, is a
/// `MalformedDeclaration`.
pub open spec fn groups_step(acc: Result<Seq<(Seq<char>, GroupSpec)>, ErrorV>, n: Node) -> Result<Seq<(Seq<char>, GroupSpec)>, ErrorV> {
    match acc {
        Err(e) => Err(e),
        Ok(rows) => match n {
            Node::Element(e) => if e.name@ == "groups"@ {
                Ok(group_defs_fold(e.contents@, rows))
            } else if e.name@ == "enums"@ {
                match attr(e, "group"@) {
                    None => Ok(rows),
                    Some(g) => {
                        let k = row_index(rows, g);
                        let old_g = if k >= 0 {
                            rows[k].1
                        } else {
                            GroupSpec { elements: Seq::empty(), comment: None, group_type: None }
                        };
                        if old_g.group_type is Some || old_g.comment is Some {
                            Err(ErrorV::MalformedDeclaration(g))
                        } else {
                            match group_kind(attr(e, "type"@)) {
                                None => Err(ErrorV::MalformedDeclaration(attr(e, "type"@).unwrap())),
                                Some(kind) => Ok(group_put(rows, g, GroupSpec {
                                    elements: members_fold(e.contents@, old_g.elements, true, true),
                                    comment: attr(e, "comment"@),
                                    group_type: Some(kind),
                                })),
                            }
                        }
                    },
                }
            } else {
                Ok(rows)
            },
            Node::Text(_) => Ok(rows),
        },
    }
}

/// The groups after the children `items` of a `<groups>` element: each
/// named `<group>` is set to its `<enum>` members, each once.
pub open spec fn group_defs_fold(items: Seq<Node>, rows: Seq<(Seq<char>, GroupSpec)>) -> Seq<(Seq<char>, GroupSpec)>
    decreases items.len(),
{
    if items.len() == 0 {
        rows
    } else {
        let prev = group_defs_fold(items.drop_last(), rows);
        match items.last() {
            Node::Element(e) => if e.name@ == "group"@ {
                match attr(e, "name"@) {
                    Some(g) => group_put(prev, g, GroupSpec {
                        elements: members_fold(e.contents@, Seq::empty(), true, false),
                        comment: None,
                        group_type: None,
                    }),
                    None => prev,
                }
            } else {
                prev
            },
            Node::Text(_) => prev,
        }
    }
}

/// The groups after the children of the registry, before their members are
/// sorted.
pub open spec fn groups_fold(children: Seq<Node>) -> Result<Seq<(Seq<char>, GroupSpec)>, ErrorV>
    decreases children.len(),
{
    if children.len() == 0 {
        Ok(Seq::empty())
    } else {
        groups_step(groups_fold(children.drop_last()), children.last())
    }
}

proof fn lemma_row_index(rows: Seq<(Seq<char>, GroupSpec)>, name: Seq<char>)
    ensures
        -1 <= row_index(rows, name) < rows.len(),
        row_index(rows, name) >= 0 ==> rows[row_index(rows, name)].0 == name
            && forall|k: int| 0 <= k < row_index(rows, name) ==> rows[k].0 != name,
        row_index(rows, name) < 0 ==> forall|k: int| 0 <= k < rows.len() ==> rows[k].0 != name,
    decreases rows.len(),
{
    if rows.len() > 0 {
        lemma_row_index(rows.drop_last(), name);
        assert(forall|k: int| 0 <= k < rows.len() - 1 ==> rows.drop_last()[k] == rows[k]);
    }
}

proof fn lemma_row_index_first(rows: Seq<(Seq<char>, GroupSpec)>, name: Seq<char>, i: int)
    requires
        0 <= i < rows.len(),
        rows[i].0 == name,
        forall|k: int| 0 <= k < i ==> rows[k].0 != name,
    ensures
        row_index(rows, name) == i,
    decreases rows.len(),
{
    lemma_row_index(rows, name);
    if i < rows.len() - 1 {
        lemma_row_index_first(rows.drop_last(), name, i);
    } else {
        lemma_row_index(rows.drop_last(), name);
    }
}

/// Sets the group `name` to `g` in the table.
fn put_group(map: &mut Vec<(String, Group)>, name: &String, g: Group)
    ensures
        group_rows(final(map)@) == group_put(group_rows(old(map)@), name@, g@),
{
    let nc = chars_of(name.as_str());
    let ghost rows = group_rows(map@);
    proof {
        lemma_row_index(rows, name@);
    }
    match find_name(map, nc.as_slice()) {
        Some(i) => {
            proof {
                lemma_row_index_first(rows, name@, i as int);
            }
            map.set(i, (name.clone(), g));
            assert(group_rows(map@) =~= rows.update(i as int, (name@, g@)));
        },
        None => {
            proof {
                if row_index(rows, name@) >= 0 {
                    assert(names_of(map@)[row_index(rows, name@)] == name@);
                }
            }
            map.push((name.clone(), g));
            assert(group_rows(map@) =~= rows.push((name@, g@)));
        },
    }
}

/// Adds the `<enum>` members among the children of `tag` to `elements`.
fn gather_members(tag: &Element, elements: &mut Vec<String>, dedup: bool, skip_alias: bool)
    ensures
        views_of(final(elements)@) == members_fold(tag.contents@, views_of(old(elements)@), dedup, skip_alias),
{
    let ghost start = views_of(elements@);
    let mut i: usize = 0;
    assert(tag.contents@.subrange(0, 0) =~= Seq::<Node>::empty());
    while i < tag.contents.len()
        invariant
            i <= tag.contents@.len(),
            start == views_of(old(elements)@),
            views_of(elements@) == members_fold(tag.contents@.subrange(0, i as int), start, dedup, skip_alias),
        decreases tag.contents@.len() - i,
    {
        assert(tag.contents@.subrange(0, i + 1).drop_last() =~= tag.contents@.subrange(0, i as int));
        if let Node::Element(e) = &tag.contents[i] {
            if skip_alias && e.has_attribute("alias") {
            } else if eq_lit(e.get_name(), "enum") {
                if let Some(n) = e.get_attribute("name") {
                    let nc = chars_of(n.as_str());
                    if !(dedup && contains_name(elements, nc.as_slice())) {
                        let ghost before = views_of(elements@);
                        elements.push(n.clone());
                        assert(views_of(elements@) =~= before.push(n@));
                    }
                }
            }
        }
        i = i + 1;
    }
    assert(tag.contents@.subrange(0, tag.contents@.len() as int) =~= tag.contents@);
}

/// Reads one `<group>` element into the table: its members, in order,
/// each once.
fn gather_group(tag: &Element, map: &mut Vec<(String, Group)>)
    ensures
        group_rows(final(map)@) == match attr(*tag, "name"@) {
            Some(g) => group_put(group_rows(old(map)@), g, GroupSpec {
                elements: members_fold(tag.contents@, Seq::empty(), true, false),
                comment: None,
                group_type: None,
            }),
            None => group_rows(old(map)@),
        },
{
    let name = match tag.get_attribute("name") {
        Some(n) => n,
        None => {
            return;
        },
    };
    let mut result = new_group();
    gather_members(tag, &mut result.elements, true, false);
    put_group(map, name, result);
}

fn copy_strings(v: &Vec<String>) -> (r: Vec<String>)
    ensures
        views_of(r@) == views_of(v@),
{
    let mut r: Vec<String> = Vec::new();
    let mut i: usize = 0;
    while i < v.len()
        invariant
            i <= v@.len(),
            views_of(r@) == views_of(v@).subrange(0, i as int),
        decreases v@.len() - i,
    {
        let ghost before = views_of(r@);
        r.push(v[i].clone());
        assert(views_of(r@) =~= before.push(v@[i as int]@));
        assert(views_of(v@).subrange(0, i + 1) =~= views_of(v@).subrange(0, i as int).push(v@[i as int]@));
        i = i + 1;
    }
    assert(views_of(v@).subrange(0, v@.len() as int) =~= views_of(v@));
    r
}

fn copy_group(g: &Group) -> (r: Group)
    ensures
        r@ == g@,
{
    let comment = match &g.comment {
        Some(c) => Some(c.clone()),
        None => None,
    };
    Group { elements: copy_strings(&g.elements), comment, group_type: g.group_type }
}

proof fn lemma_groups_fold_prefix(children: Seq<Node>, i: int)
    requires
        0 <= i <= children.len(),
        groups_fold(children.subrange(0, i)) is Err,
    ensures
        groups_fold(children) == groups_fold(children.subrange(0, i)),
    decreases children.len(),
{
    if i == children.len() {
        assert(children.subrange(0, i) =~= children);
    } else {
        assert(children.drop_last().subrange(0, i) =~= children.subrange(0, i));
        lemma_groups_fold_prefix(children.drop_last(), i);
    }
}

/// Applies an `<enums>` element with a `group` attribute to its group.
fn gather_enums_group(e: &Element, g: &String, map: &mut Vec<(String, Group)>) -> (r: Result<(), GenError>)
    requires
        attr(*e, "group"@) == Some(g@),
        e.name@ == "enums"@,
    ensures
        match groups_step(Ok(group_rows(old(map)@)), Node::Element(*e)) {
            Ok(rows) => r is Ok && group_rows(final(map)@) == rows,
            Err(x) => r matches Err(er) && er@ == x,
        },
{
    let gc = chars_of(g.as_str());
    let ghost rows = group_rows(map@);
    proof {
        lemma_row_index(rows, g@);
        reveal_strlit("groups");
        reveal_strlit("enums");
        assert("groups"@ != "enums"@) by {
            assert("groups"@[0] != "enums"@[0]);
        }
    }
    let mut group = match find_name(map, gc.as_slice()) {
        Some(i) => {
            proof {
                lemma_row_index_first(rows, g@, i as int);
            }
            copy_group(&map[i].1)
        },
        None => {
            proof {
                if row_index(rows, g@) >= 0 {
                    assert(names_of(map@)[row_index(rows, g@)] == g@);
                }
            }
            new_group()
        },
    };
    if group.group_type.is_some() || group.comment.is_some() {
        return Err(GenError::MalformedDeclaration(g.clone()));
    }
    let kind = match e.get_attribute("type") {
        None => GroupType::Ordinary,
        Some(t) => {
            if eq_lit(t.as_str(), "bitmask") {
                GroupType::Bitmask
            } else {
                return Err(GenError::MalformedDeclaration(t.clone()));
            }
        },
    };
    group.comment = match e.get_attribute("comment") {
        Some(c) => Some(c.clone()),
        None => None,
    };
    group.group_type = Some(kind);
    gather_members(e, &mut group.elements, true, true);
    put_group(map, g, group);
    Ok(())
}

/// Reads the groups of constants from the registry: the table, each
/// group's members in lexicographic order, and the group names in
/// lexicographic order.
pub fn gather_groups(root: &Element, _opts: &CmdLine) -> (r: Result<(Vec<(String, Group)>, Vec<String>), GenError>)
    ensures
        match r {
            Ok((map, order)) => groups_fold(root.contents@) matches Ok(rows) && map@.len() == rows.len()
                && (forall|i: int| 0 <= i < rows.len() ==> {
                    &&& (#[trigger] map@[i]).0@ == rows[i].0
                    &&& map@[i].1@.comment == rows[i].1.comment
                    &&& map@[i].1@.group_type == rows[i].1.group_type
                    &&& map@[i].1@.elements.to_multiset() == rows[i].1.elements.to_multiset()
                    &&& sorted_views(map@[i].1.elements@)
                    &&& map@[i].1@.elements.no_duplicates()
                })
                && views_of(order@).to_multiset() == names_of(map@).to_multiset()
                && sorted_views(order@),
            Err(e) => groups_fold(root.contents@) == Err::<Seq<(Seq<char>, GroupSpec)>, ErrorV>(e@),
        },
{
    let mut map: Vec<(String, Group)> = Vec::new();
    let ghost kids = root.contents@;
    let mut i: usize = 0;
    assert(group_rows(map@) =~= Seq::<(Seq<char>, GroupSpec)>::empty());
    while i < root.contents.len()
        invariant
            i <= kids.len(),
            kids == root.contents@,
            groups_fold(kids.subrange(0, i as int)) == Ok::<Seq<(Seq<char>, GroupSpec)>, ErrorV>(group_rows(map@)),
        decreases kids.len() - i,
    {
        assert(kids.subrange(0, i + 1).drop_last() =~= kids.subrange(0, i as int));
        assert(kids.subrange(0, i + 1).last() == kids[i as int]);
        if let Node::Element(e) = &root.contents[i] {
            if eq_lit(e.get_name(), "groups") {
                let ghost start = group_rows(map@);
                let mut j: usize = 0;
                assert(e.contents@.subrange(0, 0) =~= Seq::<Node>::empty());
                while j < e.contents.len()
                    invariant
                        j <= e.contents@.len(),
                        group_rows(map@) == group_defs_fold(e.contents@.subrange(0, j as int), start),
                    decreases e.contents@.len() - j,
                {
                    assert(e.contents@.subrange(0, j + 1).drop_last() =~= e.contents@.subrange(0, j as int));
                    if let Node::Element(g) = &e.contents[j] {
                        if eq_lit(g.get_name(), "group") {
                            gather_group(g, &mut map);
                        }
                    }
                    j = j + 1;
                }
                assert(e.contents@.subrange(0, e.contents@.len() as int) =~= e.contents@);
            } else if eq_lit(e.get_name(), "enums") {
                if let Some(g) = e.get_attribute("group") {
                    match gather_enums_group(e, g, &mut map) {
                        Ok(()) => {},
                        Err(x) => {
                            proof {
                                lemma_groups_fold_prefix(kids, i + 1);
                            }
                            return Err(x);
                        },
                    }
                }
            }
        }
        i = i + 1;
    }
    assert(kids.subrange(0, kids.len() as int) =~= kids);
    let ghost rows = group_rows(map@);
    proof {
        lemma_groups_fold_nodup(kids);
    }
    let mut out: Vec<(String, Group)> = Vec::new();
    let mut order: Vec<String> = Vec::new();
    let mut k: usize = 0;
    while k < map.len()
        invariant
            k <= map@.len(),
            rows == group_rows(map@),
            out@.len() == k,
            views_of(order@) == names_of(out@),
            forall|t: int| 0 <= t < k ==> {
                &&& (#[trigger] out@[t]).0@ == rows[t].0
                &&& out@[t].1@.comment == rows[t].1.comment
                &&& out@[t].1@.group_type == rows[t].1.group_type
                &&& out@[t].1@.elements.to_multiset() == rows[t].1.elements.to_multiset()
                &&& sorted_views(out@[t].1.elements@)
                &&& out@[t].1@.elements.no_duplicates()
            },
            forall|t: int| 0 <= t < rows.len() ==> (#[trigger] rows[t]).1.elements.no_duplicates(),
        decreases map@.len() - k,
    {
        let mut els = copy_strings(&map[k].1.elements);
        sort_strings(&mut els);
        proof {
            let t = rows[k as int].1.elements;
            assert(t == views_of(map@[k as int].1.elements@));
            t.lemma_multiset_has_no_duplicates();
            views_of(els@).lemma_multiset_has_no_duplicates_conv();
        }
        let comment = match &map[k].1.comment {
            Some(c) => Some(c.clone()),
            None => None,
        };
        let name = map[k].0.clone();
        let ghost before = views_of(order@);
        let ghost before_out = out@;
        order.push(name.clone());
        out.push((name, Group { elements: els, comment, group_type: map[k].1.group_type }));
        assert(names_of(out@) =~= names_of(before_out).push(map@[k as int].0@));
        assert(views_of(order@) =~= before.push(map@[k as int].0@));
        assert(forall|t: int| 0 <= t < k ==> out@[t] == before_out[t]);
        k = k + 1;
    }
    sort_strings(&mut order);
    Ok((out, order))
}

/// Every group's members are distinct.
pub open spec fn groups_nodup(rows: Seq<(Seq<char>, GroupSpec)>) -> bool {
    forall|t: int| 0 <= t < rows.len() ==> (#[trigger] rows[t]).1.elements.no_duplicates()
}

proof fn lemma_members_nodup(items: Seq<Node>, acc: Seq<Seq<char>>, skip_alias: bool)
    requires
        acc.no_duplicates(),
    ensures
        members_fold(items, acc, true, skip_alias).no_duplicates(),
    decreases items.len(),
{
    if items.len() > 0 {
        lemma_members_nodup(items.drop_last(), acc, skip_alias);
        let prev = members_fold(items.drop_last(), acc, true, skip_alias);
        let r = members_fold(items, acc, true, skip_alias);
        if r != prev {
            let n = r.last();
            assert(r == prev.push(n));
            assert(!prev.contains(n));
            assert forall|a: int, b: int| 0 <= a < r.len() && 0 <= b < r.len() && a != b implies r[a] != r[b] by {
                if a == prev.len() as int {
                    assert(r[b] == prev[b]);
                } else if b == prev.len() as int {
                    assert(r[a] == prev[a]);
                }
            }
        }
    }
}

proof fn lemma_put_nodup(rows: Seq<(Seq<char>, GroupSpec)>, name: Seq<char>, g: GroupSpec)
    requires
        groups_nodup(rows),
        g.elements.no_duplicates(),
    ensures
        groups_nodup(group_put(rows, name, g)),
{
    lemma_row_index(rows, name);
}

proof fn lemma_defs_nodup(items: Seq<Node>, rows: Seq<(Seq<char>, GroupSpec)>)
    requires
        groups_nodup(rows),
    ensures
        groups_nodup(group_defs_fold(items, rows)),
    decreases items.len(),
{
    if items.len() > 0 {
        lemma_defs_nodup(items.drop_last(), rows);
        let prev = group_defs_fold(items.drop_last(), rows);
        match items.last() {
            Node::Element(e) => {
                lemma_members_nodup(e.contents@, Seq::empty(), false);
                match attr(e, "name"@) {
                    Some(g) => {
                        lemma_put_nodup(prev, g, GroupSpec {
                            elements: members_fold(e.contents@, Seq::empty(), true, false),
                            comment: None,
                            group_type: None,
                        });
                    },
                    None => {},
                }
            },
            Node::Text(_) => {},
        }
    }
}

proof fn lemma_groups_fold_nodup(children: Seq<Node>)
    ensures
        groups_fold(children) matches Ok(rows) ==> groups_nodup(rows),
    decreases children.len(),
{
    if children.len() > 0 {
        lemma_groups_fold_nodup(children.drop_last());
        match groups_fold(children.drop_last()) {
            Ok(rows) => {
                match children.last() {
                    Node::Element(e) => {
                        lemma_defs_nodup(e.contents@, rows);
                        match attr(e, "group"@) {
                            Some(g) => {
                                lemma_row_index(rows, g);
                                let k = row_index(rows, g);
                                let old_g = if k >= 0 {
                                    rows[k].1
                                } else {
                                    GroupSpec { elements: Seq::empty(), comment: None, group_type: None }
                                };
                                lemma_members_nodup(e.contents@, old_g.elements, true);
                                match group_kind(attr(e, "type"@)) {
                                    Some(kind) => {
                                        lemma_put_nodup(rows, g, GroupSpec {
                                            elements: members_fold(e.contents@, old_g.elements, true, true),
                                            comment: attr(e, "comment"@),
                                            group_type: Some(kind),
                                        });
                                    },
                                    None => {},
                                }
                            },
                            None => {},
                        }
                    },
                    Node::Text(_) => {},
                }
            },
            Err(_) => {},
        }
    }
}

} // verus!
