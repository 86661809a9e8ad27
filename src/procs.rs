//! The layout of the procedure table: the selected commands ordered so that
//! each owner's commands occupy one contiguous range.

use vstd::prelude::*;
use crate::features::{owner_keys, Owner, OwnerMap};
use crate::table::{contains_name, views_of};
use crate::text::chars_of;
use crate::used_identifiers::{allows, UsedIdentifiers};

verus! {

/// The commands of `order` that the allow-list admits and that have an
/// owner among `keys`, each with its owner, in the order of `order`.
pub open spec fn select(
    order: Seq<Seq<char>>,
    used: Option<Seq<Seq<char>>>,
    m: Map<Seq<char>, Option<Seq<char>>>,
    keys: Seq<Option<Seq<char>>>,
) -> Seq<(Seq<char>, Option<Seq<char>>)>
    decreases order.len(),
{
    if order.len() == 0 {
        Seq::empty()
    } else {
        let prev = select(order.drop_last(), used, m, keys);
        let n = order.last();
        if allows(used, n) && m.contains_key(n) && keys.contains(m[n]) {
            prev.push((n, m[n]))
        } else {
            prev
        }
    }
}

/// The names in `sel` owned by `k`, in order.
pub open spec fn owned_by(sel: Seq<(Seq<char>, Option<Seq<char>>)>, k: Option<Seq<char>>) -> Seq<Seq<char>>
    decreases sel.len(),
{
    if sel.len() == 0 {
        Seq::empty()
    } else if sel.last().1 == k {
        owned_by(sel.drop_last(), k).push(sel.last().0)
    } else {
        owned_by(sel.drop_last(), k)
    }
}

/// The names in `sel` grouped by owner in the order of `keys`, each group in
/// the order of `sel`.
pub open spec fn layout_names(sel: Seq<(Seq<char>, Option<Seq<char>>)>, keys: Seq<Option<Seq<char>>>) -> Seq<Seq<char>>
    decreases keys.len(),
{
    if keys.len() == 0 {
        Seq::empty()
    } else {
        layout_names(sel, keys.drop_last()) + owned_by(sel, keys.last())
    }
}

/// A half-open range of the procedure table and the owner of its commands.
pub struct ProcRange {
    pub owner: Owner,
    pub start: usize,
    pub end: usize,
}

/// The procedure table's layout: command names by index, the owner of each,
/// and one range per owner that has commands.
pub struct ProcLayout {
    pub sorted: Vec<String>,
    pub owners: Vec<Owner>,
    pub ranges: Vec<ProcRange>,
}

/// The ranges as owner, start and end.
pub open spec fn ranges_view(rs: Seq<ProcRange>) -> Seq<(Option<Seq<char>>, int, int)> {
    rs.map_values(|r: ProcRange| (r.owner@, r.start as int, r.end as int))
}

/// The ranges are non-empty, consecutive, start at 0 and end at `total`:
/// they tile `[0, total)` without gap or overlap.
pub open spec fn tiles(rs: Seq<(Option<Seq<char>>, int, int)>, total: int) -> bool {
    (rs.len() == 0 ==> total == 0) && (rs.len() > 0 ==> rs[0].1 == 0 && rs.last().2 == total) && (forall|r: int|
        0 <= r < rs.len() ==> #[trigger] rs[r].1 < rs[r].2) && (forall|r: int|
        0 <= r < rs.len() - 1 ==> #[trigger] rs[r].2 == rs[r + 1].1)
}

/// The owner of every index in a range is the range's owner.
pub open spec fn ranges_owned(rs: Seq<(Option<Seq<char>>, int, int)>, owners: Seq<Option<Seq<char>>>) -> bool {
    forall|r: int, i: int| 0 <= r < rs.len() && rs[r].1 <= i < rs[r].2 ==> #[trigger] owners[i] == #[trigger] rs[r].0
}

/// No two ranges have the same owner.
pub open spec fn owners_distinct(rs: Seq<(Option<Seq<char>>, int, int)>) -> bool {
    forall|a: int, b: int| 0 <= a < b < rs.len() ==> #[trigger] rs[a].0 != #[trigger] rs[b].0
}

/// The owners of a list of owners.
pub open spec fn owners_view(os: Seq<Owner>) -> Seq<Option<Seq<char>>> {
    os.map_values(|o: Owner| o@)
}

fn owner_listed(o: &Owner, exts: &Vec<String>) -> (r: bool)
    ensures
        r == owner_keys(views_of(exts@)).contains(o@),
{
    let ghost keys = owner_keys(views_of(exts@));
    match o {
        Owner::Core => {
            assert(keys[0] == o@);
            true
        },
        Owner::Extension(x) => {
            let xc = chars_of(x.as_str());
            let r = contains_name(exts, xc.as_slice());
            proof {
                if r {
                    let k = choose|k: int| 0 <= k < views_of(exts@).len() && views_of(exts@)[k] == x@;
                    assert(keys[k + 1] == o@);
                }
                if keys.contains(o@) {
                    let k = choose|k: int| 0 <= k < keys.len() && keys[k] == o@;
                    assert(k > 0);
                    assert(views_of(exts@)[k - 1] == x@);
                }
            }
            r
        },
    }
}

/// Orders the selected commands so that each owner's commands are
/// contiguous: the core's first, then each requested extension's in the
/// order requested, each group in the order of `command_order`. A command
/// is selected when the allow-list admits it and it has an owner among
/// those; a command owned by an extension that was not requested is left
/// out. The maps that `gather_features` returns own nothing else
/// (`owners_in`), so from them every allowed, owned command is placed.
pub fn sort_commands(
    used_identifier_set: &UsedIdentifiers,
    command_exts: &OwnerMap,
    command_order: &Vec<String>,
    extensions: &Vec<String>,
) -> (r: ProcLayout)
    requires
        views_of(extensions@).no_duplicates(),
    ensures
        views_of(r.sorted@) == layout_names(
            select(views_of(command_order@), used_identifier_set@, command_exts@, owner_keys(views_of(extensions@))),
            owner_keys(views_of(extensions@)),
        ),
        r.owners@.len() == r.sorted@.len(),
        forall|i: int| 0 <= i < r.sorted@.len() ==> command_exts@.contains_key(#[trigger] r.sorted@[i]@)
            && command_exts@[r.sorted@[i]@] == r.owners@[i]@,
        tiles(ranges_view(r.ranges@), r.sorted@.len() as int),
        ranges_owned(ranges_view(r.ranges@), owners_view(r.owners@)),
        owners_distinct(ranges_view(r.ranges@)),
{
    let ghost keys = owner_keys(views_of(extensions@));
    let ghost m = command_exts@;
    let mut sel_names: Vec<String> = Vec::new();
    let mut sel_owners: Vec<Owner> = Vec::new();
    let mut i: usize = 0;
    assert(views_of(command_order@).subrange(0, 0) =~= Seq::<Seq<char>>::empty());
    while i < command_order.len()
        invariant
            i <= command_order@.len(),
            sel_names@.len() == sel_owners@.len(),
            m == command_exts@,
            keys == owner_keys(views_of(extensions@)),
            select(views_of(command_order@).subrange(0, i as int), used_identifier_set@, m, keys)
                == views_of(sel_names@).zip_with(owners_view(sel_owners@)),
        decreases command_order@.len() - i,
    {
        let ghost pre = views_of(command_order@).subrange(0, i + 1);
        assert(pre.drop_last() =~= views_of(command_order@).subrange(0, i as int));
        let name = &command_order[i];
        assert(pre.last() == name@);
        if used_identifier_set.contains(name.as_str()) {
            let nc = chars_of(name.as_str());
            if let Some(o) = command_exts.get(nc.as_slice()) {
                if owner_listed(o, extensions) {
                    let ghost before = views_of(sel_names@).zip_with(owners_view(sel_owners@));
                    sel_names.push(name.clone());
                    sel_owners.push(o.duplicate());
                    assert(views_of(sel_names@).zip_with(owners_view(sel_owners@)) =~= before.push((name@, o@)));
                }
            }
        }
        i = i + 1;
    }
    assert(views_of(command_order@).subrange(0, command_order@.len() as int) =~= views_of(command_order@));
    let ghost sel = views_of(sel_names@).zip_with(owners_view(sel_owners@));
    proof {
        assert forall|j: int| 0 <= j < sel.len() implies m.contains_key(#[trigger] sel[j].0) && m[sel[j].0] == sel[j].1 by {
            lemma_select_owned(views_of(command_order@), used_identifier_set@, m, keys, j);
        }
    }
    let mut sorted: Vec<String> = Vec::new();
    let mut owners: Vec<Owner> = Vec::new();
    let mut ranges: Vec<ProcRange> = Vec::new();
    assert(views_of(sorted@) =~= Seq::<Seq<char>>::empty());
    assert(ranges_view(ranges@) =~= Seq::<(Option<Seq<char>>, int, int)>::empty());
    let core = Owner::Core;
    assert(core@ == keys[0]);
    place_group(&sel_names, &sel_owners, &core, &mut sorted, &mut owners, &mut ranges);
    let ghost mut kidx: Seq<int> = if ranges@.len() > 0 { seq![0int] } else { Seq::empty() };
    assert(keys.subrange(0, 1).drop_last() =~= Seq::<Option<Seq<char>>>::empty());
    assert(keys.subrange(0, 1).last() == keys[0]);
    assert(layout_names(sel, Seq::<Option<Seq<char>>>::empty()) == Seq::<Seq<char>>::empty());
    assert(layout_names(sel, keys.subrange(0, 1)) == layout_names(sel, Seq::<Option<Seq<char>>>::empty()) + owned_by(sel, keys[0]));
    assert(layout_names(sel, keys.subrange(0, 1)) =~= owned_by(sel, keys[0]));
    proof {
        assert forall|t: int| 0 <= t < sorted@.len() implies m.contains_key(#[trigger] sorted@[t]@) && m[sorted@[t]@] == owners@[t]@ by {
            let j = choose|j: int| 0 <= j < sel.len() && sel[j] == (sorted@[t]@, owners@[t]@);
            assert(sel[j].0 == sorted@[t]@);
            assert(m.contains_key(sel[j].0));
        }
    }
    let mut q: usize = 0;
    while q < extensions.len()
        invariant
            q <= extensions@.len(),
            keys == owner_keys(views_of(extensions@)),
            keys.len() == extensions@.len() + 1,
            views_of(extensions@).no_duplicates(),
            m == command_exts@,
            sel == views_of(sel_names@).zip_with(owners_view(sel_owners@)),
            sel_names@.len() == sel_owners@.len(),
            forall|j: int| 0 <= j < sel.len() ==> m.contains_key(#[trigger] sel[j].0) && m[sel[j].0] == sel[j].1,
            views_of(sorted@) == layout_names(sel, keys.subrange(0, q + 1)),
            owners@.len() == sorted@.len(),
            forall|t: int| 0 <= t < sorted@.len() ==> m.contains_key(#[trigger] sorted@[t]@) && m[sorted@[t]@] == owners@[t]@,
            tiles(ranges_view(ranges@), sorted@.len() as int),
            ranges_owned(ranges_view(ranges@), owners_view(owners@)),
            kidx.len() == ranges@.len(),
            forall|r: int| 0 <= r < kidx.len() ==> 0 <= #[trigger] kidx[r] <= q && ranges_view(ranges@)[r].0 == keys[kidx[r]],
            forall|a: int, b: int| 0 <= a < b < kidx.len() ==> #[trigger] kidx[a] < #[trigger] kidx[b],
        decreases extensions@.len() - q,
    {
        let key = Owner::Extension(extensions[q].clone());
        assert(key@ == keys[q + 1]);
        let ghost old_len = sorted@.len();
        let ghost old_sorted = sorted@;
        let ghost old_owners = owners@;
        let ghost old_ranges = ranges_view(ranges@);
        place_group(&sel_names, &sel_owners, &key, &mut sorted, &mut owners, &mut ranges);
        proof {
            let kq = keys.subrange(0, q + 2);
            assert(kq.drop_last() =~= keys.subrange(0, q + 1));
            assert(kq.last() == key@);
            assert forall|t: int| 0 <= t < sorted@.len() implies m.contains_key(#[trigger] sorted@[t]@) && m[sorted@[t]@] == owners@[t]@ by {
                if t < old_len {
                    assert(sorted@[t] == old_sorted[t]);
                    assert(owners@[t]@ == old_owners[t]@);
                } else {
                    let j = choose|j: int| 0 <= j < sel.len() && sel[j] == (sorted@[t]@, owners@[t]@);
                    assert(sel[j].0 == sorted@[t]@);
                    assert(m.contains_key(sel[j].0));
                }
            }
            if ranges_view(ranges@).len() > old_ranges.len() {
                kidx = kidx.push(q + 1);
            }
            assert(forall|r: int| 0 <= r < old_ranges.len() ==> ranges_view(ranges@)[r] == old_ranges[r]);
        }
        q = q + 1;
    }
    assert(keys.subrange(0, keys.len() as int) =~= keys);
    proof {
        let rv = ranges_view(ranges@);
        let ev = views_of(extensions@);
        assert forall|a: int, b: int| 0 <= a < b < rv.len() implies #[trigger] rv[a].0 != #[trigger] rv[b].0 by {
            let ka = kidx[a];
            let kb = kidx[b];
            assert(ka < kb);
            if ka == 0 {
                assert(keys[ka] is None);
                assert(keys[kb] == Some(ev[kb - 1]));
            } else {
                assert(keys[ka] == Some(ev[ka - 1]));
                assert(keys[kb] == Some(ev[kb - 1]));
            }
        }
    }
    ProcLayout { sorted, owners, ranges }
}

/// Appends the names of `sel` owned by `key` to the table, with their
/// owners, and records their range if there are any.
fn place_group(
    sel_names: &Vec<String>,
    sel_owners: &Vec<Owner>,
    key: &Owner,
    sorted: &mut Vec<String>,
    owners: &mut Vec<Owner>,
    ranges: &mut Vec<ProcRange>,
)
    requires
        sel_names@.len() == sel_owners@.len(),
        old(owners)@.len() == old(sorted)@.len(),
        tiles(ranges_view(old(ranges)@), old(sorted)@.len() as int),
        ranges_owned(ranges_view(old(ranges)@), owners_view(old(owners)@)),
    ensures
        views_of(final(sorted)@) == views_of(old(sorted)@) + owned_by(views_of(sel_names@).zip_with(owners_view(sel_owners@)), key@),
        final(owners)@.len() == final(sorted)@.len(),
        forall|t: int| 0 <= t < old(sorted)@.len() ==> #[trigger] final(sorted)@[t] == old(sorted)@[t] && final(owners)@[t]@ == old(owners)@[t]@,
        forall|t: int| old(sorted)@.len() <= t < final(sorted)@.len() ==> views_of(sel_names@).zip_with(owners_view(sel_owners@)).contains(
            (#[trigger] final(sorted)@[t]@, final(owners)@[t]@),
        ),
        tiles(ranges_view(final(ranges)@), final(sorted)@.len() as int),
        ranges_owned(ranges_view(final(ranges)@), owners_view(final(owners)@)),
        ranges_view(final(ranges)@) == if final(sorted)@.len() > old(sorted)@.len() {
            ranges_view(old(ranges)@).push((key@, old(sorted)@.len() as int, final(sorted)@.len() as int))
        } else {
            ranges_view(old(ranges)@)
        },
{
    let ghost sel = views_of(sel_names@).zip_with(owners_view(sel_owners@));
    let start = sorted.len();
    let ghost base_names = views_of(sorted@);
    let ghost base_ranges = ranges_view(ranges@);
    let mut j: usize = 0;
    assert(sel.subrange(0, 0) =~= Seq::<(Seq<char>, Option<Seq<char>>)>::empty());
    assert(base_names + owned_by(sel.subrange(0, 0), key@) =~= base_names);
    while j < sel_names.len()
        invariant
            j <= sel_names@.len(),
            sel_names@.len() == sel_owners@.len(),
            sel == views_of(sel_names@).zip_with(owners_view(sel_owners@)),
            start <= sorted@.len(),
            owners@.len() == sorted@.len(),
            start == old(sorted)@.len(),
            start == old(owners)@.len(),
            views_of(sorted@) == base_names + owned_by(sel.subrange(0, j as int), key@),
            base_names == views_of(old(sorted)@),
            forall|t: int| 0 <= t < start ==> #[trigger] sorted@[t] == old(sorted)@[t] && owners@[t]@ == old(owners)@[t]@,
            forall|t: int| start <= t < sorted@.len() ==> sel.contains((#[trigger] sorted@[t]@, owners@[t]@)),
            forall|t: int| start <= t < owners@.len() ==> #[trigger] owners@[t]@ == key@,
            ranges@ == old(ranges)@,
            base_ranges == ranges_view(old(ranges)@),
        decreases sel_names@.len() - j,
    {
        let ghost pre = sel.subrange(0, j + 1);
        assert(pre.drop_last() =~= sel.subrange(0, j as int));
        assert(pre.last() == sel[j as int]);
        assert(sel[j as int] == (sel_names@[j as int]@, sel_owners@[j as int]@));
        if sel_owners[j].same(key) {
            let ghost before = views_of(sorted@);
            sorted.push(sel_names[j].clone());
            owners.push(sel_owners[j].duplicate());
            assert(views_of(sorted@) =~= before.push(sel_names@[j as int]@));
            assert(sel.contains((sorted@.last()@, owners@.last()@)));
        }
        j = j + 1;
    }
    assert(sel.subrange(0, sel.len() as int) =~= sel);
    proof {
        assert forall|r: int, t: int| 0 <= r < base_ranges.len() && base_ranges[r].1 <= t < base_ranges[r].2
            implies #[trigger] owners_view(owners@)[t] == #[trigger] base_ranges[r].0 by {
            lemma_tiles_bound(base_ranges, start as int, r);
            assert(t < start);
            assert(sorted@[t] == old(sorted)@[t]);
            assert(owners@[t]@ == old(owners)@[t]@);
            assert(owners_view(owners@)[t] == owners@[t]@);
            assert(owners_view(old(owners)@)[t] == old(owners)@[t]@);
        }
    }
    if sorted.len() > start {
        let end = sorted.len();
        let ghost ov = owners_view(owners@);
        ranges.push(ProcRange { owner: key.duplicate(), start, end });
        proof {
            let rv = ranges_view(ranges@);
            assert(rv =~= base_ranges.push((key@, start as int, end as int)));
            assert forall|r: int, t: int| 0 <= r < rv.len() && rv[r].1 <= t < rv[r].2
                implies #[trigger] ov[t] == #[trigger] rv[r].0 by {
                if r < base_ranges.len() {
                    assert(rv[r] == base_ranges[r]);
                } else {
                    assert(ov[t] == owners@[t]@);
                }
            }
        }
    }
}

pub(crate) proof fn lemma_tiles_bound(rs: Seq<(Option<Seq<char>>, int, int)>, total: int, r: int)
    requires
        tiles(rs, total),
        0 <= r < rs.len(),
    ensures
        0 <= rs[r].1,
        rs[r].2 <= total,
    decreases rs.len() - r,
{
    if r == rs.len() - 1 {
        lemma_tiles_start(rs, total, r);
    } else {
        assert(rs[r].2 == rs[r + 1].1);
        lemma_tiles_bound(rs, total, r + 1);
        lemma_tiles_start(rs, total, r);
    }
}

proof fn lemma_tiles_start(rs: Seq<(Option<Seq<char>>, int, int)>, total: int, r: int)
    requires
        tiles(rs, total),
        0 <= r < rs.len(),
    ensures
        0 <= rs[r].1,
    decreases r,
{
    if r > 0 {
        lemma_tiles_start(rs, total, r - 1);
        assert(rs[r - 1].2 == rs[r].1);
    }
}

proof fn lemma_select_owned(
    order: Seq<Seq<char>>,
    used: Option<Seq<Seq<char>>>,
    m: Map<Seq<char>, Option<Seq<char>>>,
    keys: Seq<Option<Seq<char>>>,
    j: int,
)
    requires
        0 <= j < select(order, used, m, keys).len(),
    ensures
        m.contains_key(select(order, used, m, keys)[j].0),
        m[select(order, used, m, keys)[j].0] == select(order, used, m, keys)[j].1,
    decreases order.len(),
{
    if order.len() > 0 {
        let prev = select(order.drop_last(), used, m, keys);
        if j < prev.len() {
            lemma_select_owned(order.drop_last(), used, m, keys, j);
        }
    }
}

} // verus!
