//! Symbol tables: entries keyed by name, in insertion order.

use vstd::prelude::*;
use crate::text::{lex_le, string_of};

verus! {

/// The names of a table's entries, in order.
pub open spec fn names_of<T>(entries: Seq<(String, T)>) -> Seq<Seq<char>> {
    entries.map_values(|e: (String, T)| e.0@)
}

/// The views of a list of strings.
pub open spec fn views_of(v: Seq<String>) -> Seq<Seq<char>> {
    v.map_values(|s: String| s@)
}

/// The position of the entry named `name`, if there is one.
pub fn find_name<T>(entries: &Vec<(String, T)>, name: &[char]) -> (r: Option<usize>)
    ensures
        match r {
            Some(i) => i < entries@.len() && entries@[i as int].0@ == name@ && forall|k: int| 0 <= k < i ==> entries@[k].0@ != name@,
            None => !names_of(entries@).contains(name@),
        },
{
    let key = string_of(name);
    let mut i: usize = 0;
    while i < entries.len()
        invariant
            i <= entries@.len(),
            key@ == name@,
            forall|k: int| 0 <= k < i ==> entries@[k].0@ != name@,
        decreases entries@.len() - i,
    {
        if entries[i].0 == key {
            return Some(i);
        }
        i = i + 1;
    }
    proof {
        if names_of(entries@).contains(name@) {
            let k = choose|k: int| 0 <= k < names_of(entries@).len() && names_of(entries@)[k] == name@;
            assert(entries@[k].0@ == name@);
        }
    }
    None
}

/// `name` is one of the strings of `v`.
pub fn contains_name(v: &Vec<String>, name: &[char]) -> (r: bool)
    ensures
        r == views_of(v@).contains(name@),
{
    let key = string_of(name);
    let mut i: usize = 0;
    while i < v.len()
        invariant
            i <= v@.len(),
            key@ == name@,
            forall|k: int| 0 <= k < i ==> v@[k]@ != name@,
        decreases v@.len() - i,
    {
        if v[i] == key {
            assert(views_of(v@)[i as int] == name@);
            return true;
        }
        i = i + 1;
    }
    proof {
        if views_of(v@).contains(name@) {
            let k = choose|k: int| 0 <= k < views_of(v@).len() && views_of(v@)[k] == name@;
            assert(v@[k]@ == name@);
        }
    }
    false
}

/// The strings of `v` are in ascending lexicographic order.
pub open spec fn sorted_views(v: Seq<String>) -> bool {
    forall|i: int, j: int| 0 <= i < j < v.len() ==> lex_le(#[trigger] v[i]@, #[trigger] v[j]@)
}

/// Relies on `slice::sort` for `String`: the same strings, in ascending order
/// of `String`'s `Ord`, which is the lexicographic order of code points.
#[verifier::external_body]
pub(crate) fn sort_strings(v: &mut Vec<String>)
    ensures
        views_of(final(v)@).to_multiset() == views_of(old(v)@).to_multiset(),
        sorted_views(final(v)@),
{
    v.sort();
}

} // verus!
