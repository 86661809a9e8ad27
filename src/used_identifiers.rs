//! The optional allow-list of identifiers.

use vstd::prelude::*;
use crate::table::{contains_name, views_of};
use crate::text::{chars_of, copy_range, string_of};

verus! {

/// The identifiers that the caller uses, or no restriction at all.
pub enum UsedIdentifiers {
    NotApplicable,
    Applicable(Vec<String>),
}

impl View for UsedIdentifiers {
    /// `None` when every identifier is allowed.
    type V = Option<Seq<Seq<char>>>;

    open spec fn view(&self) -> Option<Seq<Seq<char>>> {
        match self {
            UsedIdentifiers::NotApplicable => None,
            UsedIdentifiers::Applicable(v) => Some(views_of(v@)),
        }
    }
}

/// The allow-list `u` admits `key`.
pub open spec fn allows(u: Option<Seq<Seq<char>>>, key: Seq<char>) -> bool {
    match u {
        None => true,
        Some(s) => s.contains(key),
    }
}

impl UsedIdentifiers {
    /// The identifier `key` may be emitted.
    pub fn contains(&self, key: &str) -> (r: bool)
        ensures
            r == allows(self@, key@),
    {
        match self {
            UsedIdentifiers::NotApplicable => true,
            UsedIdentifiers::Applicable(set) => {
                let k = chars_of(key);
                contains_name(set, k.as_slice())
            },
        }
    }
}

/// `s` without one trailing carriage return.
pub open spec fn strip_cr(s: Seq<char>) -> Seq<char> {
    if s.len() > 0 && s.last() == '\r' {
        s.drop_last()
    } else {
        s
    }
}

/// The lines of `s` after `done` and the partial line `cur`: split on line
/// breaks, each without a trailing carriage return, with no line after a
/// final line break.
pub open spec fn lines_acc(s: Seq<char>, cur: Seq<char>, done: Seq<Seq<char>>) -> Seq<Seq<char>>
    decreases s.len(),
{
    if s.len() == 0 {
        if cur.len() == 0 {
            done
        } else {
            done.push(strip_cr(cur))
        }
    } else if s[0] == '\n' {
        lines_acc(s.drop_first(), Seq::empty(), done.push(strip_cr(cur)))
    } else {
        lines_acc(s.drop_first(), cur.push(s[0]), done)
    }
}

fn push_line(done: &mut Vec<String>, cur: &Vec<char>)
    ensures
        views_of(final(done)@) == views_of(old(done)@).push(strip_cr(cur@)),
{
    let n = cur.len();
    let line = if n > 0 && cur[n - 1] == '\r' {
        copy_range(cur.as_slice(), 0, n - 1)
    } else {
        copy_range(cur.as_slice(), 0, n)
    };
    assert(cur@.subrange(0, n as int) =~= cur@);
    assert(cur@.drop_last() =~= cur@.subrange(0, n - 1));
    let ghost before = views_of(done@);
    done.push(string_of(line.as_slice()));
    assert(views_of(done@) =~= before.push(strip_cr(cur@)));
}

/// The allow-list read from the text of a file of one identifier per line.
pub fn used_identifiers_from_text(text: &str) -> (r: UsedIdentifiers)
    ensures
        r@ == Some(lines_acc(text@, Seq::empty(), Seq::empty())),
{
    let s = chars_of(text);
    let mut done: Vec<String> = Vec::new();
    let mut cur: Vec<char> = Vec::new();
    let mut i: usize = 0;
    assert(s@.subrange(0, s@.len() as int) =~= s@);
    assert(views_of(done@) =~= Seq::<Seq<char>>::empty());
    while i < s.len()
        invariant
            i <= s@.len(),
            lines_acc(s@.subrange(i as int, s@.len() as int), cur@, views_of(done@)) == lines_acc(s@, Seq::empty(), Seq::empty()),
        decreases s@.len() - i,
    {
        assert(s@.subrange(i as int, s@.len() as int).drop_first() =~= s@.subrange(i + 1, s@.len() as int));
        if s[i] == '\n' {
            push_line(&mut done, &cur);
            cur = Vec::new();
        } else {
            cur.push(s[i]);
        }
        i = i + 1;
    }
    if cur.len() > 0 {
        push_line(&mut done, &cur);
    }
    UsedIdentifiers::Applicable(done)
}

} // verus!
