//! The grammar of C declaration fragments: whitespace normalization, opaque
//! struct references, and the split into const flag, base name and pointer
//! levels.

use vstd::prelude::*;
use crate::text::copy_range;

verus! {

pub open spec fn is_ident_start(c: char) -> bool {
    c == '_' || ('a' <= c && c <= 'z') || ('A' <= c && c <= 'Z')
}

pub open spec fn is_ident_char(c: char) -> bool {
    is_ident_start(c) || ('0' <= c && c <= '9')
}

/// A C identifier.
pub open spec fn is_ident(s: Seq<char>) -> bool {
    s.len() > 0 && is_ident_start(s[0]) && forall|k: int| 0 <= k < s.len() ==> is_ident_char(s[k])
}

/// `s` without its leading spaces.
pub open spec fn strip_leading_spaces(s: Seq<char>) -> Seq<char>
    decreases s.len(),
{
    if s.len() > 0 && s[0] == ' ' {
        strip_leading_spaces(s.drop_first())
    } else {
        s
    }
}

/// `s` without its trailing spaces.
pub open spec fn strip_trailing_spaces(s: Seq<char>) -> Seq<char>
    decreases s.len(),
{
    if s.len() > 0 && s.last() == ' ' {
        strip_trailing_spaces(s.drop_last())
    } else {
        s
    }
}

/// `s` holds only spaces up to a `*` or up to its end.
pub open spec fn spaces_then_star_or_end(s: Seq<char>) -> bool
    decreases s.len(),
{
    if s.len() == 0 {
        true
    } else if s[0] == '*' {
        true
    } else if s[0] == ' ' {
        spaces_then_star_or_end(s.drop_first())
    } else {
        false
    }
}

/// `out` followed by `s` with every space removed that only spaces separate
/// from a following `*` or from the end.
pub open spec fn condense_acc(s: Seq<char>, out: Seq<char>) -> Seq<char>
    decreases s.len(),
{
    if s.len() == 0 {
        out
    } else if s[0] == ' ' && spaces_then_star_or_end(s.drop_first()) {
        condense_acc(s.drop_first(), out)
    } else {
        condense_acc(s.drop_first(), out.push(s[0]))
    }
}

/// `s` begins with the keyword `struct` and a space.
pub open spec fn starts_struct_kw(s: Seq<char>) -> bool {
    s.len() >= 7 && s[0] == 's' && s[1] == 't' && s[2] == 'r' && s[3] == 'u' && s[4] == 'c' && s[5]
        == 't' && s[6] == ' '
}

/// `out` followed by `s` with each `struct NAME` replaced by `void`, scanning
/// left to right; `skipping` is set while the rest of a replaced name is
/// being dropped.
pub open spec fn munch_acc(s: Seq<char>, skipping: bool, out: Seq<char>) -> Seq<char>
    decreases s.len(),
{
    if s.len() == 0 {
        out
    } else if skipping && is_ident_char(s[0]) {
        munch_acc(s.drop_first(), true, out)
    } else if starts_struct_kw(s) && s.len() > 7 && is_ident_start(s[7]) {
        munch_acc(s.subrange(8, s.len() as int), true, out + seq!['v', 'o', 'i', 'd'])
    } else {
        munch_acc(s.drop_first(), false, out.push(s[0]))
    }
}

/// A declaration fragment with its whitespace normalized and its struct
/// references replaced by `void`.
pub open spec fn normalize(s: Seq<char>) -> Seq<char> {
    munch_acc(condense_acc(strip_leading_spaces(s), Seq::empty()), false, Seq::empty())
}

/// `s` ends with `const*`.
pub open spec fn ends_const_star(s: Seq<char>) -> bool {
    s.len() >= 6 && s[s.len() - 6] == 'c' && s[s.len() - 5] == 'o' && s[s.len() - 4] == 'n' && s[s.len()
        - 3] == 's' && s[s.len() - 2] == 't' && s[s.len() - 1] == '*'
}

/// `s` begins with `const` and a space.
pub open spec fn starts_const_kw(s: Seq<char>) -> bool {
    s.len() >= 6 && s[0] == 'c' && s[1] == 'o' && s[2] == 'n' && s[3] == 's' && s[4] == 't' && s[5]
        == ' '
}

/// Peels the pointer levels off the end of `s`, one `*` or `const*` at a
/// time: the base that is left, and the levels from the outermost to the
/// innermost (`true` for a const level). A `const*` level is const; the
/// level of the last `*` otherwise takes the const flag of the base; any
/// other level is mutable.
pub open spec fn peel(s: Seq<char>, lead_const: bool, first: bool) -> (Seq<char>, Seq<bool>)
    decreases s.len(),
{
    if ends_const_star(s) {
        let (b, ls) = peel(s.subrange(0, s.len() - 6), lead_const, false);
        (b, ls.push(true))
    } else if s.len() > 0 && s.last() == '*' {
        let (b, ls) = peel(s.drop_last(), lead_const, false);
        (b, ls.push(if first { lead_const } else { false }))
    } else {
        (s, Seq::empty())
    }
}

/// A declaration fragment split into its leading-const flag, its base type
/// name and its pointer levels (outermost first).
pub open spec fn split_decl(t: Seq<char>) -> (bool, Seq<char>, Seq<bool>) {
    let n = normalize(t);
    let lc = starts_const_kw(n);
    let rest = if lc { n.subrange(6, n.len() as int) } else { n };
    let (b, ls) = peel(rest, lc, true);
    (lc, strip_trailing_spaces(b), ls)
}

/// The pointer levels written out: `*const` or `*mut` each, outermost first.
pub open spec fn render_levels(ls: Seq<bool>) -> Seq<char>
    decreases ls.len(),
{
    if ls.len() == 0 {
        Seq::empty()
    } else {
        render_levels(ls.drop_last()) + if ls.last() {
            seq!['*', 'c', 'o', 'n', 's', 't']
        } else {
            seq!['*', 'm', 'u', 't']
        }
    }
}

/// The split parts of a declaration fragment.
pub struct DeclParts {
    pub lead_const: bool,
    pub base: Vec<char>,
    pub levels: Vec<bool>,
}

fn strip_leading(s: &[char]) -> (r: Vec<char>)
    ensures
        r@ == strip_leading_spaces(s@),
{
    let mut i: usize = 0;
    assert(s@.subrange(0, s@.len() as int) =~= s@);
    while i < s.len() && s[i] == ' '
        invariant
            i <= s@.len(),
            strip_leading_spaces(s@) == strip_leading_spaces(s@.subrange(i as int, s@.len() as int)),
        decreases s@.len() - i,
    {
        assert(s@.subrange(i as int, s@.len() as int).drop_first() =~= s@.subrange(
            i + 1,
            s@.len() as int,
        ));
        i = i + 1;
    }
    copy_range(s, i, s.len())
}

fn strip_trailing(s: &[char]) -> (r: Vec<char>)
    ensures
        r@ == strip_trailing_spaces(s@),
{
    let mut j: usize = s.len();
    assert(s@.subrange(0, s@.len() as int) =~= s@);
    while j > 0 && s[j - 1] == ' '
        invariant
            j <= s@.len(),
            strip_trailing_spaces(s@) == strip_trailing_spaces(s@.subrange(0, j as int)),
        decreases j,
    {
        assert(s@.subrange(0, j as int).drop_last() =~= s@.subrange(0, j - 1));
        j = j - 1;
    }
    copy_range(s, 0, j)
}

fn star_or_end_from(s: &[char], start: usize) -> (r: bool)
    requires
        start <= s@.len(),
    ensures
        r == spaces_then_star_or_end(s@.subrange(start as int, s@.len() as int)),
{
    let mut i: usize = start;
    while i < s.len() && s[i] == ' '
        invariant
            start <= i <= s@.len(),
            spaces_then_star_or_end(s@.subrange(start as int, s@.len() as int))
                == spaces_then_star_or_end(s@.subrange(i as int, s@.len() as int)),
        decreases s@.len() - i,
    {
        assert(s@.subrange(i as int, s@.len() as int).drop_first() =~= s@.subrange(
            i + 1,
            s@.len() as int,
        ));
        i = i + 1;
    }
    i == s.len() || s[i] == '*'
}

fn condense(s: &[char]) -> (r: Vec<char>)
    ensures
        r@ == condense_acc(s@, Seq::empty()),
{
    let mut out: Vec<char> = Vec::new();
    let mut i: usize = 0;
    assert(s@.subrange(0, s@.len() as int) =~= s@);
    while i < s.len()
        invariant
            i <= s@.len(),
            condense_acc(s@, Seq::empty()) == condense_acc(
                s@.subrange(i as int, s@.len() as int),
                out@,
            ),
        decreases s@.len() - i,
    {
        assert(s@.subrange(i as int, s@.len() as int).drop_first() =~= s@.subrange(
            i + 1,
            s@.len() as int,
        ));
        if !(s[i] == ' ' && star_or_end_from(s, i + 1)) {
            out.push(s[i]);
        }
        i = i + 1;
    }
    out
}

fn munch_structs(s: &[char]) -> (r: Vec<char>)
    ensures
        r@ == munch_acc(s@, false, Seq::empty()),
{
    let mut out: Vec<char> = Vec::new();
    let mut skipping = false;
    let mut i: usize = 0;
    assert(s@.subrange(0, s@.len() as int) =~= s@);
    while i < s.len()
        invariant
            i <= s@.len(),
            munch_acc(s@, false, Seq::empty()) == munch_acc(
                s@.subrange(i as int, s@.len() as int),
                skipping,
                out@,
            ),
        decreases s@.len() - i,
    {
        let ghost rest = s@.subrange(i as int, s@.len() as int);
        assert(rest.drop_first() =~= s@.subrange(i + 1, s@.len() as int));
        let c = s[i];
        let is_ic = c == '_' || ('a' <= c && c <= 'z') || ('A' <= c && c <= 'Z') || ('0' <= c && c
            <= '9');
        if skipping && is_ic {
            i = i + 1;
        } else {
            let kw = s.len() - i > 7 && s[i] == 's' && s[i + 1] == 't' && s[i + 2] == 'r' && s[i
                + 3] == 'u' && s[i + 4] == 'c' && s[i + 5] == 't' && s[i + 6] == ' ';
            if kw && (s[i + 7] == '_' || ('a' <= s[i + 7] && s[i + 7] <= 'z') || ('A' <= s[i + 7]
                && s[i + 7] <= 'Z')) {
                assert(rest.subrange(8, rest.len() as int) =~= s@.subrange(i + 8, s@.len() as int));
                assert(starts_struct_kw(rest) && rest.len() > 7 && is_ident_start(rest[7]));
                let ghost before = out@;
                out.push('v');
                out.push('o');
                out.push('i');
                out.push('d');
                assert(out@ =~= before + seq!['v', 'o', 'i', 'd']);
                skipping = true;
                i = i + 8;
            } else {
                out.push(c);
                skipping = false;
                i = i + 1;
            }
        }
    }
    out
}

/// Splits a declaration fragment into its leading-const flag, base type name
/// and pointer levels, after normalizing it.
pub fn split_declaration(t: &[char]) -> (r: DeclParts)
    ensures
        split_decl(t@) == (r.lead_const, r.base@, r.levels@),
{
    let a = strip_leading(t);
    let b = condense(a.as_slice());
    let n = munch_structs(b.as_slice());
    assert(n@ == normalize(t@));
    let lc = n.len() >= 6 && n[0] == 'c' && n[1] == 'o' && n[2] == 'n' && n[3] == 's' && n[4] == 't'
        && n[5] == ' ';
    let rest = if lc {
        copy_range(n.as_slice(), 6, n.len())
    } else {
        copy_range(n.as_slice(), 0, n.len())
    };
    assert(n@.subrange(0, n@.len() as int) =~= n@);
    let mut j: usize = rest.len();
    let mut first = true;
    let mut levels: Vec<bool> = Vec::new();
    assert(rest@.subrange(0, rest@.len() as int) =~= rest@);
    assert(levels@ =~= Seq::<bool>::empty());
    while j > 0 && rest[j - 1] == '*'
        invariant
            j <= rest@.len(),
            peel(rest@, lc, true).0 == peel(rest@.subrange(0, j as int), lc, first).0,
            peel(rest@, lc, true).1 == peel(rest@.subrange(0, j as int), lc, first).1 + levels@,
        decreases j,
    {
        let ghost sj = rest@.subrange(0, j as int);
        let cs = j >= 6 && rest[j - 6] == 'c' && rest[j - 5] == 'o' && rest[j - 4] == 'n' && rest[j
            - 3] == 's' && rest[j - 2] == 't';
        if cs {
            assert(sj.subrange(0, sj.len() - 6) =~= rest@.subrange(0, j - 6));
            let ghost p = peel(rest@.subrange(0, j - 6), lc, false);
            assert(p.1.push(true) + levels@ =~= p.1 + levels@.insert(0, true));
            levels.insert(0, true);
            j = j - 6;
        } else {
            assert(sj.drop_last() =~= rest@.subrange(0, j - 1));
            let lv = if first { lc } else { false };
            let ghost p = peel(rest@.subrange(0, j - 1), lc, false);
            assert(p.1.push(lv) + levels@ =~= p.1 + levels@.insert(0, lv));
            levels.insert(0, lv);
            j = j - 1;
        }
        first = false;
    }
    assert(levels@ =~= Seq::<bool>::empty() + levels@);
    let base_raw = copy_range(rest.as_slice(), 0, j);
    let base = strip_trailing(base_raw.as_slice());
    DeclParts { lead_const: lc, base, levels }
}

proof fn lemma_star_scan_space(x: Seq<char>, y: Seq<char>)
    requires
        y.len() == 0 || y[0] == '*',
    ensures
        spaces_then_star_or_end(x + seq![' '] + y) == spaces_then_star_or_end(x + y),
    decreases x.len(),
{
    if x.len() == 0 {
        assert((x + seq![' '] + y).drop_first() =~= y);
        assert(x + y =~= y);
    } else {
        assert((x + seq![' '] + y).drop_first() =~= x.drop_first() + seq![' '] + y);
        assert((x + y).drop_first() =~= x.drop_first() + y);
        lemma_star_scan_space(x.drop_first(), y);
    }
}

proof fn lemma_condense_space(x: Seq<char>, y: Seq<char>, out: Seq<char>)
    requires
        y.len() == 0 || y[0] == '*',
    ensures
        condense_acc(x + seq![' '] + y, out) == condense_acc(x + y, out),
    decreases x.len(),
{
    if x.len() == 0 {
        assert((x + seq![' '] + y).drop_first() =~= y);
        assert(x + y =~= y);
    } else {
        let s1 = x + seq![' '] + y;
        let s2 = x + y;
        assert(s1.drop_first() =~= x.drop_first() + seq![' '] + y);
        assert(s2.drop_first() =~= x.drop_first() + y);
        lemma_star_scan_space(x.drop_first(), y);
        lemma_condense_space(x.drop_first(), y, out);
        lemma_condense_space(x.drop_first(), y, out.push(x[0]));
    }
}

proof fn lemma_strip_condense_space(x: Seq<char>, y: Seq<char>)
    requires
        y.len() == 0 || y[0] == '*',
    ensures
        condense_acc(strip_leading_spaces(x + seq![' '] + y), Seq::empty()) == condense_acc(
            strip_leading_spaces(x + y),
            Seq::empty(),
        ),
    decreases x.len(),
{
    if x.len() == 0 {
        assert((x + seq![' '] + y).drop_first() =~= y);
        assert(x + y =~= y);
    } else if x[0] == ' ' {
        assert((x + seq![' '] + y).drop_first() =~= x.drop_first() + seq![' '] + y);
        assert((x + y).drop_first() =~= x.drop_first() + y);
        lemma_strip_condense_space(x.drop_first(), y);
    } else {
        lemma_condense_space(x, y, Seq::empty());
    }
}

/// A space in front of a `*`, or at the end, does not change how a
/// declaration fragment splits.
pub proof fn lemma_space_before_star_ignored(x: Seq<char>, y: Seq<char>)
    requires
        y.len() == 0 || y[0] == '*',
    ensures
        normalize(x + seq![' '] + y) == normalize(x + y),
        split_decl(x + seq![' '] + y) == split_decl(x + y),
{
    lemma_strip_condense_space(x, y);
}

/// No character of `s` is a line break.
pub open spec fn no_newline(s: Seq<char>) -> bool {
    forall|k: int| 0 <= k < s.len() ==> s[k] != '\n'
}

/// The position of the last `c` in `s`, or -1.
pub open spec fn last_index_of(s: Seq<char>, c: char) -> int
    decreases s.len(),
{
    if s.len() == 0 {
        -1
    } else if s.last() == c {
        s.len() - 1
    } else {
        last_index_of(s.drop_last(), c)
    }
}

/// The position of the first `c` in `s`, or -1.
pub open spec fn first_index_of(s: Seq<char>, c: char) -> int
    decreases s.len(),
{
    if s.len() == 0 {
        -1
    } else if s[0] == c {
        0
    } else {
        let k = first_index_of(s.drop_first(), c);
        if k < 0 {
            -1
        } else {
            k + 1
        }
    }
}

/// The number of `*` that `s` begins with.
pub open spec fn star_run(s: Seq<char>) -> nat
    decreases s.len(),
{
    if s.len() > 0 && s[0] == '*' {
        1 + star_run(s.drop_first())
    } else {
        0
    }
}

/// The number of identifier characters that `s` begins with.
pub open spec fn ident_run(s: Seq<char>) -> nat
    decreases s.len(),
{
    if s.len() > 0 && is_ident_char(s[0]) {
        1 + ident_run(s.drop_first())
    } else {
        0
    }
}

pub proof fn lemma_ident_run_bound(s: Seq<char>)
    ensures
        ident_run(s) <= s.len(),
        forall|k: int| 0 <= k < ident_run(s) ==> is_ident_char(#[trigger] s[k]),
    decreases s.len(),
{
    if s.len() > 0 && is_ident_char(s[0]) {
        lemma_ident_run_bound(s.drop_first());
        assert forall|k: int| 0 <= k < ident_run(s) implies is_ident_char(#[trigger] s[k]) by {
            if k > 0 {
                assert(s[k] == s.drop_first()[k - 1]);
            }
        }
    }
}

pub proof fn lemma_first_index_bound(s: Seq<char>, c: char)
    ensures
        -1 <= first_index_of(s, c) < s.len(),
        first_index_of(s, c) >= 0 ==> s[first_index_of(s, c)] == c,
    decreases s.len(),
{
    if s.len() > 0 && s[0] != c {
        lemma_first_index_bound(s.drop_first(), c);
    }
}

pub proof fn lemma_last_index_bound(s: Seq<char>, c: char)
    ensures
        -1 <= last_index_of(s, c) < s.len(),
    decreases s.len(),
{
    if s.len() > 0 && s.last() != c {
        lemma_last_index_bound(s.drop_last(), c);
    }
}

/// The position of the last `c` in `s`.
pub fn find_last(s: &[char], c: char) -> (r: Option<usize>)
    ensures
        match r {
            Some(j) => last_index_of(s@, c) == j as int,
            None => last_index_of(s@, c) == -1,
        },
{
    let mut j: usize = s.len();
    assert(s@.subrange(0, s@.len() as int) =~= s@);
    while j > 0
        invariant
            j <= s@.len(),
            last_index_of(s@, c) == last_index_of(s@.subrange(0, j as int), c),
        decreases j,
    {
        if s[j - 1] == c {
            return Some(j - 1);
        }
        assert(s@.subrange(0, j as int).drop_last() =~= s@.subrange(0, j - 1));
        j = j - 1;
    }
    None
}

/// The position of the first `c` in `s`.
pub fn find_first(s: &[char], c: char) -> (r: Option<usize>)
    ensures
        match r {
            Some(j) => first_index_of(s@, c) == j as int,
            None => first_index_of(s@, c) == -1,
        },
{
    let mut i: usize = 0;
    assert(s@.subrange(0, s@.len() as int) =~= s@);
    while i < s.len()
        invariant
            i <= s@.len(),
            first_index_of(s@, c) == if first_index_of(s@.subrange(i as int, s@.len() as int), c) < 0 {
                -1
            } else {
                first_index_of(s@.subrange(i as int, s@.len() as int), c) + i
            },
        decreases s@.len() - i,
    {
        assert(s@.subrange(i as int, s@.len() as int).drop_first() =~= s@.subrange(i + 1, s@.len() as int));
        if s[i] == c {
            return Some(i);
        }
        i = i + 1;
    }
    None
}

/// The number of `*` from position `i` on.
pub fn stars_at(s: &[char], i: usize) -> (r: usize)
    requires
        i <= s@.len(),
    ensures
        r as int == star_run(s@.subrange(i as int, s@.len() as int)),
        i + r <= s@.len(),
{
    let mut j: usize = i;
    assert(s@.subrange(i as int, s@.len() as int) =~= s@.subrange(j as int, s@.len() as int));
    while j < s.len() && s[j] == '*'
        invariant
            i <= j <= s@.len(),
            star_run(s@.subrange(i as int, s@.len() as int)) == (j - i) + star_run(s@.subrange(j as int, s@.len() as int)),
        decreases s@.len() - j,
    {
        assert(s@.subrange(j as int, s@.len() as int).drop_first() =~= s@.subrange(j + 1, s@.len() as int));
        j = j + 1;
    }
    j - i
}

/// The number of identifier characters from position `i` on.
pub fn ident_chars_at(s: &[char], i: usize) -> (r: usize)
    requires
        i <= s@.len(),
    ensures
        r as int == ident_run(s@.subrange(i as int, s@.len() as int)),
        i + r <= s@.len(),
{
    let mut j: usize = i;
    assert(s@.subrange(i as int, s@.len() as int) =~= s@.subrange(j as int, s@.len() as int));
    while j < s.len() && (s[j] == '_' || ('a' <= s[j] && s[j] <= 'z') || ('A' <= s[j] && s[j] <= 'Z') || ('0' <= s[j] && s[j] <= '9'))
        invariant
            i <= j <= s@.len(),
            ident_run(s@.subrange(i as int, s@.len() as int)) == (j - i) + ident_run(s@.subrange(j as int, s@.len() as int)),
        decreases s@.len() - j,
    {
        assert(s@.subrange(j as int, s@.len() as int).drop_first() =~= s@.subrange(j + 1, s@.len() as int));
        j = j + 1;
    }
    j - i
}

/// The first position from `i` on that is not a space.
pub fn skip_spaces(s: &[char], i: usize) -> (r: usize)
    requires
        i <= s@.len(),
    ensures
        i <= r <= s@.len(),
        s@.subrange(r as int, s@.len() as int) == strip_leading_spaces(s@.subrange(i as int, s@.len() as int)),
{
    let mut j: usize = i;
    while j < s.len() && s[j] == ' '
        invariant
            i <= j <= s@.len(),
            strip_leading_spaces(s@.subrange(i as int, s@.len() as int)) == strip_leading_spaces(s@.subrange(j as int, s@.len() as int)),
        decreases s@.len() - j,
    {
        assert(s@.subrange(j as int, s@.len() as int).drop_first() =~= s@.subrange(j + 1, s@.len() as int));
        j = j + 1;
    }
    j
}

/// `s` is a C identifier.
pub fn is_identifier(s: &[char]) -> (r: bool)
    ensures
        r == is_ident(s@),
{
    if s.len() == 0 {
        return false;
    }
    if !(s[0] == '_' || ('a' <= s[0] && s[0] <= 'z') || ('A' <= s[0] && s[0] <= 'Z')) {
        return false;
    }
    let n = ident_chars_at(s, 0);
    proof {
        assert(s@.subrange(0, s@.len() as int) =~= s@);
        lemma_ident_run_bound(s@);
    }
    if n == s.len() {
        true
    } else {
        proof {
            lemma_ident_run_tail(s@);
        }
        false
    }
}

proof fn lemma_ident_run_tail(s: Seq<char>)
    requires
        ident_run(s) < s.len(),
    ensures
        !is_ident_char(s[ident_run(s) as int]),
    decreases s.len(),
{
    if s.len() > 0 && is_ident_char(s[0]) {
        lemma_ident_run_tail(s.drop_first());
    }
}

/// `s` holds no line break.
pub fn has_no_newline(s: &[char]) -> (r: bool)
    ensures
        r == no_newline(s@),
{
    let mut i: usize = 0;
    while i < s.len()
        invariant
            i <= s@.len(),
            forall|k: int| 0 <= k < i ==> s@[k] != '\n',
        decreases s@.len() - i,
    {
        if s[i] == '\n' {
            return false;
        }
        i = i + 1;
    }
    true
}

/// `k` spaces.
pub open spec fn spaces(k: nat) -> Seq<char> {
    Seq::new(k, |i: int| ' ')
}

/// A run of spaces in front of a `*`, or at the end, does not change how a
/// declaration fragment splits.
pub proof fn lemma_space_runs_ignored(x: Seq<char>, k: nat, y: Seq<char>)
    requires
        y.len() == 0 || y[0] == '*',
    ensures
        split_decl(x + spaces(k) + y) == split_decl(x + y),
    decreases k,
{
    if k > 0 {
        let x2 = x + spaces((k - 1) as nat);
        assert(x + spaces(k) + y =~= x2 + seq![' '] + y);
        lemma_space_before_star_ignored(x2, y);
        lemma_space_runs_ignored(x, (k - 1) as nat, y);
    } else {
        assert(x + spaces(k) + y =~= x + y);
    }
}

/// Spaces at the start do not change how a declaration fragment splits.
pub proof fn lemma_leading_spaces_ignored(k: nat, x: Seq<char>)
    ensures
        split_decl(spaces(k) + x) == split_decl(x),
    decreases k,
{
    if k > 0 {
        assert((spaces(k) + x)[0] == ' ');
        assert((spaces(k) + x).drop_first() =~= spaces((k - 1) as nat) + x);
        lemma_leading_spaces_ignored((k - 1) as nat, x);
    } else {
        assert(spaces(k) + x =~= x);
    }
}

} // verus!
