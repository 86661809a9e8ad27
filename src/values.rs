//! Named integer constants: their literals, read and written back.

use vstd::prelude::*;
use crate::cmdline::CmdLine;
use crate::dom::{attr, Element, Node};
use crate::error::{ErrorV, GenError};
use crate::table::{find_name, names_of, sort_strings, sorted_views, views_of};
use crate::text::{chars_of, eq_lit, has_prefix, push_all, push_lit, starts_with, string_of, copy_range};

verus! {

/// A constant's value, in the width and signedness its literal calls for.
#[derive(PartialEq, Eq, Structural, Clone, Copy, Debug)]
pub enum Val {
    U32(u32),
    I32(i32),
    U64(u64),
}

/// The value of a digit character in `base` (10 or 16), if it is one.
pub open spec fn digit_val(c: char, base: nat) -> Option<nat> {
    if '0' <= c && c <= '9' {
        Some(((c as int) - ('0' as int)) as nat)
    } else if base == 16 && 'a' <= c && c <= 'f' {
        Some(((c as int) - ('a' as int) + 10) as nat)
    } else if base == 16 && 'A' <= c && c <= 'F' {
        Some(((c as int) - ('A' as int) + 10) as nat)
    } else {
        None
    }
}

/// The number that the digits `s` write in `base`; the empty sequence is 0.
pub open spec fn digits_value(s: Seq<char>, base: nat) -> Option<nat>
    decreases s.len(),
{
    if s.len() == 0 {
        Some(0)
    } else {
        match (digits_value(s.drop_last(), base), digit_val(s.last(), base)) {
            (Some(v), Some(d)) => Some(v * base + d),
            _ => None,
        }
    }
}

/// The number that the non-empty digit string `s` writes in `base`.
pub open spec fn number_value(s: Seq<char>, base: nat) -> Option<nat> {
    if s.len() == 0 {
        None
    } else {
        digits_value(s, base)
    }
}

/// An unsigned literal: hexadecimal after `0x`, else decimal.
pub open spec fn unsigned_literal(s: Seq<char>) -> Option<nat> {
    if has_prefix(s, "0x"@) {
        number_value(s.subrange(2, s.len() as int), 16)
    } else {
        number_value(s, 10)
    }
}

/// The value of the literal `s` of an `<enum>` whose `type` attribute is
/// `typ`: without a type, a literal starting with `-` is a 32-bit signed
/// decimal and any other a 32-bit unsigned one; `u` is 32-bit unsigned and
/// `ull` 64-bit unsigned. `None` for a malformed or out-of-range literal.
pub open spec fn value_of(s: Seq<char>, typ: Option<Seq<char>>) -> Option<Val> {
    if typ is None && has_prefix(s, "-"@) {
        match number_value(s.subrange(1, s.len() as int), 10) {
            Some(n) => if n <= 0x8000_0000 {
                Some(Val::I32((0 - n) as i32))
            } else {
                None
            },
            None => None,
        }
    } else if typ is None || typ == Some("u"@) {
        match unsigned_literal(s) {
            Some(n) => if n <= u32::MAX {
                Some(Val::U32(n as u32))
            } else {
                None
            },
            None => None,
        }
    } else if typ == Some("ull"@) {
        match unsigned_literal(s) {
            Some(n) => if n <= u64::MAX {
                Some(Val::U64(n as u64))
            } else {
                None
            },
            None => None,
        }
    } else {
        None
    }
}

/// The digit character for `d` (below 16): `0`-`9`, then `a`-`f`.
pub open spec fn digit_char(d: nat) -> char {
    seq!['0', '1', '2', '3', '4', '5', '6', '7', '8', '9', 'a', 'b', 'c', 'd', 'e', 'f'][d as int]
}

proof fn lemma_digit_char(d: nat, base: nat)
    requires
        base == 10 || base == 16,
        d < base,
    ensures
        digit_val(digit_char(d), base) == Some(d),
{
}

/// `n` written in `base` (10 or 16), without leading zeros.
pub open spec fn digits(n: nat, base: nat) -> Seq<char>
    decreases n,
    via digits_decreases
{
    if base < 2 || n < base {
        seq![digit_char(n)]
    } else {
        digits(n / base, base).push(digit_char(n % base))
    }
}

/// The literal that a value is written back as, and the `type` attribute
/// that reads it: hexadecimal for the unsigned widths, decimal for the
/// signed one.
pub open spec fn literal_of(v: Val) -> (Seq<char>, Option<Seq<char>>) {
    match v {
        Val::U32(x) => ("0x"@ + digits(x as nat, 16), Some("u"@)),
        Val::I32(x) => (if x < 0 {
            "-"@ + digits((0 - x) as nat, 10)
        } else {
            digits(x as nat, 10)
        }, None),
        Val::U64(x) => ("0x"@ + digits(x as nat, 16), Some("ull"@)),
    }
}

#[via_fn]
proof fn digits_decreases(n: nat, base: nat) {
    if !(base < 2 || n < base) {
        assert(n / base < n) by (nonlinear_arith)
            requires
                base >= 2,
                n >= base,
        ;
    }
}

proof fn lemma_digits_round_trip(n: nat, base: nat)
    requires
        base == 10 || base == 16,
    ensures
        digits(n, base).len() > 0,
        digits_value(digits(n, base), base) == Some(n),
    decreases n,
{
    if n < base {
        let s = digits(n, base);
        lemma_digit_char(n, base);
        assert(s.drop_last() =~= Seq::<char>::empty());
        assert(digits_value(s.drop_last(), base) == Some(0nat));
        assert(0 * base + n == n) by (nonlinear_arith);
        assert(s.last() == digit_char(n));
    } else {
        lemma_digits_round_trip(n / base, base);
        let s = digits(n, base);
        assert(s.drop_last() =~= digits(n / base, base));
        assert(n % base < base) by (nonlinear_arith)
            requires base >= 2;
        assert((n / base) * base + n % base == n) by (nonlinear_arith)
            requires base >= 2;
        lemma_digit_char(n % base, base);
        assert(s.last() == digit_char(n % base));
        assert(digits_value(s.drop_last(), base) == Some(n / base));
    }
}

/// A value written back as a literal reads as the same value. Zero read as
/// a signed value is the one exception: its literal `0` reads as unsigned.
pub proof fn lemma_literal_round_trip(v: Val)
    requires
        !(v matches Val::I32(x) && x >= 0),
    ensures
        value_of(literal_of(v).0, literal_of(v).1) == Some(v),
{
    reveal_strlit("0x");
    reveal_strlit("-");
    reveal_strlit("u");
    reveal_strlit("ull");
    match v {
        Val::U32(x) => {
            lemma_digits_round_trip(x as nat, 16);
            let s = "0x"@ + digits(x as nat, 16);
            assert(s.subrange(2, s.len() as int) =~= digits(x as nat, 16));
            assert(s.subrange(0, 2) =~= "0x"@);
            assert(s.subrange(0, 1)[0] == '0');
            assert(!has_prefix(s, "-"@));
        },
        Val::I32(x) => {
            lemma_digits_round_trip((0 - x) as nat, 10);
            let s = "-"@ + digits((0 - x) as nat, 10);
            assert(s.subrange(1, s.len() as int) =~= digits((0 - x) as nat, 10));
            assert(s.subrange(0, 1) =~= "-"@);
        },
        Val::U64(x) => {
            lemma_digits_round_trip(x as nat, 16);
            let s = "0x"@ + digits(x as nat, 16);
            assert(s.subrange(2, s.len() as int) =~= digits(x as nat, 16));
            assert(s.subrange(0, 2) =~= "0x"@);
            assert(!("ull"@ =~= "u"@));
        },
    }
}

fn digit_of(c: char, base: u64) -> (r: Option<u64>)
    requires
        base == 10 || base == 16,
    ensures
        match r {
            Some(d) => digit_val(c, base as nat) == Some(d as nat) && d < base,
            None => digit_val(c, base as nat) is None,
        },
{
    if '0' <= c && c <= '9' {
        Some((c as u32 - '0' as u32) as u64)
    } else if base == 16 && 'a' <= c && c <= 'f' {
        Some((c as u32 - 'a' as u32 + 10) as u64)
    } else if base == 16 && 'A' <= c && c <= 'F' {
        Some((c as u32 - 'A' as u32 + 10) as u64)
    } else {
        None
    }
}

proof fn lemma_digits_prefix(s: Seq<char>, i: int, base: nat, limit: nat)
    requires
        0 <= i <= s.len(),
        base >= 2,
        match digits_value(s.subrange(0, i), base) {
            Some(v) => v > limit,
            None => true,
        },
    ensures
        match digits_value(s, base) {
            Some(w) => w > limit,
            None => true,
        },
    decreases s.len(),
{
    if i == s.len() {
        assert(s.subrange(0, i) =~= s);
    } else {
        assert(s.drop_last().subrange(0, i) =~= s.subrange(0, i));
        lemma_digits_prefix(s.drop_last(), i, base, limit);
        match (digits_value(s.drop_last(), base), digit_val(s.last(), base)) {
            (Some(v), Some(d)) => {
                assert(v * base + d >= v) by (nonlinear_arith)
                    requires base >= 2;
            },
            _ => {},
        }
    }
}

/// The number that the non-empty digits `s` write in `base`, if it is at
/// most `limit`.
fn parse_number(s: &[char], base: u64, limit: u64) -> (r: Option<u64>)
    requires
        base == 10 || base == 16,
    ensures
        match r {
            Some(v) => number_value(s@, base as nat) == Some(v as nat) && v <= limit,
            None => match number_value(s@, base as nat) {
                Some(w) => w > limit,
                None => true,
            },
        },
{
    if s.len() == 0 {
        return None;
    }
    let mut acc: u64 = 0;
    let mut i: usize = 0;
    assert(s@.subrange(0, 0) =~= Seq::<char>::empty());
    while i < s.len()
        invariant
            i <= s@.len(),
            s@.len() > 0,
            base == 10 || base == 16,
            digits_value(s@.subrange(0, i as int), base as nat) == Some(acc as nat),
            acc <= limit,
        decreases s@.len() - i,
    {
        let ghost pre = s@.subrange(0, i + 1);
        assert(pre.drop_last() =~= s@.subrange(0, i as int));
        assert(pre.last() == s@[i as int]);
        match digit_of(s[i], base) {
            None => {
                proof {
                    lemma_digits_prefix(s@, i + 1, base as nat, limit as nat);
                }
                return None;
            },
            Some(d) => {
                if d > limit {
                    proof {
                        assert(acc * base + d > limit) by (nonlinear_arith)
                            requires
                                d > limit,
                                acc >= 0,
                                base >= 2,
                        ;
                        lemma_digits_prefix(s@, i + 1, base as nat, limit as nat);
                    }
                    return None;
                }
                let q = (limit - d) / base;
                if acc > q {
                    proof {
                        if d <= limit {
                            assert(acc * base + d > limit) by (nonlinear_arith)
                                requires
                                    acc as int > q as int,
                                    q as int == (limit as int - d as int) / (base as int),
                                    base >= 2,
                                    d <= limit,
                            ;
                        } else {
                            assert(acc * base + d > limit) by (nonlinear_arith)
                                requires
                                    d > limit,
                                    acc >= 0,
                                    base >= 2,
                            ;
                        }
                        lemma_digits_prefix(s@, i + 1, base as nat, limit as nat);
                    }
                    return None;
                }
                assert(acc * base + d <= limit) by (nonlinear_arith)
                    requires
                        acc as int <= q as int,
                        q as int == (limit as int - d as int) / (base as int),
                        base >= 2,
                        d <= limit,
                ;
                acc = acc * base + d;
            },
        }
        i = i + 1;
    }
    assert(s@.subrange(0, s@.len() as int) =~= s@);
    Some(acc)
}

/// The error for a literal that does not read: an unknown `type` attribute
/// is named, else the literal.
pub open spec fn value_error(s: Seq<char>, typ: Option<Seq<char>>) -> ErrorV {
    match typ {
        Some(t) => if t == "u"@ || t == "ull"@ {
            ErrorV::MalformedDeclaration(s)
        } else {
            ErrorV::MalformedDeclaration(t)
        },
        None => ErrorV::MalformedDeclaration(s),
    }
}

fn parse_unsigned(cs: &[char], limit: u64) -> (r: Option<u64>)
    ensures
        match r {
            Some(v) => unsigned_literal(cs@) == Some(v as nat) && v <= limit,
            None => match unsigned_literal(cs@) {
                Some(w) => w > limit,
                None => true,
            },
        },
{
    proof {
        reveal_strlit("0x");
    }
    if starts_with(cs, "0x") {
        let digits = copy_range(cs, 2, cs.len());
        parse_number(digits.as_slice(), 16, limit)
    } else {
        parse_number(cs, 10, limit)
    }
}

/// Reads the literal `s` of an `<enum>` whose `type` attribute is `typ`.
pub fn parse_value(s: &str, typ: Option<&str>) -> (r: Result<Val, GenError>)
    ensures
        match r {
            Ok(v) => value_of(s@, match typ { Some(t) => Some(t@), None => None }) == Some(v),
            Err(e) => value_of(s@, match typ { Some(t) => Some(t@), None => None }) is None
                && e@ == value_error(s@, match typ { Some(t) => Some(t@), None => None }),
        },
{
    proof {
        reveal_strlit("-");
        reveal_strlit("u");
        reveal_strlit("ull");
    }
    let cs = chars_of(s);
    let is_u = match typ { Some(t) => eq_lit(t, "u"), None => false };
    let is_ull = match typ { Some(t) => eq_lit(t, "ull"), None => false };
    if typ.is_none() && starts_with(cs.as_slice(), "-") {
        let digits = copy_range(cs.as_slice(), 1, cs.len());
        match parse_number(digits.as_slice(), 10, 0x8000_0000) {
            Some(n) => {
                let v: i32 = if n == 0x8000_0000 { i32::MIN } else { -(n as i32) };
                Ok(Val::I32(v))
            },
            None => Err(GenError::MalformedDeclaration(s.to_owned())),
        }
    } else if typ.is_none() || is_u {
        match parse_unsigned(cs.as_slice(), 0xffff_ffff) {
            Some(n) => Ok(Val::U32(n as u32)),
            None => Err(GenError::MalformedDeclaration(s.to_owned())),
        }
    } else if is_ull {
        match parse_unsigned(cs.as_slice(), 0xffff_ffff_ffff_ffff) {
            Some(n) => Ok(Val::U64(n)),
            None => Err(GenError::MalformedDeclaration(s.to_owned())),
        }
    } else {
        match typ {
            Some(t) => Err(GenError::MalformedDeclaration(t.to_owned())),
            None => Err(GenError::MalformedDeclaration(s.to_owned())),
        }
    }
}

pub(crate) fn push_digits(out: &mut Vec<char>, n: u64, base: u64)
    requires
        base == 10 || base == 16,
    ensures
        final(out)@ == old(out)@ + digits(n as nat, base as nat),
    decreases n,
{
    if n >= base {
        push_digits(out, n / base, base);
    }
    let d = n % base;
    let c = if d < 10 {
        ((d as u32 + '0' as u32) as u8) as char
    } else {
        ((d as u32 - 10 + 'a' as u32) as u8) as char
    };
    assert(c == digit_char(d as nat));
    out.push(c);
    assert(final(out)@ =~= old(out)@ + digits(n as nat, base as nat)) by {
        if n >= base {
            assert(digits(n as nat, base as nat) == digits((n / base) as nat, base as nat).push(digit_char((n % base) as nat)));
        } else {
            assert(d == n);
        }
    }
}

/// The line of Rust that declares the constant `name` with value `v`.
pub open spec fn const_line(name: Seq<char>, v: Val) -> Seq<char> {
    "pub const "@ + name + match v {
        Val::U32(_) => ": u32 = "@,
        Val::I32(_) => ": i32 = "@,
        Val::U64(_) => ": u64 = "@,
    } + literal_of(v).0 + ";"@
}

impl Val {
    /// The Rust declaration of the constant `name` with this value: unsigned
    /// values in hexadecimal, signed ones in decimal.
    pub fn output(&self, name: &str, _opts: &CmdLine) -> (r: String)
        ensures
            r@ == const_line(name@, *self),
    {
        let mut out: Vec<char> = Vec::new();
        push_lit(&mut out, "pub const ");
        let nc = chars_of(name);
        push_all(&mut out, nc.as_slice());
        match *self {
            Val::U32(x) => {
                push_lit(&mut out, ": u32 = ");
                push_lit(&mut out, "0x");
                push_digits(&mut out, x as u64, 16);
            },
            Val::I32(x) => {
                push_lit(&mut out, ": i32 = ");
                if x < 0 {
                    push_lit(&mut out, "-");
                    let m: u64 = (0 - (x as i64)) as u64;
                    push_digits(&mut out, m, 10);
                } else {
                    push_digits(&mut out, x as u64, 10);
                }
            },
            Val::U64(x) => {
                push_lit(&mut out, ": u64 = ");
                push_lit(&mut out, "0x");
                push_digits(&mut out, x, 16);
            },
        }
        push_lit(&mut out, ";");
        assert(out@ =~= const_line(name@, *self));
        string_of(out.as_slice())
    }
}

/// What the `<enum>` element `e` adds to a table whose names are `known`:
/// nothing for an alias or a nameless entry, else its name and value. A
/// name already in the table is a `DuplicateName`; a missing or malformed
/// value a `MalformedDeclaration`.
pub open spec fn value_entry(e: Element, known: Seq<Seq<char>>) -> Option<Result<(Seq<char>, Val), ErrorV>> {
    if e.name@ != "enum"@ || attr(e, "alias"@) is Some {
        None
    } else {
        match attr(e, "name"@) {
            None => None,
            Some(n) => Some(if known.contains(n) {
                Err(ErrorV::DuplicateName(n))
            } else {
                match attr(e, "value"@) {
                    None => Err(ErrorV::MalformedDeclaration(n)),
                    Some(s) => match value_of(s, attr(e, "type"@)) {
                        Some(v) => Ok((n, v)),
                        None => Err(value_error(s, attr(e, "type"@))),
                    },
                }
            }),
        }
    }
}

/// The names of a table of constants.
pub open spec fn value_names(rows: Seq<(Seq<char>, Val)>) -> Seq<Seq<char>> {
    rows.map_values(|r: (Seq<char>, Val)| r.0)
}

/// A table of constants as rows of name and value.
pub open spec fn value_rows(entries: Seq<(String, Val)>) -> Seq<(Seq<char>, Val)> {
    entries.map_values(|e: (String, Val)| (e.0@, e.1))
}

/// The constants after the node `n` of an `<enums>` block.
pub open spec fn add_value(acc: Result<Seq<(Seq<char>, Val)>, ErrorV>, n: Node) -> Result<Seq<(Seq<char>, Val)>, ErrorV> {
    match acc {
        Err(e) => Err(e),
        Ok(rows) => match n {
            Node::Element(e) => match value_entry(e, value_names(rows)) {
                None => Ok(rows),
                Some(Ok(row)) => Ok(rows.push(row)),
                Some(Err(x)) => Err(x),
            },
            Node::Text(_) => Ok(rows),
        },
    }
}

/// The constants after the nodes `items` of an `<enums>` block.
pub open spec fn values_block(items: Seq<Node>, start: Result<Seq<(Seq<char>, Val)>, ErrorV>) -> Result<Seq<(Seq<char>, Val)>, ErrorV>
    decreases items.len(),
{
    if items.len() == 0 {
        start
    } else {
        add_value(values_block(items.drop_last(), start), items.last())
    }
}

/// The constants declared in the `<enums>` elements among `children`, in
/// document order.
pub open spec fn values_of_nodes(children: Seq<Node>) -> Result<Seq<(Seq<char>, Val)>, ErrorV>
    decreases children.len(),
{
    if children.len() == 0 {
        Ok(Seq::empty())
    } else {
        let prev = values_of_nodes(children.drop_last());
        match children.last() {
            Node::Element(e) => if e.name@ == "enums"@ {
                values_block(e.contents@, prev)
            } else {
                prev
            },
            Node::Text(_) => prev,
        }
    }
}

proof fn lemma_values_block_err(items: Seq<Node>, e: ErrorV)
    ensures
        values_block(items, Err(e)) == Err::<Seq<(Seq<char>, Val)>, ErrorV>(e),
    decreases items.len(),
{
    if items.len() > 0 {
        lemma_values_block_err(items.drop_last(), e);
    }
}

proof fn lemma_values_block_prefix(items: Seq<Node>, i: int, start: Result<Seq<(Seq<char>, Val)>, ErrorV>)
    requires
        0 <= i <= items.len(),
        values_block(items.subrange(0, i), start) is Err,
    ensures
        values_block(items, start) == values_block(items.subrange(0, i), start),
    decreases items.len(),
{
    if i == items.len() {
        assert(items.subrange(0, i) =~= items);
    } else {
        assert(items.drop_last().subrange(0, i) =~= items.subrange(0, i));
        lemma_values_block_prefix(items.drop_last(), i, start);
    }
}

proof fn lemma_values_nodes_prefix(children: Seq<Node>, i: int)
    requires
        0 <= i <= children.len(),
        values_of_nodes(children.subrange(0, i)) is Err,
    ensures
        values_of_nodes(children) == values_of_nodes(children.subrange(0, i)),
    decreases children.len(),
{
    if i == children.len() {
        assert(children.subrange(0, i) =~= children);
    } else {
        assert(children.drop_last().subrange(0, i) =~= children.subrange(0, i));
        lemma_values_nodes_prefix(children.drop_last(), i);
        let e = values_of_nodes(children.subrange(0, i))->Err_0;
        match children.last() {
            Node::Element(el) => {
                lemma_values_block_err(el.contents@, e);
            },
            Node::Text(_) => {},
        }
    }
}

/// Reads one element of an `<enums>` block into the table.
fn gather_value(e: &Element, map: &mut Vec<(String, Val)>) -> (r: Result<(), GenError>)
    ensures
        match value_entry(*e, names_of(old(map)@)) {
            None => r is Ok && final(map)@ == old(map)@,
            Some(Ok(row)) => r is Ok && value_rows(final(map)@) == value_rows(old(map)@).push(row),
            Some(Err(x)) => r matches Err(er) && er@ == x,
        },
{
    if !eq_lit(e.get_name(), "enum") || e.has_attribute("alias") {
        return Ok(());
    }
    let name = match e.get_attribute("name") {
        None => {
            return Ok(());
        },
        Some(n) => n,
    };
    let nc = chars_of(name.as_str());
    if let Some(idx) = find_name(map, nc.as_slice()) {
        assert(names_of(map@)[idx as int] == name@);
        return Err(GenError::DuplicateName(name.clone()));
    }
    let value = match e.get_attribute("value") {
        None => {
            return Err(GenError::MalformedDeclaration(name.clone()));
        },
        Some(v) => v,
    };
    let typ: Option<&str> = match e.get_attribute("type") {
        Some(t) => Some(t.as_str()),
        None => None,
    };
    let v = parse_value(value.as_str(), typ)?;
    let ghost before = value_rows(map@);
    map.push((name.clone(), v));
    assert(value_rows(map@) =~= before.push((name@, v)));
    Ok(())
}

/// Reads the constants from the registry, aliases left out: the table in
/// document order and the names in lexicographic order.
pub fn gather_values(root: &Element, _opts: &CmdLine) -> (r: Result<(Vec<(String, Val)>, Vec<String>), GenError>)
    ensures
        match r {
            Ok((map, order)) => values_of_nodes(root.contents@) == Ok::<Seq<(Seq<char>, Val)>, ErrorV>(value_rows(map@))
                && (forall|a: int, b: int| 0 <= a < b < map@.len() ==> map@[a].0@ != map@[b].0@)
                && views_of(order@).to_multiset() == names_of(map@).to_multiset()
                && sorted_views(order@),
            Err(e) => values_of_nodes(root.contents@) == Err::<Seq<(Seq<char>, Val)>, ErrorV>(e@),
        },
{
    let mut map: Vec<(String, Val)> = Vec::new();
    let mut i: usize = 0;
    assert(value_rows(map@) =~= Seq::<(Seq<char>, Val)>::empty());
    while i < root.contents.len()
        invariant
            i <= root.contents@.len(),
            values_of_nodes(root.contents@.subrange(0, i as int)) == Ok::<Seq<(Seq<char>, Val)>, ErrorV>(value_rows(map@)),
            forall|a: int, b: int| 0 <= a < b < map@.len() ==> map@[a].0@ != map@[b].0@,
        decreases root.contents@.len() - i,
    {
        let ghost kids = root.contents@;
        assert(kids.subrange(0, i + 1).drop_last() =~= kids.subrange(0, i as int));
        match &root.contents[i] {
            Node::Element(block) => {
                if eq_lit(block.get_name(), "enums") {
                    let ghost prev = values_of_nodes(kids.subrange(0, i as int));
                    let mut j: usize = 0;
                    assert(block.contents@.subrange(0, 0) =~= Seq::<Node>::empty());
                    while j < block.contents.len()
                        invariant
                            j <= block.contents@.len(),
                            i < kids.len(),
                            kids == root.contents@,
                            kids[i as int] == Node::Element(*block),
                            block.name@ == "enums"@,
                            prev == values_of_nodes(kids.subrange(0, i as int)),
                            kids.subrange(0, i + 1).drop_last() == kids.subrange(0, i as int),
                            values_block(block.contents@.subrange(0, j as int), prev) == Ok::<Seq<(Seq<char>, Val)>, ErrorV>(value_rows(map@)),
                            forall|a: int, b: int| 0 <= a < b < map@.len() ==> map@[a].0@ != map@[b].0@,
                        decreases block.contents@.len() - j,
                    {
                        let ghost items = block.contents@;
                        assert(items.subrange(0, j + 1).drop_last() =~= items.subrange(0, j as int));
                        match &block.contents[j] {
                            Node::Element(tag) => {
                                assert(names_of(map@) =~= value_names(value_rows(map@)));
                                let ghost old_map = map@;
                                match gather_value(tag, &mut map) {
                                    Ok(()) => {
                                        proof {
                                            match value_entry(*tag, names_of(old_map)) {
                                                Some(Ok(row)) => {
                                                    assert(!names_of(old_map).contains(row.0));
                                                    assert(map@.len() == old_map.len() + 1) by {
                                                        assert(value_rows(map@).len() == value_rows(old_map).len() + 1);
                                                    }
                                                    assert forall|a: int, b: int| 0 <= a < b < map@.len() implies map@[a].0@ != map@[b].0@ by {
                                                        assert(value_rows(map@)[a].0 == map@[a].0@);
                                                        assert(value_rows(map@)[b].0 == map@[b].0@);
                                                        if b == old_map.len() as int {
                                                            assert(value_rows(map@)[b].0 == row.0);
                                                            assert(value_rows(map@)[a] == value_rows(old_map)[a]);
                                                            assert(names_of(old_map)[a] == old_map[a].0@);
                                                        } else {
                                                            assert(value_rows(map@)[a] == value_rows(old_map)[a]);
                                                            assert(value_rows(map@)[b] == value_rows(old_map)[b]);
                                                        }
                                                    }
                                                },
                                                _ => {},
                                            }
                                        }
                                    },
                                    Err(e) => {
                                        proof {
                                            lemma_values_block_prefix(items, j + 1, prev);
                                            lemma_values_nodes_prefix(kids, i + 1);
                                        }
                                        return Err(e);
                                    },
                                }
                            },
                            Node::Text(_) => {},
                        }
                        j = j + 1;
                    }
                    assert(block.contents@.subrange(0, block.contents@.len() as int) =~= block.contents@);
                }
            },
            Node::Text(_) => {},
        }
        i = i + 1;
    }
    assert(root.contents@.subrange(0, root.contents@.len() as int) =~= root.contents@);
    let mut order: Vec<String> = Vec::new();
    let mut k: usize = 0;
    while k < map.len()
        invariant
            k <= map@.len(),
            views_of(order@) == names_of(map@).subrange(0, k as int),
        decreases map@.len() - k,
    {
        let ghost before = views_of(order@);
        let nm = map[k].0.clone();
        assert(nm@ == names_of(map@)[k as int]);
        order.push(nm);
        assert(views_of(order@) =~= before.push(names_of(map@)[k as int]));
        k = k + 1;
    }
    assert(names_of(map@).subrange(0, map@.len() as int) =~= names_of(map@));
    sort_strings(&mut order);
    Ok((map, order))
}

} // verus!
