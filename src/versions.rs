//! The selected API version and the predicates that filter registry entries
//! by it.

use vstd::prelude::*;
use crate::dom::{attr, Element};
use crate::error::GenError;
use crate::text::{chars_le, chars_of, copy_range, eq_lit, has_prefix, lex_le, match_at, starts_with, string_of};

verus! {

/// The API family, profile, extension namespace and version number that a
/// translation targets.
pub struct ActiveVersion {
    /// `gl`, `gles1` or `gles2`.
    pub api: String,
    /// `core` or `compatibility` for desktop GL, empty for GL ES.
    pub profile: String,
    /// `gl`, `glcore`, `gles1` or `gles2`.
    pub extension_space: String,
    /// The version number, in the form `X.Y`.
    pub number: String,
}

pub open spec fn is_digit(c: char) -> bool {
    '0' <= c && c <= '9'
}

/// A version number of the form `digit.digit`.
pub open spec fn is_version_number(n: Seq<char>) -> bool {
    n.len() == 3 && is_digit(n[0]) && n[1] == '.' && is_digit(n[2])
}

/// The fields fixed by the prefix of a version token: API, profile,
/// extension namespace, and where the number starts. `gles1` keeps its `1`
/// in the number, as does any other `gles` version its major digit.
pub open spec fn version_prefix(t: Seq<char>) -> Option<(Seq<char>, Seq<char>, Seq<char>, int)> {
    if has_prefix(t, "gles1"@) {
        Some(("gles1"@, Seq::empty(), "gles1"@, 4))
    } else if has_prefix(t, "gles"@) {
        Some(("gles2"@, Seq::empty(), "gles2"@, 4))
    } else if has_prefix(t, "glcore"@) {
        Some(("gl"@, "core"@, "glcore"@, 6))
    } else if has_prefix(t, "gl"@) {
        Some(("gl"@, "compatibility"@, "gl"@, 2))
    } else {
        None
    }
}

/// `t` is a valid version token.
pub open spec fn valid_version_token(t: Seq<char>) -> bool {
    match version_prefix(t) {
        Some(p) => p.3 <= t.len() && is_version_number(t.subrange(p.3, t.len() as int)),
        None => false,
    }
}

/// `item` is one of the `|`-separated entries of `list`.
pub open spec fn in_bar_list(list: Seq<char>, item: Seq<char>) -> bool {
    (forall|k: int| 0 <= k < item.len() ==> item[k] != '|') && exists|i: int|
        #![trigger list.subrange(i, i + item.len())]
        0 <= i && i + item.len() <= list.len() && list.subrange(i, i + item.len()) == item && (i
            == 0 || list[i - 1] == '|') && (i + item.len() == list.len() || list[i + item.len()]
            == '|')
}

/// The element has no `api` attribute, or it names the API of `v`.
pub open spec fn api_ok(v: ActiveVersion, el: Element) -> bool {
    match attr(el, "api"@) {
        Some(a) => a == v.api@,
        None => true,
    }
}

/// The element has a `number` attribute at most the version of `v`.
pub open spec fn version_ok(v: ActiveVersion, el: Element) -> bool {
    match attr(el, "number"@) {
        Some(n) => lex_le(n, v.number@),
        None => false,
    }
}

/// The element has no `profile` attribute, or it names the profile of `v`.
pub open spec fn profile_ok(v: ActiveVersion, el: Element) -> bool {
    match attr(el, "profile"@) {
        Some(p) => p == v.profile@,
        None => true,
    }
}

/// The element's `supported` attribute lists the API of `v`.
pub open spec fn supported_ok(v: ActiveVersion, el: Element) -> bool {
    match attr(el, "supported"@) {
        Some(s) => in_bar_list(s, v.api@),
        None => false,
    }
}

impl ActiveVersion {
    /// The element has no `api` attribute, or it names the selected API.
    pub fn correct_api(&self, el: &Element) -> (r: bool)
        ensures
            r == api_ok(*self, *el),
    {
        match el.get_attribute("api") {
            Some(api) => *api == self.api,
            None => true,
        }
    }

    /// The element has a `number` attribute that is at most the selected
    /// version, compared as strings.
    pub fn correct_version(&self, el: &Element) -> (r: bool)
        ensures
            r == version_ok(*self, *el),
    {
        match el.get_attribute("number") {
            Some(vers) => {
                let a = chars_of(vers.as_str());
                let b = chars_of(self.number.as_str());
                chars_le(a.as_slice(), b.as_slice())
            },
            None => false,
        }
    }

    /// The element has no `profile` attribute, or it names the selected
    /// profile.
    pub fn correct_profile(&self, el: &Element) -> (r: bool)
        ensures
            r == profile_ok(*self, *el),
    {
        match el.get_attribute("profile") {
            Some(prof) => *prof == self.profile,
            None => true,
        }
    }

    /// The element has a `supported` attribute whose `|`-separated list
    /// names the selected API.
    pub fn supported(&self, el: &Element) -> (r: bool)
        ensures
            r == supported_ok(*self, *el),
    {
        match el.get_attribute("supported") {
            Some(supp) => {
                let list = chars_of(supp.as_str());
                let item = chars_of(self.api.as_str());
                bar_list_contains(list.as_slice(), item.as_slice())
            },
            None => false,
        }
    }
}

/// `item` is one of the `|`-separated entries of `list`.
fn bar_list_contains(list: &[char], item: &[char]) -> (r: bool)
    ensures
        r == in_bar_list(list@, item@),
{
    let mut k: usize = 0;
    while k < item.len()
        invariant
            k <= item@.len(),
            forall|j: int| 0 <= j < k ==> item@[j] != '|',
        decreases item@.len() - k,
    {
        if item[k] == '|' {
            return false;
        }
        k = k + 1;
    }
    if item.len() > list.len() {
        return false;
    }
    let last = list.len() - item.len();
    let mut i: usize = 0;
    while i <= last
        invariant
            last + item@.len() == list@.len(),
            forall|k: int| 0 <= k < item@.len() ==> item@[k] != '|',
            forall|j: int|
                #![trigger list@.subrange(j, j + item@.len())]
                0 <= j < i ==> !(list@.subrange(j, j + item@.len()) == item@ && (j == 0 || list@[j
                    - 1] == '|') && (j + item@.len() == list@.len() || list@[j + item@.len()]
                    == '|')),
        decreases last + 1 - i,
    {
        let m = match_at(list, i, item);
        assert(list@.subrange(i as int, list@.len() as int).subrange(0, item@.len() as int)
            =~= list@.subrange(i as int, i + item@.len()));
        let before_ok = i == 0 || list[i - 1] == '|';
        let after_ok = i + item.len() == list.len() || list[i + item.len()] == '|';
        if m && before_ok && after_ok {
            return true;
        }
        if i == last {
            return false;
        }
        i = i + 1;
    }
    false
}

/// Parses a version token: one of the prefixes `gles1`, `gles`, `glcore`,
/// `gl` followed by `digit.digit`.
pub fn parse_version(src: &str) -> (r: Result<ActiveVersion, GenError>)
    ensures
        match r {
            Ok(v) => valid_version_token(src@) && version_prefix(src@) == Some(
                (v.api@, v.profile@, v.extension_space@, version_prefix(src@).unwrap().3),
            ) && v.number@ == src@.subrange(version_prefix(src@).unwrap().3, src@.len() as int),
            Err(e) => !valid_version_token(src@) && (e matches GenError::InvalidVersionToken(
                t,
            ) && t@ == src@),
        },
{
    proof {
        reveal_strlit("gles1");
        reveal_strlit("gles");
        reveal_strlit("glcore");
        reveal_strlit("gl");
    }
    let cs = chars_of(src);
    let (api, profile, space, start): (&str, &str, &str, usize) = if starts_with(
        cs.as_slice(),
        "gles1",
    ) {
        ("gles1", "", "gles1", 4)
    } else if starts_with(cs.as_slice(), "gles") {
        ("gles2", "", "gles2", 4)
    } else if starts_with(cs.as_slice(), "glcore") {
        ("gl", "core", "glcore", 6)
    } else if starts_with(cs.as_slice(), "gl") {
        ("gl", "compatibility", "gl", 2)
    } else {
        return Err(GenError::InvalidVersionToken(src.to_owned()));
    };
    proof {
        reveal_strlit("");
    }
    let n = cs.len() - start;
    if !(n == 3 && '0' <= cs[start] && cs[start] <= '9' && cs[start + 1] == '.' && '0' <= cs[start
        + 2] && cs[start + 2] <= '9') {
        return Err(GenError::InvalidVersionToken(src.to_owned()));
    }
    let number = copy_range(cs.as_slice(), start, cs.len());
    Ok(
        ActiveVersion {
            api: api.to_owned(),
            profile: profile.to_owned(),
            extension_space: space.to_owned(),
            number: string_of(number.as_slice()),
        },
    )
}

/// The name of the selected API and version, as the header of the output
/// states it.
pub open spec fn describe_spec(space: Seq<char>, number: Seq<char>) -> Seq<char> {
    if space == "gl"@ {
        "OpenGL "@ + number
    } else if space == "gles1"@ || space == "gles2"@ {
        "OpenGL ES "@ + number
    } else if space == "glcore"@ {
        "OpenGL Core "@ + number
    } else {
        space + " "@ + number
    }
}

impl ActiveVersion {
    /// The name of the selected API and version, such as `OpenGL ES 2.0`.
    pub fn describe(&self) -> (r: String)
        ensures
            r@ == describe_spec(self.extension_space@, self.number@),
    {
        let mut out: Vec<char> = Vec::new();
        let n = chars_of(self.number.as_str());
        let sp = self.extension_space.as_str();
        if eq_lit(sp, "gl") {
            crate::text::push_lit(&mut out, "OpenGL ");
        } else if eq_lit(sp, "gles1") || eq_lit(sp, "gles2") {
            crate::text::push_lit(&mut out, "OpenGL ES ");
        } else if eq_lit(sp, "glcore") {
            crate::text::push_lit(&mut out, "OpenGL Core ");
        } else {
            let s = chars_of(sp);
            crate::text::push_all(&mut out, s.as_slice());
            crate::text::push_lit(&mut out, " ");
        }
        crate::text::push_all(&mut out, n.as_slice());
        assert(out@ =~= describe_spec(self.extension_space@, self.number@));
        string_of(out.as_slice())
    }

    /// The selected version lists its extensions one by one through an
    /// indexed string query, as GL and GL ES do from version 3.0 on.
    pub fn needs_getstringi_extensions(&self) -> (r: bool)
        ensures
            r == lex_le("3.0"@, self.number@),
    {
        let a = chars_of("3.0");
        let b = chars_of(self.number.as_str());
        chars_le(a.as_slice(), b.as_slice())
    }
}

/// A prefix followed by `digit.digit` is a valid token, and its fields are
/// those of the prefix table: `glcore` gives API `gl`, profile `core`;
/// `gl` gives API `gl`, profile `compatibility`; `gles` gives no profile and
/// API `gles1` when the major digit is 1, else `gles2`.
pub proof fn lemma_prefix_table(p: Seq<char>, d1: char, d2: char)
    requires
        p == "gl"@ || p == "glcore"@ || p == "gles"@,
        is_digit(d1),
        is_digit(d2),
    ensures
        valid_version_token(p + seq![d1, '.', d2]),
        p == "glcore"@ ==> version_prefix(p + seq![d1, '.', d2]) == Some(("gl"@, "core"@, "glcore"@, 6int)),
        p == "gl"@ ==> version_prefix(p + seq![d1, '.', d2]) == Some(("gl"@, "compatibility"@, "gl"@, 2int)),
        p == "gles"@ && d1 == '1' ==> version_prefix(p + seq![d1, '.', d2]) == Some(("gles1"@, Seq::<char>::empty(), "gles1"@, 4int)),
        p == "gles"@ && d1 != '1' ==> version_prefix(p + seq![d1, '.', d2]) == Some(("gles2"@, Seq::<char>::empty(), "gles2"@, 4int)),
{
    reveal_strlit("gl");
    reveal_strlit("glcore");
    reveal_strlit("gles");
    reveal_strlit("gles1");
    let t = p + seq![d1, '.', d2];
    if p == "gl"@ {
        assert(!has_prefix(t, "gles1"@) && !has_prefix(t, "gles"@) && !has_prefix(t, "glcore"@)) by {
            assert(t[2] == d1);
            assert("gles"@[2] == 'e');
            assert("gles1"@[2] == 'e');
            assert("glcore"@[2] == 'c');
            if has_prefix(t, "gles"@) {
                assert(t.subrange(0, 4)[2] == t[2]);
            }
            if has_prefix(t, "gles1"@) {
                assert(t.subrange(0, 5)[2] == t[2]);
            }
            if has_prefix(t, "glcore"@) {
                assert(t.subrange(0, 6)[2] == t[2]);
            }
        }
        assert(t.subrange(0, 2) =~= "gl"@);
        assert(t.subrange(2, t.len() as int) =~= seq![d1, '.', d2]);
    } else if p == "glcore"@ {
        assert(!has_prefix(t, "gles1"@) && !has_prefix(t, "gles"@)) by {
            assert(t[2] == 'c');
            if has_prefix(t, "gles"@) {
                assert(t.subrange(0, 4)[2] == t[2]);
            }
            if has_prefix(t, "gles1"@) {
                assert(t.subrange(0, 5)[2] == t[2]);
            }
        }
        assert(t.subrange(0, 6) =~= "glcore"@);
        assert(t.subrange(6, t.len() as int) =~= seq![d1, '.', d2]);
    } else {
        assert(t.subrange(0, 4) =~= "gles"@);
        assert(t.subrange(4, t.len() as int) =~= seq![d1, '.', d2]);
        if d1 == '1' {
            assert(t.subrange(0, 5) =~= "gles1"@);
        } else {
            if has_prefix(t, "gles1"@) {
                assert(t.subrange(0, 5)[4] == t[4]);
            }
        }
    }
}

} // verus!
