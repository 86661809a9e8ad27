//! The provenance comments of the registry, carried into the output.

use vstd::prelude::*;
use crate::decl::strip_trailing_spaces;
use crate::dom::{Element, Node};
use crate::text::{chars_of, eq_lit, push_all, push_lit, string_of};

verus! {

/// The text of the `<comment>` elements among the first `i` children of `e`
/// and below them; text counts only directly inside a `<comment>`.
pub open spec fn comment_text_upto(e: Element, i: int) -> Seq<char>
    decreases e, i,
{
    if i <= 0 || i > e.contents@.len() {
        Seq::empty()
    } else {
        let prev = comment_text_upto(e, i - 1);
        match e.contents@[i - 1] {
            Node::Text(t) => if e.name@ == "comment"@ {
                prev + t@
            } else {
                prev
            },
            Node::Element(c) => prev + comment_text_upto(c, c.contents@.len() as int),
        }
    }
}

/// The text directly inside the `<comment>` elements of `e`, in document
/// order.
pub open spec fn comment_text(e: Element) -> Seq<char> {
    comment_text_upto(e, e.contents@.len() as int)
}

/// Appends the text of the `<comment>` elements in `root` to `out`.
pub fn gather_comment_elements(root: &Element, out: &mut Vec<char>)
    ensures
        final(out)@ == old(out)@ + comment_text(*root),
    decreases root,
{
    let gather_text = eq_lit(root.get_name(), "comment");
    let mut i: usize = 0;
    while i < root.contents.len()
        invariant
            i <= root.contents@.len(),
            gather_text == (root.name@ == "comment"@),
            out@ == old(out)@ + comment_text_upto(*root, i as int),
        decreases root.contents@.len() - i,
    {
        match &root.contents[i] {
            Node::Text(t) => {
                if gather_text {
                    let cs = chars_of(t.as_str());
                    push_all(out, cs.as_slice());
                }
            },
            Node::Element(c) => {
                gather_comment_elements(c, out);
            },
        }
        i = i + 1;
        assert(out@ =~= old(out)@ + comment_text_upto(*root, i as int));
    }
}

/// One line of the comment as a Rust comment line, trailing spaces dropped.
pub open spec fn comment_line(l: Seq<char>) -> Seq<char> {
    (if strip_trailing_spaces(l).len() == 0 {
        "//"@
    } else {
        "// "@ + strip_trailing_spaces(l)
    }) + seq!['\n']
}

/// `out` followed by the lines of `s` (split on line breaks, the piece after
/// the last one included) as comment lines; `cur` is the line being read.
pub open spec fn comment_lines_acc(s: Seq<char>, cur: Seq<char>, out: Seq<char>) -> Seq<char>
    decreases s.len(),
{
    if s.len() == 0 {
        out + comment_line(cur)
    } else if s[0] == '\n' {
        comment_lines_acc(s.drop_first(), Seq::empty(), out + comment_line(cur))
    } else {
        comment_lines_acc(s.drop_first(), cur.push(s[0]), out)
    }
}

/// The comment text as Rust comment lines, with an empty comment line first
/// unless the text starts with a line break.
pub open spec fn comment_output(text: Seq<char>) -> Seq<char> {
    (if text.len() > 0 && text[0] == '\n' {
        Seq::empty()
    } else {
        "//\n"@
    }) + comment_lines_acc(text, Seq::empty(), Seq::empty())
}

fn push_comment_line(out: &mut Vec<char>, l: &Vec<char>)
    ensures
        final(out)@ == old(out)@ + comment_line(l@),
{
    let mut j: usize = l.len();
    assert(l@.subrange(0, j as int) =~= l@);
    while j > 0 && l[j - 1] == ' '
        invariant
            j <= l@.len(),
            strip_trailing_spaces(l@) == strip_trailing_spaces(l@.subrange(0, j as int)),
        decreases j,
    {
        assert(l@.subrange(0, j as int).drop_last() =~= l@.subrange(0, j - 1));
        j = j - 1;
    }
    assert(j == 0 || l@.subrange(0, j as int).last() != ' ');
    assert(strip_trailing_spaces(l@) == l@.subrange(0, j as int));
    if j == 0 {
        push_lit(out, "//");
    } else {
        push_lit(out, "// ");
        let t = crate::text::copy_range(l.as_slice(), 0, j);
        push_all(out, t.as_slice());
    }
    out.push('\n');
}

/// The comments of the registry as Rust comment lines.
pub fn output_comment_elements(root: &Element) -> (r: String)
    ensures
        r@ == comment_output(comment_text(*root)),
{
    let mut text: Vec<char> = Vec::new();
    gather_comment_elements(root, &mut text);
    assert(text@ =~= comment_text(*root));
    let mut out: Vec<char> = Vec::new();
    if !(text.len() > 0 && text[0] == '\n') {
        push_lit(&mut out, "//\n");
    }
    let ghost head = out@;
    let mut cur: Vec<char> = Vec::new();
    let mut i: usize = 0;
    assert(text@.subrange(0, text@.len() as int) =~= text@);
    assert(head + comment_lines_acc(text@, Seq::empty(), Seq::empty()) == comment_output(text@));
    proof {
        lemma_comment_acc_shift(text@, Seq::empty(), Seq::empty(), head);
        assert(Seq::<char>::empty() + head =~= head);
    }
    while i < text.len()
        invariant
            i <= text@.len(),
            comment_lines_acc(text@.subrange(i as int, text@.len() as int), cur@, out@) == comment_output(text@),
        decreases text@.len() - i,
    {
        assert(text@.subrange(i as int, text@.len() as int).drop_first() =~= text@.subrange(i + 1, text@.len() as int));
        if text[i] == '\n' {
            push_comment_line(&mut out, &cur);
            cur = Vec::new();
        } else {
            cur.push(text[i]);
        }
        i = i + 1;
    }
    push_comment_line(&mut out, &cur);
    string_of(out.as_slice())
}

proof fn lemma_comment_acc_shift(s: Seq<char>, cur: Seq<char>, out: Seq<char>, head: Seq<char>)
    ensures
        comment_lines_acc(s, cur, head + out) == head + comment_lines_acc(s, cur, out),
    decreases s.len(),
{
    if s.len() == 0 {
        assert(head + out + comment_line(cur) =~= head + (out + comment_line(cur)));
    } else if s[0] == '\n' {
        assert(head + out + comment_line(cur) =~= head + (out + comment_line(cur)));
        lemma_comment_acc_shift(s.drop_first(), Seq::empty(), out + comment_line(cur), head);
    } else {
        lemma_comment_acc_shift(s.drop_first(), cur.push(s[0]), out, head);
    }
}

} // verus!
