//! The attributed tree that the registry is read into.

use vstd::prelude::*;
use crate::error::GenError;

verus! {

/// One child of an element: a nested element or a run of text.
pub enum Node {
    Element(Element),
    Text(String),
}

/// An element: its name, its attributes in document order, and its children
/// in document order.
pub struct Element {
    pub name: String,
    pub attributes: Vec<(String, String)>,
    pub contents: Vec<Node>,
}

/// The value of the first attribute named `key` in `attrs`, if any.
pub open spec fn lookup_attr(attrs: Seq<(String, String)>, key: Seq<char>) -> Option<Seq<char>>
    decreases attrs.len(),
{
    if attrs.len() == 0 {
        None
    } else if attrs[0].0@ == key {
        Some(attrs[0].1@)
    } else {
        lookup_attr(attrs.drop_first(), key)
    }
}

/// The value of the attribute `key` of `e`, if it has one.
pub open spec fn attr(e: Element, key: Seq<char>) -> Option<Seq<char>> {
    lookup_attr(e.attributes@, key)
}

/// The text of the first `i` children of `e`, nested elements included, in
/// document order.
pub open spec fn text_upto(e: Element, i: int) -> Seq<char>
    decreases e, i,
{
    if i <= 0 || i > e.contents@.len() {
        Seq::empty()
    } else {
        let prev = text_upto(e, i - 1);
        match e.contents@[i - 1] {
            Node::Text(t) => prev + t@,
            Node::Element(c) => prev + text_upto(c, c.contents@.len() as int),
        }
    }
}

/// All text inside `e`, in document order.
pub open spec fn text_of(e: Element) -> Seq<char> {
    text_upto(e, e.contents@.len() as int)
}

/// Appends the text inside `root` to `out`.
fn sub_get_text(root: &Element, out: &mut Vec<char>)
    ensures
        final(out)@ == old(out)@ + text_of(*root),
    decreases root,
{
    let mut i: usize = 0;
    while i < root.contents.len()
        invariant
            i <= root.contents@.len(),
            out@ == old(out)@ + text_upto(*root, i as int),
        decreases root.contents@.len() - i,
    {
        match &root.contents[i] {
            Node::Text(t) => {
                let cs = crate::text::chars_of(t.as_str());
                let mut j: usize = 0;
                let ghost before = out@;
                while j < cs.len()
                    invariant
                        j <= cs@.len(),
                        out@ == before + cs@.subrange(0, j as int),
                    decreases cs@.len() - j,
                {
                    out.push(cs[j]);
                    j = j + 1;
                    assert(out@ =~= before + cs@.subrange(0, j as int));
                }
                assert(cs@.subrange(0, j as int) =~= cs@);
            },
            Node::Element(c) => {
                sub_get_text(c, out);
            },
        }
        i = i + 1;
        assert(out@ =~= old(out)@ + text_upto(*root, i as int));
    }
}

impl Element {
    /// An element with the given name, attributes and children.
    pub fn new(name: String, attributes: Vec<(String, String)>, contents: Vec<Node>) -> (r: Element)
        ensures
            r.name == name,
            r.attributes == attributes,
            r.contents == contents,
    {
        Element { name, attributes, contents }
    }

    pub fn get_name(&self) -> (r: &str)
        ensures
            r@ == self.name@,
    {
        self.name.as_str()
    }

    pub fn get_children(&self) -> (r: &[Node])
        ensures
            r@ == self.contents@,
    {
        self.contents.as_slice()
    }

    pub fn get_attributes(&self) -> (r: &[(String, String)])
        ensures
            r@ == self.attributes@,
    {
        self.attributes.as_slice()
    }

    /// The value of the attribute `key`, if the element has one.
    pub fn get_attribute(&self, key: &str) -> (r: Option<&String>)
        ensures
            match r {
                Some(v) => attr(*self, key@) == Some(v@),
                None => attr(*self, key@) is None,
            },
    {
        let mut i: usize = 0;
        assert(self.attributes@.subrange(0, self.attributes@.len() as int) =~= self.attributes@);
        while i < self.attributes.len()
            invariant
                i <= self.attributes@.len(),
                lookup_attr(self.attributes@, key@) == lookup_attr(
                    self.attributes@.subrange(i as int, self.attributes@.len() as int),
                    key@,
                ),
            decreases self.attributes@.len() - i,
        {
            let ghost rest = self.attributes@.subrange(i as int, self.attributes@.len() as int);
            assert(rest.drop_first() =~= self.attributes@.subrange(
                i + 1,
                self.attributes@.len() as int,
            ));
            if crate::text::eq_lit(self.attributes[i].0.as_str(), key) {
                return Some(&self.attributes[i].1);
            }
            i = i + 1;
        }
        None
    }

    /// The element carries the attribute `key`.
    pub fn has_attribute(&self, key: &str) -> (r: bool)
        ensures
            r == (attr(*self, key@) is Some),
    {
        self.get_attribute(key).is_some()
    }

    /// All text inside the element, in document order.
    pub fn get_text(&self) -> (r: String)
        ensures
            r@ == text_of(*self),
    {
        let mut out: Vec<char> = Vec::new();
        sub_get_text(self, &mut out);
        assert(out@ =~= text_of(*self));
        crate::text::string_of(out.as_slice())
    }

    /// The UTF-8 encoding of all text inside the element.
    pub fn get_text_as_bytes(&self) -> (r: Vec<u8>)
        ensures
            r@ == vstd::utf8::encode_utf8(text_of(*self)),
    {
        let s = self.get_text();
        s.as_str().as_bytes_vec()
    }
}

/// One event of a parsed document: an element opens with its name and
/// attributes, closes with its name, or a run of text occurs.
pub enum TreeEvent {
    Start(String, Vec<(String, String)>),
    End(String),
    Text(String),
}

/// The mathematical value of a [`TreeEvent`].
pub enum EventV {
    Start(Seq<char>, Seq<(Seq<char>, Seq<char>)>),
    End(Seq<char>),
    Text(Seq<char>),
}

/// The views of a list of attributes.
pub open spec fn attrs_view(a: Seq<(String, String)>) -> Seq<(Seq<char>, Seq<char>)> {
    a.map_values(|p: (String, String)| (p.0@, p.1@))
}

impl View for TreeEvent {
    type V = EventV;

    open spec fn view(&self) -> EventV {
        match self {
            TreeEvent::Start(n, a) => EventV::Start(n@, attrs_view(a@)),
            TreeEvent::End(n) => EventV::End(n@),
            TreeEvent::Text(t) => EventV::Text(t@),
        }
    }
}

/// The events of the first `i` children of `e`, nested elements written
/// out in full.
pub open spec fn events_upto(e: Element, i: int) -> Seq<EventV>
    decreases e, i,
{
    if i <= 0 || i > e.contents@.len() {
        Seq::empty()
    } else {
        let prev = events_upto(e, i - 1);
        match e.contents@[i - 1] {
            Node::Text(t) => prev.push(EventV::Text(t@)),
            Node::Element(c) => prev + seq![EventV::Start(c.name@, attrs_view(c.attributes@))]
                + events_upto(c, c.contents@.len() as int) + seq![EventV::End(c.name@)],
        }
    }
}

/// The events that an element is read from.
pub open spec fn element_events(e: Element) -> Seq<EventV> {
    seq![EventV::Start(e.name@, attrs_view(e.attributes@))] + events_upto(e, e.contents@.len() as int)
        + seq![EventV::End(e.name@)]
}

/// The events read so far for an element still open.
pub open spec fn open_events(e: Element) -> Seq<EventV> {
    seq![EventV::Start(e.name@, attrs_view(e.attributes@))] + events_upto(e, e.contents@.len() as int)
}

/// The events read so far for a stack of open elements, outermost first.
pub open spec fn stack_events(s: Seq<Element>) -> Seq<EventV>
    decreases s.len(),
{
    if s.len() == 0 {
        Seq::empty()
    } else {
        stack_events(s.drop_last()) + open_events(s.last())
    }
}

proof fn lemma_events_upto_prefix(a: Element, b: Element, i: int)
    requires
        0 <= i <= a.contents@.len(),
        i <= b.contents@.len(),
        a.contents@.subrange(0, i) == b.contents@.subrange(0, i),
    ensures
        events_upto(a, i) == events_upto(b, i),
    decreases i,
{
    if i > 0 {
        assert(a.contents@.subrange(0, i - 1) =~= a.contents@.subrange(0, i).subrange(0, i - 1));
        assert(b.contents@.subrange(0, i - 1) =~= b.contents@.subrange(0, i).subrange(0, i - 1));
        lemma_events_upto_prefix(a, b, i - 1);
        assert(a.contents@[i - 1] == a.contents@.subrange(0, i)[i - 1]);
        assert(b.contents@[i - 1] == b.contents@.subrange(0, i)[i - 1]);
    }
}

/// Adds `child` to the innermost open element.
fn add_child(stack: &mut Vec<Element>, child: Node)
    requires
        old(stack)@.len() > 0,
    ensures
        final(stack)@.len() == old(stack)@.len(),
        stack_events(final(stack)@) == stack_events(old(stack)@) + match child {
            Node::Text(t) => seq![EventV::Text(t@)],
            Node::Element(c) => element_events(c),
        },
{
    let ghost child_v = child;
    let ghost before = stack@;
    let mut top = stack.pop().unwrap();
    let ghost old_top = top;
    top.contents.push(child);
    proof {
        let n = old_top.contents@.len() as int;
        assert(top.contents@.subrange(0, n) =~= old_top.contents@.subrange(0, n));
        lemma_events_upto_prefix(old_top, top, n);
        assert(top.contents@[n] == child_v);
    }
    stack.push(top);
    proof {
        assert(stack@.drop_last() =~= before.drop_last());
        match child_v {
            Node::Text(t) => {
                assert(open_events(top) =~= open_events(old_top).push(EventV::Text(t@)));
            },
            Node::Element(c) => {
                assert(open_events(top) =~= open_events(old_top) + element_events(c));
            },
        }
    }
}

/// Assembles the tree of a document from its events. Text before the root
/// element is skipped; the events after the root element closes are not
/// read. A closing event that names another element than the open one, or
/// one with no element open, is a `MalformedDeclaration`, as is a document
/// whose root never closes.
pub fn build_tree(events: &Vec<TreeEvent>) -> (r: Result<Element, GenError>)
    ensures
        r matches Ok(root) ==> exists|k: int, j: int|
            0 <= k <= j <= events@.len() && (forall|t: int| 0 <= t < k ==> (#[trigger] events@[t])@ is Text)
                && events@.subrange(k, j).map_values(|ev: TreeEvent| ev@) == element_events(root),
{
    let ghost ev = events@.map_values(|x: TreeEvent| x@);
    let mut stack: Vec<Element> = Vec::new();
    let mut i: usize = 0;
    let mut k: usize = 0;
    while i < events.len()
        invariant
            i <= events@.len(),
            k <= i,
            ev == events@.map_values(|x: TreeEvent| x@),
            stack@.len() == 0 ==> k == i,
            forall|t: int| 0 <= t < k ==> (#[trigger] events@[t])@ is Text,
            stack_events(stack@) == ev.subrange(k as int, i as int),
        decreases events@.len() - i,
    {
        proof {
            assert(ev.subrange(k as int, i + 1) =~= ev.subrange(k as int, i as int).push(ev[i as int]));
        }
        match &events[i] {
            TreeEvent::Start(name, attrs) => {
                let el = Element { name: name.clone(), attributes: clone_attrs(attrs), contents: Vec::new() };
                let ghost before = stack@;
                stack.push(el);
                proof {
                    assert(stack@.drop_last() =~= before);
                    assert(open_events(el) =~= seq![EventV::Start(name@, attrs_view(attrs@))]);
                }
            },
            TreeEvent::Text(t) => {
                if stack.len() > 0 {
                    add_child(&mut stack, Node::Text(t.clone()));
                } else {
                    k = k + 1;
                }
            },
            TreeEvent::End(name) => {
                if stack.len() == 0 {
                    return Err(GenError::MalformedDeclaration(name.clone()));
                }
                let ghost before = stack@;
                let el = stack.pop().unwrap();
                if el.name != *name {
                    return Err(GenError::MalformedDeclaration(name.clone()));
                }
                proof {
                    assert(stack@ =~= before.drop_last());
                    assert(open_events(el).push(EventV::End(name@)) =~= element_events(el));
                }
                if stack.len() == 0 {
                    proof {
                        assert(before.len() == 1);
                        assert(before.drop_last() =~= Seq::<Element>::empty());
                        assert(before.last() == el);
                        assert(stack_events(before.drop_last()) == Seq::<EventV>::empty());
                        assert(stack_events(before) =~= open_events(el));
                        assert(ev[i as int] == EventV::End(name@));
                        assert(ev.subrange(k as int, i + 1) == element_events(el));
                        assert(events@.subrange(k as int, i + 1).map_values(|x: TreeEvent| x@) =~= ev.subrange(k as int, i + 1));
                        assert(0 <= k <= i + 1 <= events@.len());
                    }
                    return Ok(el);
                }
                add_child(&mut stack, Node::Element(el));
            },
        }
        i = i + 1;
    }
    Err(GenError::MalformedDeclaration("registry".to_owned()))
}

fn clone_attrs(a: &Vec<(String, String)>) -> (r: Vec<(String, String)>)
    ensures
        attrs_view(r@) == attrs_view(a@),
{
    let mut r: Vec<(String, String)> = Vec::new();
    let mut i: usize = 0;
    while i < a.len()
        invariant
            i <= a@.len(),
            attrs_view(r@) == attrs_view(a@).subrange(0, i as int),
        decreases a@.len() - i,
    {
        let ghost before = attrs_view(r@);
        r.push((a[i].0.clone(), a[i].1.clone()));
        assert(attrs_view(r@) =~= before.push((a@[i as int].0@, a@[i as int].1@)));
        i = i + 1;
        assert(attrs_view(a@).subrange(0, i as int) =~= attrs_view(a@).subrange(0, i - 1).push((a@[i - 1].0@, a@[i - 1].1@)));
    }
    assert(attrs_view(a@).subrange(0, a@.len() as int) =~= attrs_view(a@));
    r
}

} // verus!
