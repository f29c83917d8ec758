//! Element trees, as an XML reader hands them over.

use crate::chars::{chars_of, is};
use vstd::prelude::*;

verus! {

/// One attribute: its namespace, local name and value.
#[derive(Debug)]
pub struct Attr {
    pub ns: String,
    pub local: String,
    pub value: String,
}

/// One element: its namespace and local name, its attributes, its children.
#[derive(Debug)]
pub struct Element {
    pub ns: String,
    pub local: String,
    pub attrs: Vec<Attr>,
    pub children: Vec<Node>,
}

/// A child of an element.
#[derive(Debug)]
pub enum Node {
    Text(String),
    Elem(Element),
}

/// Whether `a` and `b` are the same text.
pub fn same_text(a: &str, b: &str) -> (r: bool)
    ensures
        r == (a@ == b@),
{
    let x: Vec<char> = chars_of(a);
    is(&x, b)
}

/// The value of the first attribute of that local name, in any namespace.
pub open spec fn value_any(attrs: Seq<Attr>, name: Seq<char>) -> Option<Seq<char>>
    decreases attrs.len(),
{
    if attrs.len() == 0 {
        None
    } else if attrs[0].local@ == name {
        Some(attrs[0].value@)
    } else {
        value_any(attrs.skip(1), name)
    }
}

/// The value of the first attribute of that name in that namespace.
pub open spec fn value_in(attrs: Seq<Attr>, ns: Seq<char>, name: Seq<char>) -> Option<Seq<char>>
    decreases attrs.len(),
{
    if attrs.len() == 0 {
        None
    } else if attrs[0].ns@ == ns && attrs[0].local@ == name {
        Some(attrs[0].value@)
    } else {
        value_in(attrs.skip(1), ns, name)
    }
}

/// An optional reference to text, as the text.
pub open spec fn opt_text(s: Option<&str>) -> Option<Seq<char>> {
    match s {
        Some(t) => Some(t@),
        None => None,
    }
}

impl Node {
    /// Whether the node is an element of that name in that namespace.
    pub open spec fn is_named(self, ns: Seq<char>, name: Seq<char>) -> bool {
        self matches Node::Elem(e) && e.ns@ == ns && e.local@ == name
    }
}

/// The index of the first child element of that name, from `i` on.
pub open spec fn child_from(nodes: Seq<Node>, ns: Seq<char>, name: Seq<char>, i: int) -> Option<
    int,
>
    decreases nodes.len() - i,
{
    if i < 0 || i >= nodes.len() {
        None
    } else if nodes[i].is_named(ns, name) {
        Some(i)
    } else {
        child_from(nodes, ns, name, i + 1)
    }
}

impl Element {
    /// The value of the attribute of that local name, in any namespace.
    pub open spec fn value_of(self, name: Seq<char>) -> Option<Seq<char>> {
        value_any(self.attrs@, name)
    }

    /// The first child element of that name in that namespace.
    pub open spec fn child(self, ns: Seq<char>, name: Seq<char>) -> Option<Element> {
        match child_from(self.children@, ns, name, 0) {
            Some(i) => Some(self.children@[i]->Elem_0),
            None => None,
        }
    }

    /// The value of the attribute of that local name, in any namespace.
    pub fn attr_any<'a>(&'a self, name: &str) -> (r: Option<&'a str>)
        ensures
            opt_text(r) == self.value_of(name@),
    {
        let mut i: usize = 0;
        assert(self.attrs@.skip(0) =~= self.attrs@);
        while i < self.attrs.len()
            invariant
                i <= self.attrs@.len(),
                value_any(self.attrs@.skip(i as int), name@) == self.value_of(name@),
            decreases self.attrs@.len() - i,
        {
            assert(self.attrs@.skip(i as int).skip(1) =~= self.attrs@.skip(i + 1));
            if same_text(self.attrs[i].local.as_str(), name) {
                return Some(self.attrs[i].value.as_str());
            }
            i += 1;
        }
        None
    }

    /// The value of the attribute of that name in that namespace.
    pub fn attr<'a>(&'a self, ns: &str, name: &str) -> (r: Option<&'a str>)
        ensures
            opt_text(r) == value_in(self.attrs@, ns@, name@),
    {
        let mut i: usize = 0;
        assert(self.attrs@.skip(0) =~= self.attrs@);
        while i < self.attrs.len()
            invariant
                i <= self.attrs@.len(),
                value_in(self.attrs@.skip(i as int), ns@, name@) == value_in(
                    self.attrs@,
                    ns@,
                    name@,
                ),
            decreases self.attrs@.len() - i,
        {
            assert(self.attrs@.skip(i as int).skip(1) =~= self.attrs@.skip(i + 1));
            if same_text(self.attrs[i].ns.as_str(), ns) && same_text(
                self.attrs[i].local.as_str(),
                name,
            ) {
                return Some(self.attrs[i].value.as_str());
            }
            i += 1;
        }
        None
    }

    /// The first child element of that name in that namespace.
    pub fn find<'a>(&'a self, ns: &str, name: &str) -> (r: Option<&'a Element>)
        ensures
            match r {
                Some(e) => self.child(ns@, name@) == Some(*e),
                None => self.child(ns@, name@) is None,
            },
    {
        let mut i: usize = 0;
        while i < self.children.len()
            invariant
                i <= self.children@.len(),
                child_from(self.children@, ns@, name@, i as int) == child_from(
                    self.children@,
                    ns@,
                    name@,
                    0,
                ),
            decreases self.children@.len() - i,
        {
            if let Node::Elem(e) = &self.children[i] {
                if same_text(e.ns.as_str(), ns) && same_text(e.local.as_str(), name) {
                    return Some(e);
                }
            }
            i += 1;
        }
        None
    }
}

} // verus!
