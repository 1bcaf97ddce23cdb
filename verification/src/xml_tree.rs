//! Plain XML trees: rows and headings that are held as trees of their own.

use crate::multiname::Multiname;
use crate::multiname::MultinameView;
use crate::node::ns_matches;
use crate::queries;
use crate::text;
use crate::text::same_text;
use vstd::prelude::*;

verus! {

/// A node of a tree, with its name where it has one.
pub struct XmlNode {
    pub name: Option<String>,
    pub ns: Option<String>,
    pub kind: XmlKind,
}

/// What a node is and what it holds.
pub enum XmlKind {
    Text(String),
    CData(String),
    Comment(String),
    ProcessingInstruction(String),
    Attribute(String),
    Element { children: Vec<XmlNode>, attributes: Vec<XmlNode> },
}

/// The children of a node.
pub open spec fn children_of(node: XmlNode) -> Seq<XmlNode> {
    match node.kind {
        XmlKind::Element { children, attributes } => children@,
        _ => Seq::empty(),
    }
}

/// The attributes of a node.
pub open spec fn attributes_of(node: XmlNode) -> Seq<XmlNode> {
    match node.kind {
        XmlKind::Element { children, attributes } => attributes@,
        _ => Seq::empty(),
    }
}

/// The simple content of a node: its text, or that of its children.
pub open spec fn simple_text(node: XmlNode) -> Seq<char>
    decreases node,
{
    match node.kind {
        XmlKind::Text(s) => s@,
        XmlKind::CData(s) => s@,
        XmlKind::Attribute(s) => s@,
        XmlKind::Comment(_) => Seq::empty(),
        XmlKind::ProcessingInstruction(_) => Seq::empty(),
        XmlKind::Element { children, attributes } => simple_texts(children@),
    }
}

/// The simple contents of nodes, one behind the other.
pub open spec fn simple_texts(nodes: Seq<XmlNode>) -> Seq<char>
    decreases nodes,
{
    if nodes.len() == 0 {
        Seq::empty()
    } else {
        simple_texts(nodes.drop_last()) + simple_text(nodes.last())
    }
}

/// A multiname matches a name and a namespace.
pub open spec fn named(node: XmlNode, want: MultinameView) -> bool {
    if want.any_name {
        true
    } else {
        &&& want.local is Some
        &&& node.name is Some
        &&& want.local->0 == "*"@ || node.name->0@ == want.local->0
        &&& want.any_namespace || queries::ns_matches(text::opt_text(node.ns), want)
    }
}

/// The nodes that match a multiname; only elements of them where `elements` is set.
pub open spec fn selected(nodes: Seq<XmlNode>, want: MultinameView, elements: bool) -> Seq<XmlNode>
    decreases nodes.len(),
{
    if nodes.len() == 0 {
        Seq::empty()
    } else {
        let front = selected(nodes.drop_last(), want, elements);
        if (elements ==> nodes.last().kind is Element) && named(nodes.last(), want) {
            front.push(nodes.last())
        } else {
            front
        }
    }
}

/// The simple contents of nodes, one line each.
pub open spec fn lines(nodes: Seq<XmlNode>) -> Seq<char>
    decreases nodes.len(),
{
    if nodes.len() == 0 {
        Seq::empty()
    } else if nodes.len() == 1 {
        simple_text(nodes[0])
    } else {
        lines(nodes.drop_last()).push('\n') + simple_text(nodes.last())
    }
}

impl XmlNode {
    /// Whether the name and namespace are ones that `want` asks for.
    pub fn matches_name(&self, want: &Multiname) -> (r: bool)
        ensures
            r == named(*self, want@),
    {
        if want.any_name {
            return true;
        }
        let local = match &want.local {
            Some(local) => local,
            None => {
                return false;
            },
        };
        let name = match &self.name {
            Some(name) => name,
            None => {
                return false;
            },
        };
        if !same_text(local.as_str(), "*") && !same_text(name.as_str(), local.as_str()) {
            return false;
        }
        if want.any_namespace {
            return true;
        }
        match &self.ns {
            Some(ns) => ns_matches(Some(ns.as_str()), want),
            None => ns_matches(None, want),
        }
    }

    /// Appends the simple content.
    pub fn append_simple_text(&self, out: &mut String)
        ensures
            final(out)@ == old(out)@ + simple_text(*self),
        decreases self,
    {
        let ghost start = out@;
        match &self.kind {
            XmlKind::Text(s) => out.push_str(s.as_str()),
            XmlKind::CData(s) => out.push_str(s.as_str()),
            XmlKind::Attribute(s) => out.push_str(s.as_str()),
            XmlKind::Comment(_) => {
                assert(start + simple_text(*self) =~= start);
            },
            XmlKind::ProcessingInstruction(_) => {
                assert(start + simple_text(*self) =~= start);
            },
            XmlKind::Element { children, attributes } => {
                let mut i: usize = 0;
                assert(out@ =~= start + simple_texts(children@.take(0)));
                while i < children.len()
                    invariant
                        i <= children@.len(),
                        self.kind matches XmlKind::Element { children: c, attributes: a } && c
                            == *children,
                        out@ == start + simple_texts(children@.take(i as int)),
                    decreases children@.len() - i,
                {
                    let ghost before = out@;
                    children[i].append_simple_text(out);
                    proof {
                        assert(children@.take(i + 1).drop_last() =~= children@.take(i as int));
                        assert(out@ =~= start + simple_texts(children@.take(i + 1)));
                    }
                    i += 1;
                }
                assert(children@.take(i as int) =~= children@);
            },
        }
    }

    /// Appends the simple content of the child elements that match `want`, one line each.
    pub fn append_children_text(&self, want: &Multiname, out: &mut String)
        ensures
            final(out)@ == old(out)@ + lines(selected(children_of(*self), want@, true)),
    {
        match &self.kind {
            XmlKind::Element { children, attributes } => append_selected(
                children,
                want,
                true,
                out,
            ),
            _ => {
                assert(out@ + lines(Seq::empty()) =~= out@);
            },
        }
    }

    /// Appends the value of the attributes that match `want`, one line each.
    pub fn append_attrs_text(&self, want: &Multiname, out: &mut String)
        ensures
            final(out)@ == old(out)@ + lines(selected(attributes_of(*self), want@, false)),
    {
        match &self.kind {
            XmlKind::Element { children, attributes } => append_selected(
                attributes,
                want,
                false,
                out,
            ),
            _ => {
                assert(out@ + lines(Seq::empty()) =~= out@);
            },
        }
    }
}

/// Appends the simple content of the nodes that match `want`, one line each.
fn append_selected(nodes: &Vec<XmlNode>, want: &Multiname, elements: bool, out: &mut String)
    ensures
        final(out)@ == old(out)@ + lines(selected(nodes@, want@, elements)),
{
    let ghost start = out@;
    let mut first = true;
    let mut i: usize = 0;
    assert(out@ =~= start + lines(selected(nodes@.take(0), want@, elements)));
    while i < nodes.len()
        invariant
            i <= nodes@.len(),
            first == (selected(nodes@.take(i as int), want@, elements).len() == 0),
            out@ == start + lines(selected(nodes@.take(i as int), want@, elements)),
        decreases nodes@.len() - i,
    {
        let ghost before = selected(nodes@.take(i as int), want@, elements);
        let node = &nodes[i];
        let is_element = match &node.kind {
            XmlKind::Element { children, attributes } => true,
            _ => false,
        };
        proof {
            assert(nodes@.take(i + 1).drop_last() =~= nodes@.take(i as int));
        }
        if (!elements || is_element) && node.matches_name(want) {
            let ghost after = before.push(*node);
            if !first {
                out.push('\n');
            }
            node.append_simple_text(out);
            proof {
                assert(after.drop_last() =~= before);
                assert(selected(nodes@.take(i + 1), want@, elements) == after);
                assert(out@ =~= start + lines(after));
            }
            first = false;
        }
        i += 1;
    }
    assert(nodes@.take(i as int) =~= nodes@);
}

} // verus!
