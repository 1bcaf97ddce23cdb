//! Namespaces in scope at a node, and a node written out as XML.

use crate::doc;
use crate::multiname;
use crate::multiname::E4XNamespace;
use crate::multiname::NsView;
use crate::node::E4XNodeReadOnly;
use crate::node_data::E4XNodeKindReadOnly;
use crate::node_data::NO_NODE;
use crate::node_data::VIRTUAL_TEXT;
use crate::queries;
use crate::serialize;
use crate::serialize::escape_into;
use crate::text;
use crate::text::same_text;
use vstd::prelude::*;

verus! {

/// Whether a list of namespaces has a prefix.
fn lists_prefix(list: &Vec<E4XNamespace>, prefix: &str) -> (r: bool)
    ensures
        r == queries::has_prefix(multiname::ns_views(list@), prefix@),
{
    let ghost views = multiname::ns_views(list@);
    let mut i: usize = 0;
    while i < list.len()
        invariant
            i <= list@.len(),
            views == multiname::ns_views(list@),
            forall|k: int| 0 <= k < i ==> (#[trigger] views[k]).prefix != Some(prefix@),
        decreases list@.len() - i,
    {
        assert(views[i as int] == list@[i as int]@);
        match &list[i].prefix {
            Some(p) => {
                if same_text(p.as_str(), prefix) {
                    return true;
                }
            },
            None => {},
        }
        i += 1;
    }
    false
}

/// Texts appended one by one are appended as one.
proof fn lemma_behind(start: Seq<char>, a: Seq<char>, b: Seq<char>, c: Seq<char>, d: Seq<char>)
    ensures
        start + a + b + c + d == start + (a + b + c + d),
{
    assert(start + a + b + c + d =~= start + (a + b + c + d));
}

impl E4XNodeReadOnly {
    /// Adds the declarations of this element whose prefix the list has not yet.
    fn add_declared(&self, list: &mut Vec<E4XNamespace>)
        ensures
            multiname::ns_views(final(list)@) == queries::with_decls(
                multiname::ns_views(old(list)@),
                self@.store.doc().decls,
                self@.index as int,
                self@.store.doc().decls.len() as int,
            ),
    {
        let index: u32 = self.index();
        let count: usize = self.store().decl_count();
        let ghost start = multiname::ns_views(list@);
        let ghost decls = self@.store.doc().decls;
        let mut i: usize = 0;
        while i < count
            invariant
                i <= count,
                count == decls.len(),
                decls == self@.store.doc().decls,
                index == self@.index,
                multiname::ns_views(list@) == queries::with_decls(
                    start,
                    decls,
                    index as int,
                    i as int,
                ),
            decreases count - i,
        {
            let d = self.store().decl(i);
            let ghost v = decls[i as int];
            if d.node == index {
                let prefix = self.store().str(d.prefix);
                let uri = self.store().str(d.uri);
                proof {
                    text::lemma_encode_injective(prefix@, v.prefix);
                    text::lemma_encode_injective(uri@, v.uri);
                }
                if !lists_prefix(list, prefix) {
                    let ghost before = list@;
                    let ns = E4XNamespace {
                        uri: uri.to_owned(),
                        prefix: Some(prefix.to_owned()),
                    };
                    let ghost added = ns@;
                    list.push(ns);
                    proof {
                        assert(multiname::ns_views(list@) =~= multiname::ns_views(before).push(
                            added,
                        ));
                    }
                }
            }
            i += 1;
        }
    }

    /// Adds the namespaces in scope here behind those in the list.
    fn add_scope(&self, list: &mut Vec<E4XNamespace>)
        ensures
            multiname::ns_views(final(list)@) == queries::scope_behind(
                self@.store.doc(),
                self@.index,
                multiname::ns_views(old(list)@),
            ),
        decreases self@.index,
    {
        let _index: u32 = self.index();
        proof {
            if self@.index < VIRTUAL_TEXT {
                assert(doc::node_ok(self@.nodes(), self@.index as int));
            }
        }
        self.add_declared(list);
        match self.parent() {
            Some(p) => p.add_scope(list),
            None => {},
        }
    }

    /// The namespaces in scope at this node: its own declarations and its ancestors',
    /// the closest declaration of a prefix winning.
    pub fn in_scope_namespaces(&self) -> (r: Vec<E4XNamespace>)
        ensures
            multiname::ns_views(r@) == queries::scope(self@.store.doc(), self@.index),
    {
        let mut list: Vec<E4XNamespace> = Vec::new();
        assert(multiname::ns_views(list@) =~= Seq::<NsView>::empty());
        self.add_scope(&mut list);
        list
    }

    /// Appends the qualified name of an element or attribute.
    fn push_qualified(&self, out: &mut String)
        ensures
            final(out)@ == old(out)@ + serialize::qualified(self@.node()),
    {
        let n = self.record();
        let ghost start = out@;
        match self.text_at(n.prefix(), Ghost(self@.node().prefix)) {
            Some(p) => {
                out.push_str(p);
                out.push_str(":");
            },
            None => {},
        }
        match self.local_name() {
            Some(name) => {
                out.push_str(name);
            },
            None => {},
        }
        assert(out@ =~= start + serialize::qualified(self@.node()));
    }

    /// Appends the value, escaped.
    fn push_escaped(&self, attribute: bool, out: &mut String)
        ensures
            final(out)@ == old(out)@ + serialize::escaped(
                queries::value_text(self@.node()),
                attribute,
            ),
    {
        let ghost start = out@;
        match self.value() {
            Some(t) => escape_into(t, attribute, out),
            None => {
                assert(out@ =~= start + Seq::<char>::empty());
            },
        }
    }

    /// Appends the value as it stands.
    fn push_value(&self, out: &mut String)
        ensures
            final(out)@ == old(out)@ + queries::value_text(self@.node()),
    {
        let ghost start = out@;
        match self.value() {
            Some(t) => out.push_str(t),
            None => {
                assert(out@ =~= start + Seq::<char>::empty());
            },
        }
    }

    /// Appends a processing instruction.
    fn push_pi(&self, out: &mut String)
        ensures
            final(out)@ == old(out)@ + serialize::pi_text(self@.node()),
    {
        let ghost start = out@;
        out.push_str("<?");
        match self.local_name() {
            Some(name) => out.push_str(name),
            None => {},
        }
        match self.value() {
            Some(t) => {
                if !t.is_empty() {
                    out.push_str(" ");
                    out.push_str(t);
                }
            },
            None => {},
        }
        out.push_str("?>");
        assert(out@ =~= start + serialize::pi_text(self@.node()));
    }

    /// Appends the declarations that this element carries.
    fn push_decls(&self, out: &mut String)
        ensures
            final(out)@ == old(out)@ + serialize::decls_text(
                self@.store.doc().decls,
                self@.index as int,
                self@.store.doc().decls.len() as int,
            ),
    {
        let index: u32 = self.index();
        let count: usize = self.store().decl_count();
        let ghost start = out@;
        let ghost decls = self@.store.doc().decls;
        let mut i: usize = 0;
        assert(start + Seq::<char>::empty() =~= start);
        while i < count
            invariant
                i <= count,
                count == decls.len(),
                decls == self@.store.doc().decls,
                index == self@.index,
                out@ == start + serialize::decls_text(decls, index as int, i as int),
            decreases count - i,
        {
            let d = self.store().decl(i);
            let ghost v = decls[i as int];
            if d.node == index {
                let ghost before = out@;
                let prefix = self.store().str(d.prefix);
                let uri = self.store().str(d.uri);
                proof {
                    text::lemma_encode_injective(prefix@, v.prefix);
                    text::lemma_encode_injective(uri@, v.uri);
                }
                out.push_str(" xmlns");
                if !prefix.is_empty() {
                    out.push_str(":");
                    out.push_str(prefix);
                }
                out.push_str("=\"");
                escape_into(uri, true, out);
                out.push_str("\"");
                proof {
                    assert(out@ =~= before + serialize::decl_text(v));
                    assert(out@ =~= start + serialize::decls_text(decls, index as int, i + 1));
                }
            }
            i += 1;
        }
    }

    /// Appends the attributes of this element.
    fn push_attrs(&self, out: &mut String)
        requires
            self@.node().kind is Element,
        ensures
            final(out)@ == old(out)@ + serialize::attrs_text(
                self@.nodes(),
                doc::kids(self@.nodes(), Some(self@.index as int), true, 0),
            ),
    {
        let n = self.record();
        let ghost nodes = self@.nodes();
        let ghost i = self@.index as int;
        let ghost start = out@;
        let ghost mut from: int = 0;
        let ghost mut done = Seq::<int>::empty();
        let ghost all = doc::kids(nodes, Some(i), true, 0);
        let mut a: u32 = n.first_attr();
        proof {
            assert(done + all =~= all);
            assert(start + Seq::<char>::empty() =~= start);
        }
        while a != NO_NODE
            invariant
                0 <= from,
                nodes == self@.nodes(),
                i == self@.index,
                a == doc::link(doc::first_kid(nodes, Some(i), true, from)),
                all == done + doc::kids(nodes, Some(i), true, from),
                out@ == start + serialize::attrs_text(nodes, done),
            decreases nodes.len() - from,
        {
            let an = self.store().kid(a, Ghost(i), Ghost(true), Ghost(from));
            let child = self.with_index(a);
            let ghost before = out@;
            out.push_str(" ");
            child.push_qualified(out);
            out.push_str("=\"");
            child.push_escaped(true, out);
            out.push_str("\"");
            proof {
                assert(out@ =~= before + serialize::attr_text(nodes[a as int]));
                assert(done.push(a as int).drop_last() =~= done);
                assert(out@ =~= start + serialize::attrs_text(nodes, done.push(a as int)));
                assert(all =~= done.push(a as int) + doc::kids(nodes, Some(i), true, a + 1));
                done = done.push(a as int);
                from = a + 1;
            }
            a = an.next_sibling();
        }
        proof {
            doc::lemma_first_kid(nodes, Some(i), true, from);
            doc::lemma_kids_step(nodes, Some(i), true, from);
            assert(all =~= done);
        }
    }

    /// Appends a start tag up to its closing bracket.
    fn push_open_tag(&self, out: &mut String)
        requires
            self@.node().kind is Element,
        ensures
            final(out)@ == old(out)@ + serialize::open_tag(self@.store.doc(), self@.index as int),
    {
        let ghost start = out@;
        let ghost d = self@.store.doc();
        let ghost i = self@.index as int;
        out.push_str("<");
        self.push_qualified(out);
        self.push_decls(out);
        self.push_attrs(out);
        proof {
            lemma_behind(
                start,
                "<"@,
                serialize::qualified(d.nodes[i]),
                serialize::decls_text(d.decls, i, d.decls.len() as int),
                serialize::attrs_text(d.nodes, doc::kids(d.nodes, Some(i), true, 0)),
            );
        }
    }

    /// Appends an end tag.
    fn push_end_tag(&self, out: &mut String)
        requires
            self@.index < VIRTUAL_TEXT,
        ensures
            final(out)@ == old(out)@ + serialize::end_tag(self@.store.doc(), self@.index as int),
    {
        let ghost start = out@;
        out.push_str("</");
        self.push_qualified(out);
        out.push_str(">");
        assert(out@ =~= start + serialize::end_tag(self@.store.doc(), self@.index as int));
    }

    /// Appends an element as XML.
    fn push_element(&self, out: &mut String)
        requires
            self@.node().kind is Element,
        ensures
            final(out)@ == old(out)@ + serialize::xml_at(self@.store.doc(), self@.index),
        decreases queries::depth_bound(self@.nodes(), self@.index), 1int,
    {
        let n = self.record();
        let ghost d = self@.store.doc();
        let ghost i = self@.index as int;
        let ghost start = out@;
        let ghost tag = serialize::open_tag(d, i);
        let ghost end = serialize::end_tag(d, i);
        self.push_open_tag(out);
        if n.value_ref() != NO_NODE {
            out.push_str(">");
            self.push_escaped(false, out);
            self.push_end_tag(out);
            proof {
                lemma_behind(
                    start,
                    tag,
                    ">"@,
                    serialize::escaped(queries::value_text(self@.node()), false),
                    end,
                );
            }
        } else if n.first_child_idx() == NO_NODE {
            proof {
                doc::lemma_first_kid(self@.nodes(), Some(i), false, 0);
                lemma_behind(start, tag, "/>"@, Seq::empty(), Seq::empty());
                assert(tag + "/>"@ + Seq::<char>::empty() + Seq::<char>::empty() =~= tag + "/>"@);
                assert(start + tag + "/>"@ + Seq::<char>::empty() + Seq::<char>::empty() =~= start
                    + tag + "/>"@);
            }
            out.push_str("/>");
        } else {
            out.push_str(">");
            self.push_children(out);
            self.push_end_tag(out);
            proof {
                lemma_behind(start, tag, ">"@, serialize::kids_xml(d, i, i + 1), end);
            }
        }
    }

    /// Appends this node as XML, without pretty-printing.
    pub fn write_xml_string(&self, out: &mut String)
        ensures
            final(out)@ == old(out)@ + serialize::xml_at(self@.store.doc(), self@.index),
        decreases queries::depth_bound(self@.nodes(), self@.index), 2int,
    {
        let n = self.record();
        let ghost d = self@.store.doc();
        let ghost start = out@;
        match n.kind() {
            E4XNodeKindReadOnly::Text => self.push_escaped(false, out),
            E4XNodeKindReadOnly::Cdata => {
                out.push_str("<![CDATA[");
                self.push_value(out);
                out.push_str("]]>");
                assert(out@ =~= start + serialize::xml_at(d, self@.index));
            },
            E4XNodeKindReadOnly::Comment => {
                out.push_str("<!--");
                self.push_value(out);
                out.push_str("-->");
                assert(out@ =~= start + serialize::xml_at(d, self@.index));
            },
            E4XNodeKindReadOnly::ProcessingInstruction => self.push_pi(out),
            E4XNodeKindReadOnly::Attribute => self.push_value(out),
            E4XNodeKindReadOnly::Element => self.push_element(out),
        }
    }

    /// Appends the children of an element as XML.
    fn push_children(&self, out: &mut String)
        requires
            self@.node().kind is Element,
            self@.node().value is None,
        ensures
            final(out)@ == old(out)@ + serialize::kids_xml(
                self@.store.doc(),
                self@.index as int,
                self@.index + 1,
            ),
        decreases queries::depth_bound(self@.nodes(), self@.index), 0int,
    {
        let n = self.record();
        let ghost d = self@.store.doc();
        let ghost nodes = self@.nodes();
        let ghost i = self@.index as int;
        let ghost start = out@;
        let mut c: u32 = n.first_child_idx();
        let ghost mut from = i + 1;
        proof {
            queries::lemma_kids_behind(nodes, i, false);
        }
        while c != NO_NODE
            invariant
                i < from,
                d == self@.store.doc(),
                nodes == self@.nodes(),
                i == self@.index,
                0 <= i < nodes.len(),
                i < VIRTUAL_TEXT,
                c == doc::link(doc::first_kid(nodes, Some(i), false, from)),
                out@ + serialize::kids_xml(d, i, from) == start + serialize::kids_xml(
                    d,
                    i,
                    i + 1,
                ),
            decreases nodes.len() - from,
        {
            let cn = self.store().kid(c, Ghost(i), Ghost(false), Ghost(from));
            let ghost before = out@;
            proof {
                serialize::lemma_kids_xml_step(d, i, from);
            }
            self.with_index(c).write_xml_string(out);
            proof {
                assert(before + (serialize::xml_text(d, c as int) + serialize::kids_xml(
                    d,
                    i,
                    c + 1,
                )) =~= out@ + serialize::kids_xml(d, i, c + 1));
                from = c + 1;
            }
            c = cn.next_sibling();
        }
        proof {
            doc::lemma_first_kid(nodes, Some(i), false, from);
            serialize::lemma_kids_xml_step(d, i, from);
            assert(out@ + Seq::<char>::empty() =~= out@);
        }
    }
}

} // verus!
