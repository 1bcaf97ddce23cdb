//! Handles to nodes, and the queries on them.

use crate::doc;
use crate::doc::NodeView;
use crate::multiname::E4XNamespace;
use crate::multiname::Multiname;
use crate::multiname::NsView;
use crate::node_data::E4XNodeDataReadOnly;
use crate::node_data::E4XNodeKindReadOnly;
use crate::node_data::NO_NODE;
use crate::node_data::VIRTUAL_TEXT;
use crate::queries;
use crate::store::E4XStoreReadOnly;
use crate::text;
use crate::text::same_text;
use std::rc::Rc;
use vstd::prelude::*;

verus! {

/// A handle to one node of a shared document.
pub struct E4XNodeReadOnly {
    store: Rc<E4XStoreReadOnly>,
    index: u32,
}

/// What a handle says: the document's store and the node's index.
pub struct Handle {
    pub store: E4XStoreReadOnly,
    pub index: u32,
}

impl View for E4XNodeReadOnly {
    type V = Handle;

    closed spec fn view(&self) -> Handle {
        Handle { store: *self.store, index: self.index }
    }
}

impl Handle {
    /// The nodes of the document.
    pub open spec fn nodes(self) -> Seq<NodeView> {
        self.store.doc().nodes
    }

    /// The node itself.
    pub open spec fn node(self) -> NodeView {
        doc::node_at(self.nodes(), self.index)
    }
}

/// Handles by what they say.
pub open spec fn handles(list: Seq<E4XNodeReadOnly>) -> Seq<Handle> {
    Seq::new(list.len(), |i: int| list[i]@)
}

/// The handles to several indices of one document.
pub open spec fn at_indices(store: E4XStoreReadOnly, at: Seq<u32>) -> Seq<Handle> {
    Seq::new(at.len(), |i: int| Handle { store, index: at[i] })
}

/// The handles to several stored nodes of one document.
pub open spec fn at_nodes(store: E4XStoreReadOnly, at: Seq<int>) -> Seq<Handle> {
    at_indices(store, doc::as_links(at))
}

/// `Rc::ptr_eq`: two pointers to one allocation point at one document. Of two
/// allocations nothing is said: they may hold equal documents.
#[verifier::external_body]
fn same_allocation(a: &Rc<E4XStoreReadOnly>, b: &Rc<E4XStoreReadOnly>) -> (r: bool)
    ensures
        r ==> **a == **b,
{
    Rc::ptr_eq(a, b)
}

impl Clone for E4XNodeReadOnly {
    fn clone(&self) -> (r: Self)
        ensures
            r@ == self@,
    {
        let index: u32 = self.index();
        self.with_index(index)
    }
}

impl E4XNodeReadOnly {
    #[verifier::type_invariant]
    spec fn inv(self) -> bool {
        doc::valid_index(self.store.doc().nodes, self.index)
    }

    /// A handle to the node at `index`.
    pub fn new(store: Rc<E4XStoreReadOnly>, index: u32) -> (r: Self)
        requires
            doc::valid_index(store.doc().nodes, index),
        ensures
            r@ == (Handle { store: *store, index }),
    {
        E4XNodeReadOnly { store, index }
    }

    /// The node's index.
    pub fn index(&self) -> (r: u32)
        ensures
            r == self@.index,
            doc::valid_index(self@.nodes(), r),
            self@.store.sound(),
    {
        proof {
            use_type_invariant(self);
        }
        let _count: u32 = self.store.node_count();
        self.index
    }

    /// The document's store.
    pub fn store(&self) -> (r: &E4XStoreReadOnly)
        ensures
            *r == self@.store,
    {
        &self.store
    }

    pub(crate) fn record(&self) -> (r: E4XNodeDataReadOnly)
        ensures
            self@.store.sound(),
            doc::valid_index(self@.nodes(), self@.index),
            self@.index < VIRTUAL_TEXT ==> doc::rec_ok(
                r@,
                self@.nodes(),
                self@.index as int,
                self@.store.refs(),
            ),
            self@.index >= VIRTUAL_TEXT ==> doc::fresh_rec(
                r@,
                self@.node(),
                self@.store.refs(),
            ),
            r@.kind == self@.node().kind,
            r@.parent == doc::link(self@.node().parent),
            doc::refers(r@.name, self@.node().name, self@.store.refs()),
            doc::refers(r@.ns, self@.node().ns, self@.store.refs()),
            doc::refers(r@.prefix, self@.node().prefix, self@.store.refs()),
            doc::refers(r@.value, self@.node().value, self@.store.refs()),
    {
        proof {
            use_type_invariant(self);
        }
        self.store.node(self.index)
    }

    pub(crate) fn with_index(&self, index: u32) -> (r: Self)
        requires
            doc::valid_index(self@.nodes(), index),
        ensures
            r@ == (Handle { index, ..self@ }),
    {
        E4XNodeReadOnly { store: self.store.clone(), index }
    }

    /// The text behind a string reference, where it stands for one.
    pub(crate) fn text_at(&self, r: u32, Ghost(s): Ghost<Option<Seq<char>>>) -> (t: Option<&str>)
        requires
            doc::refers(r, s, self@.store.refs()),
        ensures
            text::opt_str(t) == s,
    {
        if r == NO_NODE {
            None
        } else {
            let t = self.store.str(r);
            proof {
                text::lemma_encode_injective(t@, s->0);
            }
            Some(t)
        }
    }

    /// The kind of node.
    pub fn kind(&self) -> (r: E4XNodeKindReadOnly)
        ensures
            r == self@.node().kind,
    {
        self.record().kind()
    }

    /// Whether the node is an element.
    pub fn is_element(&self) -> (r: bool)
        ensures
            r == (self@.node().kind is Element),
    {
        self.kind() == E4XNodeKindReadOnly::Element
    }

    /// Whether the node is a text or CDATA section.
    pub fn is_text(&self) -> (r: bool)
        ensures
            r == (self@.node().kind is Text || self@.node().kind is Cdata),
    {
        let k = self.kind();
        k == E4XNodeKindReadOnly::Text || k == E4XNodeKindReadOnly::Cdata
    }

    /// Whether the node is an attribute.
    pub fn is_attribute(&self) -> (r: bool)
        ensures
            r == (self@.node().kind is Attribute),
    {
        self.kind() == E4XNodeKindReadOnly::Attribute
    }

    /// Whether the node is a comment.
    pub fn is_comment(&self) -> (r: bool)
        ensures
            r == (self@.node().kind is Comment),
    {
        self.kind() == E4XNodeKindReadOnly::Comment
    }

    /// Whether the node is a processing instruction.
    pub fn is_processing_instruction(&self) -> (r: bool)
        ensures
            r == (self@.node().kind is ProcessingInstruction),
    {
        self.kind() == E4XNodeKindReadOnly::ProcessingInstruction
    }

    /// The E4X name of the node's kind.
    pub fn node_kind_str(&self) -> (r: &'static str)
        ensures
            r@ == (match self@.node().kind {
                E4XNodeKindReadOnly::Element => "element"@,
                E4XNodeKindReadOnly::Text | E4XNodeKindReadOnly::Cdata => "text"@,
                E4XNodeKindReadOnly::Comment => "comment"@,
                E4XNodeKindReadOnly::ProcessingInstruction => "processing-instruction"@,
                E4XNodeKindReadOnly::Attribute => "attribute"@,
            }),
    {
        match self.kind() {
            E4XNodeKindReadOnly::Element => "element",
            E4XNodeKindReadOnly::Text => "text",
            E4XNodeKindReadOnly::Cdata => "text",
            E4XNodeKindReadOnly::Comment => "comment",
            E4XNodeKindReadOnly::ProcessingInstruction => "processing-instruction",
            E4XNodeKindReadOnly::Attribute => "attribute",
        }
    }

    /// The parent, `None` for a root.
    pub fn parent(&self) -> (r: Option<E4XNodeReadOnly>)
        ensures
            match self@.node().parent {
                Some(p) => r is Some && r->0@ == (Handle { index: p as u32, ..self@ }) && 0 <= p
                    < self@.nodes().len(),
                None => r is None,
            },
    {
        let p: u32 = self.record().parent_idx();
        proof {
            if self@.index < VIRTUAL_TEXT {
                assert(doc::node_ok(self@.nodes(), self@.index as int));
            }
        }
        if p != NO_NODE {
            Some(self.with_index(p))
        } else {
            None
        }
    }

    /// The local name.
    pub fn local_name(&self) -> (r: Option<&str>)
        ensures
            text::opt_str(r) == self@.node().name,
    {
        let n = self.record();
        self.text_at(n.name(), Ghost(self@.node().name))
    }

    /// The raw value of a text, comment, processing instruction or attribute.
    pub fn value(&self) -> (r: Option<&str>)
        ensures
            text::opt_str(r) == self@.node().value,
    {
        let n = self.record();
        self.text_at(n.value_ref(), Ghost(self@.node().value))
    }

    /// The namespace, `None` for a node in none.
    pub fn namespace(&self) -> (r: Option<E4XNamespace>)
        ensures
            match self@.node().ns {
                Some(uri) => r is Some && r->0@ == (NsView { uri, prefix: self@.node().prefix }),
                None => r is None,
            },
    {
        let n = self.record();
        match self.text_at(n.ns(), Ghost(self@.node().ns)) {
            Some(uri) => {
                let prefix: Option<String> = match self.text_at(
                    n.prefix(),
                    Ghost(self@.node().prefix),
                ) {
                    Some(p) => Some(p.to_owned()),
                    None => None,
                };
                Some(E4XNamespace { uri: uri.to_owned(), prefix })
            },
            None => None,
        }
    }

    /// Two handles to nodes of which it is known whether they share the document: they
    /// denote the same node where they also share the index.
    pub fn same_index(&self, other: &E4XNodeReadOnly, same_store: bool) -> (r: bool)
        ensures
            r == (same_store && self@.index == other@.index),
    {
        same_store && self.index == other.index
    }

    /// Two handles denote the same node if they share document and index. Handles into
    /// documents that are merely equal are not told apart in this contract, since where
    /// a document lies is not part of what it is.
    pub fn same_node(&self, other: &E4XNodeReadOnly) -> (r: bool)
        ensures
            r ==> self@ == other@,
            self@.index != other@.index ==> !r,
    {
        self.same_index(other, same_allocation(&self.store, &other.store))
    }

    /// Whether the node's name is one that `want` asks for.
    pub fn matches_name(&self, want: &Multiname) -> (r: bool)
        ensures
            r == queries::name_matches(self@.node(), want@),
    {
        let n = self.record();
        let ghost v = self@.node();
        if want.any_name {
            return true;
        }
        let name = self.text_at(n.name(), Ghost(v.name));
        match &want.local {
            Some(local) => {
                if !same_text(local.as_str(), "*") {
                    match name {
                        Some(have) => {
                            if !same_text(have, local.as_str()) {
                                return false;
                            }
                        },
                        None => {
                            return false;
                        },
                    }
                }
            },
            None => {
                return false;
            },
        }
        if name.is_none() {
            return false;
        }
        if want.any_namespace {
            return true;
        }
        let ns = self.text_at(n.ns(), Ghost(v.ns));
        ns_matches(ns, want)
    }
}

/// Whether a namespace is one that `want` asks for.
pub(crate) fn ns_matches(ns: Option<&str>, want: &Multiname) -> (r: bool)
    ensures
        r == queries::ns_matches(text::opt_str(ns), want@),
{
    let ghost list = want@.namespaces;
    let mut asked: bool = false;
    let mut found: bool = false;
    let mut i: usize = 0;
    while i < want.namespaces.len()
        invariant
            i <= want.namespaces@.len(),
            list == want@.namespaces,
            list.len() == want.namespaces@.len(),
            asked == (exists|k: int| 0 <= k < i && (#[trigger] list[k]).is_namespace),
            found == (exists|k: int|
                0 <= k < i && queries::uri_matches(text::opt_str(ns), (#[trigger] list[k]).uri)),
        decreases want.namespaces@.len() - i,
    {
        let one = &want.namespaces[i];
        assert(list[i as int] == one@);
        if one.is_namespace {
            asked = true;
        }
        let hit: bool = match &one.uri {
            Some(u) => match ns {
                Some(s) => same_text(u.as_str(), s),
                None => u.as_str().is_empty(),
            },
            None => false,
        };
        assert(hit == queries::uri_matches(text::opt_str(ns), one@.uri));
        if hit {
            found = true;
        }
        i += 1;
    }
    if !asked {
        match ns {
            Some(s) => s.is_empty(),
            None => true,
        }
    } else {
        found
    }
}

} // verus!
