//! The finished document: arenas that no longer change, and access to their records.

use crate::builder;
use crate::builder::Builder;
use crate::builder::NsDeclReadOnly;
use crate::doc;
use crate::doc::Doc;
use crate::node_arena::NodeArena;
use crate::node_data::E4XNodeDataReadOnly;
use crate::node_data::E4XNodeKindReadOnly;
use crate::node_data::NO_NODE;
use crate::node_data::VIRTUAL_TEXT;
use crate::str_arena::StrArena;
use vstd::prelude::*;
use vstd::utf8::*;

verus! {

/// A whole document.
pub struct E4XStoreReadOnly {
    nodes: NodeArena,
    strings: StrArena,
    decls: Vec<NsDeclReadOnly>,
    roots: Vec<u32>,
    doc: Ghost<Doc>,
}

impl E4XStoreReadOnly {
    /// The document.
    pub closed spec fn doc(self) -> Doc {
        self.doc@
    }

    /// The bytes behind each string reference.
    pub closed spec fn refs(self) -> Map<u32, Seq<u8>> {
        self.strings.refs()
    }

    #[verifier::type_invariant]
    spec fn inv(self) -> bool {
        let d = self.doc@;
        &&& self.nodes.wf()
        &&& self.strings.wf()
        &&& doc::nodes_ok(d.nodes)
        &&& doc::recs_ok(self.nodes@, d.nodes, self.strings.refs())
        &&& builder::decls_ok(self.decls@, d.decls, d.nodes.len() as int, self.strings.refs())
        &&& forall|x: u32| #[trigger]
            self.strings.refs().dom().contains(x) ==> valid_utf8(self.strings.refs()[x])
        &&& self.roots@ == doc::as_links(doc::kids(d.nodes, None, false, 0))
    }

    /// Takes over the arenas of a builder.
    pub fn assemble(b: Builder, roots: Vec<u32>) -> (r: Self)
        requires
            b.wf(),
            roots@ == doc::as_links(doc::kids(b@.nodes, None, false, 0)),
        ensures
            r.doc() == (Doc { nodes: b@.nodes, decls: b@.decls }),
            r.refs() == builder::refs_of(b@.log),
    {
        let ghost d = Doc { nodes: b@.nodes, decls: b@.decls };
        let (nodes, strings, decls) = b.into_parts();
        E4XStoreReadOnly { nodes, strings, decls, roots, doc: Ghost(d) }
    }

    /// What holds of every document: parents come before children and are elements,
    /// and declarations are carried by nodes.
    pub open spec fn sound(self) -> bool {
        doc::nodes_ok(self.doc().nodes) && doc::decls_in(self.doc())
    }

    proof fn lemma_decls_in(self)
        requires
            self.inv(),
        ensures
            self.sound(),
    {
        assert forall|i: int| 0 <= i < self.doc@.decls.len() implies 0 <= (
        #[trigger] self.doc@.decls[i]).node < self.doc@.nodes.len() by {
            assert(builder::decl_ok(
                self.decls@[i],
                self.doc@.decls[i],
                self.doc@.nodes.len() as int,
                self.strings.refs(),
            ));
        }
    }

    /// Top-level node indices, in document order.
    pub fn roots(&self) -> (r: &[u32])
        ensures
            r@ == doc::as_links(doc::kids(self.doc().nodes, None, false, 0)),
            self.sound(),
    {
        proof {
            use_type_invariant(self);
            self.lemma_decls_in();
        }
        self.roots.as_slice()
    }

    /// Number of stored nodes.
    pub fn node_count(&self) -> (r: u32)
        ensures
            r == self.doc().nodes.len(),
            self.sound(),
    {
        proof {
            use_type_invariant(self);
            self.lemma_decls_in();
        }
        self.nodes.len()
    }

    /// Number of node extents.
    pub fn node_chunk_count(&self) -> (r: usize)
        ensures
            r == (self.doc().nodes.len() + 65535) / 65536,
    {
        proof {
            use_type_invariant(self);
        }
        self.nodes.chunk_count()
    }

    /// Number of namespace declarations.
    pub fn decl_count(&self) -> (r: usize)
        ensures
            r == self.doc().decls.len(),
    {
        proof {
            use_type_invariant(self);
        }
        self.decls.len()
    }

    /// The `i`-th namespace declaration.
    pub fn decl(&self, i: usize) -> (r: NsDeclReadOnly)
        requires
            i < self.doc().decls.len(),
        ensures
            builder::decl_ok(
                r,
                self.doc().decls[i as int],
                self.doc().nodes.len() as int,
                self.refs(),
            ),
    {
        proof {
            use_type_invariant(self);
        }
        self.decls[i]
    }

    /// The record at an index. The text child of a collapsed element has no stored
    /// record: it is made here from the element's value.
    pub fn node(&self, idx: u32) -> (r: E4XNodeDataReadOnly)
        requires
            idx % VIRTUAL_TEXT < self.doc().nodes.len(),
        ensures
            idx < VIRTUAL_TEXT ==> doc::rec_ok(
                r@,
                self.doc().nodes,
                idx as int,
                self.refs(),
            ),
            idx >= VIRTUAL_TEXT ==> doc::fresh_rec(
                r@,
                doc::node_at(self.doc().nodes, idx),
                self.refs(),
            ),
            self.sound(),
    {
        proof {
            use_type_invariant(self);
            self.lemma_decls_in();
            assert(idx & 0x8000_0000u32 == 0 <==> idx < 0x8000_0000u32) by (bit_vector);
            assert(idx >= 0x8000_0000u32 ==> idx & !0x8000_0000u32 == idx - 0x8000_0000u32)
                by (bit_vector);
        }
        if idx & VIRTUAL_TEXT != 0 {
            let parent: u32 = idx & !VIRTUAL_TEXT;
            assert(doc::rec_ok(
                self.nodes@[parent as int],
                self.doc@.nodes,
                parent as int,
                self.refs(),
            ));
            let value: u32 = self.nodes.at(parent).value_ref();
            return E4XNodeDataReadOnly::new(
                E4XNodeKindReadOnly::Text,
                NO_NODE,
                value,
                NO_NODE,
                NO_NODE,
                parent,
            );
        }
        self.nodes.at(idx)
    }

    /// One step of a walk along sibling links: the record of the first attribute or
    /// child of `p` from `from` on, which stands at `c`.
    pub(crate) fn kid(
        &self,
        c: u32,
        Ghost(p): Ghost<int>,
        Ghost(attr): Ghost<bool>,
        Ghost(from): Ghost<int>,
    ) -> (r: E4XNodeDataReadOnly)
        requires
            0 <= from,
            c != NO_NODE,
            c == doc::link(doc::first_kid(self.doc().nodes, Some(p), attr, from)),
        ensures
            self.sound(),
            from <= c < self.doc().nodes.len(),
            c < VIRTUAL_TEXT,
            doc::first_kid(self.doc().nodes, Some(p), attr, from) == Some(c as int),
            doc::is_kid(self.doc().nodes[c as int], Some(p), attr),
            doc::rec_ok(r@, self.doc().nodes, c as int, self.refs()),
            doc::kids(self.doc().nodes, Some(p), attr, from) == seq![c as int] + doc::kids(
                self.doc().nodes,
                Some(p),
                attr,
                c + 1,
            ),
            r@.next_sibling == doc::link(
                doc::first_kid(self.doc().nodes, Some(p), attr, c + 1),
            ),
    {
        proof {
            use_type_invariant(self);
            doc::lemma_first_kid(self.doc@.nodes, Some(p), attr, from);
            doc::lemma_kids_step(self.doc@.nodes, Some(p), attr, from);
        }
        self.node(c)
    }

    /// The first child of the node at an index: for a collapsed element its text
    /// child, otherwise the first stored child.
    pub fn first_child(&self, idx: u32) -> (r: u32)
        requires
            idx % VIRTUAL_TEXT < self.doc().nodes.len(),
        ensures
            r == (if idx >= VIRTUAL_TEXT {
                NO_NODE
            } else if doc::collapsed(self.doc().nodes[idx as int]) {
                doc::virtual_index(idx as int)
            } else {
                doc::link(doc::first_kid(self.doc().nodes, Some(idx as int), false, 0))
            }),
    {
        proof {
            use_type_invariant(self);
            assert(idx < 0x8000_0000u32 ==> 0x8000_0000u32 | idx == idx + 0x8000_0000u32)
                by (bit_vector);
            if idx < VIRTUAL_TEXT {
                assert(doc::node_ok(self.doc@.nodes, idx as int));
            }
        }
        let n = self.node(idx);
        if n.kind() == E4XNodeKindReadOnly::Element && n.first_child_idx() == NO_NODE
            && n.value_ref() != NO_NODE {
            VIRTUAL_TEXT | idx
        } else {
            n.first_child_idx()
        }
    }

    /// The string behind a reference.
    pub fn str(&self, r: u32) -> (s: &str)
        requires
            self.refs().dom().contains(r),
        ensures
            encode_utf8(s@) == self.refs()[r],
    {
        proof {
            use_type_invariant(self);
        }
        self.strings.text(r)
    }
}

} // verus!
