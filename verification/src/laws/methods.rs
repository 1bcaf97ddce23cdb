//! The methods of the read-only XML class, by what they answer.

use crate::doc;
use crate::doc::NodeView;
use crate::laws::content;
use crate::laws::namespaces;
use crate::laws::search;
use crate::multiname::Multiname;
use crate::multiname::MultinameView;
use crate::multiname::NsView;
use crate::node;
use crate::node::E4XNodeReadOnly;
use crate::node::Handle;
use crate::node_data::VIRTUAL_TEXT;
use crate::queries;
use crate::text;
use crate::xml_object::PropertyAnswer;
use crate::xml_object::XmlObjectReadOnly;
use crate::xml_read_only;
use crate::xml_read_only::NamespaceAnswer;
use crate::xml_read_only::NodeName;
use crate::xml_read_only::NodeNamespace;
use crate::xml_read_only::NodeNamespaceView;
use vstd::prelude::*;

verus! {

/// The node is one that its document stores.
pub open spec fn stands(n: Handle) -> bool {
    &&& doc::nodes_ok(n.nodes())
    &&& n.index < n.nodes().len()
}

/// A list names exactly the nodes of a document that are hit.
pub open spec fn names(list: Seq<E4XNodeReadOnly>, n: Handle, hit: spec_fn(u32) -> bool) -> bool {
    &&& forall|k: int|
        0 <= k < list.len() ==> (#[trigger] list[k])@.store == n.store && hit(list[k]@.index)
    &&& forall|j: u32| #[trigger]
        hit(j) ==> exists|k: int|
            0 <= k < list.len() && (#[trigger] list[k])@ == (Handle { index: j, ..n })
}

/// A list names nodes in the order in which their document stores them, each once.
pub open spec fn in_order(list: Seq<E4XNodeReadOnly>) -> bool {
    forall|k: int, l: int|
        0 <= k < l < list.len() ==> (#[trigger] list[k])@.index < (#[trigger] list[l])@.index
}

/// A stored node with a certain parent.
pub open spec fn has_parent(n: Handle, j: u32) -> bool {
    j < n.nodes().len() && n.nodes()[j as int].parent == Some(n.index as int)
}

proof fn lemma_listed(
    list: Seq<E4XNodeReadOnly>,
    n: Handle,
    at: Seq<u32>,
    hit: spec_fn(u32) -> bool,
)
    requires
        node::handles(list) == node::at_indices(n.store, at),
        forall|j: u32| #![trigger at.contains(j)] #![trigger hit(j)] at.contains(j) <==> hit(j),
    ensures
        names(list, n, hit),
        list.len() == at.len(),
        forall|k: int| 0 <= k < at.len() ==> (#[trigger] list[k])@.index == at[k],
        (forall|k: int, l: int| 0 <= k < l < at.len() ==> at[k] < at[l]) ==> in_order(list),
{
    let there = node::handles(list);
    assert(there.len() == list.len());
    assert forall|k: int| 0 <= k < list.len() implies (#[trigger] list[k])@ == (Handle {
        index: at[k],
        ..n
    }) by {
        assert(there[k] == list[k]@);
    }
    assert forall|k: int| 0 <= k < list.len() implies (#[trigger] list[k])@.store == n.store
        && hit(list[k]@.index) by {
        assert(at.contains(at[k]));
    }
    assert forall|j: u32| #[trigger] hit(j) implies exists|k: int|
        0 <= k < list.len() && (#[trigger] list[k])@ == (Handle { index: j, ..n }) by {
        assert(at.contains(j));
        let k = choose|k: int| 0 <= k < at.len() && at[k] == j;
        assert(list[k]@ == (Handle { index: j, ..n }));
    }
}

proof fn lemma_listed_nodes(
    list: Seq<E4XNodeReadOnly>,
    n: Handle,
    at: Seq<int>,
    hit: spec_fn(u32) -> bool,
)
    requires
        stands(n),
        node::handles(list) == node::at_indices(n.store, doc::as_links(at)),
        forall|k: int| 0 <= k < at.len() ==> 0 <= #[trigger] at[k] < n.nodes().len(),
        forall|j: u32|
            #![trigger at.contains(j as int)]
            #![trigger hit(j)]
            at.contains(j as int) <==> hit(j),
    ensures
        names(list, n, hit),
        list.len() == at.len(),
        forall|k: int| 0 <= k < at.len() ==> (#[trigger] list[k])@.index == at[k],
        search::ascending(at) ==> in_order(list),
{
    let links = doc::as_links(at);
    assert forall|j: u32| #![trigger links.contains(j)] links.contains(j) <==> hit(j) by {
        if links.contains(j) {
            let k = choose|k: int| 0 <= k < links.len() && links[k] == j;
            assert(at[k] == j as int);
            assert(at.contains(j as int));
        }
        if hit(j) {
            assert(at.contains(j as int));
            let k = choose|k: int| 0 <= k < at.len() && at[k] == j as int;
            assert(links[k] == j);
        }
    }
    lemma_listed(list, n, links, hit);
}

proof fn lemma_within(at: Seq<int>, nodes: Seq<NodeView>)
    requires
        forall|j: int| #[trigger] at.contains(j) ==> 0 <= j < nodes.len(),
    ensures
        forall|k: int| 0 <= k < at.len() ==> 0 <= #[trigger] at[k] < nodes.len(),
{
    assert forall|k: int| 0 <= k < at.len() implies 0 <= #[trigger] at[k] < nodes.len() by {
        assert(at.contains(at[k]));
    }
}

/// What `child` and `elements` answer with: the children of the node that are elements of a
/// matching name, in document order.
pub proof fn lemma_child<F>(
    this: &XmlObjectReadOnly<F>,
    want: &Multiname,
    r: Vec<E4XNodeReadOnly>,
)
    requires
        call_ensures(xml_read_only::child::<F>, (this, want), r) || call_ensures(
            xml_read_only::elements::<F>,
            (this, want),
            r,
        ),
    ensures
        this@.node is None ==> r@.len() == 0,
        this@.node matches Some(n) ==> stands(n) ==> names(
            r@,
            n,
            |j: u32|
                has_parent(n, j) && n.nodes()[j as int].kind is Element && queries::name_matches(
                    n.nodes()[j as int],
                    want@,
                ),
        ) && in_order(r@),
{
    assert(node::handles(r@).len() == r@.len());
    if this@.node is Some && stands(this@.node->0) {
        let n = this@.node->0;
        let at = queries::matching_children(n.nodes(), n.index, want@);
        search::lemma_children_found(n.nodes(), n.index, want@);
        lemma_within(at, n.nodes());
        lemma_listed_nodes(
            r@,
            n,
            at,
            |j: u32|
                has_parent(n, j) && n.nodes()[j as int].kind is Element && queries::name_matches(
                    n.nodes()[j as int],
                    want@,
                ),
        );
    }
}

/// What `attribute` answers with: the attributes of the node of a matching name, in document
/// order.
pub proof fn lemma_attribute<F>(
    this: &XmlObjectReadOnly<F>,
    want: &Multiname,
    r: Vec<E4XNodeReadOnly>,
)
    requires
        call_ensures(xml_read_only::attribute::<F>, (this, want), r),
    ensures
        this@.node is None ==> r@.len() == 0,
        this@.node matches Some(n) ==> stands(n) ==> names(
            r@,
            n,
            |j: u32|
                has_parent(n, j) && n.nodes()[j as int].kind is Attribute && queries::name_matches(
                    n.nodes()[j as int],
                    want@,
                ),
        ) && in_order(r@),
{
    assert(node::handles(r@).len() == r@.len());
    if this@.node is Some && stands(this@.node->0) {
        let n = this@.node->0;
        let at = queries::matching_attrs(n.nodes(), n.index, want@);
        search::lemma_children_found(n.nodes(), n.index, want@);
        lemma_within(at, n.nodes());
        lemma_listed_nodes(
            r@,
            n,
            at,
            |j: u32|
                has_parent(n, j) && n.nodes()[j as int].kind is Attribute && queries::name_matches(
                    n.nodes()[j as int],
                    want@,
                ),
        );
    }
}

/// What `attributes` answers with: all attributes of the node, in document order.
pub proof fn lemma_attributes<F>(this: &XmlObjectReadOnly<F>, r: Vec<E4XNodeReadOnly>)
    requires
        call_ensures(xml_read_only::attributes::<F>, (this,), r),
    ensures
        this@.node is None ==> r@.len() == 0,
        this@.node matches Some(n) ==> stands(n) ==> names(
            r@,
            n,
            |j: u32| has_parent(n, j) && n.nodes()[j as int].kind is Attribute,
        ) && in_order(r@),
{
    assert(node::handles(r@).len() == r@.len());
    if this@.node is Some && stands(this@.node->0) {
        let n = this@.node->0;
        search::lemma_all_children(n.nodes(), n.index);
        lemma_listed(
            r@,
            n,
            doc::attr_indices(n.nodes(), n.index),
            |j: u32| has_parent(n, j) && n.nodes()[j as int].kind is Attribute,
        );
    }
}

/// What `children` answers with: all children of the node, in document order; of an element
/// that holds nothing but one text, that text.
pub proof fn lemma_children<F>(this: &XmlObjectReadOnly<F>, r: Vec<E4XNodeReadOnly>)
    requires
        call_ensures(xml_read_only::children::<F>, (this,), r),
    ensures
        this@.node is None ==> r@.len() == 0,
        this@.node matches Some(n) ==> stands(n) ==> if n.node().kind is Element && n.node().value
            is Some {
            r@.len() == 1 && r@[0]@ == (Handle { index: (n.index + VIRTUAL_TEXT) as u32, ..n })
        } else {
            names(
                r@,
                n,
                |j: u32| has_parent(n, j) && !(n.nodes()[j as int].kind is Attribute),
            ) && in_order(r@)
        },
{
    assert(node::handles(r@).len() == r@.len());
    if this@.node is Some && stands(this@.node->0) {
        let n = this@.node->0;
        let at = doc::child_indices(n.nodes(), n.index);
        search::lemma_all_children(n.nodes(), n.index);
        if n.node().kind is Element && n.node().value is Some {
            lemma_listed(r@, n, at, |j: u32| at.contains(j));
            assert(r@[0]@.index == at[0]);
        } else {
            lemma_listed(
                r@,
                n,
                at,
                |j: u32| has_parent(n, j) && !(n.nodes()[j as int].kind is Attribute),
            );
        }
    }
}

/// What `text` answers with: the children that are texts or CDATA sections, in document order;
/// of an element that holds nothing but one text, that text.
pub proof fn lemma_text<F>(this: &XmlObjectReadOnly<F>, r: Vec<E4XNodeReadOnly>)
    requires
        call_ensures(xml_read_only::text::<F>, (this,), r),
    ensures
        this@.node is None ==> r@.len() == 0,
        this@.node matches Some(n) ==> stands(n) ==> if n.node().kind is Element && n.node().value
            is Some {
            r@.len() == 1 && r@[0]@ == (Handle { index: (n.index + VIRTUAL_TEXT) as u32, ..n })
        } else {
            names(
                r@,
                n,
                |j: u32|
                    has_parent(n, j) && (n.nodes()[j as int].kind is Text || n.nodes()[j as int].kind
                        is Cdata),
            ) && in_order(r@)
        },
{
    assert(node::handles(r@).len() == r@.len());
    if this@.node is Some && stands(this@.node->0) {
        let n = this@.node->0;
        let at = queries::text_indices(n.nodes(), n.index);
        search::lemma_texts_found(n.nodes(), n.index);
        if n.node().kind is Element && n.node().value is Some {
            lemma_listed(r@, n, at, |j: u32| at.contains(j));
            assert(r@[0]@.index == at[0]);
        } else {
            lemma_listed(
                r@,
                n,
                at,
                |j: u32|
                    has_parent(n, j) && (n.nodes()[j as int].kind is Text || n.nodes()[j as int].kind
                        is Cdata),
            );
        }
    }
}

/// What `comments` answers with: the children that are comments, in document order.
pub proof fn lemma_comments<F>(this: &XmlObjectReadOnly<F>, r: Vec<E4XNodeReadOnly>)
    requires
        call_ensures(xml_read_only::comments::<F>, (this,), r),
    ensures
        this@.node is None ==> r@.len() == 0,
        this@.node matches Some(n) ==> stands(n) ==> names(
            r@,
            n,
            |j: u32| has_parent(n, j) && n.nodes()[j as int].kind is Comment,
        ) && in_order(r@),
{
    assert(node::handles(r@).len() == r@.len());
    if this@.node is Some && stands(this@.node->0) {
        let n = this@.node->0;
        let at = queries::comment_children(n.nodes(), n.index);
        search::lemma_children_by_kind(n.nodes(), n.index, None);
        lemma_within(at, n.nodes());
        lemma_listed_nodes(
            r@,
            n,
            at,
            |j: u32| has_parent(n, j) && n.nodes()[j as int].kind is Comment,
        );
    }
}

/// What `processing_instructions` answers with: the children that are processing instructions
/// of a target, in document order. `*` and no target stand for any.
pub proof fn lemma_processing_instructions<F>(
    this: &XmlObjectReadOnly<F>,
    want: Option<&str>,
    r: Vec<E4XNodeReadOnly>,
)
    requires
        call_ensures(xml_read_only::processing_instructions::<F>, (this, want), r),
    ensures
        this@.node is None ==> r@.len() == 0,
        this@.node matches Some(n) ==> stands(n) ==> names(
            r@,
            n,
            |j: u32|
                has_parent(n, j) && n.nodes()[j as int].kind is ProcessingInstruction && (want
                    is None || want->0@ == seq!['*'] || n.nodes()[j as int].name == Some(
                    want->0@,
                )),
        ) && in_order(r@),
{
    assert(node::handles(r@).len() == r@.len());
    if this@.node is Some && stands(this@.node->0) {
        let n = this@.node->0;
        let at = queries::pi_children(n.nodes(), n.index, text::opt_str(want));
        search::lemma_children_by_kind(n.nodes(), n.index, text::opt_str(want));
        lemma_within(at, n.nodes());
        lemma_listed_nodes(
            r@,
            n,
            at,
            |j: u32|
                has_parent(n, j) && n.nodes()[j as int].kind is ProcessingInstruction && (want
                    is None || want->0@ == seq!['*'] || n.nodes()[j as int].name == Some(
                    want->0@,
                )),
        );
    }
}

/// A node that a search of what lies below finds: an element there, or where attributes are
/// asked for an attribute of one, whose name matches.
pub open spec fn lies_below(n: Handle, want: MultinameView, j: u32) -> bool {
    let nodes = n.nodes();
    &&& j < nodes.len()
    &&& if want.attribute {
        nodes[j as int].kind is Attribute && search::under(
            nodes,
            n.index as int,
            nodes[j as int].parent->0,
        )
    } else {
        nodes[j as int].kind is Element && search::under(nodes, n.index as int, j as int)
    }
    &&& want.any_name || queries::name_matches(nodes[j as int], want)
}

/// What `descendants` answers with: the elements below the node whose name matches, or where
/// attributes are asked for the attributes of elements below it, in document order. Asked for
/// any name it answers with all of them.
pub proof fn lemma_descendants<F>(
    this: &XmlObjectReadOnly<F>,
    want: &Multiname,
    r: Vec<E4XNodeReadOnly>,
)
    requires
        call_ensures(xml_read_only::descendants::<F>, (this, want), r) || call_ensures(
            XmlObjectReadOnly::<F>::xml_descendants,
            (this, want),
            r,
        ),
    ensures
        this@.node is None ==> r@.len() == 0,
        this@.node matches Some(n) ==> stands(n) ==> {
            &&& names(r@, n, |j: u32| lies_below(n, want@, j))
            &&& forall|k: int, l: int|
                0 <= k < l < r@.len() ==> search::found_before(
                    n.nodes(),
                    (#[trigger] r@[k])@.index as int,
                    (#[trigger] r@[l])@.index as int,
                    want@,
                )
        },
{
    assert(node::handles(r@).len() == r@.len());
    if this@.node is Some && stands(this@.node->0) {
        let n = this@.node->0;
        let at = queries::matching_descendants(n.nodes(), n.index, want@);
        assert forall|j: int| #[trigger] at.contains(j) implies 0 <= j < n.nodes().len() by {
            search::lemma_descendants_found(n.nodes(), n.index, want@, j);
        }
        lemma_within(at, n.nodes());
        let hit = |j: u32| lies_below(n, want@, j);
        assert forall|j: u32|
            #![trigger at.contains(j as int)]
            #![trigger hit(j)]
            at.contains(j as int) <==> hit(j) by {
            search::lemma_descendants_found(n.nodes(), n.index, want@, j as int);
        }
        lemma_listed_nodes(r@, n, at, hit);
        assert forall|k: int, l: int| 0 <= k < l < r@.len() implies search::found_before(
            n.nodes(),
            (#[trigger] r@[k])@.index as int,
            (#[trigger] r@[l])@.index as int,
            want@,
        ) by {
            search::lemma_descendants_in_order(n.nodes(), n.index, want@, k, l);
        }
    }
}

/// What `parent` answers with: an object for the node above, and nothing for a root.
pub proof fn lemma_parent<F>(this: &XmlObjectReadOnly<F>, r: Option<XmlObjectReadOnly<F>>)
    requires
        call_ensures(xml_read_only::parent::<F>, (this,), r),
    ensures
        this@.node is None ==> r is None,
        this@.node matches Some(n) ==> stands(n) ==> match r {
            Some(p) => {
                &&& p@.node matches Some(h)
                &&& h.store == n.store
                &&& h.index < n.nodes().len()
                &&& h.node().kind is Element
                &&& n.node().parent == Some(h.index as int)
            },
            None => n.node().parent is None,
        },
{
    if this@.node is Some && stands(this@.node->0) {
        let n = this@.node->0;
        assert(doc::node_ok(n.nodes(), n.index as int));
    }
}

/// What `child_index` answers with: where the node stands among its parent's children, so that
/// the child there is the node itself; minus one for a root and for an attribute.
pub proof fn lemma_child_index<F>(this: &XmlObjectReadOnly<F>, r: i32)
    requires
        call_ensures(xml_read_only::child_index::<F>, (this,), r),
    ensures
        this@.node is None ==> r == -1,
        this@.node matches Some(n) ==> stands(n) ==> {
            &&& r == -1 <==> n.node().parent is None || n.node().kind is Attribute
            &&& r != -1 ==> {
                let all = doc::child_indices(n.nodes(), n.node().parent->0 as u32);
                0 <= r < all.len() && all[r as int] == n.index
            }
        },
{
    if this@.node is Some && stands(this@.node->0) {
        content::lemma_positions(this@.node->0.nodes(), this@.node->0.index);
    }
}

/// The index that a child answers with is that at which its parent's `children` hold it.
pub proof fn lemma_index_among_children<F>(
    this: &XmlObjectReadOnly<F>,
    above: &XmlObjectReadOnly<F>,
    r: i32,
    list: Vec<E4XNodeReadOnly>,
)
    requires
        call_ensures(xml_read_only::parent::<F>, (this,), Some(*above)),
        call_ensures(xml_read_only::children::<F>, (above,), list),
        call_ensures(xml_read_only::child_index::<F>, (this,), r),
        this@.node matches Some(n) && stands(n) && !(n.node().kind is Attribute),
    ensures
        0 <= r < list@.len(),
        Some(list@[r as int]@) == this@.node,
{
    let n = this@.node->0;
    let h = above@.node->0;
    lemma_child_index(this, r);
    lemma_parent(this, Some(*above));
    let at = doc::child_indices(h.nodes(), h.index);
    assert(node::handles(list@) == node::at_indices(h.store, at));
    assert(node::handles(list@).len() == list@.len());
    assert(node::handles(list@)[r as int] == list@[r as int]@);
}

/// What `contains` answers with: nothing is contained in, or contains, an object without a
/// node. What contains another has its content.
pub proof fn lemma_contains<F>(
    this: &XmlObjectReadOnly<F>,
    other: &XmlObjectReadOnly<F>,
    r: bool,
)
    requires
        call_ensures(xml_read_only::contains::<F>, (this, Some(other)), r),
    ensures
        this@.node is None || other@.node is None ==> !r,
        r && stands(this@.node->0) && stands(other@.node->0) ==> {
            let a = this@.node->0;
            let b = other@.node->0;
            &&& content::alike(a.node().kind, b.node().kind)
            &&& a.node().name == b.node().name
            &&& a.node().ns == b.node().ns
            &&& queries::string_value(a.nodes(), a.index) == queries::string_value(
                b.nodes(),
                b.index,
            )
        },
{
    if r && stands(this@.node->0) && stands(other@.node->0) {
        let a = this@.node->0;
        let b = other@.node->0;
        content::lemma_equality(a.nodes(), a.index, b.nodes(), b.index);
        content::lemma_equal_content(a.nodes(), a.index, b.nodes(), b.index);
    }
}

/// Nothing is contained in an object where no object is given.
pub proof fn lemma_contains_none<F>(this: &XmlObjectReadOnly<F>, r: bool)
    requires
        call_ensures(xml_read_only::contains::<F>, (this, None), r),
    ensures
        !r,
{
}

/// Objects answer with a length of one.
pub proof fn lemma_length<F>(this: &XmlObjectReadOnly<F>, r: i32)
    requires
        call_ensures(xml_read_only::length::<F>, (this,), r),
    ensures
        r == 1,
{
}

/// What `node_kind` answers with, letter by letter. A CDATA section is a text, and so is an
/// object without a node.
pub proof fn lemma_node_kind<F>(this: &XmlObjectReadOnly<F>, r: &'static str)
    requires
        call_ensures(xml_read_only::node_kind::<F>, (this,), r),
    ensures
        this@.node is None ==> r@ == seq!['t', 'e', 'x', 't'],
        this@.node matches Some(n) ==> {
            let k = n.node().kind;
            &&& k is Element ==> r@ == seq!['e', 'l', 'e', 'm', 'e', 'n', 't']
            &&& k is Text || k is Cdata ==> r@ == seq!['t', 'e', 'x', 't']
            &&& k is Comment ==> r@ == seq!['c', 'o', 'm', 'm', 'e', 'n', 't']
            &&& k is Attribute ==> r@ == seq!['a', 't', 't', 'r', 'i', 'b', 'u', 't', 'e']
            &&& k is ProcessingInstruction ==> r@ == seq!['p', 'r', 'o', 'c', 'e', 's', 's', 'i', 'n', 'g']
                + seq!['-'] + seq!['i', 'n', 's', 't', 'r', 'u', 'c', 't', 'i', 'o', 'n']
        },
{
    reveal_strlit("text");
    reveal_strlit("element");
    reveal_strlit("comment");
    reveal_strlit("attribute");
    reveal_strlit("processing-instruction");
}

/// What `local_name` and `name` answer with: the node's name, in its namespace, and for texts
/// and comments nothing. The namespace is the node's own.
pub proof fn lemma_name<F>(
    this: &XmlObjectReadOnly<F>,
    local: Option<String>,
    full: Option<NodeName>,
)
    requires
        call_ensures(xml_read_only::local_name::<F>, (this,), local),
        call_ensures(xml_read_only::name::<F>, (this,), full),
    ensures
        this@.node is None ==> local is None && full is None,
        local is Some <==> full is Some,
        local matches Some(l) ==> this@.node->0.node().name == Some(l@) && full->0.local@ == l@,
        full matches Some(q) ==> {
            let v = this@.node->0.node();
            &&& q.attribute <==> v.kind is Attribute
            &&& v.ns is None <==> q.namespace is Default
            &&& q.namespace matches NodeNamespace::InScope(ns) ==> v.ns == Some(ns.uri@)
            &&& q.namespace matches NodeNamespace::Uri(u) ==> v.ns == Some(u@)
        },
        this@.node matches Some(n) ==> stands(n) ==> {
            let k = n.node().kind;
            &&& k is Element || k is Attribute ==> local is Some
            &&& k is Text || k is Cdata || k is Comment ==> local is None
        },
{
    if this@.node is Some {
        let n = this@.node->0;
        namespaces::lemma_own_namespace(n);
        if stands(n) {
            assert(doc::node_ok(n.nodes(), n.index as int));
        }
    }
}

/// What asking for a namespace answers with: for a prefix the URI of its closest declaration,
/// undefined where there is none; for no prefix that of the element or attribute itself, and
/// null for other nodes.
pub proof fn lemma_namespace<F>(
    this: &XmlObjectReadOnly<F>,
    has_prefix: bool,
    prefix: &str,
    r: NamespaceAnswer,
)
    requires
        call_ensures(
            xml_read_only::namespace_internal_impl::<F>,
            (this, has_prefix, prefix),
            r,
        ),
    ensures
        this@.node is None ==> r is Null,
        this@.node matches Some(n) ==> has_prefix ==> match namespaces::closest(
            n.store.doc(),
            n.index,
            prefix@,
        ) {
            Some(uri) => r matches NamespaceAnswer::Namespace(NodeNamespace::InScope(ns)) && ns@
                == (NsView { prefix: Some(prefix@), uri }),
            None => r is Undefined,
        },
        this@.node matches Some(n) ==> !has_prefix ==> {
            let v = n.node();
            &&& !(v.kind is Element || v.kind is Attribute) ==> r is Null
            &&& v.kind is Element || v.kind is Attribute ==> {
                &&& r matches NamespaceAnswer::Namespace(a)
                &&& v.ns is None <==> a is Default
                &&& a matches NodeNamespace::InScope(ns) ==> v.ns == Some(ns.uri@)
                &&& a matches NodeNamespace::Uri(u) ==> v.ns == Some(u@)
            }
        },
{
    if this@.node is Some {
        let n = this@.node->0;
        namespaces::lemma_own_namespace(n);
        namespaces::lemma_prefix_asked(n.store.doc(), n.index, prefix@);
    }
}

/// Some namespace of a list binds a prefix to a URI.
pub open spec fn lists(list: Seq<NodeNamespace>, prefix: Seq<char>, uri: Seq<char>) -> bool {
    exists|k: int|
        0 <= k < list.len() && (#[trigger] list[k])@ == NodeNamespaceView::InScope(
            NsView { prefix: Some(prefix), uri },
        )
}

/// What `in_scope_namespaces` answers with: a prefix is bound to the URI of its closest
/// declaration and to no other. The list is never empty.
pub proof fn lemma_in_scope<F>(
    this: &XmlObjectReadOnly<F>,
    r: Vec<NodeNamespace>,
    prefix: Seq<char>,
    uri: Seq<char>,
)
    requires
        call_ensures(xml_read_only::in_scope_namespaces::<F>, (this,), r),
    ensures
        r@.len() > 0,
        this@.node is None ==> r@.len() == 1 && r@[0] is Default,
        this@.node matches Some(n) ==> (lists(r@, prefix, uri) <==> namespaces::closest(
            n.store.doc(),
            n.index,
            prefix,
        ) == Some(uri)),
{
    let views = xml_read_only::answer_views(r@);
    assert(views.len() == r@.len());
    assert forall|k: int| 0 <= k < r@.len() implies (#[trigger] r@[k])@ == views[k] by {}
    if this@.node is Some {
        let n = this@.node->0;
        let scope = queries::scope(n.store.doc(), n.index);
        namespaces::lemma_scope(n.store.doc(), n.index, prefix, uri);
        if lists(r@, prefix, uri) {
            let k = choose|k: int|
                0 <= k < r@.len() && (#[trigger] r@[k])@ == NodeNamespaceView::InScope(
                    NsView { prefix: Some(prefix), uri },
                );
            assert(scope.len() > 0);
            assert(scope[k] == (NsView { prefix: Some(prefix), uri }));
        }
        if namespaces::binds(scope, prefix, uri) {
            let k = choose|k: int|
                0 <= k < scope.len() && (#[trigger] scope[k]).prefix == Some(prefix)
                    && scope[k].uri == uri;
            assert(r@[k]@ == views[k]);
        }
    } else {
        assert(r@[0]@ == views[0]);
    }
}

/// What `has_simple_content` and `has_complex_content` answer with. An element has complex
/// content exactly if some child of it is an element, and otherwise simple content. A comment
/// and a processing instruction have neither; an object without a node has simple content.
pub proof fn lemma_has_content<F>(this: &XmlObjectReadOnly<F>, simple: bool, complex: bool)
    requires
        call_ensures(xml_read_only::has_simple_content::<F>, (this,), simple),
        call_ensures(xml_read_only::has_complex_content::<F>, (this,), complex),
    ensures
        this@.node is None ==> simple && !complex,
        this@.node matches Some(n) ==> stands(n) ==> {
            let k = n.node().kind;
            &&& complex <==> k is Element && exists|j: u32|
                #[trigger] has_parent(n, j) && n.nodes()[j as int].kind is Element
            &&& k is Element ==> simple == !complex
            &&& k is Comment || k is ProcessingInstruction ==> !simple
            &&& k is Text || k is Cdata || k is Attribute ==> simple
        },
{
    if this@.node is Some && stands(this@.node->0) {
        let n = this@.node->0;
        let nodes = n.nodes();
        search::lemma_content(nodes, n.index);
        if complex {
            let j = choose|j: int|
                0 <= j < nodes.len() && (#[trigger] nodes[j]).parent == Some(n.index as int)
                    && nodes[j].kind is Element;
            assert(has_parent(n, j as u32));
        }
        if exists|j: u32| #[trigger] has_parent(n, j) && nodes[j as int].kind is Element {
            let j = choose|j: u32| #[trigger]
                has_parent(n, j) && nodes[j as int].kind is Element;
            assert(nodes[j as int].kind is Element);
        }
    }
}

/// What `to_string` answers with: the value of a text, a CDATA section or an attribute, nothing
/// for a comment or a processing instruction, the contents of the children of an element one
/// behind the other.
pub proof fn lemma_to_string<F>(this: &XmlObjectReadOnly<F>, r: String)
    requires
        call_ensures(xml_read_only::to_string::<F>, (this,), r) || call_ensures(
            XmlObjectReadOnly::<F>::to_string_value,
            (this,),
            r,
        ),
    ensures
        this@.node is None ==> r@.len() == 0,
        this@.node matches Some(n) ==> stands(n) ==> {
            let v = n.node();
            &&& v.kind is Text || v.kind is Cdata || v.kind is Attribute ==> v.value == Some(r@)
            &&& v.kind is Comment || v.kind is ProcessingInstruction ==> r@.len() == 0
            &&& v.kind is Element ==> r@ == content::joined_up(
                n.nodes(),
                doc::child_indices(n.nodes(), n.index),
            )
        },
{
    if this@.node is Some && stands(this@.node->0) {
        let n = this@.node->0;
        assert(doc::node_ok(n.nodes(), n.index as int));
        content::lemma_own_content(n.nodes(), n.index);
        if n.node().kind is Element {
            content::lemma_element_content(n.nodes(), n.index);
        }
    }
}

/// What stepping through an object answers with: one step, to the object itself, where it has
/// a node, and none where it has not.
pub proof fn lemma_steps<F>(
    this: &XmlObjectReadOnly<F>,
    from: u32,
    next: u32,
    value: PropertyAnswer,
)
    requires
        call_ensures(XmlObjectReadOnly::<F>::get_next_enumerant, (this, from), next),
        call_ensures(XmlObjectReadOnly::<F>::get_enumerant_value, (this, next), value),
    ensures
        next <= 1,
        next == 1 <==> from == 0 && this@.node is Some,
        next == 1 ==> value is This,
        next == 0 ==> value is Undefined,
{
}

/// Whether an object answers to a name: where it has a node, if some attribute or child element
/// of it has a matching name, or if it has a dynamic property of that name.
pub proof fn lemma_own_property<F>(
    this: &XmlObjectReadOnly<F>,
    name: &Multiname,
    has_dynamic: bool,
    r: bool,
)
    requires
        call_ensures(XmlObjectReadOnly::<F>::has_own_property, (this, name, has_dynamic), r),
    ensures
        this@.node is None ==> !r,
        this@.node is Some && has_dynamic ==> r,
        this@.node matches Some(n) ==> stands(n) && !has_dynamic ==> (r <==> exists|j: u32|
            #[trigger] has_parent(n, j) && queries::name_matches(n.nodes()[j as int], name@) && if name@.attribute {
                n.nodes()[j as int].kind is Attribute
            } else {
                n.nodes()[j as int].kind is Element
            }),
{
    if this@.node is Some && stands(this@.node->0) && !has_dynamic {
        let n = this@.node->0;
        let nodes = n.nodes();
        search::lemma_children_found(nodes, n.index, name@);
        let at = if name@.attribute {
            queries::matching_attrs(nodes, n.index, name@)
        } else {
            queries::matching_children(nodes, n.index, name@)
        };
        if r {
            assert(at.contains(at[0]));
            assert(has_parent(n, at[0] as u32));
        }
        if exists|j: u32|
            #[trigger] has_parent(n, j) && queries::name_matches(nodes[j as int], name@) && if name@.attribute {
                nodes[j as int].kind is Attribute
            } else {
                nodes[j as int].kind is Element
            } {
            let j = choose|j: u32|
                #[trigger] has_parent(n, j) && queries::name_matches(nodes[j as int], name@)
                    && if name@.attribute {
                    nodes[j as int].kind is Attribute
                } else {
                    nodes[j as int].kind is Element
                };
            assert(at.contains(j as int));
        }
    }
}

/// What a property answers with. Index nought is the object, any other index undefined. A name
/// selects attributes or child elements; where it selects none and a dynamic property has it,
/// that property.
pub proof fn lemma_property<F>(
    this: &XmlObjectReadOnly<F>,
    name: &Multiname,
    index: Option<usize>,
    reparsed: &Multiname,
    has_dynamic: bool,
    r: PropertyAnswer,
)
    requires
        call_ensures(
            XmlObjectReadOnly::<F>::get_property_local,
            (this, name, index, reparsed, has_dynamic),
            r,
        ),
        !name@.explicit_namespace,
        name@.local is Some,
    ensures
        index matches Some(i) ==> if i == 0 {
            r is This
        } else {
            r is Undefined
        },
        index is None ==> r is List || r is Dynamic,
        index is None && r is Dynamic ==> has_dynamic && this@.node is Some,
        this@.node is None && index is None ==> r is List && r->List_0@.len() == 0,
        this@.node matches Some(n) ==> index is None && stands(n) && name@.attribute ==> {
            &&& r matches PropertyAnswer::List(l)
            &&& names(
                l@,
                n,
                |j: u32|
                    has_parent(n, j) && n.nodes()[j as int].kind is Attribute
                        && queries::name_matches(n.nodes()[j as int], name@),
            )
            &&& in_order(l@)
        },
{
    if index is None && r is List {
        let l = r->List_0;
        assert(node::handles(l@).len() == l@.len());
        if this@.node is Some && stands(this@.node->0) && name@.attribute {
            let n = this@.node->0;
            let at = queries::matching_attrs(n.nodes(), n.index, name@);
            search::lemma_children_found(n.nodes(), n.index, name@);
            lemma_within(at, n.nodes());
            lemma_listed_nodes(
                l@,
                n,
                at,
                |j: u32|
                    has_parent(n, j) && n.nodes()[j as int].kind is Attribute
                        && queries::name_matches(n.nodes()[j as int], name@),
            );
        }
    }
}

/// What a plain name of a child answers with: the child elements that match the name as it
/// reads, and the dynamic property where there are none and there is one.
pub proof fn lemma_child_property<F>(
    this: &XmlObjectReadOnly<F>,
    name: &Multiname,
    reparsed: &Multiname,
    has_dynamic: bool,
    r: PropertyAnswer,
    n: Handle,
)
    requires
        call_ensures(
            XmlObjectReadOnly::<F>::get_property_local,
            (this, name, None, reparsed, has_dynamic),
            r,
        ),
        !name@.explicit_namespace && !name@.attribute && !name@.any_name && !name@.any_namespace,
        name@.local is Some,
        reparsed@.local is Some && !reparsed@.attribute,
        this@.node == Some(n),
        stands(n),
    ensures
        r is Dynamic <==> has_dynamic && !exists|j: u32|
            #[trigger] has_parent(n, j) && n.nodes()[j as int].kind is Element
                && queries::name_matches(n.nodes()[j as int], reparsed@),
        !(r is Dynamic) ==> {
            &&& r matches PropertyAnswer::List(l)
            &&& names(
                l@,
                n,
                |j: u32|
                    has_parent(n, j) && n.nodes()[j as int].kind is Element
                        && queries::name_matches(n.nodes()[j as int], reparsed@),
            )
            &&& in_order(l@)
        },
{
    let nodes = n.nodes();
    let at = queries::matching_children(nodes, n.index, reparsed@);
    search::lemma_children_found(nodes, n.index, reparsed@);
    lemma_within(at, nodes);
    if at.len() > 0 {
        assert(at.contains(at[0]));
        assert(has_parent(n, at[0] as u32));
    }
    assert forall|j: u32|
        #[trigger] has_parent(n, j) && nodes[j as int].kind is Element && queries::name_matches(
            nodes[j as int],
            reparsed@,
        ) implies at.len() > 0 by {
        assert(at.contains(j as int));
    }
    if r is List {
        lemma_listed_nodes(
            r->List_0@,
            n,
            at,
            |j: u32|
                has_parent(n, j) && nodes[j as int].kind is Element && queries::name_matches(
                    nodes[j as int],
                    reparsed@,
                ),
        );
    }
}

/// A document is not changed: the methods that ask for a change answer with the object as it
/// is, or with nothing.
pub proof fn lemma_unchanged<F>(
    this: &XmlObjectReadOnly<F>,
    same: &XmlObjectReadOnly<F>,
    answer: PropertyAnswer,
)
    ensures
        call_ensures(xml_read_only::copy::<F>, (this,), same) ==> same@ == this@,
        call_ensures(xml_read_only::add_namespace::<F>, (this,), same) ==> same@ == this@,
        call_ensures(xml_read_only::append_child::<F>, (this,), same) ==> same@ == this@,
        call_ensures(xml_read_only::prepend_child::<F>, (this,), same) ==> same@ == this@,
        call_ensures(xml_read_only::normalize::<F>, (this,), same) ==> same@ == this@,
        call_ensures(xml_read_only::remove_namespace::<F>, (this,), same) ==> same@ == this@,
        call_ensures(xml_read_only::replace::<F>, (this,), same) ==> same@ == this@,
        call_ensures(xml_read_only::set_children::<F>, (this,), same) ==> same@ == this@,
        call_ensures(xml_read_only::insert_child_after::<F>, (this,), answer)
            ==> answer is Undefined,
        call_ensures(xml_read_only::insert_child_before::<F>, (this,), answer)
            ==> answer is Undefined,
        call_ensures(xml_read_only::set_local_name::<F>, (this,), answer) ==> answer is Undefined,
        call_ensures(xml_read_only::set_name::<F>, (this,), answer) ==> answer is Undefined,
        call_ensures(xml_read_only::set_namespace::<F>, (this,), answer) ==> answer is Undefined,
{
}

} // verus!
