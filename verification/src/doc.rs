//! The mathematical model of a document: nodes in the order they were stored, each
//! with its parent, and what the links between records are made of.

use crate::node_data::E4XNodeKindReadOnly;
use crate::node_data::NodeRecord;
use crate::node_data::NO_NODE;
use crate::node_data::PARENT_MASK;
use crate::node_data::VALUE_REF_LIMIT;
use crate::node_data::VIRTUAL_TEXT;
use crate::text;
use vstd::prelude::*;
use vstd::utf8::*;

verus! {

/// One node: its kind, its parent's position, and its texts. An element's value is
/// the text of its only child, where that child was a text.
pub struct NodeView {
    pub kind: E4XNodeKindReadOnly,
    pub parent: Option<int>,
    pub name: Option<Seq<char>>,
    pub ns: Option<Seq<char>>,
    pub prefix: Option<Seq<char>>,
    pub value: Option<Seq<char>>,
}

/// One namespace declaration and the element that carries it.
pub struct DeclView {
    pub node: int,
    pub prefix: Seq<char>,
    pub uri: Seq<char>,
}

/// A document.
#[verifier::ext_equal]
pub struct Doc {
    pub nodes: Seq<NodeView>,
    pub decls: Seq<DeclView>,
}

/// Whether `v` is an attribute (`attr`) or a child (`!attr`) of `parent`.
pub open spec fn is_kid(v: NodeView, parent: Option<int>, attr: bool) -> bool {
    v.parent == parent && (v.kind is Attribute) == attr
}

/// The first attribute or child of `parent` at or after position `from`.
pub open spec fn first_kid(
    nodes: Seq<NodeView>,
    parent: Option<int>,
    attr: bool,
    from: int,
) -> Option<int>
    decreases nodes.len() - from,
{
    if from < 0 || from >= nodes.len() {
        None
    } else if is_kid(nodes[from], parent, attr) {
        Some(from)
    } else {
        first_kid(nodes, parent, attr, from + 1)
    }
}

/// The last attribute or child of `parent`.
pub open spec fn last_kid(nodes: Seq<NodeView>, parent: Option<int>, attr: bool) -> Option<int>
    decreases nodes.len(),
{
    if nodes.len() == 0 {
        None
    } else if is_kid(nodes.last(), parent, attr) {
        Some(nodes.len() - 1)
    } else {
        last_kid(nodes.drop_last(), parent, attr)
    }
}

/// The attributes or children of `parent` at or after position `from`, in order.
pub open spec fn kids(nodes: Seq<NodeView>, parent: Option<int>, attr: bool, from: int) -> Seq<int>
    decreases nodes.len() - from,
{
    if from < 0 || from >= nodes.len() {
        Seq::empty()
    } else if is_kid(nodes[from], parent, attr) {
        seq![from] + kids(nodes, parent, attr, from + 1)
    } else {
        kids(nodes, parent, attr, from + 1)
    }
}

/// A position as a link word.
pub open spec fn link(at: Option<int>) -> u32 {
    match at {
        Some(i) => i as u32,
        None => NO_NODE,
    }
}

/// Positions as link words.
pub open spec fn as_links(at: Seq<int>) -> Seq<u32> {
    Seq::new(at.len(), |i: int| at[i] as u32)
}

/// A string reference stands for an optional text.
pub open spec fn refers(r: u32, s: Option<Seq<char>>, refs: Map<u32, Seq<u8>>) -> bool {
    match s {
        Some(t) => r != NO_NODE && refs.dom().contains(r) && refs[r] == encode_utf8(t),
        None => r == NO_NODE,
    }
}

/// A string reference stands for an optional value. It shares its word with a child link, so
/// bit 31 is free.
pub open spec fn refers_value(r: u32, s: Option<Seq<char>>, refs: Map<u32, Seq<u8>>) -> bool {
    refers(r, s, refs) && (s is Some ==> r < VALUE_REF_LIMIT)
}

/// An element that took its only text as its value.
pub open spec fn collapsed(v: NodeView) -> bool {
    v.kind is Element && v.value is Some
}

/// A node index in use: a stored node's, or that of the text child which a collapsed
/// element stands for.
pub open spec fn valid_index(nodes: Seq<NodeView>, idx: u32) -> bool {
    if idx < VIRTUAL_TEXT {
        idx < nodes.len()
    } else {
        idx - VIRTUAL_TEXT < nodes.len() && collapsed(nodes[idx - VIRTUAL_TEXT])
    }
}

/// The node at an index; a collapsed element's text child has the element's value.
pub open spec fn node_at(nodes: Seq<NodeView>, idx: u32) -> NodeView {
    if idx < VIRTUAL_TEXT {
        nodes[idx as int]
    } else {
        NodeView {
            kind: E4XNodeKindReadOnly::Text,
            parent: Some(idx - VIRTUAL_TEXT),
            name: None,
            ns: None,
            prefix: None,
            value: nodes[idx - VIRTUAL_TEXT].value,
        }
    }
}

/// The index of a collapsed element's text child.
pub open spec fn virtual_index(i: int) -> u32 {
    (i + VIRTUAL_TEXT) as u32
}

/// The children of the node at an index, in order. A collapsed element has one.
pub open spec fn child_indices(nodes: Seq<NodeView>, idx: u32) -> Seq<u32> {
    if idx >= VIRTUAL_TEXT {
        Seq::empty()
    } else if collapsed(nodes[idx as int]) {
        seq![virtual_index(idx as int)]
    } else {
        as_links(kids(nodes, Some(idx as int), false, 0))
    }
}

/// The attributes of the node at an index, in order.
pub open spec fn attr_indices(nodes: Seq<NodeView>, idx: u32) -> Seq<u32> {
    if idx >= VIRTUAL_TEXT {
        Seq::empty()
    } else {
        as_links(kids(nodes, Some(idx as int), true, 0))
    }
}

/// Texts and comments have no name. A processing instruction's name is a word, and its value
/// does not begin with white space.
pub open spec fn leaf_ok(v: NodeView) -> bool {
    &&& v.kind is Text || v.kind is Cdata || v.kind is Comment ==> v.name is None && v.ns is None
    &&& v.kind is ProcessingInstruction ==> {
        &&& v.ns is None
        &&& v.name is Some
        &&& text::first_white(v.name->0) == v.name->0.len()
        &&& v.value->0.len() > 0 ==> !text::white(v.value->0[0])
    }
}

/// What holds of each node by itself: its parent is an earlier element, and an
/// element with a value has no children.
pub open spec fn node_ok(nodes: Seq<NodeView>, i: int) -> bool {
    let v = nodes[i];
    &&& match v.parent {
        Some(p) => 0 <= p < i && nodes[p].kind is Element,
        None => !(v.kind is Attribute),
    }
    &&& v.kind is Element && v.value is Some ==> first_kid(nodes, Some(i), false, 0) is None
    &&& !(v.kind is Element) ==> v.value is Some
    &&& v.kind is Element || v.kind is Attribute ==> v.name is Some
    &&& leaf_ok(v)
}

/// The nodes form a document.
pub open spec fn nodes_ok(nodes: Seq<NodeView>) -> bool {
    &&& nodes.len() <= PARENT_MASK
    &&& forall|i: int| 0 <= i < nodes.len() ==> #[trigger] node_ok(nodes, i)
}

/// Every declaration is carried by a node of the document.
pub open spec fn decls_in(d: Doc) -> bool {
    forall|i: int|
        0 <= i < d.decls.len() ==> 0 <= (#[trigger] d.decls[i]).node < d.nodes.len()
}

/// The record at `i` says what the node there is, and links to the nodes that follow.
pub open spec fn rec_ok(
    rec: NodeRecord,
    nodes: Seq<NodeView>,
    i: int,
    refs: Map<u32, Seq<u8>>,
) -> bool {
    let v = nodes[i];
    &&& rec.kind == v.kind
    &&& rec.parent == link(v.parent)
    &&& refers(rec.name, v.name, refs)
    &&& refers(rec.ns, v.ns, refs)
    &&& refers(rec.prefix, v.prefix, refs)
    &&& refers_value(rec.value, v.value, refs)
    &&& rec.next_sibling == link(first_kid(nodes, v.parent, v.kind is Attribute, i + 1))
    &&& rec.child == link(first_kid(nodes, Some(i), false, 0))
    &&& rec.first_attr == link(first_kid(nodes, Some(i), true, 0))
}

/// The records are the nodes.
pub open spec fn recs_ok(
    recs: Seq<NodeRecord>,
    nodes: Seq<NodeView>,
    refs: Map<u32, Seq<u8>>,
) -> bool {
    &&& recs.len() == nodes.len()
    &&& forall|i: int| 0 <= i < nodes.len() ==> rec_ok(#[trigger] recs[i], nodes, i, refs)
}

/// What `first_kid` finds: the first match, or none where nothing matches.
pub proof fn lemma_first_kid(nodes: Seq<NodeView>, parent: Option<int>, attr: bool, from: int)
    requires
        0 <= from,
    ensures
        match first_kid(nodes, parent, attr, from) {
            Some(j) => from <= j < nodes.len() && is_kid(nodes[j], parent, attr) && (forall|k: int|
                from <= k < j ==> !#[trigger] is_kid(nodes[k], parent, attr)),
            None => forall|k: int|
                from <= k < nodes.len() ==> !#[trigger] is_kid(nodes[k], parent, attr),
        },
    decreases nodes.len() - from,
{
    if from < nodes.len() && !is_kid(nodes[from], parent, attr) {
        lemma_first_kid(nodes, parent, attr, from + 1);
    }
}

/// What `last_kid` finds: the last match, or none where nothing matches.
pub proof fn lemma_last_kid(nodes: Seq<NodeView>, parent: Option<int>, attr: bool)
    ensures
        match last_kid(nodes, parent, attr) {
            Some(j) => 0 <= j < nodes.len() && is_kid(nodes[j], parent, attr) && (forall|k: int|
                j < k < nodes.len() ==> !#[trigger] is_kid(nodes[k], parent, attr)),
            None => forall|k: int|
                0 <= k < nodes.len() ==> !#[trigger] is_kid(nodes[k], parent, attr),
        },
    decreases nodes.len(),
{
    if nodes.len() > 0 && !is_kid(nodes.last(), parent, attr) {
        lemma_last_kid(nodes.drop_last(), parent, attr);
        assert forall|k: int| 0 <= k < nodes.len() - 1 implies #[trigger] is_kid(
            nodes[k],
            parent,
            attr,
        ) == is_kid(nodes.drop_last()[k], parent, attr) by {}
    }
}

/// A further node is found only where nothing was found before it.
pub proof fn lemma_first_kid_push(
    nodes: Seq<NodeView>,
    v: NodeView,
    parent: Option<int>,
    attr: bool,
    from: int,
)
    requires
        0 <= from,
    ensures
        first_kid(nodes.push(v), parent, attr, from) == (match first_kid(
            nodes,
            parent,
            attr,
            from,
        ) {
            Some(j) => Some(j),
            None => if is_kid(v, parent, attr) && from <= nodes.len() {
                Some(nodes.len() as int)
            } else {
                None
            },
        }),
    decreases nodes.len() - from,
{
    let more = nodes.push(v);
    if from < nodes.len() {
        assert(more[from] == nodes[from]);
        lemma_first_kid_push(nodes, v, parent, attr, from + 1);
    } else if from == nodes.len() {
        assert(more[from] == v);
        reveal_with_fuel(first_kid, 2);
    }
}

/// The walk from one kid to the next visits them all.
pub proof fn lemma_kids_step(nodes: Seq<NodeView>, parent: Option<int>, attr: bool, from: int)
    requires
        0 <= from,
    ensures
        kids(nodes, parent, attr, from) == (match first_kid(nodes, parent, attr, from) {
            Some(j) => seq![j] + kids(nodes, parent, attr, j + 1),
            None => Seq::empty(),
        }),
    decreases nodes.len() - from,
{
    if from < nodes.len() && !is_kid(nodes[from], parent, attr) {
        lemma_kids_step(nodes, parent, attr, from + 1);
    }
}

/// Every kid stands at or after `from` and is one; the kids ascend.
pub proof fn lemma_kids_are(nodes: Seq<NodeView>, parent: Option<int>, attr: bool, from: int)
    requires
        0 <= from,
    ensures
        forall|k: int|
            0 <= k < kids(nodes, parent, attr, from).len() ==> {
                let j = #[trigger] kids(nodes, parent, attr, from)[k];
                from <= j < nodes.len() && is_kid(nodes[j], parent, attr)
            },
        forall|k: int, l: int|
            0 <= k < l < kids(nodes, parent, attr, from).len() ==> #[trigger] kids(
                nodes,
                parent,
                attr,
                from,
            )[k] < #[trigger] kids(nodes, parent, attr, from)[l],
    decreases nodes.len() - from,
{
    if from < nodes.len() {
        lemma_kids_are(nodes, parent, attr, from + 1);
        let all = kids(nodes, parent, attr, from);
        let rest = kids(nodes, parent, attr, from + 1);
        if is_kid(nodes[from], parent, attr) {
            assert forall|k: int| 0 <= k < all.len() implies {
                let j = #[trigger] all[k];
                from <= j < nodes.len() && is_kid(nodes[j], parent, attr)
            } by {
                if k > 0 {
                    assert(all[k] == rest[k - 1]);
                }
            }
            assert forall|k: int, l: int| 0 <= k < l < all.len() implies #[trigger] all[k]
                < #[trigger] all[l] by {
                assert(all[l] == rest[l - 1]);
                if k > 0 {
                    assert(all[k] == rest[k - 1]);
                }
            }
        }
    }
}

/// Every attribute or child of `parent` is among its kids.
pub proof fn lemma_kids_all(nodes: Seq<NodeView>, parent: Option<int>, attr: bool, from: int, j: int)
    requires
        0 <= from <= j < nodes.len(),
        is_kid(nodes[j], parent, attr),
    ensures
        kids(nodes, parent, attr, from).contains(j),
    decreases nodes.len() - from,
{
    let all = kids(nodes, parent, attr, from);
    let rest = kids(nodes, parent, attr, from + 1);
    if from == j {
        assert(all[0] == j);
    } else {
        lemma_kids_all(nodes, parent, attr, from + 1, j);
        let k = choose|k: int| 0 <= k < rest.len() && rest[k] == j;
        if is_kid(nodes[from], parent, attr) {
            assert(all[k + 1] == j);
        } else {
            assert(all[k] == j);
        }
    }
}

/// The records after a node was pushed and linked behind `last`, the last kid its
/// parent had, or as its parent's first.
pub open spec fn recs_with(
    recs: Seq<NodeRecord>,
    rec: NodeRecord,
    v: NodeView,
    last: Option<int>,
) -> Seq<NodeRecord> {
    let id = recs.len() as u32;
    let more = recs.push(rec);
    match last {
        Some(l) => more.update(l, NodeRecord { next_sibling: id, ..more[l] }),
        None => match v.parent {
            Some(p) => if v.kind is Attribute {
                more.update(p, NodeRecord { first_attr: id, ..more[p] })
            } else {
                more.update(p, NodeRecord { value: NO_NODE, child: id, ..more[p] })
            },
            None => more,
        },
    }
}

/// A record without links that says what `v` is.
pub open spec fn fresh_rec(rec: NodeRecord, v: NodeView, refs: Map<u32, Seq<u8>>) -> bool {
    &&& rec.kind == v.kind
    &&& rec.parent == link(v.parent)
    &&& refers(rec.name, v.name, refs)
    &&& refers(rec.ns, v.ns, refs)
    &&& refers(rec.prefix, v.prefix, refs)
    &&& refers_value(rec.value, v.value, refs)
    &&& rec.next_sibling == NO_NODE
    &&& rec.child == NO_NODE
    &&& rec.first_attr == NO_NODE
}

/// A node that may be added: its parent is an element without a value if the node is
/// a child.
pub open spec fn may_add(nodes: Seq<NodeView>, v: NodeView) -> bool {
    &&& match v.parent {
        Some(p) => 0 <= p < nodes.len() && nodes[p].kind is Element && (v.kind is Attribute
            || nodes[p].value is None),
        None => !(v.kind is Attribute),
    }
    &&& !(v.kind is Element) ==> v.value is Some
    &&& v.kind is Element || v.kind is Attribute ==> v.name is Some
    &&& leaf_ok(v)
}

/// Pushing a node and linking it behind its last sibling keeps records and nodes in
/// step.
pub proof fn lemma_attach(
    recs: Seq<NodeRecord>,
    nodes: Seq<NodeView>,
    refs: Map<u32, Seq<u8>>,
    rec: NodeRecord,
    v: NodeView,
)
    requires
        nodes_ok(nodes),
        recs_ok(recs, nodes, refs),
        nodes.len() < PARENT_MASK,
        may_add(nodes, v),
        fresh_rec(rec, v, refs),
    ensures
        nodes_ok(nodes.push(v)),
        recs_ok(
            recs_with(recs, rec, v, last_kid(nodes, v.parent, v.kind is Attribute)),
            nodes.push(v),
            refs,
        ),
{
    let n = nodes.len() as int;
    let attr = v.kind is Attribute;
    let more = nodes.push(v);
    let last = last_kid(nodes, v.parent, attr);
    let out = recs_with(recs, rec, v, last);
    lemma_last_kid(nodes, v.parent, attr);
    assert forall|i: int| 0 <= i < more.len() implies #[trigger] node_ok(more, i) by {
        lemma_first_kid_push(nodes, v, Some(i), false, 0);
        if i < n {
            assert(node_ok(nodes, i));
            assert(more[i] == nodes[i]);
            if v.parent == Some(i) {
                assert(more[i] == nodes[i]);
            }
        } else {
            lemma_first_kid(nodes, Some(i), false, 0);
            assert forall|k: int| 0 <= k < n implies !#[trigger] is_kid(
                nodes[k],
                Some(i),
                false,
            ) by {
                assert(node_ok(nodes, k));
            }
        }
    }
    assert(out.len() == more.len());
    assert forall|i: int| 0 <= i < more.len() implies rec_ok(#[trigger] out[i], more, i, refs) by {
        let w = more[i];
        lemma_first_kid_push(nodes, v, w.parent, w.kind is Attribute, i + 1);
        lemma_first_kid_push(nodes, v, Some(i), false, 0);
        lemma_first_kid_push(nodes, v, Some(i), true, 0);
        lemma_first_kid(nodes, Some(i), false, 0);
        lemma_first_kid(nodes, Some(i), true, 0);
        lemma_first_kid(nodes, w.parent, w.kind is Attribute, i + 1);
        if i < n {
            assert(rec_ok(recs[i], nodes, i, refs));
            assert(node_ok(nodes, i));
            assert(w == nodes[i]);
            if is_kid(w, v.parent, attr) {
                assert(last is Some);
                if last == Some(i) {
                    assert(first_kid(nodes, w.parent, w.kind is Attribute, i + 1) is None);
                } else {
                    assert(is_kid(nodes[last->0], w.parent, w.kind is Attribute));
                }
            }
        } else {
            assert forall|k: int| 0 <= k < n implies !is_kid(nodes[k], Some(i), false) && !is_kid(
                nodes[k],
                Some(i),
                true,
            ) by {
                assert(node_ok(nodes, k));
            }
        }
    }
}

/// Writing a value into an element without children keeps records and nodes in step.
pub proof fn lemma_set_value(
    recs: Seq<NodeRecord>,
    nodes: Seq<NodeView>,
    refs: Map<u32, Seq<u8>>,
    e: int,
    value: u32,
    text: Seq<char>,
)
    requires
        nodes_ok(nodes),
        recs_ok(recs, nodes, refs),
        0 <= e < nodes.len(),
        nodes[e].kind is Element,
        first_kid(nodes, Some(e), false, 0) is None,
        refers_value(value, Some(text), refs),
    ensures
        nodes_ok(nodes.update(e, NodeView { value: Some(text), ..nodes[e] })),
        recs_ok(
            recs.update(e, NodeRecord { value, child: NO_NODE, ..recs[e] }),
            nodes.update(e, NodeView { value: Some(text), ..nodes[e] }),
            refs,
        ),
{
    let after = nodes.update(e, NodeView { value: Some(text), ..nodes[e] });
    let out = recs.update(e, NodeRecord { value, child: NO_NODE, ..recs[e] });
    assert forall|i: int| 0 <= i < after.len() implies #[trigger] node_ok(after, i) by {
        assert(node_ok(nodes, i));
        lemma_first_kid_same_shape(nodes, after, Some(i), false, 0);
    }
    assert forall|i: int| 0 <= i < after.len() implies rec_ok(#[trigger] out[i], after, i, refs) by {
        assert(rec_ok(recs[i], nodes, i, refs));
        let w = after[i];
        lemma_first_kid_same_shape(nodes, after, w.parent, w.kind is Attribute, i + 1);
        lemma_first_kid_same_shape(nodes, after, Some(i), false, 0);
        lemma_first_kid_same_shape(nodes, after, Some(i), true, 0);
    }
}

/// Links depend on kinds and parents alone.
pub open spec fn same_shape(a: Seq<NodeView>, b: Seq<NodeView>) -> bool {
    &&& a.len() == b.len()
    &&& forall|i: int|
        #![trigger a[i]]
        #![trigger b[i]]
        0 <= i < a.len() ==> a[i].kind == b[i].kind && a[i].parent == b[i].parent
}

pub proof fn lemma_first_kid_same_shape(
    a: Seq<NodeView>,
    b: Seq<NodeView>,
    parent: Option<int>,
    attr: bool,
    from: int,
)
    requires
        same_shape(a, b),
        0 <= from,
    ensures
        first_kid(a, parent, attr, from) == first_kid(b, parent, attr, from),
    decreases a.len() - from,
{
    if from < a.len() {
        assert(a[from].kind == b[from].kind);
        lemma_first_kid_same_shape(a, b, parent, attr, from + 1);
    }
}

pub proof fn lemma_last_kid_same_shape(
    a: Seq<NodeView>,
    b: Seq<NodeView>,
    parent: Option<int>,
    attr: bool,
)
    requires
        same_shape(a, b),
    ensures
        last_kid(a, parent, attr) == last_kid(b, parent, attr),
    decreases a.len(),
{
    if a.len() > 0 {
        let n = a.len() - 1;
        assert(a[n].kind == b[n].kind);
        assert(same_shape(a.drop_last(), b.drop_last())) by {
            assert forall|i: int| 0 <= i < n implies a.drop_last()[i].kind
                == b.drop_last()[i].kind && a.drop_last()[i].parent == b.drop_last()[i].parent by {
                assert(a[i].kind == b[i].kind);
            }
        }
        lemma_last_kid_same_shape(a.drop_last(), b.drop_last(), parent, attr);
    }
}

/// More strings in the arena leave the records in step with the nodes.
pub proof fn lemma_more_refs(
    recs: Seq<NodeRecord>,
    nodes: Seq<NodeView>,
    refs: Map<u32, Seq<u8>>,
    more: Map<u32, Seq<u8>>,
)
    requires
        recs_ok(recs, nodes, refs),
        refs.submap_of(more),
    ensures
        recs_ok(recs, nodes, more),
{
    assert forall|i: int| 0 <= i < nodes.len() implies rec_ok(#[trigger] recs[i], nodes, i, more) by {
        assert(rec_ok(recs[i], nodes, i, refs));
        lemma_refers_more(recs[i].name, nodes[i].name, refs, more);
        lemma_refers_more(recs[i].ns, nodes[i].ns, refs, more);
        lemma_refers_more(recs[i].prefix, nodes[i].prefix, refs, more);
        lemma_refers_more(recs[i].value, nodes[i].value, refs, more);
    }
}

pub proof fn lemma_submap_trans(a: Map<u32, Seq<u8>>, b: Map<u32, Seq<u8>>, c: Map<u32, Seq<u8>>)
    requires
        a.submap_of(b),
        b.submap_of(c),
    ensures
        a.submap_of(c),
{
    assert forall|k: u32| #[trigger] a.dom().contains(k) implies c.dom().contains(k) && a[k]
        == c[k] by {
        assert(b.dom().contains(k));
    }
}

pub proof fn lemma_refers_more(
    r: u32,
    s: Option<Seq<char>>,
    refs: Map<u32, Seq<u8>>,
    more: Map<u32, Seq<u8>>,
)
    requires
        refers(r, s, refs),
        refs.submap_of(more),
    ensures
        refers(r, s, more),
{
    if s is Some {
        assert(refs.dom().contains(r) && more.dom().contains(r) && refs[r] == more[r]);
    }
}

} // verus!
