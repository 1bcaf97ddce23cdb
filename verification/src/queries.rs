//! What the queries on a document give, over its nodes.

use crate::doc;
use crate::doc::DeclView;
use crate::doc::Doc;
use crate::doc::NodeView;
use crate::multiname::MultinameView;
use crate::multiname::NsView;
use crate::node_data::E4XNodeKindReadOnly;
use crate::node_data::VIRTUAL_TEXT;
use vstd::prelude::*;

verus! {

/// The members of `s` for which `keep` holds, in order.
pub open spec fn pick(s: Seq<int>, keep: spec_fn(int) -> bool) -> Seq<int>
    decreases s.len(),
{
    if s.len() == 0 {
        Seq::empty()
    } else if keep(s[0]) {
        seq![s[0]] + pick(s.drop_first(), keep)
    } else {
        pick(s.drop_first(), keep)
    }
}

/// One step of a walk: the head is kept or not, and the rest follows.
pub proof fn lemma_pick_step(j: int, rest: Seq<int>, keep: spec_fn(int) -> bool)
    ensures
        pick(seq![j] + rest, keep) == (if keep(j) {
            seq![j] + pick(rest, keep)
        } else {
            pick(rest, keep)
        }),
{
    let s = seq![j] + rest;
    assert(s.drop_first() =~= rest);
}

/// What `pick` gives is in `s` and kept.
pub proof fn lemma_pick_in(s: Seq<int>, keep: spec_fn(int) -> bool)
    ensures
        forall|k: int|
            0 <= k < pick(s, keep).len() ==> s.contains(#[trigger] pick(s, keep)[k]) && keep(
                pick(s, keep)[k],
            ),
    decreases s.len(),
{
    if s.len() > 0 {
        lemma_pick_in(s.drop_first(), keep);
        assert forall|k: int| 0 <= k < pick(s, keep).len() implies s.contains(
            #[trigger] pick(s, keep)[k],
        ) && keep(pick(s, keep)[k]) by {
            let rest = pick(s.drop_first(), keep);
            let x = pick(s, keep)[k];
            if keep(s[0]) && k == 0 {
                assert(s[0] == x);
            } else {
                let m = if keep(s[0]) {
                    k - 1
                } else {
                    k
                };
                assert(rest[m] == x);
                assert(s.drop_first().contains(x));
                let q = choose|q: int| 0 <= q < s.drop_first().len() && s.drop_first()[q] == x;
                assert(s[q + 1] == x);
            }
        }
    }
}

/// A node has no kids before itself.
pub proof fn lemma_kids_behind(nodes: Seq<NodeView>, i: int, attr: bool)
    requires
        doc::nodes_ok(nodes),
        0 <= i < nodes.len(),
    ensures
        doc::kids(nodes, Some(i), attr, 0) == doc::kids(nodes, Some(i), attr, i + 1),
        doc::first_kid(nodes, Some(i), attr, 0) == doc::first_kid(nodes, Some(i), attr, i + 1),
{
    lemma_kids_skip(nodes, i, attr, 0);
}

proof fn lemma_kids_skip(nodes: Seq<NodeView>, i: int, attr: bool, from: int)
    requires
        doc::nodes_ok(nodes),
        0 <= i < nodes.len(),
        0 <= from <= i + 1,
    ensures
        doc::kids(nodes, Some(i), attr, from) == doc::kids(nodes, Some(i), attr, i + 1),
        doc::first_kid(nodes, Some(i), attr, from) == doc::first_kid(nodes, Some(i), attr, i + 1),
    decreases i + 1 - from,
{
    if from <= i {
        assert(doc::node_ok(nodes, from));
        lemma_kids_skip(nodes, i, attr, from + 1);
    }
}

/// The local name, namespace and kind of name that a multiname asks for match a node.
pub open spec fn name_matches(v: NodeView, want: MultinameView) -> bool {
    if want.any_name {
        true
    } else {
        &&& want.local is Some
        &&& v.name is Some
        &&& want.local->0 == "*"@ || v.name->0 == want.local->0
        &&& want.any_namespace || ns_matches(v.ns, want)
    }
}

/// The namespace part of a multiname matches: without a namespace asked for, a node in
/// none; otherwise a node in one of those asked for.
pub open spec fn ns_matches(ns: Option<Seq<char>>, want: MultinameView) -> bool {
    if !(exists|k: int|
        0 <= k < want.namespaces.len() && (#[trigger] want.namespaces[k]).is_namespace) {
        ns is None || ns->0.len() == 0
    } else {
        exists|k: int|
            0 <= k < want.namespaces.len() && uri_matches(ns, (#[trigger] want.namespaces[k]).uri)
    }
}

/// One namespace asked for is the node's; the empty URI stands for none.
pub open spec fn uri_matches(ns: Option<Seq<char>>, uri: Option<Seq<char>>) -> bool {
    match uri {
        Some(u) => match ns {
            Some(s) => u == s,
            None => u.len() == 0,
        },
        None => false,
    }
}

/// The stored children of the node at an index.
pub open spec fn stored_children(nodes: Seq<NodeView>, idx: u32) -> Seq<int> {
    if idx >= VIRTUAL_TEXT {
        Seq::empty()
    } else {
        doc::kids(nodes, Some(idx as int), false, 0)
    }
}

/// The attributes of the node at an index.
pub open spec fn stored_attrs(nodes: Seq<NodeView>, idx: u32) -> Seq<int> {
    if idx >= VIRTUAL_TEXT {
        Seq::empty()
    } else {
        doc::kids(nodes, Some(idx as int), true, 0)
    }
}

/// The child elements that match, in document order.
pub open spec fn matching_children(
    nodes: Seq<NodeView>,
    idx: u32,
    want: MultinameView,
) -> Seq<int> {
    pick(
        stored_children(nodes, idx),
        |j: int| nodes[j].kind is Element && name_matches(nodes[j], want),
    )
}

/// The attributes that match.
pub open spec fn matching_attrs(nodes: Seq<NodeView>, idx: u32, want: MultinameView) -> Seq<int> {
    pick(stored_attrs(nodes, idx), |j: int| name_matches(nodes[j], want))
}

/// The child elements.
pub open spec fn element_children(nodes: Seq<NodeView>, idx: u32) -> Seq<int> {
    pick(stored_children(nodes, idx), |j: int| nodes[j].kind is Element)
}

/// The value of a node, empty where it has none.
pub open spec fn value_text(v: NodeView) -> Seq<char> {
    match v.value {
        Some(t) => t,
        None => Seq::empty(),
    }
}

/// The simple content of a stored node: the value of a text or attribute; nothing of a
/// comment or processing instruction; of an element that of its children.
pub open spec fn simple_text(nodes: Seq<NodeView>, i: int) -> Seq<char>
    decreases nodes.len() - i, 0int,
{
    if i < 0 || i >= nodes.len() {
        Seq::empty()
    } else {
        match nodes[i].kind {
            E4XNodeKindReadOnly::Text
            | E4XNodeKindReadOnly::Cdata
            | E4XNodeKindReadOnly::Attribute => value_text(nodes[i]),
            E4XNodeKindReadOnly::Comment
            | E4XNodeKindReadOnly::ProcessingInstruction => Seq::empty(),
            E4XNodeKindReadOnly::Element => match nodes[i].value {
                Some(t) => t,
                None => kids_text(nodes, i, i + 1),
            },
        }
    }
}

/// The simple content of the children of element `i` from position `from` on.
pub open spec fn kids_text(nodes: Seq<NodeView>, i: int, from: int) -> Seq<char>
    decreases nodes.len() - from, 1int,
{
    if from < 0 || from >= nodes.len() {
        Seq::empty()
    } else if doc::is_kid(nodes[from], Some(i), false) {
        simple_text(nodes, from) + kids_text(nodes, i, from + 1)
    } else {
        kids_text(nodes, i, from + 1)
    }
}

/// One step of the walk over an element's children.
pub proof fn lemma_kids_text_step(nodes: Seq<NodeView>, i: int, from: int)
    requires
        0 <= from,
    ensures
        kids_text(nodes, i, from) == (match doc::first_kid(nodes, Some(i), false, from) {
            Some(j) => simple_text(nodes, j) + kids_text(nodes, i, j + 1),
            None => Seq::empty(),
        }),
    decreases nodes.len() - from,
{
    if from < nodes.len() && !doc::is_kid(nodes[from], Some(i), false) {
        lemma_kids_text_step(nodes, i, from + 1);
    }
}

/// The simple content of the node at an index.
pub open spec fn string_value(nodes: Seq<NodeView>, idx: u32) -> Seq<char> {
    if idx >= VIRTUAL_TEXT {
        value_text(doc::node_at(nodes, idx))
    } else {
        simple_text(nodes, idx as int)
    }
}

/// The simple content of several nodes, one line each.
pub open spec fn joined_text(nodes: Seq<NodeView>, at: Seq<int>) -> Seq<char>
    decreases at.len(),
{
    if at.len() == 0 {
        Seq::empty()
    } else if at.len() == 1 {
        simple_text(nodes, at[0])
    } else {
        joined_text(nodes, at.drop_last()) + seq!['\n'] + simple_text(nodes, at.last())
    }
}

/// The descendants of element `i` that match, depth first: elements, or the attributes
/// of elements where attributes are asked for.
pub open spec fn descendants(nodes: Seq<NodeView>, i: int, want: MultinameView) -> Seq<int>
    decreases nodes.len() - i, 0int,
{
    if i < 0 || i >= nodes.len() {
        Seq::empty()
    } else {
        descendants_from(nodes, i, i + 1, want)
    }
}

/// The part of `descendants` that the children from position `from` on give.
pub open spec fn descendants_from(
    nodes: Seq<NodeView>,
    i: int,
    from: int,
    want: MultinameView,
) -> Seq<int>
    decreases nodes.len() - from, 1int,
{
    if from < 0 || from >= nodes.len() {
        Seq::empty()
    } else if doc::is_kid(nodes[from], Some(i), false) && nodes[from].kind is Element {
        own_matches(nodes, from, want) + descendants(nodes, from, want) + descendants_from(
            nodes,
            i,
            from + 1,
            want,
        )
    } else {
        descendants_from(nodes, i, from + 1, want)
    }
}

/// What an element itself adds to a search: itself, or its attributes, as they match.
pub open spec fn own_matches(nodes: Seq<NodeView>, i: int, want: MultinameView) -> Seq<int> {
    if want.attribute {
        pick(doc::kids(nodes, Some(i), true, 0), |j: int| name_matches(nodes[j], want))
    } else if name_matches(nodes[i], want) {
        seq![i]
    } else {
        Seq::empty()
    }
}

pub proof fn lemma_descendants_step(
    nodes: Seq<NodeView>,
    i: int,
    from: int,
    want: MultinameView,
)
    requires
        0 <= from,
    ensures
        descendants_from(nodes, i, from, want) == (match doc::first_kid(
            nodes,
            Some(i),
            false,
            from,
        ) {
            Some(j) => if nodes[j].kind is Element {
                own_matches(nodes, j, want) + descendants(nodes, j, want) + descendants_from(
                    nodes,
                    i,
                    j + 1,
                    want,
                )
            } else {
                descendants_from(nodes, i, j + 1, want)
            },
            None => Seq::empty(),
        }),
    decreases nodes.len() - from,
{
    if from < nodes.len() && !doc::is_kid(nodes[from], Some(i), false) {
        lemma_descendants_step(nodes, i, from + 1, want);
    }
}

/// All matching descendants of the node at an index.
pub open spec fn matching_descendants(
    nodes: Seq<NodeView>,
    idx: u32,
    want: MultinameView,
) -> Seq<int> {
    if idx >= VIRTUAL_TEXT {
        Seq::empty()
    } else {
        descendants(nodes, idx as int, want)
    }
}

/// Where a node stands among its parent's children, for one that is a child.
pub open spec fn child_position(nodes: Seq<NodeView>, idx: u32) -> Option<int> {
    let v = doc::node_at(nodes, idx);
    match v.parent {
        Some(p) => if v.kind is Attribute {
            None
        } else {
            Some(doc::child_indices(nodes, p as u32).index_of(idx))
        },
        None => None,
    }
}

/// A child stands among its parent's children, in exactly one place.
pub proof fn lemma_position(nodes: Seq<NodeView>, idx: u32)
    requires
        doc::nodes_ok(nodes),
        doc::valid_index(nodes, idx),
    ensures
        match child_position(nodes, idx) {
            Some(k) => {
                let p = doc::node_at(nodes, idx).parent->0;
                let all = doc::child_indices(nodes, p as u32);
                &&& 0 <= k < all.len()
                &&& all.contains(idx)
                &&& all[k] == idx
                &&& forall|l: int| 0 <= l < all.len() && #[trigger] all[l] == idx ==> l == k
                &&& doc::valid_index(nodes, p as u32)
                &&& p < VIRTUAL_TEXT
                &&& idx < VIRTUAL_TEXT ==> !doc::collapsed(nodes[p])
            },
            None => true,
        },
{
    let v = doc::node_at(nodes, idx);
    if idx < VIRTUAL_TEXT {
        assert(doc::node_ok(nodes, idx as int));
    }
    if v.parent is Some && !(v.kind is Attribute) {
        let p = v.parent->0;
        let all = doc::child_indices(nodes, p as u32);
        let ks = doc::kids(nodes, Some(p), false, 0);
        if idx >= VIRTUAL_TEXT {
            assert(all[0] == idx);
        } else {
            assert(doc::node_ok(nodes, p));
            doc::lemma_first_kid(nodes, Some(p), false, 0);
            assert(doc::is_kid(nodes[idx as int], Some(p), false));
            doc::lemma_kids_all(nodes, Some(p), false, 0, idx as int);
            doc::lemma_kids_are(nodes, Some(p), false, 0);
            let k = choose|k: int| 0 <= k < ks.len() && ks[k] == idx;
            assert(all[k] == idx);
            assert forall|l: int| 0 <= l < all.len() && #[trigger] all[l] == idx implies l == k by {
                assert(ks[l] == ks[k]);
            }
        }
    }
}

/// A parent has fewer children than there are nodes.
pub proof fn lemma_position_bound(nodes: Seq<NodeView>, idx: u32)
    requires
        doc::nodes_ok(nodes),
        doc::valid_index(nodes, idx),
    ensures
        child_position(nodes, idx) matches Some(k) ==> 0 <= k <= nodes.len(),
{
    lemma_position(nodes, idx);
    if child_position(nodes, idx) is Some {
        let p = doc::node_at(nodes, idx).parent->0;
        lemma_kids_count(nodes, Some(p), false, 0);
        if idx < VIRTUAL_TEXT {
            assert(doc::node_ok(nodes, idx as int));
        }
        assert((p as u32) as int == p);
        assert(doc::child_indices(nodes, p as u32).len() <= nodes.len());
    }
}

proof fn lemma_kids_count(nodes: Seq<NodeView>, parent: Option<int>, attr: bool, from: int)
    requires
        0 <= from <= nodes.len(),
    ensures
        doc::kids(nodes, parent, attr, from).len() <= nodes.len() - from,
    decreases nodes.len() - from,
{
    if from < nodes.len() {
        lemma_kids_count(nodes, parent, attr, from + 1);
    }
}

/// Counting children and looking one up undo each other: the child at the position
/// of a node is that node.
pub proof fn lemma_child_at_position(nodes: Seq<NodeView>, idx: u32)
    requires
        doc::nodes_ok(nodes),
        doc::valid_index(nodes, idx),
        child_position(nodes, idx) is Some,
    ensures
        doc::child_indices(nodes, doc::node_at(nodes, idx).parent->0 as u32)[child_position(
            nodes,
            idx,
        )->0] == idx,
{
    lemma_position(nodes, idx);
}

/// Whether the node at an index has an element among its children.
pub open spec fn has_element_child(nodes: Seq<NodeView>, idx: u32) -> bool {
    exists|k: int|
        0 <= k < stored_children(nodes, idx).len() && nodes[#[trigger] stored_children(
            nodes,
            idx,
        )[k]].kind is Element
}

/// No element children: texts and attributes always, comments and processing
/// instructions never.
pub open spec fn simple_content(nodes: Seq<NodeView>, idx: u32) -> bool {
    match doc::node_at(nodes, idx).kind {
        E4XNodeKindReadOnly::Text
        | E4XNodeKindReadOnly::Cdata
        | E4XNodeKindReadOnly::Attribute => true,
        E4XNodeKindReadOnly::Comment | E4XNodeKindReadOnly::ProcessingInstruction => false,
        E4XNodeKindReadOnly::Element => !has_element_child(nodes, idx),
    }
}

/// An element with element children.
pub open spec fn complex_content(nodes: Seq<NodeView>, idx: u32) -> bool {
    doc::node_at(nodes, idx).kind is Element && has_element_child(nodes, idx)
}

/// An element's content is either simple or complex; nothing else has complex content.
pub proof fn lemma_content_kinds(nodes: Seq<NodeView>, idx: u32)
    ensures
        doc::node_at(nodes, idx).kind is Element ==> complex_content(nodes, idx) != simple_content(
            nodes,
            idx,
        ),
        complex_content(nodes, idx) ==> doc::node_at(nodes, idx).kind is Element,
{
}

/// The text children, a collapsed element's one among them.
pub open spec fn text_indices(nodes: Seq<NodeView>, idx: u32) -> Seq<u32> {
    if idx < VIRTUAL_TEXT && doc::collapsed(nodes[idx as int]) {
        seq![doc::virtual_index(idx as int)]
    } else {
        doc::as_links(
            pick(
                stored_children(nodes, idx),
                |j: int| nodes[j].kind is Text || nodes[j].kind is Cdata,
            ),
        )
    }
}

/// The comment children.
pub open spec fn comment_children(nodes: Seq<NodeView>, idx: u32) -> Seq<int> {
    pick(stored_children(nodes, idx), |j: int| nodes[j].kind is Comment)
}

/// Whether a processing instruction has the target asked for.
pub open spec fn target_matches(v: NodeView, want: Option<Seq<char>>) -> bool {
    match want {
        None => true,
        Some(w) => w == "*"@ || v.name == Some(w),
    }
}

/// The processing instructions among the children, by target.
pub open spec fn pi_children(
    nodes: Seq<NodeView>,
    idx: u32,
    want: Option<Seq<char>>,
) -> Seq<int> {
    pick(
        stored_children(nodes, idx),
        |j: int| nodes[j].kind is ProcessingInstruction && target_matches(nodes[j], want),
    )
}

/// How deep a comparison can still go below the node at an index.
pub open spec fn depth_bound(nodes: Seq<NodeView>, idx: u32) -> int {
    if idx < nodes.len() && idx < VIRTUAL_TEXT {
        nodes.len() - idx + 1
    } else {
        0
    }
}

/// Two leaves of one kind; text and CDATA count as one.
pub open spec fn leaf_kinds_agree(a: E4XNodeKindReadOnly, b: E4XNodeKindReadOnly) -> bool {
    match a {
        E4XNodeKindReadOnly::Text | E4XNodeKindReadOnly::Cdata => b is Text || b is Cdata,
        E4XNodeKindReadOnly::Comment => b is Comment,
        E4XNodeKindReadOnly::ProcessingInstruction => b is ProcessingInstruction,
        E4XNodeKindReadOnly::Attribute => b is Attribute,
        E4XNodeKindReadOnly::Element => false,
    }
}

/// Same name, same namespace, same kind of leaf and same value.
pub open spec fn leaf_equal(v: NodeView, w: NodeView) -> bool {
    v.name == w.name && v.ns == w.ns && leaf_kinds_agree(v.kind, w.kind) && v.value == w.value
}

/// Every attribute of one element has an equal one on the other, and there are as many.
pub open spec fn attrs_equal(a: Seq<NodeView>, i: u32, b: Seq<NodeView>, j: u32) -> bool {
    let x = doc::attr_indices(a, i);
    let y = doc::attr_indices(b, j);
    &&& x.len() == y.len()
    &&& forall|k: int|
        0 <= k < x.len() ==> has_equal_attr(a, #[trigger] x[k], b, y)
}

/// Some attribute among `y` equals the one at `i`.
pub open spec fn has_equal_attr(a: Seq<NodeView>, i: u32, b: Seq<NodeView>, y: Seq<u32>) -> bool {
    exists|l: int|
        0 <= l < y.len() && leaf_equal(doc::node_at(a, i), doc::node_at(b, #[trigger] y[l]))
}

/// Deep equality: same name and namespace; equal leaves, or elements with equal
/// attributes in any order and equal children in order.
pub open spec fn deep_equal(a: Seq<NodeView>, i: u32, b: Seq<NodeView>, j: u32) -> bool
    decreases depth_bound(a, i),
{
    let v = doc::node_at(a, i);
    let w = doc::node_at(b, j);
    if v.kind is Element && w.kind is Element {
        let x = doc::child_indices(a, i);
        let y = doc::child_indices(b, j);
        &&& v.name == w.name
        &&& v.ns == w.ns
        &&& x.len() == y.len()
        &&& attrs_equal(a, i, b, j)
        &&& forall|k: int|
            0 <= k < x.len() && depth_bound(a, #[trigger] x[k]) < depth_bound(a, i) ==> deep_equal(
                a,
                x[k],
                b,
                y[k],
            )
    } else {
        leaf_equal(v, w)
    }
}

/// The children of a node lie deeper than it.
pub proof fn lemma_children_deeper(nodes: Seq<NodeView>, i: u32)
    requires
        doc::nodes_ok(nodes),
        doc::valid_index(nodes, i),
    ensures
        forall|k: int|
            0 <= k < doc::child_indices(nodes, i).len() ==> {
                let c = #[trigger] doc::child_indices(nodes, i)[k];
                depth_bound(nodes, c) < depth_bound(nodes, i) && doc::valid_index(nodes, c)
            },
{
    if i < VIRTUAL_TEXT && !doc::collapsed(nodes[i as int]) {
        lemma_kids_behind(nodes, i as int, false);
        doc::lemma_kids_are(nodes, Some(i as int), false, i + 1);
    }
}

/// Every node equals itself.
pub proof fn lemma_deep_equal_reflexive(nodes: Seq<NodeView>, i: u32)
    requires
        doc::nodes_ok(nodes),
        doc::valid_index(nodes, i),
    ensures
        deep_equal(nodes, i, nodes, i),
    decreases depth_bound(nodes, i),
{
    let v = doc::node_at(nodes, i);
    if v.kind is Element {
        let x = doc::child_indices(nodes, i);
        let y = doc::attr_indices(nodes, i);
        lemma_children_deeper(nodes, i);
        assert forall|k: int| 0 <= k < x.len() implies deep_equal(
            nodes,
            #[trigger] x[k],
            nodes,
            x[k],
        ) by {
            lemma_deep_equal_reflexive(nodes, x[k]);
        }
        doc::lemma_kids_are(nodes, Some(i as int), true, 0);
        assert forall|k: int| 0 <= k < y.len() implies has_equal_attr(
            nodes,
            #[trigger] y[k],
            nodes,
            y,
        ) by {
            assert(leaf_equal(doc::node_at(nodes, y[k]), doc::node_at(nodes, y[k])));
        }
        assert(attrs_equal(nodes, i, nodes, i));
    }
}

/// No two attributes of an element are equal, nor of one below it.
pub open spec fn attrs_distinct(nodes: Seq<NodeView>, i: u32) -> bool
    decreases depth_bound(nodes, i),
{
    let x = doc::attr_indices(nodes, i);
    let c = doc::child_indices(nodes, i);
    &&& forall|k: int, l: int|
        0 <= k < l < x.len() ==> !leaf_equal(
            doc::node_at(nodes, #[trigger] x[k]),
            doc::node_at(nodes, #[trigger] x[l]),
        )
    &&& forall|k: int|
        0 <= k < c.len() && depth_bound(nodes, #[trigger] c[k]) < depth_bound(nodes, i)
            ==> attrs_distinct(nodes, c[k])
}

/// Positions that differ, within as many as there are, are all positions.
proof fn lemma_all_hit(q: Seq<int>, l: int)
    requires
        q.no_duplicates(),
        forall|k: int| 0 <= k < q.len() ==> 0 <= #[trigger] q[k] < q.len(),
        0 <= l < q.len(),
    ensures
        q.contains(l),
{
    let n = q.len() as int;
    q.unique_seq_to_set();
    vstd::seq_lib::seq_to_set_is_finite(q);
    vstd::set_lib::lemma_int_range(0, n);
    let all = vstd::set_lib::set_int_range(0, n);
    assert(q.to_set().subset_of(all));
    vstd::set_lib::lemma_subset_equality(q.to_set(), all);
    assert(all.contains(l));
}

/// Where no two attributes of the first are equal, equal attributes are so both ways.
proof fn lemma_attrs_symmetric(a: Seq<NodeView>, i: u32, b: Seq<NodeView>, j: u32)
    requires
        attrs_equal(a, i, b, j),
        forall|k: int, l: int|
            0 <= k < l < doc::attr_indices(a, i).len() ==> !leaf_equal(
                doc::node_at(a, #[trigger] doc::attr_indices(a, i)[k]),
                doc::node_at(a, #[trigger] doc::attr_indices(a, i)[l]),
            ),
    ensures
        attrs_equal(b, j, a, i),
{
    let x = doc::attr_indices(a, i);
    let y = doc::attr_indices(b, j);
    let hit = |k: int, l: int|
        0 <= l < y.len() && leaf_equal(doc::node_at(a, x[k]), doc::node_at(b, y[l]));
    let q = Seq::new(x.len(), |k: int| choose|l: int| #[trigger] hit(k, l));
    assert forall|k: int| 0 <= k < x.len() implies hit(k, #[trigger] q[k]) by {
        assert(has_equal_attr(a, x[k], b, y));
        let l = choose|l: int|
            0 <= l < y.len() && leaf_equal(doc::node_at(a, x[k]), doc::node_at(b, #[trigger] y[l]));
        assert(hit(k, l));
    }
    assert forall|k: int, m: int| 0 <= k < m < q.len() implies q[k] != q[m] by {
        assert(hit(k, q[k]) && hit(m, q[m]));
        if q[k] == q[m] {
            assert(leaf_equal(doc::node_at(a, x[k]), doc::node_at(a, x[m])));
        }
    }
    assert forall|l: int| 0 <= l < y.len() implies has_equal_attr(b, #[trigger] y[l], a, x) by {
        lemma_all_hit(q, l);
        let k = choose|k: int| 0 <= k < q.len() && q[k] == l;
        assert(hit(k, q[k]));
        assert(leaf_equal(doc::node_at(b, y[l]), doc::node_at(a, x[k])));
    }
}

/// Deep equality goes both ways, where no element below the first has two equal attributes.
pub proof fn lemma_deep_equal_symmetric(a: Seq<NodeView>, i: u32, b: Seq<NodeView>, j: u32)
    requires
        doc::nodes_ok(a),
        doc::valid_index(a, i),
        attrs_distinct(a, i),
        deep_equal(a, i, b, j),
    ensures
        deep_equal(b, j, a, i),
    decreases depth_bound(a, i),
{
    let v = doc::node_at(a, i);
    let w = doc::node_at(b, j);
    if v.kind is Element && w.kind is Element {
        let x = doc::child_indices(a, i);
        let y = doc::child_indices(b, j);
        lemma_children_deeper(a, i);
        lemma_attrs_symmetric(a, i, b, j);
        assert forall|k: int|
            0 <= k < y.len() && depth_bound(b, #[trigger] y[k]) < depth_bound(
                b,
                j,
            ) implies deep_equal(b, y[k], a, x[k]) by {
            assert(depth_bound(a, x[k]) < depth_bound(a, i));
            lemma_deep_equal_symmetric(a, x[k], b, y[k]);
        }
    }
}

/// Nodes that equal a third one's equal are equal.
pub proof fn lemma_deep_equal_transitive(
    a: Seq<NodeView>,
    i: u32,
    b: Seq<NodeView>,
    j: u32,
    c: Seq<NodeView>,
    k: u32,
)
    requires
        doc::nodes_ok(b),
        doc::valid_index(b, j),
        deep_equal(a, i, b, j),
        deep_equal(b, j, c, k),
    ensures
        deep_equal(a, i, c, k),
    decreases depth_bound(a, i),
{
    if doc::node_at(a, i).kind is Element && doc::node_at(b, j).kind is Element {
        let x = doc::child_indices(a, i);
        let y = doc::child_indices(b, j);
        let z = doc::child_indices(c, k);
        lemma_children_deeper(b, j);
        assert forall|n: int|
            0 <= n < x.len() && depth_bound(a, #[trigger] x[n]) < depth_bound(
                a,
                i,
            ) implies deep_equal(a, x[n], c, z[n]) by {
            assert(depth_bound(b, y[n]) < depth_bound(b, j));
            lemma_deep_equal_transitive(a, x[n], b, y[n], c, z[n]);
        }
        let p = doc::attr_indices(a, i);
        let q = doc::attr_indices(b, j);
        let r = doc::attr_indices(c, k);
        assert forall|n: int| 0 <= n < p.len() implies has_equal_attr(a, #[trigger] p[n], c, r) by {
            assert(has_equal_attr(a, p[n], b, q));
            let l = choose|l: int|
                0 <= l < q.len() && leaf_equal(
                    doc::node_at(a, p[n]),
                    doc::node_at(b, #[trigger] q[l]),
                );
            assert(has_equal_attr(b, q[l], c, r));
            let m = choose|m: int|
                0 <= m < r.len() && leaf_equal(
                    doc::node_at(b, q[l]),
                    doc::node_at(c, #[trigger] r[m]),
                );
            assert(leaf_equal(doc::node_at(a, p[n]), doc::node_at(c, r[m])));
        }
    }
}

/// A namespace list already has a prefix.
pub open spec fn has_prefix(list: Seq<NsView>, prefix: Seq<char>) -> bool {
    exists|k: int| 0 <= k < list.len() && (#[trigger] list[k]).prefix == Some(prefix)
}

/// A namespace list with the declarations of element `at` whose prefix it has not yet,
/// taken from the first `n` declarations.
pub open spec fn with_decls(list: Seq<NsView>, decls: Seq<DeclView>, at: int, n: int) -> Seq<NsView>
    decreases n,
{
    if n <= 0 {
        list
    } else {
        let before = with_decls(list, decls, at, n - 1);
        let d = decls[n - 1];
        if d.node == at && !has_prefix(before, d.prefix) {
            before.push(NsView { uri: d.uri, prefix: Some(d.prefix) })
        } else {
            before
        }
    }
}

/// The namespaces in scope at an index, behind those in `list`: the element's own
/// declarations, then its parent's and so on. The closest declaration of a prefix wins.
pub open spec fn scope_behind(d: Doc, idx: u32, list: Seq<NsView>) -> Seq<NsView>
    decreases idx,
{
    let own = with_decls(list, d.decls, idx as int, d.decls.len() as int);
    match doc::node_at(d.nodes, idx).parent {
        Some(p) => if 0 <= p < idx {
            scope_behind(d, p as u32, own)
        } else {
            own
        },
        None => own,
    }
}

/// The namespaces in scope at an index.
pub open spec fn scope(d: Doc, idx: u32) -> Seq<NsView> {
    scope_behind(d, idx, Seq::empty())
}

/// No prefix stands twice in a namespace list.
pub open spec fn prefixes_distinct(list: Seq<NsView>) -> bool {
    &&& forall|k: int| 0 <= k < list.len() ==> (#[trigger] list[k]).prefix is Some
    &&& forall|k: int, l: int|
        0 <= k < l < list.len() ==> (#[trigger] list[k]).prefix != (#[trigger] list[l]).prefix
}

proof fn lemma_with_decls(list: Seq<NsView>, decls: Seq<DeclView>, at: int, n: int)
    requires
        prefixes_distinct(list),
    ensures
        prefixes_distinct(with_decls(list, decls, at, n)),
        list.is_prefix_of(with_decls(list, decls, at, n)),
    decreases n,
{
    if n > 0 {
        lemma_with_decls(list, decls, at, n - 1);
        let before = with_decls(list, decls, at, n - 1);
        let after = with_decls(list, decls, at, n);
        assert(list =~= after.take(list.len() as int)) by {
            assert(list =~= before.take(list.len() as int));
        }
    } else {
        assert(list =~= list.take(list.len() as int));
    }
}

proof fn lemma_scope_behind(d: Doc, idx: u32, list: Seq<NsView>)
    requires
        prefixes_distinct(list),
    ensures
        prefixes_distinct(scope_behind(d, idx, list)),
        list.is_prefix_of(scope_behind(d, idx, list)),
        with_decls(list, d.decls, idx as int, d.decls.len() as int).is_prefix_of(
            scope_behind(d, idx, list),
        ),
    decreases idx,
{
    let own = with_decls(list, d.decls, idx as int, d.decls.len() as int);
    lemma_with_decls(list, d.decls, idx as int, d.decls.len() as int);
    match doc::node_at(d.nodes, idx).parent {
        Some(p) => if 0 <= p < idx {
            lemma_scope_behind(d, p as u32, own);
            let all = scope_behind(d, idx, list);
            assert(list =~= all.take(list.len() as int)) by {
                assert(own =~= all.take(own.len() as int));
                assert(list =~= own.take(list.len() as int));
            }
        } else {
            assert(own =~= own.take(own.len() as int));
        },
        None => {
            assert(own =~= own.take(own.len() as int));
        },
    }
}

/// In a scope each prefix stands once, and what an element declares itself stands
/// before anything that its ancestors declare: the closest declaration wins.
pub proof fn lemma_scope_closest(d: Doc, idx: u32)
    ensures
        prefixes_distinct(scope(d, idx)),
        with_decls(Seq::empty(), d.decls, idx as int, d.decls.len() as int).is_prefix_of(
            scope(d, idx),
        ),
{
    lemma_scope_behind(d, idx, Seq::empty());
}

} // verus!
