//! The texts of nodes, and when two nodes are equal.

use crate::collapse;
use crate::doc;
use crate::doc::NodeView;
use crate::node_data::E4XNodeKindReadOnly;
use crate::node_data::VIRTUAL_TEXT;
use crate::queries;
use vstd::prelude::*;

verus! {

/// A text, a CDATA section and an attribute have their value as content, a comment and a
/// processing instruction none. A collapsed element and the text that it stands for have the
/// element's value.
pub proof fn lemma_own_content(nodes: Seq<NodeView>, idx: u32)
    requires
        doc::nodes_ok(nodes),
        doc::valid_index(nodes, idx),
    ensures
        idx >= VIRTUAL_TEXT ==> queries::string_value(nodes, idx) == nodes[idx
            - VIRTUAL_TEXT].value->0,
        idx < VIRTUAL_TEXT ==> {
            let v = nodes[idx as int];
            &&& v.kind is Text || v.kind is Cdata || v.kind is Attribute ==> queries::string_value(
                nodes,
                idx,
            ) == v.value->0
            &&& v.kind is Comment || v.kind is ProcessingInstruction ==> queries::string_value(
                nodes,
                idx,
            ).len() == 0
            &&& v.kind is Element && v.value is Some ==> queries::string_value(nodes, idx)
                == v.value->0
        },
{
    if idx < VIRTUAL_TEXT {
        assert(doc::node_ok(nodes, idx as int));
    }
}

/// An element's content is that of its children, one behind the other.
pub proof fn lemma_element_content(nodes: Seq<NodeView>, i: u32)
    requires
        doc::nodes_ok(nodes),
        i < nodes.len(),
        nodes[i as int].kind is Element,
    ensures
        queries::string_value(nodes, i) == joined_up(nodes, doc::child_indices(nodes, i)),
{
    collapse::lemma_text_of_children(nodes, i);
    lemma_joined_up(nodes, doc::child_indices(nodes, i));
}

/// The contents of nodes, one behind the other.
pub open spec fn joined_up(nodes: Seq<NodeView>, at: Seq<u32>) -> Seq<char>
    decreases at.len(),
{
    if at.len() == 0 {
        Seq::empty()
    } else {
        joined_up(nodes, at.drop_last()) + queries::string_value(nodes, at.last())
    }
}

proof fn lemma_joined_up(nodes: Seq<NodeView>, at: Seq<u32>)
    ensures
        collapse::texts_at(nodes, at) == joined_up(nodes, at),
    decreases at.len(),
{
    if at.len() > 0 {
        lemma_joined_up(nodes, at.drop_last());
        lemma_texts_back(nodes, at);
    }
}

proof fn lemma_texts_back(nodes: Seq<NodeView>, at: Seq<u32>)
    requires
        at.len() > 0,
    ensures
        collapse::texts_at(nodes, at) == collapse::texts_at(nodes, at.drop_last())
            + queries::string_value(nodes, at.last()),
    decreases at.len(),
{
    if at.len() == 1 {
        assert(at.drop_first() =~= Seq::<u32>::empty());
        assert(at.drop_last() =~= Seq::<u32>::empty());
        assert(collapse::texts_at(nodes, at) =~= collapse::texts_at(nodes, at.drop_last())
            + queries::string_value(nodes, at.last()));
    } else {
        lemma_texts_back(nodes, at.drop_first());
        assert(at.drop_first().drop_last() =~= at.drop_last().drop_first());
        assert(collapse::texts_at(nodes, at) =~= collapse::texts_at(nodes, at.drop_last())
            + queries::string_value(nodes, at.last()));
    }
}

/// The contents of several nodes stand in lines: none gives nothing, one its content, and a
/// line feed stands between those of two lists.
pub proof fn lemma_lines(nodes: Seq<NodeView>, a: Seq<int>, b: Seq<int>, i: int)
    ensures
        queries::joined_text(nodes, Seq::empty()).len() == 0,
        queries::joined_text(nodes, seq![i]) == queries::simple_text(nodes, i),
        a.len() > 0 && b.len() > 0 ==> queries::joined_text(nodes, a + b) == queries::joined_text(
            nodes,
            a,
        ) + seq!['\u{a}'] + queries::joined_text(nodes, b),
    decreases b.len(),
{
    if a.len() > 0 && b.len() > 0 {
        assert((a + b).drop_last() =~= a + b.drop_last());
        if b.len() == 1 {
            assert(a + b.drop_last() =~= a);
            assert((a + b).last() == b[0]);
        } else {
            lemma_lines(nodes, a, b.drop_last(), i);
            assert(queries::joined_text(nodes, a + b) =~= queries::joined_text(nodes, a) + seq![
                '\u{a}',
            ] + queries::joined_text(nodes, b));
        }
    }
}

/// A node's position is that of it among its parent's children. A root has none, nor has an
/// attribute.
pub proof fn lemma_positions(nodes: Seq<NodeView>, idx: u32)
    requires
        doc::nodes_ok(nodes),
        doc::valid_index(nodes, idx),
    ensures
        ({
            let v = doc::node_at(nodes, idx);
            match queries::child_position(nodes, idx) {
                Some(k) => v.parent is Some && !(v.kind is Attribute) && {
                    let all = doc::child_indices(nodes, v.parent->0 as u32);
                    0 <= k < all.len() && all[k] == idx
                },
                None => v.parent is None || v.kind is Attribute,
            }
        }),
{
    queries::lemma_position(nodes, idx);
}

/// Kinds that can be equal: the same, or a text and a CDATA section.
pub open spec fn alike(a: E4XNodeKindReadOnly, b: E4XNodeKindReadOnly) -> bool {
    a == b || (a is Text || a is Cdata) && (b is Text || b is Cdata)
}

/// An attribute among `y` with the name, namespace and value of the attribute at `x`.
pub open spec fn has_attr(a: Seq<NodeView>, x: u32, b: Seq<NodeView>, y: Seq<u32>) -> bool {
    exists|l: int|
        {
            let v = a[x as int];
            let w = b[(#[trigger] y[l]) as int];
            0 <= l < y.len() && v.name == w.name && v.ns == w.ns && v.value == w.value
        }
}

proof fn lemma_attrs_alike(a: Seq<NodeView>, i: u32, b: Seq<NodeView>, j: u32)
    requires
        doc::nodes_ok(a),
        doc::nodes_ok(b),
        i < a.len(),
        j < b.len(),
    ensures
        ({
            let x = doc::attr_indices(a, i);
            let y = doc::attr_indices(b, j);
            queries::attrs_equal(a, i, b, j) <==> x.len() == y.len() && forall|k: int|
                0 <= k < x.len() ==> has_attr(a, #[trigger] x[k], b, y)
        }),
{
    let x = doc::attr_indices(a, i);
    let y = doc::attr_indices(b, j);
    doc::lemma_kids_are(a, Some(i as int), true, 0);
    doc::lemma_kids_are(b, Some(j as int), true, 0);
    let p = doc::kids(a, Some(i as int), true, 0);
    let q = doc::kids(b, Some(j as int), true, 0);
    assert forall|k: int| 0 <= k < x.len() implies a[(#[trigger] x[k]) as int].kind is Attribute
        && x[k] < VIRTUAL_TEXT by {
        assert(0 <= p[k] < a.len());
    }
    assert forall|k: int| 0 <= k < y.len() implies b[(#[trigger] y[k]) as int].kind is Attribute
        && y[k] < VIRTUAL_TEXT by {
        assert(0 <= q[k] < b.len());
    }
    assert forall|k: int| 0 <= k < x.len() implies queries::has_equal_attr(
        a,
        #[trigger] x[k],
        b,
        y,
    ) == has_attr(a, x[k], b, y) by {
        if queries::has_equal_attr(a, x[k], b, y) {
            let l = choose|l: int|
                0 <= l < y.len() && queries::leaf_equal(
                    doc::node_at(a, x[k]),
                    doc::node_at(b, #[trigger] y[l]),
                );
            assert(b[y[l] as int].kind is Attribute);
        }
        if has_attr(a, x[k], b, y) {
            let l = choose|l: int|
                {
                    let v = a[x[k] as int];
                    let w = b[(#[trigger] y[l]) as int];
                    0 <= l < y.len() && v.name == w.name && v.ns == w.ns && v.value == w.value
                };
            assert(queries::leaf_equal(doc::node_at(a, x[k]), doc::node_at(b, y[l])));
        }
    }
}

/// Two nodes are equal exactly if their kinds, names and namespaces are, and: of two elements
/// they have as many attributes, for each of the first's one of the other's with the same name,
/// namespace and value, and as many children, each equal to the other's in its place; of two
/// other nodes their values are the same.
pub proof fn lemma_equality(a: Seq<NodeView>, i: u32, b: Seq<NodeView>, j: u32)
    requires
        doc::nodes_ok(a),
        doc::nodes_ok(b),
        doc::valid_index(a, i),
        doc::valid_index(b, j),
    ensures
        ({
            let v = doc::node_at(a, i);
            let w = doc::node_at(b, j);
            let p = doc::attr_indices(a, i);
            let q = doc::attr_indices(b, j);
            let x = doc::child_indices(a, i);
            let y = doc::child_indices(b, j);
            queries::deep_equal(a, i, b, j) <==> {
                &&& alike(v.kind, w.kind)
                &&& v.name == w.name && v.ns == w.ns
                &&& !(v.kind is Element) ==> v.value == w.value
                &&& v.kind is Element ==> p.len() == q.len() && forall|k: int|
                    0 <= k < p.len() ==> has_attr(a, #[trigger] p[k], b, q)
                &&& v.kind is Element ==> x.len() == y.len() && forall|k: int|
                    0 <= k < x.len() ==> queries::deep_equal(a, #[trigger] x[k], b, y[k])
            }
        }),
{
    let v = doc::node_at(a, i);
    let w = doc::node_at(b, j);
    if v.kind is Element && w.kind is Element {
        assert(i < VIRTUAL_TEXT && j < VIRTUAL_TEXT);
        lemma_attrs_alike(a, i, b, j);
        queries::lemma_children_deeper(a, i);
    }
}

/// Equal nodes have the same content.
pub proof fn lemma_equal_content(a: Seq<NodeView>, i: u32, b: Seq<NodeView>, j: u32)
    requires
        doc::nodes_ok(a),
        doc::nodes_ok(b),
        doc::valid_index(a, i),
        doc::valid_index(b, j),
        queries::deep_equal(a, i, b, j),
    ensures
        queries::string_value(a, i) == queries::string_value(b, j),
    decreases queries::depth_bound(a, i), a.len() + 2,
{
    lemma_equality(a, i, b, j);
    lemma_own_content(a, i);
    lemma_own_content(b, j);
    let v = doc::node_at(a, i);
    if v.kind is Element {
        assert(i < VIRTUAL_TEXT && j < VIRTUAL_TEXT);
        lemma_element_content(a, i);
        lemma_element_content(b, j);
        queries::lemma_children_deeper(a, i);
        queries::lemma_children_deeper(b, j);
        let x = doc::child_indices(a, i);
        let y = doc::child_indices(b, j);
        lemma_child_count(a, i);
        lemma_contents_equal(a, i, x, b, y, x.len() as int);
        assert(x.take(x.len() as int) =~= x);
        assert(y.take(x.len() as int) =~= y);
    }
}

proof fn lemma_child_count(nodes: Seq<NodeView>, i: u32)
    requires
        i < nodes.len(),
    ensures
        doc::child_indices(nodes, i).len() <= nodes.len() + 1,
{
    lemma_kid_count(nodes, i as int, 0);
}

proof fn lemma_kid_count(nodes: Seq<NodeView>, i: int, from: int)
    requires
        0 <= from <= nodes.len(),
    ensures
        doc::kids(nodes, Some(i), false, from).len() <= nodes.len() - from,
    decreases nodes.len() - from,
{
    if from < nodes.len() {
        lemma_kid_count(nodes, i, from + 1);
    }
}

proof fn lemma_contents_equal(
    a: Seq<NodeView>,
    i: u32,
    x: Seq<u32>,
    b: Seq<NodeView>,
    y: Seq<u32>,
    n: int,
)
    requires
        doc::nodes_ok(a),
        doc::nodes_ok(b),
        0 <= n <= x.len() == y.len(),
        x.len() <= a.len() + 1,
        forall|k: int|
            0 <= k < x.len() ==> queries::deep_equal(a, #[trigger] x[k], b, y[k])
                && queries::depth_bound(a, x[k]) < queries::depth_bound(a, i) && doc::valid_index(
                a,
                x[k],
            ) && doc::valid_index(b, y[k]),
    ensures
        joined_up(a, x.take(n)) == joined_up(b, y.take(n)),
    decreases queries::depth_bound(a, i), n,
{
    if n > 0 {
        lemma_contents_equal(a, i, x, b, y, n - 1);
        assert(x.take(n).drop_last() =~= x.take(n - 1));
        assert(y.take(n).drop_last() =~= y.take(n - 1));
        assert(queries::deep_equal(a, x[n - 1], b, y[n - 1]));
        lemma_equal_content(a, x[n - 1], b, y[n - 1]);
    }
}

} // verus!
