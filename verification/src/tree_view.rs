//! The tree below a node by itself, wherever its nodes are stored, and that equal trees are
//! deeply equal.

use crate::doc;
use crate::doc::NodeView;
use crate::node_data::E4XNodeKindReadOnly;
use crate::node_data::VIRTUAL_TEXT;
use crate::queries;
use crate::tree;
use vstd::prelude::*;

verus! {

/// A node without what says where it stands, its attributes and its children. A text that an
/// element took as its value is a child like any other.
#[verifier::ext_equal]
pub struct TreeView {
    pub head: NodeView,
    pub attrs: Seq<NodeView>,
    pub kids: Seq<TreeView>,
}

/// A node by itself: without parent and prefix, and an element without its text.
pub open spec fn bare(v: NodeView) -> NodeView {
    NodeView {
        parent: None,
        prefix: None,
        value: if v.kind is Element {
            None
        } else {
            v.value
        },
        ..v
    }
}

/// A node with nothing below it.
pub open spec fn leaf(v: NodeView) -> TreeView {
    TreeView { head: bare(v), attrs: Seq::empty(), kids: Seq::empty() }
}

/// A text.
pub open spec fn text_leaf(t: Seq<char>) -> TreeView {
    leaf(tree::text_node(E4XNodeKindReadOnly::Text, None, t))
}

/// The tree below a stored node.
pub open spec fn tree_at(nodes: Seq<NodeView>, i: int) -> TreeView
    decreases nodes.len() - i, 1int,
{
    if i < 0 || i >= nodes.len() || !(nodes[i].kind is Element) {
        leaf(nodes[i])
    } else {
        TreeView {
            head: bare(nodes[i]),
            attrs: attr_heads(nodes, i, i + 1),
            kids: match nodes[i].value {
                Some(t) => seq![text_leaf(t)],
                None => kid_trees(nodes, i, i + 1),
            },
        }
    }
}

/// The trees of the children of `p` from position `from` on.
pub open spec fn kid_trees(nodes: Seq<NodeView>, p: int, from: int) -> Seq<TreeView>
    decreases nodes.len() - from, 2int,
{
    if from < 0 || from >= nodes.len() {
        Seq::empty()
    } else if doc::is_kid(nodes[from], Some(p), false) {
        seq![tree_at(nodes, from)] + kid_trees(nodes, p, from + 1)
    } else {
        kid_trees(nodes, p, from + 1)
    }
}

/// The attributes of `p` from position `from` on.
pub open spec fn attr_heads(nodes: Seq<NodeView>, p: int, from: int) -> Seq<NodeView>
    decreases nodes.len() - from,
{
    if from < 0 || from >= nodes.len() {
        Seq::empty()
    } else if doc::is_kid(nodes[from], Some(p), true) {
        seq![bare(nodes[from])] + attr_heads(nodes, p, from + 1)
    } else {
        attr_heads(nodes, p, from + 1)
    }
}

/// Every node's parent stands before it.
pub open spec fn parents_before(nodes: Seq<NodeView>) -> bool {
    forall|k: int|
        0 <= k < nodes.len() ==> ((#[trigger] nodes[k]).parent matches Some(q) ==> 0 <= q < k)
}

proof fn lemma_kid_trees(nodes: Seq<NodeView>, p: int, from: int)
    requires
        0 <= from,
    ensures
        kid_trees(nodes, p, from).len() == doc::kids(nodes, Some(p), false, from).len(),
        forall|k: int|
            0 <= k < kid_trees(nodes, p, from).len() ==> #[trigger] kid_trees(nodes, p, from)[k]
                == tree_at(nodes, doc::kids(nodes, Some(p), false, from)[k]),
    decreases nodes.len() - from,
{
    if from < nodes.len() {
        lemma_kid_trees(nodes, p, from + 1);
        if doc::is_kid(nodes[from], Some(p), false) {
            let all = kid_trees(nodes, p, from);
            let rest = kid_trees(nodes, p, from + 1);
            assert forall|k: int| 0 <= k < all.len() implies #[trigger] all[k] == tree_at(
                nodes,
                doc::kids(nodes, Some(p), false, from)[k],
            ) by {
                if k > 0 {
                    assert(all[k] == rest[k - 1]);
                }
            }
        }
    }
}

proof fn lemma_attr_heads(nodes: Seq<NodeView>, p: int, from: int)
    requires
        0 <= from,
    ensures
        attr_heads(nodes, p, from).len() == doc::kids(nodes, Some(p), true, from).len(),
        forall|k: int|
            0 <= k < attr_heads(nodes, p, from).len() ==> #[trigger] attr_heads(nodes, p, from)[k]
                == bare(nodes[doc::kids(nodes, Some(p), true, from)[k]]),
    decreases nodes.len() - from,
{
    if from < nodes.len() {
        lemma_attr_heads(nodes, p, from + 1);
        if doc::is_kid(nodes[from], Some(p), true) {
            let all = attr_heads(nodes, p, from);
            let rest = attr_heads(nodes, p, from + 1);
            assert forall|k: int| 0 <= k < all.len() implies #[trigger] all[k] == bare(
                nodes[doc::kids(nodes, Some(p), true, from)[k]],
            ) by {
                if k > 0 {
                    assert(all[k] == rest[k - 1]);
                }
            }
        }
    }
}

/// A node has no kids before itself.
proof fn lemma_kids_from(nodes: Seq<NodeView>, p: int, attr: bool, from: int)
    requires
        parents_before(nodes),
        0 <= p < nodes.len(),
        0 <= from <= p + 1,
    ensures
        doc::kids(nodes, Some(p), attr, from) == doc::kids(nodes, Some(p), attr, p + 1),
    decreases p + 1 - from,
{
    if from <= p {
        lemma_kids_from(nodes, p, attr, from + 1);
        assert(!doc::is_kid(nodes[from], Some(p), attr));
    }
}

/// The tree below the node at an index.
pub open spec fn tree_of(nodes: Seq<NodeView>, idx: u32) -> TreeView {
    if idx < VIRTUAL_TEXT {
        tree_at(nodes, idx as int)
    } else {
        leaf(doc::node_at(nodes, idx))
    }
}

/// The children of a node are the children of its tree.
proof fn lemma_children(nodes: Seq<NodeView>, i: u32)
    requires
        parents_before(nodes),
        nodes.len() < VIRTUAL_TEXT,
        doc::valid_index(nodes, i),
        doc::node_at(nodes, i).kind is Element,
    ensures
        doc::child_indices(nodes, i).len() == tree_of(nodes, i).kids.len(),
        forall|k: int|
            0 <= k < doc::child_indices(nodes, i).len() ==> {
                let c = #[trigger] doc::child_indices(nodes, i)[k];
                &&& tree_of(nodes, c) == tree_of(nodes, i).kids[k]
                &&& doc::valid_index(nodes, c)
                &&& queries::depth_bound(nodes, c) < queries::depth_bound(nodes, i)
            },
        doc::attr_indices(nodes, i).len() == tree_of(nodes, i).attrs.len(),
        forall|k: int|
            0 <= k < doc::attr_indices(nodes, i).len() ==> {
                let a = #[trigger] doc::attr_indices(nodes, i)[k];
                &&& bare(doc::node_at(nodes, a)) == tree_of(nodes, i).attrs[k]
                &&& doc::node_at(nodes, a).kind is Attribute
            },
{
    let p = i as int;
    lemma_kids_from(nodes, p, false, 0);
    lemma_kids_from(nodes, p, true, 0);
    lemma_kid_trees(nodes, p, p + 1);
    lemma_attr_heads(nodes, p, p + 1);
    doc::lemma_kids_are(nodes, Some(p), false, p + 1);
    doc::lemma_kids_are(nodes, Some(p), true, p + 1);
    let c = doc::child_indices(nodes, i);
    match nodes[p].value {
        Some(t) => {
            assert(tree_of(nodes, c[0]) == text_leaf(t));
        },
        None => {
            assert forall|k: int| 0 <= k < c.len() implies tree_of(nodes, #[trigger] c[k])
                == tree_of(nodes, i).kids[k] by {
                assert(kid_trees(nodes, p, p + 1)[k] == tree_at(
                    nodes,
                    doc::kids(nodes, Some(p), false, p + 1)[k],
                ));
            }
        },
    }
    let x = doc::attr_indices(nodes, i);
    assert forall|k: int| 0 <= k < x.len() implies bare(doc::node_at(nodes, #[trigger] x[k]))
        == tree_of(nodes, i).attrs[k] && doc::node_at(nodes, x[k]).kind is Attribute by {
        assert(attr_heads(nodes, p, p + 1)[k] == bare(
            nodes[doc::kids(nodes, Some(p), true, p + 1)[k]],
        ));
    }
}

/// Nodes with equal trees are deeply equal.
pub proof fn lemma_trees_equal(a: Seq<NodeView>, i: u32, b: Seq<NodeView>, j: u32)
    requires
        parents_before(a),
        parents_before(b),
        a.len() < VIRTUAL_TEXT,
        b.len() < VIRTUAL_TEXT,
        doc::valid_index(a, i),
        doc::valid_index(b, j),
        tree_of(a, i) == tree_of(b, j),
    ensures
        queries::deep_equal(a, i, b, j),
    decreases queries::depth_bound(a, i),
{
    let v = doc::node_at(a, i);
    let w = doc::node_at(b, j);
    assert(tree_of(a, i).head == bare(v) && tree_of(b, j).head == bare(w));
    assert(v.kind == w.kind && v.name == w.name && v.ns == w.ns);
    if v.kind is Element {
        lemma_children(a, i);
        lemma_children(b, j);
        let x = doc::child_indices(a, i);
        let y = doc::child_indices(b, j);
        assert forall|k: int|
            0 <= k < x.len() && queries::depth_bound(a, #[trigger] x[k]) < queries::depth_bound(
                a,
                i,
            ) implies queries::deep_equal(a, x[k], b, y[k]) by {
            assert(tree_of(b, y[k]) == tree_of(b, j).kids[k]);
            lemma_trees_equal(a, x[k], b, y[k]);
        }
        let p = doc::attr_indices(a, i);
        let q = doc::attr_indices(b, j);
        assert forall|k: int| 0 <= k < p.len() implies queries::has_equal_attr(
            a,
            #[trigger] p[k],
            b,
            q,
        ) by {
            assert(bare(doc::node_at(b, q[k])) == tree_of(b, j).attrs[k]);
            assert(queries::leaf_equal(doc::node_at(a, p[k]), doc::node_at(b, q[k])));
        }
        assert(queries::attrs_equal(a, i, b, j));
    } else {
        assert(v.value == w.value);
    }
}

/// Kids that are not there do not matter.
pub proof fn lemma_no_kids(nodes: Seq<NodeView>, p: int, from: int, to: int)
    requires
        0 <= from <= to <= nodes.len(),
        forall|k: int| from <= k < to ==> !doc::is_kid(#[trigger] nodes[k], Some(p), false),
    ensures
        kid_trees(nodes, p, from) == kid_trees(nodes, p, to),
    decreases to - from,
{
    if from < to {
        lemma_no_kids(nodes, p, from + 1, to);
    }
}

pub proof fn lemma_no_attrs(nodes: Seq<NodeView>, p: int, from: int)
    requires
        0 <= from,
        forall|k: int|
            from <= k < nodes.len() ==> !doc::is_kid(#[trigger] nodes[k], Some(p), true),
    ensures
        attr_heads(nodes, p, from) == Seq::<NodeView>::empty(),
    decreases nodes.len() - from,
{
    if from < nodes.len() {
        lemma_no_attrs(nodes, p, from + 1);
    }
}

/// Attributes that stand in a row, with none behind them.
pub proof fn lemma_attrs_in_a_row(nodes: Seq<NodeView>, p: int, from: int, heads: Seq<NodeView>)
    requires
        0 <= from,
        from + heads.len() <= nodes.len(),
        forall|k: int|
            0 <= k < heads.len() ==> doc::is_kid(nodes[from + k], Some(p), true) && bare(
                nodes[from + k],
            ) == #[trigger] heads[k],
        forall|k: int|
            from + heads.len() <= k < nodes.len() ==> !doc::is_kid(
                #[trigger] nodes[k],
                Some(p),
                true,
            ),
    ensures
        attr_heads(nodes, p, from) == heads,
    decreases heads.len(),
{
    if heads.len() == 0 {
        lemma_no_attrs(nodes, p, from);
        assert(heads =~= Seq::<NodeView>::empty());
    } else {
        let rest = heads.drop_first();
        assert(bare(nodes[from + 0]) == heads[0]);
        assert forall|k: int| 0 <= k < rest.len() implies doc::is_kid(
            nodes[from + 1 + k],
            Some(p),
            true,
        ) && bare(nodes[from + 1 + k]) == #[trigger] rest[k] by {
            assert(rest[k] == heads[k + 1]);
            assert(nodes[from + (k + 1)] == nodes[from + 1 + k]);
        }
        lemma_attrs_in_a_row(nodes, p, from + 1, rest);
        assert(seq![heads[0]] + rest =~= heads);
    }
}

/// `more` has the nodes of `nodes` from `at` on, and no more below them.
pub open spec fn kept(nodes: Seq<NodeView>, more: Seq<NodeView>, at: int) -> bool {
    &&& 0 <= at
    &&& nodes.len() <= more.len()
    &&& forall|k: int| at <= k < nodes.len() ==> #[trigger] more[k] == nodes[k]
    &&& forall|k: int|
        nodes.len() <= k < more.len() ==> ((#[trigger] more[k]).parent matches Some(q) ==> q < at
            || q >= nodes.len())
}

proof fn lemma_heads_kept(nodes: Seq<NodeView>, more: Seq<NodeView>, at: int, p: int, from: int)
    requires
        kept(nodes, more, at),
        at <= p < nodes.len(),
        at <= from,
    ensures
        attr_heads(more, p, from) == attr_heads(nodes, p, from),
    decreases more.len() - from,
{
    if from < more.len() {
        lemma_heads_kept(nodes, more, at, p, from + 1);
        if from < nodes.len() {
            assert(more[from] == nodes[from]);
        } else {
            assert(!doc::is_kid(more[from], Some(p), true));
        }
    }
}

/// What is added elsewhere leaves a tree as it is.
pub proof fn lemma_tree_kept(nodes: Seq<NodeView>, more: Seq<NodeView>, at: int)
    requires
        kept(nodes, more, at),
        at < nodes.len(),
    ensures
        tree_at(more, at) == tree_at(nodes, at),
    decreases more.len() - at, 1int,
{
    assert(more[at] == nodes[at]);
    if nodes[at].kind is Element {
        lemma_heads_kept(nodes, more, at, at, at + 1);
        if nodes[at].value is None {
            lemma_kids_kept(nodes, more, at, at, at + 1);
        }
    }
}

proof fn lemma_kids_kept(nodes: Seq<NodeView>, more: Seq<NodeView>, at: int, p: int, from: int)
    requires
        kept(nodes, more, at),
        at <= p < nodes.len(),
        at <= from,
    ensures
        kid_trees(more, p, from) == kid_trees(nodes, p, from),
    decreases more.len() - from, 2int,
{
    if from < more.len() {
        lemma_kids_kept(nodes, more, at, p, from + 1);
        if from < nodes.len() {
            assert(more[from] == nodes[from]);
            if doc::is_kid(nodes[from], Some(p), false) {
                assert(kept(nodes, more, from));
                lemma_tree_kept(nodes, more, from);
            }
        } else {
            assert(!doc::is_kid(more[from], Some(p), false));
        }
    }
}

} // verus!
