//! What searches find: the nodes that lie where they are looked for and have the name asked
//! for, all of them, in document order.

use crate::doc;
use crate::doc::NodeView;
use crate::multiname;
use crate::multiname::MultinameView;
use crate::multiname::NamespaceRefView;
use crate::node_data::VIRTUAL_TEXT;
use crate::queries;
use vstd::prelude::*;

verus! {

/// Node `j` lies below node `i`: its parent is `i`, or lies below `i`.
pub open spec fn under(nodes: Seq<NodeView>, i: int, j: int) -> bool
    decreases j,
{
    0 <= j < nodes.len() && match nodes[j].parent {
        Some(p) => p == i || (0 <= p < j && under(nodes, i, p)),
        None => false,
    }
}

/// Node `j` is node `i` or lies below it.
pub open spec fn within(nodes: Seq<NodeView>, i: int, j: int) -> bool {
    j == i || under(nodes, i, j)
}

/// Node `x` comes before node `y` in the document: `y` lies below it, or they lie within
/// children of one parent, `x` within the earlier one.
pub open spec fn precedes(nodes: Seq<NodeView>, x: int, y: int) -> bool {
    ||| under(nodes, x, y)
    ||| exists|a: int, b: int| #[trigger] split_at(nodes, x, y, a, b)
}

/// Nodes `a` and `b` are children of one parent, in this order, `x` within the first and `y`
/// within the other.
pub open spec fn split_at(nodes: Seq<NodeView>, x: int, y: int, a: int, b: int) -> bool {
    &&& 0 <= a < b < nodes.len()
    &&& nodes[a].parent is Some && nodes[a].parent == nodes[b].parent
    &&& within(nodes, a, x)
    &&& within(nodes, b, y)
}

proof fn lemma_through_child(nodes: Seq<NodeView>, i: int, x: int) -> (k: int)
    requires
        doc::nodes_ok(nodes),
        under(nodes, i, x),
    ensures
        0 <= k < nodes.len(),
        nodes[k].parent == Some(i),
        within(nodes, k, x),
        k <= x,
    decreases x,
{
    assert(doc::node_ok(nodes, x));
    let p = nodes[x].parent->0;
    if p == i {
        x
    } else {
        lemma_through_child(nodes, i, p)
    }
}

proof fn lemma_child_under(nodes: Seq<NodeView>, i: int, k: int, x: int)
    requires
        doc::nodes_ok(nodes),
        0 <= k < nodes.len(),
        nodes[k].parent == Some(i),
        within(nodes, k, x),
    ensures
        under(nodes, i, x),
    decreases x,
{
    if x != k {
        assert(doc::node_ok(nodes, x));
        let p = nodes[x].parent->0;
        lemma_child_under(nodes, i, k, p);
    }
}

/// What is picked of a sequence is what is kept of it; what ascends still does.
proof fn lemma_picked(s: Seq<int>, keep: spec_fn(int) -> bool)
    ensures
        forall|x: int|
            #![trigger queries::pick(s, keep).contains(x)]
            #![trigger s.contains(x)]
            queries::pick(s, keep).contains(x) <==> s.contains(x) && keep(x),
        (forall|k: int, l: int| 0 <= k < l < s.len() ==> s[k] < s[l]) ==> forall|k: int, l: int|
            0 <= k < l < queries::pick(s, keep).len() ==> queries::pick(s, keep)[k]
                < queries::pick(s, keep)[l],
    decreases s.len(),
{
    queries::lemma_pick_in(s, keep);
    let got = queries::pick(s, keep);
    if s.len() > 0 {
        let rest = s.drop_first();
        let tail = queries::pick(rest, keep);
        lemma_picked(rest, keep);
        assert forall|x: int|
            #![trigger got.contains(x)]
            #![trigger s.contains(x)]
            got.contains(x) <==> s.contains(x) && keep(x) by {
            if s.contains(x) && keep(x) {
                let q = choose|q: int| 0 <= q < s.len() && s[q] == x;
                if q > 0 {
                    assert(rest[q - 1] == x);
                    assert(tail.contains(x));
                    let m = choose|m: int| 0 <= m < tail.len() && tail[m] == x;
                    if keep(s[0]) {
                        assert(got[m + 1] == x);
                    }
                } else {
                    assert(got[0] == x);
                }
            }
        }
        if forall|k: int, l: int| 0 <= k < l < s.len() ==> s[k] < s[l] {
            assert forall|k: int, l: int| 0 <= k < l < rest.len() implies rest[k] < rest[l] by {
                assert(s[k + 1] < s[l + 1]);
            }
            queries::lemma_pick_in(rest, keep);
            assert forall|k: int, l: int| 0 <= k < l < got.len() implies got[k] < got[l] by {
                if keep(s[0]) {
                    assert(got[l] == tail[l - 1]);
                    if k == 0 {
                        assert(rest.contains(tail[l - 1]));
                        let q = choose|q: int| 0 <= q < rest.len() && rest[q] == tail[l - 1];
                        assert(s[0] < s[q + 1]);
                    } else {
                        assert(got[k] == tail[k - 1]);
                    }
                }
            }
        }
    } else {
        assert forall|x: int|
            #![trigger got.contains(x)]
            #![trigger s.contains(x)]
            got.contains(x) <==> s.contains(x) && keep(x) by {}
    }
}

/// The kids of a node: those nodes whose parent it is, in document order.
proof fn lemma_kids(nodes: Seq<NodeView>, i: int, attr: bool)
    ensures
        forall|j: int|
            #![trigger doc::kids(nodes, Some(i), attr, 0).contains(j)]
            #![trigger nodes[j]]
            doc::kids(nodes, Some(i), attr, 0).contains(j) <==> 0 <= j < nodes.len() && nodes[j].parent == Some(i) && (nodes[j].kind is Attribute) == attr,
        forall|k: int, l: int|
            0 <= k < l < doc::kids(nodes, Some(i), attr, 0).len() ==> doc::kids(
                nodes,
                Some(i),
                attr,
                0,
            )[k] < doc::kids(nodes, Some(i), attr, 0)[l],
{
    let ks = doc::kids(nodes, Some(i), attr, 0);
    doc::lemma_kids_are(nodes, Some(i), attr, 0);
    assert forall|j: int|
        #![trigger ks.contains(j)]
        #![trigger nodes[j]]
        ks.contains(j) <==> 0 <= j < nodes.len() && nodes[j].parent == Some(i) && (
        nodes[j].kind is Attribute) == attr by {
        if 0 <= j < nodes.len() && nodes[j].parent == Some(i) && (nodes[j].kind is Attribute)
            == attr {
            doc::lemma_kids_all(nodes, Some(i), attr, 0, j);
        }
    }
}

/// Node `j` is of the kind and name asked for.
pub open spec fn wanted(nodes: Seq<NodeView>, j: int, want: MultinameView) -> bool {
    &&& 0 <= j < nodes.len()
    &&& if want.attribute {
        nodes[j].kind is Attribute
    } else {
        nodes[j].kind is Element
    }
    &&& queries::name_matches(nodes[j], want)
}

/// The element that a found node belongs to: itself, or the one whose attribute it is.
pub open spec fn holder(nodes: Seq<NodeView>, j: int, want: MultinameView) -> int {
    if want.attribute {
        nodes[j].parent->0
    } else {
        j
    }
}

spec fn lies_from(nodes: Seq<NodeView>, i: int, from: int, x: int) -> bool {
    exists|k: int| #[trigger] child_over(nodes, i, from, x, k)
}

spec fn child_over(nodes: Seq<NodeView>, i: int, from: int, x: int, k: int) -> bool {
    &&& from <= k < nodes.len()
    &&& doc::is_kid(nodes[k], Some(i), false)
    &&& nodes[k].kind is Element
    &&& within(nodes, k, x)
}

/// An element within a child of a node lies within an element child.
proof fn lemma_lies(nodes: Seq<NodeView>, i: int, x: int)
    requires
        doc::nodes_ok(nodes),
        0 <= i < nodes.len(),
        0 <= x < nodes.len(),
        nodes[x].kind is Element,
    ensures
        lies_from(nodes, i, i + 1, x) <==> under(nodes, i, x),
{
    if under(nodes, i, x) {
        let k = lemma_through_child(nodes, i, x);
        assert(doc::node_ok(nodes, k));
        if k != x {
            lemma_under_element(nodes, k, x);
        }
        assert(child_over(nodes, i, i + 1, x, k));
    }
    if lies_from(nodes, i, i + 1, x) {
        let k = choose|k: int| #[trigger] child_over(nodes, i, i + 1, x, k);
        lemma_child_under(nodes, i, k, x);
    }
}

proof fn lemma_under_element(nodes: Seq<NodeView>, k: int, x: int)
    requires
        doc::nodes_ok(nodes),
        under(nodes, k, x),
    ensures
        0 <= k < nodes.len(),
        nodes[k].kind is Element,
    decreases x,
{
    assert(doc::node_ok(nodes, x));
    let p = nodes[x].parent->0;
    if p != k {
        lemma_under_element(nodes, k, p);
    }
}

proof fn lemma_own(nodes: Seq<NodeView>, i: int, want: MultinameView, j: int)
    requires
        doc::nodes_ok(nodes),
        0 <= i < nodes.len(),
        nodes[i].kind is Element,
    ensures
        queries::own_matches(nodes, i, want).contains(j) <==> wanted(nodes, j, want) && holder(
            nodes,
            j,
            want,
        ) == i,
{
    let own = queries::own_matches(nodes, i, want);
    if want.attribute {
        let keep = |j: int| queries::name_matches(nodes[j], want);
        lemma_kids(nodes, i, true);
        lemma_picked(doc::kids(nodes, Some(i), true, 0), keep);
        if 0 <= j < nodes.len() {
            assert(doc::node_ok(nodes, j));
        }
    } else if queries::name_matches(nodes[i], want) {
        assert(own[0] == i);
    }
}

proof fn lemma_found_from(nodes: Seq<NodeView>, i: int, from: int, want: MultinameView, j: int)
    requires
        doc::nodes_ok(nodes),
        0 <= i < from,
    ensures
        queries::descendants_from(nodes, i, from, want).contains(j) <==> wanted(nodes, j, want)
            && lies_from(nodes, i, from, holder(nodes, j, want)),
    decreases nodes.len() - from,
{
    let all = queries::descendants_from(nodes, i, from, want);
    let x = holder(nodes, j, want);
    if from >= nodes.len() {
        if lies_from(nodes, i, from, x) {
            let k = choose|k: int| #[trigger] child_over(nodes, i, from, x, k);
        }
    } else {
        let c = queries::descendants_from(nodes, i, from + 1, want);
        lemma_found_from(nodes, i, from + 1, want, j);
        if lies_from(nodes, i, from + 1, x) {
            let k = choose|k: int| #[trigger] child_over(nodes, i, from + 1, x, k);
            assert(child_over(nodes, i, from, x, k));
        }
        if doc::is_kid(nodes[from], Some(i), false) && nodes[from].kind is Element {
            let a = queries::own_matches(nodes, from, want);
            let b = queries::descendants(nodes, from, want);
            lemma_own(nodes, from, want, j);
            lemma_found_from(nodes, from, from + 1, want, j);
            assert(b == queries::descendants_from(nodes, from, from + 1, want));
            lemma_joined(a, b, c, j);
            if wanted(nodes, j, want) {
                assert(doc::node_ok(nodes, j));
                lemma_lies(nodes, from, x);
                if within(nodes, from, x) {
                    assert(child_over(nodes, i, from, x, from));
                }
                if lies_from(nodes, i, from, x) {
                    let k = choose|k: int| #[trigger] child_over(nodes, i, from, x, k);
                    if k > from {
                        assert(child_over(nodes, i, from + 1, x, k));
                    }
                }
            }
        } else if lies_from(nodes, i, from, x) {
            let k = choose|k: int| #[trigger] child_over(nodes, i, from, x, k);
            assert(child_over(nodes, i, from + 1, x, k));
        }
    }
}

proof fn lemma_joined(a: Seq<int>, b: Seq<int>, c: Seq<int>, j: int)
    ensures
        (a + b + c).contains(j) <==> a.contains(j) || b.contains(j) || c.contains(j),
{
    let all = a + b + c;
    if a.contains(j) {
        let k = choose|k: int| 0 <= k < a.len() && a[k] == j;
        assert(all[k] == j);
    }
    if b.contains(j) {
        let k = choose|k: int| 0 <= k < b.len() && b[k] == j;
        assert(all[a.len() + k] == j);
    }
    if c.contains(j) {
        let k = choose|k: int| 0 <= k < c.len() && c[k] == j;
        assert(all[a.len() + b.len() + k] == j);
    }
    if all.contains(j) {
        let k = choose|k: int| 0 <= k < all.len() && all[k] == j;
        if k < a.len() {
            assert(a[k] == j);
        } else if k < a.len() + b.len() {
            assert(b[k - a.len()] == j);
        } else {
            assert(c[k - a.len() - b.len()] == j);
        }
    }
}

/// A search of what lies below a node finds exactly the elements there whose name matches, or
/// where attributes are asked for the attributes of elements there whose name does. A search
/// for any name finds them all.
pub proof fn lemma_descendants_found(nodes: Seq<NodeView>, idx: u32, want: MultinameView, j: int)
    requires
        doc::nodes_ok(nodes),
        idx < nodes.len(),
        idx < VIRTUAL_TEXT,
    ensures
        queries::matching_descendants(nodes, idx, want).contains(j) <==> {
            &&& 0 <= j < nodes.len()
            &&& if want.attribute {
                nodes[j].kind is Attribute && under(nodes, idx as int, nodes[j].parent->0)
            } else {
                nodes[j].kind is Element && under(nodes, idx as int, j)
            }
            &&& want.any_name || queries::name_matches(nodes[j], want)
        },
{
    lemma_found_from(nodes, idx as int, idx + 1, want, j);
    if wanted(nodes, j, want) {
        assert(doc::node_ok(nodes, j));
        lemma_lies(nodes, idx as int, holder(nodes, j, want));
    }
}

/// One found node stands before another.
pub open spec fn found_before(nodes: Seq<NodeView>, x: int, y: int, want: MultinameView) -> bool {
    let p = holder(nodes, x, want);
    let q = holder(nodes, y, want);
    precedes(nodes, p, q) || want.attribute && p == q && x < y
}

proof fn lemma_order_from(
    nodes: Seq<NodeView>,
    i: int,
    from: int,
    want: MultinameView,
    m: int,
    n: int,
)
    requires
        doc::nodes_ok(nodes),
        0 <= i < from,
        0 <= m < n < queries::descendants_from(nodes, i, from, want).len(),
    ensures
        found_before(
            nodes,
            queries::descendants_from(nodes, i, from, want)[m],
            queries::descendants_from(nodes, i, from, want)[n],
            want,
        ),
    decreases nodes.len() - from,
{
    let all = queries::descendants_from(nodes, i, from, want);
    if from < nodes.len() {
        let c = queries::descendants_from(nodes, i, from + 1, want);
        if doc::is_kid(nodes[from], Some(i), false) && nodes[from].kind is Element {
            let a = queries::own_matches(nodes, from, want);
            let b = queries::descendants(nodes, from, want);
            assert(b == queries::descendants_from(nodes, from, from + 1, want));
            let x = all[m];
            let y = all[n];
            let na = a.len() as int;
            let nb = b.len() as int;
            if m < na {
                assert(a[m] == x);
                assert(a.contains(x));
                lemma_own(nodes, from, want, x);
            } else if m < na + nb {
                assert(b[m - na] == x);
                assert(b.contains(x));
                lemma_found_from(nodes, from, from + 1, want, x);
                assert(doc::node_ok(nodes, x));
                lemma_lies(nodes, from, holder(nodes, x, want));
            } else {
                assert(c[m - na - nb] == x);
            }
            if n < na {
                assert(a[n] == y);
                assert(a.contains(y));
                lemma_own(nodes, from, want, y);
                assert(want.attribute);
                lemma_kids(nodes, from, true);
                lemma_picked(
                    doc::kids(nodes, Some(from), true, 0),
                    |j: int| queries::name_matches(nodes[j], want),
                );
                assert(a[m] < a[n]);
            } else if n < na + nb {
                assert(b[n - na] == y);
                assert(b.contains(y));
                lemma_found_from(nodes, from, from + 1, want, y);
                assert(doc::node_ok(nodes, y));
                lemma_lies(nodes, from, holder(nodes, y, want));
                if m >= na {
                    lemma_order_from(nodes, from, from + 1, want, m - na, n - na);
                }
            } else {
                assert(c[n - na - nb] == y);
                if m >= na + nb {
                    lemma_order_from(nodes, i, from + 1, want, m - na - nb, n - na - nb);
                } else {
                    assert(c.contains(y));
                    lemma_found_from(nodes, i, from + 1, want, y);
                    let q = holder(nodes, y, want);
                    let k = choose|k: int| #[trigger] child_over(nodes, i, from + 1, q, k);
                    assert(split_at(nodes, holder(nodes, x, want), q, from, k));
                }
            }
        } else {
            lemma_order_from(nodes, i, from + 1, want, m, n);
        }
    }
}

/// A search of what lies below a node finds nodes in document order.
pub proof fn lemma_descendants_in_order(
    nodes: Seq<NodeView>,
    idx: u32,
    want: MultinameView,
    m: int,
    n: int,
)
    requires
        doc::nodes_ok(nodes),
        idx < nodes.len(),
        idx < VIRTUAL_TEXT,
        0 <= m < n < queries::matching_descendants(nodes, idx, want).len(),
    ensures
        found_before(
            nodes,
            queries::matching_descendants(nodes, idx, want)[m],
            queries::matching_descendants(nodes, idx, want)[n],
            want,
        ),
{
    lemma_order_from(nodes, idx as int, idx + 1, want, m, n);
}

/// The child elements that a name selects: those children that are elements of a matching
/// name, in document order; the attributes likewise.
pub proof fn lemma_children_found(nodes: Seq<NodeView>, idx: u32, want: MultinameView)
    requires
        idx < VIRTUAL_TEXT,
    ensures
        forall|j: int| queries::matching_children(nodes, idx, want).contains(j) <==> 0 <= j
            < nodes.len() && nodes[j].parent == Some(idx as int) && nodes[j].kind is Element
            && queries::name_matches(nodes[j], want),
        ascending(queries::matching_children(nodes, idx, want)),
        forall|j: int| queries::matching_attrs(nodes, idx, want).contains(j) <==> 0 <= j
            < nodes.len() && nodes[j].parent == Some(idx as int) && nodes[j].kind is Attribute
            && queries::name_matches(nodes[j], want),
        ascending(queries::matching_attrs(nodes, idx, want)),
{
    lemma_kids(nodes, idx as int, false);
    lemma_kids(nodes, idx as int, true);
    lemma_picked(
        queries::stored_children(nodes, idx),
        |j: int| nodes[j].kind is Element && queries::name_matches(nodes[j], want),
    );
    lemma_picked(
        queries::stored_attrs(nodes, idx),
        |j: int| queries::name_matches(nodes[j], want),
    );
}

/// Each position is greater than those before it.
pub open spec fn ascending(s: Seq<int>) -> bool {
    forall|k: int, l: int| 0 <= k < l < s.len() ==> s[k] < s[l]
}

/// The children of each kind, in document order: elements, comments, and the processing
/// instructions of a target, where `*` and no target stand for any.
pub proof fn lemma_children_by_kind(nodes: Seq<NodeView>, idx: u32, target: Option<Seq<char>>)
    requires
        idx < VIRTUAL_TEXT,
    ensures
        forall|j: int| queries::element_children(nodes, idx).contains(j) <==> 0 <= j < nodes.len()
            && nodes[j].parent == Some(idx as int) && nodes[j].kind is Element,
        ascending(queries::element_children(nodes, idx)),
        forall|j: int| queries::comment_children(nodes, idx).contains(j) <==> 0 <= j < nodes.len()
            && nodes[j].parent == Some(idx as int) && nodes[j].kind is Comment,
        ascending(queries::comment_children(nodes, idx)),
        forall|j: int| queries::pi_children(nodes, idx, target).contains(j) <==> 0 <= j
            < nodes.len() && nodes[j].parent == Some(idx as int)
            && nodes[j].kind is ProcessingInstruction && (target is None || target->0
            == seq!['*'] || nodes[j].name == target),
        ascending(queries::pi_children(nodes, idx, target)),
{
    reveal_strlit("*");
    assert("*"@ =~= seq!['*']);
    lemma_kids(nodes, idx as int, false);
    let all = queries::stored_children(nodes, idx);
    lemma_picked(all, |j: int| nodes[j].kind is Element);
    lemma_picked(all, |j: int| nodes[j].kind is Comment);
    lemma_picked(
        all,
        |j: int|
            nodes[j].kind is ProcessingInstruction && queries::target_matches(nodes[j], target),
    );
}

/// The text children of a node: of a collapsed element the one that it stands for, otherwise
/// the children that are texts or CDATA sections, in document order.
pub proof fn lemma_texts_found(nodes: Seq<NodeView>, idx: u32)
    requires
        doc::nodes_ok(nodes),
        idx < nodes.len(),
    ensures
        nodes[idx as int].kind is Element && nodes[idx as int].value is Some
            ==> queries::text_indices(nodes, idx) == seq![(idx + VIRTUAL_TEXT) as u32],
        !(nodes[idx as int].kind is Element && nodes[idx as int].value is Some) ==> {
            let got = queries::text_indices(nodes, idx);
            &&& forall|j: u32| got.contains(j) <==> j < nodes.len() && nodes[j as int].parent
                == Some(idx as int) && (nodes[j as int].kind is Text || nodes[j as int].kind is Cdata)
            &&& forall|k: int, l: int| 0 <= k < l < got.len() ==> got[k] < got[l]
        },
{
    let v = nodes[idx as int];
    if !(v.kind is Element && v.value is Some) {
        let keep = |j: int| nodes[j].kind is Text || nodes[j].kind is Cdata;
        let ks = queries::stored_children(nodes, idx);
        let got = queries::pick(ks, keep);
        let links = queries::text_indices(nodes, idx);
        lemma_kids(nodes, idx as int, false);
        lemma_picked(ks, keep);
        assert(links =~= doc::as_links(got));
        assert forall|k: int| 0 <= k < got.len() implies 0 <= #[trigger] got[k] < nodes.len() by {
            assert(got.contains(got[k]));
        }
        assert forall|j: u32| links.contains(j) <==> j < nodes.len() && nodes[j as int].parent
            == Some(idx as int) && (nodes[j as int].kind is Text
            || nodes[j as int].kind is Cdata) by {
            if links.contains(j) {
                let k = choose|k: int| 0 <= k < links.len() && links[k] == j;
                assert(got.contains(got[k]));
            }
            if j < nodes.len() && got.contains(j as int) {
                let k = choose|k: int| 0 <= k < got.len() && got[k] == j as int;
                assert(links[k] == j);
            }
        }
    }
}

/// All children and all attributes of a node, in document order. A collapsed element has one
/// child.
pub proof fn lemma_all_children(nodes: Seq<NodeView>, idx: u32)
    requires
        doc::nodes_ok(nodes),
        idx < nodes.len(),
    ensures
        nodes[idx as int].kind is Element && nodes[idx as int].value is Some ==> doc::child_indices(
            nodes,
            idx,
        ) == seq![(idx + VIRTUAL_TEXT) as u32],
        !(nodes[idx as int].kind is Element && nodes[idx as int].value is Some) ==> {
            let got = doc::child_indices(nodes, idx);
            &&& forall|j: u32| got.contains(j) <==> j < nodes.len() && nodes[j as int].parent
                == Some(idx as int) && !(nodes[j as int].kind is Attribute)
            &&& forall|k: int, l: int| 0 <= k < l < got.len() ==> got[k] < got[l]
        },
        forall|j: u32| doc::attr_indices(nodes, idx).contains(j) <==> j < nodes.len()
            && nodes[j as int].parent == Some(idx as int) && nodes[j as int].kind is Attribute,
        forall|k: int, l: int|
            0 <= k < l < doc::attr_indices(nodes, idx).len() ==> doc::attr_indices(nodes, idx)[k]
                < doc::attr_indices(nodes, idx)[l],
{
    lemma_kids(nodes, idx as int, false);
    lemma_kids(nodes, idx as int, true);
    lemma_links(nodes, idx, false);
    lemma_links(nodes, idx, true);
}

proof fn lemma_links(nodes: Seq<NodeView>, idx: u32, attr: bool)
    requires
        doc::nodes_ok(nodes),
        idx < nodes.len(),
    ensures
        ({
            let got = doc::as_links(doc::kids(nodes, Some(idx as int), attr, 0));
            &&& forall|j: u32| got.contains(j) <==> j < nodes.len() && nodes[j as int].parent
                == Some(idx as int) && (nodes[j as int].kind is Attribute) == attr
            &&& forall|k: int, l: int| 0 <= k < l < got.len() ==> got[k] < got[l]
        }),
{
    let ks = doc::kids(nodes, Some(idx as int), attr, 0);
    let got = doc::as_links(ks);
    lemma_kids(nodes, idx as int, attr);
    assert forall|k: int| 0 <= k < ks.len() implies 0 <= #[trigger] ks[k] < nodes.len() by {
        assert(ks.contains(ks[k]));
    }
    assert forall|j: u32| got.contains(j) <==> j < nodes.len() && nodes[j as int].parent == Some(
        idx as int,
    ) && (nodes[j as int].kind is Attribute) == attr by {
        if got.contains(j) {
            let k = choose|k: int| 0 <= k < got.len() && got[k] == j;
            assert(ks.contains(ks[k]));
        }
        if j < nodes.len() && ks.contains(j as int) {
            let k = choose|k: int| 0 <= k < ks.len() && ks[k] == j as int;
            assert(got[k] == j);
        }
    }
}

/// A name in no namespace stands for the empty URI.
pub open spec fn uri_of(v: NodeView) -> Seq<char> {
    match v.ns {
        Some(u) => u,
        None => Seq::empty(),
    }
}

/// The multiname of one local name in one namespace.
pub open spec fn exact_name(local: Seq<char>, uri: Seq<char>, attribute: bool) -> MultinameView {
    MultinameView {
        any_name: false,
        local: Some(local),
        any_namespace: false,
        namespaces: seq![NamespaceRefView { is_namespace: true, uri: Some(uri) }],
        attribute,
        explicit_namespace: false,
    }
}

/// Names: any name matches every node; a local name in any namespace those with that name; a
/// name in one namespace those with that name in that namespace; a name in several namespaces
/// those that match it in one of them.
pub proof fn lemma_names(v: NodeView, want: MultinameView, local: Seq<char>, uri: Seq<char>)
    requires
        local != seq!['*'],
    ensures
        want.any_name ==> queries::name_matches(v, want),
        !want.any_name && want.local is None ==> !queries::name_matches(v, want),
        !want.any_name && want.any_namespace && want.local == Some(local)
            ==> queries::name_matches(v, want) == (v.name == Some(local)),
        !want.any_name && want.any_namespace && want.local == Some(seq!['*'])
            ==> queries::name_matches(v, want) == (v.name is Some),
        queries::name_matches(v, exact_name(local, uri, want.attribute)) == (v.name == Some(local)
            && uri_of(v) == uri),
        !want.any_name && !want.any_namespace && want.local == Some(local) && want.namespaces.len()
            > 0 && (forall|k: int|
            0 <= k < want.namespaces.len() ==> (#[trigger] want.namespaces[k]).is_namespace
                && want.namespaces[k].uri is Some) ==> queries::name_matches(v, want) == exists|
            k: int,
        |
            0 <= k < want.namespaces.len() && v.name == Some(local) && uri_of(v) == (
            #[trigger] want.namespaces[k]).uri->0,
        !want.any_name && !want.any_namespace && want.local == Some(local) && want.namespaces.len()
            == 0 ==> queries::name_matches(v, want) == (v.name == Some(local) && uri_of(v).len()
            == 0),
{
    reveal_strlit("*");
    assert("*"@ =~= seq!['*']);
    let one = exact_name(local, uri, want.attribute);
    assert(one.namespaces[0].is_namespace);
    if v.name == Some(local) {
        assert(queries::ns_matches(v.ns, one) == (uri_of(v) == uri)) by {
            if v.ns is None {
                assert(uri_of(v) =~= uri <==> uri.len() == 0);
            }
            assert(queries::uri_matches(v.ns, one.namespaces[0].uri) == (uri_of(v) == uri));
        }
    }
    if want.namespaces.len() > 0 && (forall|k: int|
        0 <= k < want.namespaces.len() ==> (#[trigger] want.namespaces[k]).is_namespace
            && want.namespaces[k].uri is Some) {
        assert(want.namespaces[0].is_namespace);
        assert forall|k: int| 0 <= k < want.namespaces.len() implies queries::uri_matches(
            v.ns,
            (#[trigger] want.namespaces[k]).uri,
        ) == (uri_of(v) == want.namespaces[k].uri->0) by {
            if v.ns is None {
                let u = want.namespaces[k].uri->0;
                assert(uri_of(v) =~= u <==> u.len() == 0);
            }
        }
    }
}

/// A name as a script writes it finds the nodes of that name that are in no namespace; `*`
/// finds all.
pub proof fn lemma_public_names(v: NodeView, name: Seq<char>, attribute: bool)
    ensures
        name != seq!['*'] ==> queries::name_matches(v, multiname::public_name(name, attribute)) == (
        v.name == Some(name) && uri_of(v).len() == 0),
        name == seq!['*'] ==> queries::name_matches(v, multiname::public_name(name, attribute)),
        multiname::public_name(name, attribute).attribute == attribute,
{
    reveal_strlit("*");
    assert("*"@ =~= seq!['*']);
    if name != seq!['*'] {
        let want = multiname::public_name(name, attribute);
        lemma_names(v, want, name, Seq::empty());
        assert(want =~= exact_name(name, Seq::empty(), attribute)) by {
            assert(want.namespaces =~= exact_name(name, Seq::empty(), attribute).namespaces);
        }
        assert(uri_of(v) == Seq::<char>::empty() <==> uri_of(v).len() == 0) by {
            if uri_of(v).len() == 0 {
                assert(uri_of(v) =~= Seq::<char>::empty());
            }
        }
    }
}

/// An element has complex content exactly if some child of it is an element; an element without
/// has simple content, as texts and attributes have, which comments and processing
/// instructions do not.
pub proof fn lemma_content(nodes: Seq<NodeView>, idx: u32)
    requires
        doc::nodes_ok(nodes),
        idx < nodes.len(),
    ensures
        queries::complex_content(nodes, idx) <==> nodes[idx as int].kind is Element && exists|j: int|
            0 <= j < nodes.len() && (#[trigger] nodes[j]).parent == Some(idx as int)
                && nodes[j].kind is Element,
        nodes[idx as int].kind is Element ==> queries::simple_content(nodes, idx)
            == !queries::complex_content(nodes, idx),
        !(nodes[idx as int].kind is Element) ==> queries::simple_content(nodes, idx) == !(
        nodes[idx as int].kind is Comment || nodes[idx as int].kind is ProcessingInstruction),
{
    let ks = queries::stored_children(nodes, idx);
    lemma_kids(nodes, idx as int, false);
    if queries::has_element_child(nodes, idx) {
        let k = choose|k: int| 0 <= k < ks.len() && nodes[#[trigger] ks[k]].kind is Element;
        assert(ks.contains(ks[k]));
    }
    if exists|j: int|
        0 <= j < nodes.len() && (#[trigger] nodes[j]).parent == Some(idx as int)
            && nodes[j].kind is Element {
        let j = choose|j: int|
            0 <= j < nodes.len() && (#[trigger] nodes[j]).parent == Some(idx as int)
                && nodes[j].kind is Element;
        assert(ks.contains(j));
        let k = choose|k: int| 0 <= k < ks.len() && ks[k] == j;
        assert(nodes[ks[k]].kind is Element);
    }
}

} // verus!
