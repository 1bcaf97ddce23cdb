//! The text content of nodes, their descendants and deep equality.

use crate::doc;
use crate::doc::NodeView;
use crate::multiname::Multiname;
use crate::node;
use crate::node::E4XNodeReadOnly;
use crate::node::Handle;
use crate::node_data::E4XNodeKindReadOnly;
use crate::node_data::NO_NODE;
use crate::node_data::VIRTUAL_TEXT;
use crate::node_walk;
use crate::queries;
use crate::store::E4XStoreReadOnly;
use crate::text;
use crate::text::same_text;
use vstd::prelude::*;

verus! {

/// One more line at the end.
proof fn lemma_joined_push(nodes: Seq<NodeView>, done: Seq<int>, j: int)
    ensures
        queries::joined_text(nodes, done.push(j)) == (if done.len() == 0 {
            queries::simple_text(nodes, j)
        } else {
            queries::joined_text(nodes, done) + seq!['\n'] + queries::simple_text(nodes, j)
        }),
{
    assert(done.push(j).drop_last() =~= done);
}

/// Whether two optional texts are the same.
fn same_opt_str(a: Option<&str>, b: Option<&str>) -> (r: bool)
    ensures
        r == (text::opt_str(a) == text::opt_str(b)),
{
    match (a, b) {
        (Some(x), Some(y)) => same_text(x, y),
        (None, None) => true,
        _ => false,
    }
}

impl E4XNodeReadOnly {
    /// Appends the simple content of this node.
    pub fn append_text(&self, out: &mut String)
        ensures
            final(out)@ == old(out)@ + queries::string_value(self@.nodes(), self@.index),
        decreases queries::depth_bound(self@.nodes(), self@.index),
    {
        let n = self.record();
        let ghost nodes = self@.nodes();
        let ghost i = self@.index as int;
        let ghost start = out@;
        match n.kind() {
            E4XNodeKindReadOnly::Comment => {
                assert(out@ =~= start + Seq::<char>::empty());
                return;
            },
            E4XNodeKindReadOnly::ProcessingInstruction => {
                assert(out@ =~= start + Seq::<char>::empty());
                return;
            },
            _ => {},
        }
        match self.value() {
            Some(t) => {
                out.push_str(t);
                return;
            },
            None => {},
        }
        if n.kind() != E4XNodeKindReadOnly::Element {
            assert(out@ =~= start + Seq::<char>::empty());
            return;
        }
        let mut c: u32 = n.first_child_idx();
        let ghost mut from = i + 1;
        proof {
            queries::lemma_kids_behind(nodes, i, false);
        }
        while c != NO_NODE
            invariant
                0 <= from,
                i < from,
                nodes == self@.nodes(),
                i == self@.index,
                0 <= i < nodes.len(),
                i < VIRTUAL_TEXT,
                c == doc::link(doc::first_kid(nodes, Some(i), false, from)),
                out@ + queries::kids_text(nodes, i, from) == start + queries::kids_text(
                    nodes,
                    i,
                    i + 1,
                ),
            decreases nodes.len() - from,
        {
            let cn = self.store().kid(c, Ghost(i), Ghost(false), Ghost(from));
            let ghost before = out@;
            proof {
                queries::lemma_kids_text_step(nodes, i, from);
            }
            if cn.kind() != E4XNodeKindReadOnly::Comment && cn.kind()
                != E4XNodeKindReadOnly::ProcessingInstruction {
                self.with_index(c).append_text(out);
            }
            proof {
                assert(out@ =~= before + queries::simple_text(nodes, c as int));
                assert(before + (queries::simple_text(nodes, c as int) + queries::kids_text(
                    nodes,
                    i,
                    c + 1,
                )) =~= out@ + queries::kids_text(nodes, i, c + 1));
                from = c + 1;
            }
            c = cn.next_sibling();
        }
        proof {
            doc::lemma_first_kid(nodes, Some(i), false, from);
            queries::lemma_kids_text_step(nodes, i, from);
            assert(out@ + Seq::<char>::empty() =~= out@);
        }
    }

    /// The simple content of this node.
    pub fn string_value(&self) -> (r: String)
        ensures
            r@ == queries::string_value(self@.nodes(), self@.index),
    {
        let mut s = String::new();
        self.append_text(&mut s);
        assert(Seq::<char>::empty() + queries::string_value(self@.nodes(), self@.index)
            =~= queries::string_value(self@.nodes(), self@.index));
        s
    }

    /// Appends the simple content of the attributes or child elements that match `want`,
    /// one line each, without building a list of them.
    fn append_matching(&self, attr: bool, want: &Multiname, out: &mut String)
        ensures
            final(out)@ == old(out)@ + queries::joined_text(
                self@.nodes(),
                if attr {
                    queries::matching_attrs(self@.nodes(), self@.index, want@)
                } else {
                    queries::matching_children(self@.nodes(), self@.index, want@)
                },
            ),
    {
        let n = self.record();
        let ghost nodes = self@.nodes();
        let ghost i = self@.index as int;
        let ghost start = out@;
        let ghost keep = if attr {
            |j: int| queries::name_matches(nodes[j], want@)
        } else {
            |j: int| nodes[j].kind is Element && queries::name_matches(nodes[j], want@)
        };
        let ghost mut from = node_walk::walk_start(nodes, self@.index);
        let ghost mut done = Seq::<int>::empty();
        let ghost all = if attr {
            queries::matching_attrs(nodes, self@.index, want@)
        } else {
            queries::matching_children(nodes, self@.index, want@)
        };
        let mut first: bool = true;
        let mut c: u32 = if attr {
            n.first_attr()
        } else {
            n.first_child_idx()
        };
        proof {
            assert(done + all =~= all);
            assert(start + Seq::<char>::empty() =~= start);
        }
        while c != NO_NODE
            invariant
                0 <= from,
                nodes == self@.nodes(),
                i == self@.index,
                keep == if attr {
                    |j: int| queries::name_matches(nodes[j], want@)
                } else {
                    |j: int| nodes[j].kind is Element && queries::name_matches(nodes[j], want@)
                },
                c == doc::link(doc::first_kid(nodes, Some(i), attr, from)),
                all == done + queries::pick(doc::kids(nodes, Some(i), attr, from), keep),
                first == (done.len() == 0),
                out@ == start + queries::joined_text(nodes, done),
            decreases nodes.len() - from,
        {
            let cn = self.store().kid(c, Ghost(i), Ghost(attr), Ghost(from));
            let child = self.with_index(c);
            proof {
                node_walk::lemma_step(done, c as int, doc::kids(nodes, Some(i), attr, c + 1), keep);
            }
            if (attr || cn.kind() == E4XNodeKindReadOnly::Element) && child.matches_name(want) {
                let ghost before = out@;
                if !first {
                    out.push('\n');
                }
                child.append_text(out);
                first = false;
                proof {
                    lemma_joined_push(nodes, done, c as int);
                    assert(out@ =~= start + queries::joined_text(nodes, done.push(c as int)));
                    done = done.push(c as int);
                }
            }
            proof {
                from = c + 1;
            }
            c = cn.next_sibling();
        }
        proof {
            doc::lemma_first_kid(nodes, Some(i), attr, from);
            doc::lemma_kids_step(nodes, Some(i), attr, from);
            assert(done + Seq::<int>::empty() =~= done);
        }
    }

    /// Appends the simple content of every child element that matches `want`, one line
    /// each.
    pub fn append_children_text(&self, want: &Multiname, out: &mut String)
        ensures
            final(out)@ == old(out)@ + queries::joined_text(
                self@.nodes(),
                queries::matching_children(self@.nodes(), self@.index, want@),
            ),
    {
        self.append_matching(false, want, out);
    }

    /// Appends the value of every attribute that matches `want`, one line each.
    pub fn append_attrs_text(&self, want: &Multiname, out: &mut String)
        ensures
            final(out)@ == old(out)@ + queries::joined_text(
                self@.nodes(),
                queries::matching_attrs(self@.nodes(), self@.index, want@),
            ),
    {
        self.append_matching(true, want, out);
    }

    /// Appends all descendants that match `want`, depth first; the attributes of
    /// descendants where `want` asks for attributes.
    pub fn descendants_matching(&self, want: &Multiname, out: &mut Vec<E4XNodeReadOnly>)
        ensures
            node::handles(final(out)@) == node::handles(old(out)@) + node::at_nodes(
                self@.store,
                queries::matching_descendants(self@.nodes(), self@.index, want@),
            ),
        decreases queries::depth_bound(self@.nodes(), self@.index),
    {
        let n = self.record();
        let ghost nodes = self@.nodes();
        let ghost i = self@.index as int;
        let ghost start = node::handles(out@);
        let ghost store = self@.store;
        if self.index() >= VIRTUAL_TEXT {
            assert(start + node::at_nodes(store, Seq::<int>::empty()) =~= start);
            return;
        }
        let mut c: u32 = n.first_child_idx();
        let ghost mut from = i + 1;
        let ghost mut done = Seq::<int>::empty();
        let ghost all = queries::descendants_from(nodes, i, i + 1, want@);
        proof {
            queries::lemma_kids_behind(nodes, i, false);
            assert(done + all =~= all);
            assert(start + node::at_nodes(store, done) =~= start);
        }
        while c != NO_NODE
            invariant
                i < from,
                nodes == self@.nodes(),
                store == self@.store,
                i == self@.index,
                0 <= i < nodes.len(),
                i < VIRTUAL_TEXT,
                c == doc::link(doc::first_kid(nodes, Some(i), false, from)),
                all == done + queries::descendants_from(nodes, i, from, want@),
                node::handles(out@) == start + node::at_nodes(store, done),
            decreases nodes.len() - from,
        {
            let cn = self.store().kid(c, Ghost(i), Ghost(false), Ghost(from));
            let child = self.with_index(c);
            proof {
                queries::lemma_descendants_step(nodes, i, from, want@);
            }
            if cn.kind() == E4XNodeKindReadOnly::Element {
                let ghost own = queries::own_matches(nodes, c as int, want@);
                let ghost deep = queries::descendants(nodes, c as int, want@);
                let ghost before = node::handles(out@);
                if want.attribute {
                    child.attributes_matching(want, out);
                } else if child.matches_name(want) {
                    let ghost list = out@;
                    out.push(self.with_index(c));
                    proof {
                        assert(node::handles(out@) =~= before + node::at_nodes(store, own));
                    }
                } else {
                    assert(before + node::at_nodes(store, own) =~= before);
                }
                child.descendants_matching(want, out);
                proof {
                    assert(node::handles(out@) =~= start + node::at_nodes(
                        store,
                        done + own + deep,
                    ));
                    assert(done + (own + deep + queries::descendants_from(nodes, i, c + 1, want@))
                        =~= (done + own + deep) + queries::descendants_from(
                        nodes,
                        i,
                        c + 1,
                        want@,
                    ));
                    done = done + own + deep;
                }
            }
            proof {
                from = c + 1;
            }
            c = cn.next_sibling();
        }
        proof {
            doc::lemma_first_kid(nodes, Some(i), false, from);
            queries::lemma_descendants_step(nodes, i, from, want@);
            assert(done + Seq::<int>::empty() =~= done);
        }
    }

    /// Whether two nodes that are no elements are equal.
    fn leaf_equals(&self, other: &E4XNodeReadOnly) -> (r: bool)
        requires
            !(self@.node().kind is Element) || !(other@.node().kind is Element),
        ensures
            r == queries::leaf_equal(self@.node(), other@.node()),
    {
        if !same_opt_str(self.local_name(), other.local_name()) {
            return false;
        }
        if !self.same_namespace(other) {
            return false;
        }
        let agree: bool = match self.kind() {
            E4XNodeKindReadOnly::Text => other.is_text(),
            E4XNodeKindReadOnly::Cdata => other.is_text(),
            E4XNodeKindReadOnly::Comment => other.is_comment(),
            E4XNodeKindReadOnly::ProcessingInstruction => other.is_processing_instruction(),
            E4XNodeKindReadOnly::Attribute => other.is_attribute(),
            E4XNodeKindReadOnly::Element => false,
        };
        agree && same_opt_str(self.value(), other.value())
    }

    fn same_namespace(&self, other: &E4XNodeReadOnly) -> (r: bool)
        ensures
            r == (self@.node().ns == other@.node().ns),
    {
        let a = self.record();
        let b = other.record();
        same_opt_str(
            self.text_at(a.ns(), Ghost(self@.node().ns)),
            other.text_at(b.ns(), Ghost(other@.node().ns)),
        )
    }

    /// Whether every attribute has an equal one on the other element, and there are as
    /// many.
    fn attrs_equal(&self, other: &E4XNodeReadOnly) -> (r: bool)
        requires
            self@.node().kind is Element,
            other@.node().kind is Element,
        ensures
            r == queries::attrs_equal(self@.nodes(), self@.index, other@.nodes(), other@.index),
    {
        let mut a: Vec<E4XNodeReadOnly> = Vec::new();
        self.all_attributes(&mut a);
        let mut b: Vec<E4XNodeReadOnly> = Vec::new();
        other.all_attributes(&mut b);
        let ghost x = doc::attr_indices(self@.nodes(), self@.index);
        let ghost y = doc::attr_indices(other@.nodes(), other@.index);
        proof {
            lemma_list(a@, self@.store, x);
            lemma_list(b@, other@.store, y);
        }
        let a_index: u32 = self.index();
        let b_index: u32 = other.index();
        proof {
            doc::lemma_kids_are(self@.nodes(), Some(a_index as int), true, 0);
            doc::lemma_kids_are(other@.nodes(), Some(b_index as int), true, 0);
        }
        if a.len() != b.len() {
            return false;
        }
        let mut k: usize = 0;
        while k < a.len()
            invariant
                k <= a@.len(),
                a@.len() == x.len(),
                b@.len() == y.len(),
                x == doc::attr_indices(self@.nodes(), self@.index),
                y == doc::attr_indices(other@.nodes(), other@.index),
                forall|m: int| 0 <= m < x.len() ==> (#[trigger] a@[m])@ == (Handle {
                    store: self@.store,
                    index: x[m],
                }),
                forall|m: int| 0 <= m < y.len() ==> (#[trigger] b@[m])@ == (Handle {
                    store: other@.store,
                    index: y[m],
                }),
                forall|m: int|
                    0 <= m < x.len() ==> doc::node_at(
                        self@.nodes(),
                        #[trigger] x[m],
                    ).kind is Attribute,
                forall|m: int|
                    0 <= m < k ==> queries::has_equal_attr(
                        self@.nodes(),
                        #[trigger] x[m],
                        other@.nodes(),
                        y,
                    ),
            decreases a@.len() - k,
        {
            let mut found: bool = false;
            let mut l: usize = 0;
            while l < b.len()
                invariant
                    k < a@.len(),
                    l <= b@.len(),
                    a@.len() == x.len(),
                    b@.len() == y.len(),
                    a@[k as int]@ == (Handle { store: self@.store, index: x[k as int] }),
                    doc::node_at(self@.nodes(), x[k as int]).kind is Attribute,
                    forall|m: int| 0 <= m < y.len() ==> (#[trigger] b@[m])@ == (Handle {
                        store: other@.store,
                        index: y[m],
                    }),
                    found == (exists|m: int|
                        0 <= m < l && queries::leaf_equal(
                            doc::node_at(self@.nodes(), x[k as int]),
                            doc::node_at(other@.nodes(), #[trigger] y[m]),
                        )),
                decreases b@.len() - l,
            {
                let hit: bool = a[k].leaf_equals(&b[l]);
                assert(b@[l as int]@.index == y[l as int]);
                if hit {
                    found = true;
                }
                l += 1;
            }
            if !found {
                assert(!queries::has_equal_attr(
                    self@.nodes(),
                    x[k as int],
                    other@.nodes(),
                    y,
                ));
                return false;
            }
            k += 1;
        }
        true
    }

    /// Deep structural equality: same name and namespace, equal attributes in any order,
    /// equal children in order.
    pub fn deep_equals(&self, other: &E4XNodeReadOnly) -> (r: bool)
        ensures
            r == queries::deep_equal(
                self@.nodes(),
                self@.index,
                other@.nodes(),
                other@.index,
            ),
        decreases queries::depth_bound(self@.nodes(), self@.index),
    {
        if !(self.is_element() && other.is_element()) {
            return self.leaf_equals(other);
        }
        if !same_opt_str(self.local_name(), other.local_name()) {
            return false;
        }
        if !self.same_namespace(other) {
            return false;
        }
        let mut a: Vec<E4XNodeReadOnly> = Vec::new();
        self.all_children(&mut a);
        let mut b: Vec<E4XNodeReadOnly> = Vec::new();
        other.all_children(&mut b);
        let ghost x = doc::child_indices(self@.nodes(), self@.index);
        let ghost y = doc::child_indices(other@.nodes(), other@.index);
        proof {
            lemma_list(a@, self@.store, x);
            lemma_list(b@, other@.store, y);
        }
        let _index: u32 = self.index();
        proof {
            queries::lemma_children_deeper(self@.nodes(), self@.index);
        }
        if a.len() != b.len() {
            return false;
        }
        if !self.attrs_equal(other) {
            return false;
        }
        let mut k: usize = 0;
        while k < a.len()
            invariant
                k <= a@.len(),
                a@.len() == x.len(),
                b@.len() == y.len(),
                x.len() == y.len(),
                self@.node().kind is Element,
                other@.node().kind is Element,
                x == doc::child_indices(self@.nodes(), self@.index),
                y == doc::child_indices(other@.nodes(), other@.index),
                forall|m: int| 0 <= m < x.len() ==> (#[trigger] a@[m])@ == (Handle {
                    store: self@.store,
                    index: x[m],
                }),
                forall|m: int| 0 <= m < y.len() ==> (#[trigger] b@[m])@ == (Handle {
                    store: other@.store,
                    index: y[m],
                }),
                forall|m: int|
                    0 <= m < x.len() ==> queries::depth_bound(self@.nodes(), #[trigger] x[m])
                        < queries::depth_bound(self@.nodes(), self@.index),
                forall|m: int|
                    0 <= m < k ==> queries::deep_equal(
                        self@.nodes(),
                        #[trigger] x[m],
                        other@.nodes(),
                        y[m],
                    ),
            decreases a@.len() - k,
        {
            assert(a@[k as int]@.index == x[k as int]);
            assert(b@[k as int]@.index == y[k as int]);
            if !a[k].deep_equals(&b[k]) {
                assert(!queries::deep_equal(
                    self@.nodes(),
                    x[k as int],
                    other@.nodes(),
                    y[k as int],
                ));
                return false;
            }
            k += 1;
        }
        true
    }
}

/// What a freshly filled list holds.
proof fn lemma_list(list: Seq<E4XNodeReadOnly>, store: E4XStoreReadOnly, at: Seq<u32>)
    requires
        node::handles(list) == node::handles(Seq::<E4XNodeReadOnly>::empty()) + node::at_indices(
            store,
            at,
        ),
    ensures
        list.len() == at.len(),
        forall|m: int|
            0 <= m < at.len() ==> (#[trigger] list[m])@ == (Handle { store, index: at[m] }),
{
    let h = node::handles(list);
    assert(h.len() == list.len());
    assert(node::at_indices(store, at).len() == at.len());
    assert forall|m: int| 0 <= m < at.len() implies (#[trigger] list[m])@ == (Handle {
        store,
        index: at[m],
    }) by {
        assert(h[m] == list[m]@);
        assert(h[m] == node::at_indices(store, at)[m]);
    }
}

} // verus!
