//! Queries that walk the children, attributes and descendants of a node.

use crate::doc;
use crate::doc::NodeView;
use crate::multiname::Multiname;
use crate::node;
use crate::node::E4XNodeReadOnly;
use crate::node::Handle;
use crate::node_data::E4XNodeKindReadOnly;
use crate::node_data::NO_NODE;
use crate::node_data::VIRTUAL_TEXT;
use crate::queries;
use crate::store::E4XStoreReadOnly;
use crate::text;
use crate::text::same_text;
use vstd::prelude::*;

verus! {

/// Where the walk over the stored kids of the node at an index begins: such a text
/// child as a collapsed element stands for has none.
pub open spec fn walk_start(nodes: Seq<NodeView>, idx: u32) -> int {
    if idx >= VIRTUAL_TEXT {
        nodes.len() as int
    } else {
        0
    }
}

/// A walk step that may keep its node.
pub proof fn lemma_step(done: Seq<int>, j: int, rest: Seq<int>, keep: spec_fn(int) -> bool)
    ensures
        done + queries::pick(seq![j] + rest, keep) == (if keep(j) {
            done.push(j)
        } else {
            done
        }) + queries::pick(rest, keep),
{
    queries::lemma_pick_step(j, rest, keep);
    assert(done + (seq![j] + queries::pick(rest, keep)) =~= done.push(j) + queries::pick(
        rest,
        keep,
    ));
}

/// Adding a node to a list of handles.
proof fn lemma_push(
    start: Seq<Handle>,
    list: Seq<E4XNodeReadOnly>,
    more: Seq<E4XNodeReadOnly>,
    store: E4XStoreReadOnly,
    done: Seq<int>,
    j: int,
)
    requires
        node::handles(list) == start + node::at_nodes(store, done),
        more.len() == list.len() + 1,
        more.drop_last() == list,
        more.last()@ == (Handle { store, index: j as u32 }),
    ensures
        node::handles(more) == start + node::at_nodes(store, done.push(j)),
{
    let target = start + node::at_nodes(store, done.push(j));
    assert(node::handles(list).len() == list.len());
    assert forall|k: int| 0 <= k < more.len() implies #[trigger] node::handles(more)[k]
        == target[k] by {
        if k < list.len() {
            assert(more[k] == more.drop_last()[k]);
            assert(node::handles(list)[k] == node::handles(more)[k]);
        }
    }
    assert(node::handles(more) =~= target);
}

/// Which nodes a walk keeps.
pub enum Select<'a> {
    /// All of them.
    Any,
    /// Elements of a name.
    Elements(&'a Multiname),
    /// Nodes of a name.
    Named(&'a Multiname),
    /// Texts and CDATA sections.
    Texts,
    Comments,
    /// Processing instructions, of a target where one is given.
    Instructions(Option<&'a str>),
}

impl<'a> Select<'a> {
    /// Whether a node is kept.
    pub open spec fn takes(self, v: NodeView) -> bool {
        match self {
            Select::Any => true,
            Select::Elements(want) => v.kind is Element && queries::name_matches(v, want@),
            Select::Named(want) => queries::name_matches(v, want@),
            Select::Texts => v.kind is Text || v.kind is Cdata,
            Select::Comments => v.kind is Comment,
            Select::Instructions(want) => v.kind is ProcessingInstruction
                && queries::target_matches(v, text::opt_str(want)),
        }
    }

    fn keeps(&self, child: &E4XNodeReadOnly) -> (r: bool)
        ensures
            r == self.takes(child@.node()),
    {
        match self {
            Select::Any => true,
            Select::Elements(want) => child.is_element() && child.matches_name(want),
            Select::Named(want) => child.matches_name(want),
            Select::Texts => child.is_text(),
            Select::Comments => child.is_comment(),
            Select::Instructions(want) => {
                if !child.is_processing_instruction() {
                    return false;
                }
                match want {
                    None => true,
                    Some(w) => {
                        if same_text(w, "*") {
                            return true;
                        }
                        match child.local_name() {
                            Some(name) => same_text(name, w),
                            None => false,
                        }
                    },
                }
            },
        }
    }
}

/// Two ways to say what is kept that agree keep the same.
proof fn lemma_pick_same(s: Seq<int>, a: spec_fn(int) -> bool, b: spec_fn(int) -> bool)
    requires
        forall|j: int| #[trigger] a(j) == b(j),
    ensures
        queries::pick(s, a) == queries::pick(s, b),
    decreases s.len(),
{
    if s.len() > 0 {
        lemma_pick_same(s.drop_first(), a, b);
        assert(a(s[0]) == b(s[0]));
    }
}

/// Keeping everything gives everything.
proof fn lemma_pick_all(s: Seq<int>, a: spec_fn(int) -> bool)
    requires
        forall|j: int| #[trigger] a(j),
    ensures
        queries::pick(s, a) == s,
    decreases s.len(),
{
    if s.len() > 0 {
        lemma_pick_all(s.drop_first(), a);
        assert(a(s[0]));
        assert(seq![s[0]] + s.drop_first() =~= s);
    }
}

/// The attributes or stored children of the node at an index.
pub open spec fn stored_kids(nodes: Seq<NodeView>, idx: u32, attr: bool) -> Seq<int> {
    if attr {
        queries::stored_attrs(nodes, idx)
    } else {
        queries::stored_children(nodes, idx)
    }
}

/// The kids that a walk keeps.
pub open spec fn selected(nodes: Seq<NodeView>, idx: u32, attr: bool, sel: Select) -> Seq<int> {
    queries::pick(stored_kids(nodes, idx, attr), |j: int| sel.takes(nodes[j]))
}

impl E4XNodeReadOnly {
    /// Appends the attributes or stored children that `sel` keeps.
    fn walk(&self, attr: bool, sel: &Select, out: &mut Vec<E4XNodeReadOnly>)
        ensures
            node::handles(final(out)@) == node::handles(old(out)@) + node::at_nodes(
                self@.store,
                selected(self@.nodes(), self@.index, attr, *sel),
            ),
    {
        let n = self.record();
        let ghost nodes = self@.nodes();
        let ghost i = self@.index as int;
        let ghost start = node::handles(out@);
        let ghost keep = |j: int| sel.takes(nodes[j]);
        let ghost mut from = walk_start(nodes, self@.index);
        let ghost mut done = Seq::<int>::empty();
        let ghost all = selected(nodes, self@.index, attr, *sel);
        let mut c: u32 = if attr {
            n.first_attr()
        } else {
            n.first_child_idx()
        };
        proof {
            assert(done + all =~= all);
            assert(start + node::at_nodes(self@.store, done) =~= start);
        }
        while c != NO_NODE
            invariant
                0 <= from,
                nodes == self@.nodes(),
                i == self@.index,
                keep == (|j: int| sel.takes(nodes[j])),
                c == doc::link(doc::first_kid(nodes, Some(i), attr, from)),
                all == done + queries::pick(doc::kids(nodes, Some(i), attr, from), keep),
                node::handles(out@) == start + node::at_nodes(self@.store, done),
            decreases nodes.len() - from,
        {
            let cn = self.store().kid(c, Ghost(i), Ghost(attr), Ghost(from));
            let child = self.with_index(c);
            let ghost before = out@;
            let ghost earlier = done;
            proof {
                lemma_step(done, c as int, doc::kids(nodes, Some(i), attr, c + 1), keep);
            }
            if sel.keeps(&child) {
                out.push(child);
                proof {
                    done = done.push(c as int);
                    assert(out@.drop_last() =~= before);
                    lemma_push(start, before, out@, self@.store, earlier, c as int);
                }
            }
            proof {
                from = c + 1;
            }
            c = cn.next_sibling();
        }
        proof {
            doc::lemma_first_kid(nodes, Some(i), attr, from);
            doc::lemma_kids_step(nodes, Some(i), attr, from);
            assert(done + Seq::<int>::empty() =~= done);
        }
    }

    /// Appends the child elements that match `want`, in document order.
    pub fn children_matching(&self, want: &Multiname, out: &mut Vec<E4XNodeReadOnly>)
        ensures
            node::handles(final(out)@) == node::handles(old(out)@) + node::at_nodes(
                self@.store,
                queries::matching_children(self@.nodes(), self@.index, want@),
            ),
    {
        proof {
            let nodes = self@.nodes();
            lemma_pick_same(
                queries::stored_children(nodes, self@.index),
                |j: int| Select::Elements(want).takes(nodes[j]),
                |j: int| nodes[j].kind is Element && queries::name_matches(nodes[j], want@),
            );
        }
        self.walk(false, &Select::Elements(want), out);
    }

    /// Appends the attributes that match `want`.
    pub fn attributes_matching(&self, want: &Multiname, out: &mut Vec<E4XNodeReadOnly>)
        ensures
            node::handles(final(out)@) == node::handles(old(out)@) + node::at_nodes(
                self@.store,
                queries::matching_attrs(self@.nodes(), self@.index, want@),
            ),
    {
        proof {
            let nodes = self@.nodes();
            lemma_pick_same(
                queries::stored_attrs(nodes, self@.index),
                |j: int| Select::Named(want).takes(nodes[j]),
                |j: int| queries::name_matches(nodes[j], want@),
            );
        }
        self.walk(true, &Select::Named(want), out);
    }

    /// Appends all attributes.
    pub fn all_attributes(&self, out: &mut Vec<E4XNodeReadOnly>)
        ensures
            node::handles(final(out)@) == node::handles(old(out)@) + node::at_indices(
                self@.store,
                doc::attr_indices(self@.nodes(), self@.index),
            ),
    {
        proof {
            let nodes = self@.nodes();
            lemma_pick_all(
                queries::stored_attrs(nodes, self@.index),
                |j: int| Select::Any.takes(nodes[j]),
            );
            assert(doc::as_links(Seq::<int>::empty()) =~= Seq::<u32>::empty());
        }
        self.walk(true, &Select::Any, out);
    }

    /// Appends all children of any kind, in document order.
    pub fn all_children(&self, out: &mut Vec<E4XNodeReadOnly>)
        ensures
            node::handles(final(out)@) == node::handles(old(out)@) + node::at_indices(
                self@.store,
                doc::child_indices(self@.nodes(), self@.index),
            ),
    {
        let first: u32 = self.store().first_child(self.index());
        let ghost nodes = self@.nodes();
        if first != NO_NODE && first >= VIRTUAL_TEXT {
            let ghost before = out@;
            proof {
                if !doc::collapsed(nodes[self@.index as int]) {
                    doc::lemma_first_kid(nodes, Some(self@.index as int), false, 0);
                }
            }
            out.push(self.with_index(first));
            proof {
                assert(node::handles(out@) =~= node::handles(before) + node::at_indices(
                    self@.store,
                    doc::child_indices(nodes, self@.index),
                ));
            }
            return;
        }
        proof {
            lemma_pick_all(
                queries::stored_children(nodes, self@.index),
                |j: int| Select::Any.takes(nodes[j]),
            );
            assert(doc::as_links(Seq::<int>::empty()) =~= Seq::<u32>::empty());
        }
        self.walk(false, &Select::Any, out);
    }

    /// Appends the text and CDATA children.
    pub fn text_children(&self, out: &mut Vec<E4XNodeReadOnly>)
        ensures
            node::handles(final(out)@) == node::handles(old(out)@) + node::at_indices(
                self@.store,
                queries::text_indices(self@.nodes(), self@.index),
            ),
    {
        let first: u32 = self.store().first_child(self.index());
        let ghost nodes = self@.nodes();
        if first != NO_NODE && first >= VIRTUAL_TEXT {
            let ghost before = out@;
            proof {
                if !doc::collapsed(nodes[self@.index as int]) {
                    doc::lemma_first_kid(nodes, Some(self@.index as int), false, 0);
                }
            }
            out.push(self.with_index(first));
            proof {
                assert(node::handles(out@) =~= node::handles(before) + node::at_indices(
                    self@.store,
                    queries::text_indices(nodes, self@.index),
                ));
            }
            return;
        }
        proof {
            lemma_pick_same(
                queries::stored_children(nodes, self@.index),
                |j: int| Select::Texts.takes(nodes[j]),
                |j: int| nodes[j].kind is Text || nodes[j].kind is Cdata,
            );
        }
        self.walk(false, &Select::Texts, out);
    }

    /// Appends the comment children.
    pub fn comment_children(&self, out: &mut Vec<E4XNodeReadOnly>)
        ensures
            node::handles(final(out)@) == node::handles(old(out)@) + node::at_nodes(
                self@.store,
                queries::comment_children(self@.nodes(), self@.index),
            ),
    {
        proof {
            let nodes = self@.nodes();
            lemma_pick_same(
                queries::stored_children(nodes, self@.index),
                |j: int| Select::Comments.takes(nodes[j]),
                |j: int| nodes[j].kind is Comment,
            );
        }
        self.walk(false, &Select::Comments, out);
    }

    /// Appends the processing-instruction children, of one target where `want` names one.
    pub fn pi_children(&self, want: Option<&str>, out: &mut Vec<E4XNodeReadOnly>)
        ensures
            node::handles(final(out)@) == node::handles(old(out)@) + node::at_nodes(
                self@.store,
                queries::pi_children(self@.nodes(), self@.index, text::opt_str(want)),
            ),
    {
        proof {
            let nodes = self@.nodes();
            lemma_pick_same(
                queries::stored_children(nodes, self@.index),
                |j: int| Select::Instructions(want).takes(nodes[j]),
                |j: int|
                    nodes[j].kind is ProcessingInstruction && queries::target_matches(
                        nodes[j],
                        text::opt_str(want),
                    ),
            );
        }
        self.walk(false, &Select::Instructions(want), out);
    }

    /// The child element at position `idx` among the child elements.
    pub fn child_element_at(&self, idx: usize) -> (r: Option<E4XNodeReadOnly>)
        ensures
            ({
                let all = queries::element_children(self@.nodes(), self@.index);
                if idx < all.len() {
                    r is Some && r->0@ == (Handle { index: all[idx as int] as u32, ..self@ })
                } else {
                    r is None
                }
            }),
    {
        let n = self.record();
        let ghost nodes = self@.nodes();
        let ghost i = self@.index as int;
        let ghost keep = |j: int| nodes[j].kind is Element;
        let ghost mut from = walk_start(nodes, self@.index);
        let ghost mut done = Seq::<int>::empty();
        let ghost all = queries::element_children(nodes, self@.index);
        let mut at: usize = 0;
        let mut c: u32 = n.first_child_idx();
        assert(done + all =~= all);
        while c != NO_NODE
            invariant
                0 <= from,
                nodes == self@.nodes(),
                i == self@.index,
                keep == (|j: int| nodes[j].kind is Element),
                c == doc::link(doc::first_kid(nodes, Some(i), false, from)),
                all == queries::element_children(nodes, self@.index),
                all == done + queries::pick(doc::kids(nodes, Some(i), false, from), keep),
                done.len() == at,
                at <= idx,
            decreases nodes.len() - from,
        {
            let cn = self.store().kid(c, Ghost(i), Ghost(false), Ghost(from));
            proof {
                lemma_step(done, c as int, doc::kids(nodes, Some(i), false, c + 1), keep);
            }
            if cn.kind() == E4XNodeKindReadOnly::Element {
                if at == idx {
                    assert(all[idx as int] == c);
                    return Some(self.with_index(c));
                }
                at += 1;
                proof {
                    done = done.push(c as int);
                }
            }
            proof {
                from = c + 1;
            }
            c = cn.next_sibling();
        }
        proof {
            doc::lemma_first_kid(nodes, Some(i), false, from);
            doc::lemma_kids_step(nodes, Some(i), false, from);
            assert(done + Seq::<int>::empty() =~= done);
        }
        None
    }

    /// Whether an element has an element among its children.
    fn element_inside(&self) -> (r: bool)
        ensures
            r == queries::has_element_child(self@.nodes(), self@.index),
    {
        let n = self.record();
        let ghost nodes = self@.nodes();
        let ghost i = self@.index as int;
        let ghost mut from = walk_start(nodes, self@.index);
        let ghost mut done = Seq::<int>::empty();
        let ghost all = queries::stored_children(nodes, self@.index);
        let mut c: u32 = n.first_child_idx();
        assert(done + all =~= all);
        while c != NO_NODE
            invariant
                0 <= from,
                nodes == self@.nodes(),
                i == self@.index,
                c == doc::link(doc::first_kid(nodes, Some(i), false, from)),
                all == queries::stored_children(nodes, self@.index),
                all == done + doc::kids(nodes, Some(i), false, from),
                forall|k: int| 0 <= k < done.len() ==> !(nodes[#[trigger] done[k]].kind is Element),
            decreases nodes.len() - from,
        {
            let cn = self.store().kid(c, Ghost(i), Ghost(false), Ghost(from));
            assert(all =~= done.push(c as int) + doc::kids(nodes, Some(i), false, c + 1));
            if cn.kind() == E4XNodeKindReadOnly::Element {
                assert(all[done.len() as int] == c);
                return true;
            }
            proof {
                done = done.push(c as int);
                from = c + 1;
            }
            c = cn.next_sibling();
        }
        proof {
            doc::lemma_first_kid(nodes, Some(i), false, from);
            doc::lemma_kids_step(nodes, Some(i), false, from);
            assert(all =~= done);
        }
        false
    }

    /// Whether the node has simple content.
    pub fn has_simple_content(&self) -> (r: bool)
        ensures
            r == queries::simple_content(self@.nodes(), self@.index),
    {
        match self.kind() {
            E4XNodeKindReadOnly::Text => true,
            E4XNodeKindReadOnly::Cdata => true,
            E4XNodeKindReadOnly::Attribute => true,
            E4XNodeKindReadOnly::Comment => false,
            E4XNodeKindReadOnly::ProcessingInstruction => false,
            E4XNodeKindReadOnly::Element => !self.element_inside(),
        }
    }

    /// Whether the node has complex content.
    pub fn has_complex_content(&self) -> (r: bool)
        ensures
            r == queries::complex_content(self@.nodes(), self@.index),
    {
        self.is_element() && self.element_inside()
    }

    /// The position of this node among its parent's children, `None` for a root or an
    /// attribute.
    pub fn child_index(&self) -> (r: Option<usize>)
        ensures
            match queries::child_position(self@.nodes(), self@.index) {
                Some(k) => r == Some(k as usize) && 0 <= k <= usize::MAX,
                None => r is None,
            },
    {
        let parent = match self.parent() {
            Some(p) => p,
            None => {
                return None;
            },
        };
        if self.is_attribute() {
            return None;
        }
        let index: u32 = self.index();
        let ghost nodes = self@.nodes();
        let ghost i = parent@.index as int;
        let first: u32 = parent.store().first_child(parent.index());
        let ghost all = doc::child_indices(nodes, parent@.index);
        proof {
            queries::lemma_position(nodes, index);
        }
        if first == index {
            proof {
                doc::lemma_kids_step(nodes, Some(i), false, 0);
                assert(all[0] == index);
            }
            return Some(0);
        }
        let mut at: usize = 0;
        let mut c: u32 = first;
        let ghost mut from: int = 0;
        proof {
            assert(!doc::collapsed(nodes[i]));
        }
        while c != NO_NODE
            invariant
                0 <= from,
                nodes == parent@.nodes(),
                nodes.len() <= 0x1fff_ffff,
                nodes == self@.nodes(),
                index == self@.index,
                i == parent@.index,
                all == doc::as_links(doc::kids(nodes, Some(i), false, 0)),
                c == doc::link(doc::first_kid(nodes, Some(i), false, from)),
                at <= from <= nodes.len(),
                at <= all.len(),
                doc::kids(nodes, Some(i), false, from) == doc::kids(
                    nodes,
                    Some(i),
                    false,
                    0,
                ).skip(at as int),
                forall|k: int| 0 <= k < at ==> #[trigger] all[k] != index,
                queries::child_position(nodes, index) is Some,
                all.contains(index),
                forall|k: int|
                    0 <= k < all.len() && #[trigger] all[k] == index ==> queries::child_position(
                        nodes,
                        index,
                    ) == Some(k),
            decreases nodes.len() - from,
        {
            let ghost rest = doc::kids(nodes, Some(i), false, from);
            let cn = parent.store().kid(c, Ghost(i), Ghost(false), Ghost(from));
            proof {
                assert(rest[0] == c);
                assert(rest.drop_first() =~= doc::kids(nodes, Some(i), false, c + 1));
                assert(all[at as int] == c);
            }
            if c == index {
                return Some(at);
            }
            at += 1;
            proof {
                from = c + 1;
                assert(doc::kids(nodes, Some(i), false, 0).skip(at as int) =~= rest.drop_first());
            }
            c = cn.next_sibling();
        }
        proof {
            doc::lemma_first_kid(nodes, Some(i), false, from);
            doc::lemma_kids_step(nodes, Some(i), false, from);
            assert(doc::kids(nodes, Some(i), false, 0).len() == at);
            let k = choose|k: int| 0 <= k < all.len() && all[k] == index;
            assert(all[k] == index);
        }
        None
    }
}

} // verus!
