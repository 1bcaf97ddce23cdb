//! A written document read again: the events that a node is written as, and that parsing
//! them gives an equal tree.

use crate::builder::Draft;
use crate::doc;
use crate::doc::DeclView;
use crate::doc::Doc;
use crate::doc::NodeView;
use crate::event_steps;
use crate::events::AttrView;
use crate::events::ElementView;
use crate::events::EventView;
use crate::node_data::E4XNodeKindReadOnly;
use crate::node_data::PARENT_MASK;
use crate::queries;
use crate::text;
use crate::tree;
use crate::tree::ParseState;
use crate::tree_view;
use crate::tree_view::TreeView;
use vstd::prelude::*;

verus! {

/// The declarations of element `at` among the first `n`.
pub open spec fn decl_items(decls: Seq<DeclView>, at: int, n: int) -> Seq<AttrView>
    decreases n,
{
    if n <= 0 {
        Seq::empty()
    } else if decls[n - 1].node == at {
        decl_items(decls, at, n - 1).push(
            AttrView::Decl { declared: decls[n - 1].prefix, uri: decls[n - 1].uri },
        )
    } else {
        decl_items(decls, at, n - 1)
    }
}

/// An attribute among the attributes of a start tag.
pub open spec fn attr_item(v: NodeView) -> AttrView {
    AttrView::Attr { local: v.name->0, ns: v.ns, prefix: v.prefix, value: v.value->0 }
}

/// The attributes of `p` from position `from` on.
pub open spec fn attr_items(nodes: Seq<NodeView>, p: int, from: int) -> Seq<AttrView>
    decreases nodes.len() - from,
{
    if from < 0 || from >= nodes.len() {
        Seq::empty()
    } else if doc::is_kid(nodes[from], Some(p), true) {
        seq![attr_item(nodes[from])] + attr_items(nodes, p, from + 1)
    } else {
        attr_items(nodes, p, from + 1)
    }
}

/// The start tag of an element: its name, its declarations and its attributes.
pub open spec fn element_of(d: Doc, i: int) -> ElementView {
    let v = d.nodes[i];
    ElementView {
        local: v.name->0,
        ns: v.ns,
        prefix: v.prefix,
        attrs: decl_items(d.decls, i, d.decls.len() as int) + attr_items(d.nodes, i, i + 1),
    }
}

/// What stands in a processing instruction; an empty value is left out.
pub open spec fn pi_words(v: NodeView) -> Seq<char> {
    v.name->0 + (if v.value->0.len() > 0 {
        " "@ + v.value->0
    } else {
        Seq::empty()
    })
}

/// The events that a stored node is written as.
pub open spec fn tree_events(d: Doc, i: int) -> Seq<EventView>
    decreases d.nodes.len() - i, 1int,
{
    if i < 0 || i >= d.nodes.len() {
        Seq::empty()
    } else {
        let v = d.nodes[i];
        match v.kind {
            E4XNodeKindReadOnly::Text => seq![EventView::Text(v.value->0)],
            E4XNodeKindReadOnly::Cdata => seq![EventView::Cdata(v.value->0)],
            E4XNodeKindReadOnly::Comment => seq![EventView::Comment(v.value->0)],
            E4XNodeKindReadOnly::ProcessingInstruction => seq![EventView::Pi(pi_words(v))],
            E4XNodeKindReadOnly::Attribute => Seq::empty(),
            E4XNodeKindReadOnly::Element => match v.value {
                Some(t) => seq![EventView::Start(element_of(d, i))] + seq![EventView::Text(t)]
                    + seq![EventView::End],
                None => if doc::first_kid(d.nodes, Some(i), false, 0) is None {
                    seq![EventView::Empty(element_of(d, i))]
                } else {
                    seq![EventView::Start(element_of(d, i))] + kid_events(d, i, i + 1) + seq![
                        EventView::End,
                    ]
                },
            },
        }
    }
}

/// The events of the children of `p` from position `from` on.
pub open spec fn kid_events(d: Doc, p: int, from: int) -> Seq<EventView>
    decreases d.nodes.len() - from, 2int,
{
    if from < 0 || from >= d.nodes.len() {
        Seq::empty()
    } else if doc::is_kid(d.nodes[from], Some(p), false) {
        tree_events(d, from) + kid_events(d, p, from + 1)
    } else {
        kid_events(d, p, from + 1)
    }
}

proof fn lemma_going_on(d: Doc, i: int)
    ensures
        event_steps::going_on(tree_events(d, i)),
    decreases d.nodes.len() - i, 1int,
{
    if 0 <= i < d.nodes.len() {
        lemma_kids_going_on(d, i, i + 1);
    }
}

proof fn lemma_kids_going_on(d: Doc, p: int, from: int)
    ensures
        event_steps::going_on(kid_events(d, p, from)),
    decreases d.nodes.len() - from, 2int,
{
    if 0 <= from < d.nodes.len() {
        lemma_going_on(d, from);
        lemma_kids_going_on(d, p, from + 1);
    }
}

/// The nodes that the items among an element's attributes add.
spec fn attr_nodes(items: Seq<AttrView>, id: int) -> Seq<NodeView>
    decreases items.len(),
{
    if items.len() == 0 {
        Seq::empty()
    } else {
        let front = attr_nodes(items.drop_last(), id);
        match items.last() {
            AttrView::Decl { declared, uri } => front,
            AttrView::Attr { local, ns, prefix, value } => front.push(
                tree::named_node(
                    E4XNodeKindReadOnly::Attribute,
                    Some(id),
                    local,
                    ns,
                    prefix,
                    Some(value),
                ),
            ),
        }
    }
}

proof fn lemma_attr_nodes(dr: Draft, id: int, items: Seq<AttrView>)
    ensures
        tree::draft_attrs(dr, id, items).nodes == dr.nodes + attr_nodes(items, id),
    decreases items.len(),
{
    if items.len() == 0 {
        assert(dr.nodes + Seq::<NodeView>::empty() =~= dr.nodes);
    } else {
        lemma_attr_nodes(dr, id, items.drop_last());
        assert(tree::draft_attrs(dr, id, items).nodes =~= dr.nodes + attr_nodes(items, id));
    }
}

proof fn lemma_attr_nodes_concat(a: Seq<AttrView>, b: Seq<AttrView>, id: int)
    ensures
        attr_nodes(a + b, id) == attr_nodes(a, id) + attr_nodes(b, id),
    decreases b.len(),
{
    if b.len() == 0 {
        assert(a + b =~= a);
        assert(attr_nodes(a, id) + Seq::<NodeView>::empty() =~= attr_nodes(a, id));
    } else {
        assert((a + b).drop_last() =~= a + b.drop_last());
        lemma_attr_nodes_concat(a, b.drop_last(), id);
        assert(attr_nodes(a + b, id) =~= attr_nodes(a, id) + attr_nodes(b, id));
    }
}

proof fn lemma_decl_nodes(decls: Seq<DeclView>, at: int, n: int, id: int)
    ensures
        attr_nodes(decl_items(decls, at, n), id) == Seq::<NodeView>::empty(),
    decreases n,
{
    if n > 0 {
        lemma_decl_nodes(decls, at, n - 1, id);
        if decls[n - 1].node == at {
            let items = decl_items(decls, at, n);
            assert(items.drop_last() =~= decl_items(decls, at, n - 1));
        }
    }
}

/// `made` are attributes of `id`, and by themselves they are `heads`.
spec fn made_of(made: Seq<NodeView>, id: int, heads: Seq<NodeView>) -> bool {
    &&& made.len() == heads.len()
    &&& forall|k: int|
        0 <= k < made.len() ==> (#[trigger] made[k]).kind is Attribute && made[k].parent == Some(id)
            && tree_view::bare(made[k]) == heads[k]
}

proof fn lemma_attrs_made(nodes: Seq<NodeView>, p: int, from: int, id: int)
    requires
        doc::nodes_ok(nodes),
        0 <= from,
    ensures
        made_of(
            attr_nodes(attr_items(nodes, p, from), id),
            id,
            tree_view::attr_heads(nodes, p, from),
        ),
    decreases nodes.len() - from,
{
    if from < nodes.len() {
        lemma_attrs_made(nodes, p, from + 1, id);
        if doc::is_kid(nodes[from], Some(p), true) {
            assert(doc::node_ok(nodes, from));
            let one = seq![attr_item(nodes[from])];
            let rest = attr_items(nodes, p, from + 1);
            lemma_attr_nodes_concat(one, rest, id);
            assert(one.drop_last() =~= Seq::<AttrView>::empty());
            assert(attr_nodes(one.drop_last(), id) =~= Seq::<NodeView>::empty());
            let made = attr_nodes(one + rest, id);
            let heads = tree_view::attr_heads(nodes, p, from);
            let more = attr_nodes(rest, id);
            let more_heads = tree_view::attr_heads(nodes, p, from + 1);
            assert forall|k: int| 0 <= k < made.len() implies (#[trigger] made[k]).kind is Attribute
                && made[k].parent == Some(id) && tree_view::bare(made[k]) == heads[k] by {
                if k > 0 {
                    assert(made[k] == more[k - 1]);
                    assert(heads[k] == more_heads[k - 1]);
                }
            }
        }
    }
}

/// Parents stand before their children, and the open elements among the nodes.
spec fn sound(st: ParseState) -> bool {
    &&& tree_view::parents_before(st.draft.nodes)
    &&& forall|k: int| 0 <= k < st.open.len() ==> 0 <= #[trigger] st.open[k] < st.draft.nodes.len()
}

/// The nodes, with text that is held back among them.
spec fn out(st: ParseState) -> Seq<NodeView> {
    tree::flushed(st).draft.nodes
}

proof fn lemma_flushed(st: ParseState)
    requires
        sound(st),
    ensures
        sound(tree::flushed(st)),
        tree::flushed(st).open == st.open,
        tree::flushed(st).pending is None,
{
    if st.open.len() > 0 {
        assert(st.open.last() == st.open[st.open.len() - 1]);
    }
    let f = tree::flushed(st);
    assert forall|k: int| 0 <= k < f.draft.nodes.len() implies ((
    #[trigger] f.draft.nodes[k]).parent matches Some(q) ==> 0 <= q < k) by {
        if k < st.draft.nodes.len() {
            assert(f.draft.nodes[k] == st.draft.nodes[k]);
        }
    }
}

/// `now` is `then` with one subtree behind it, whose root has parent `p` and tree `t`.
spec fn one_more(then: Seq<NodeView>, now: Seq<NodeView>, p: Option<int>, t: TreeView) -> bool {
    let at = then.len() as int;
    &&& at < now.len()
    &&& forall|k: int| 0 <= k < at ==> #[trigger] now[k] == then[k]
    &&& now[at].parent == p
    &&& !(now[at].kind is Attribute)
    &&& forall|k: int|
        at < k < now.len() ==> ((#[trigger] now[k]).parent matches Some(q) && q >= at)
    &&& tree_view::tree_at(now, at) == t
}

/// `now` is `then` with more children of `e` behind it, whose trees are `ts`.
spec fn some_more(then: Seq<NodeView>, now: Seq<NodeView>, e: int, ts: Seq<TreeView>) -> bool {
    let at = then.len() as int;
    &&& at <= now.len()
    &&& forall|k: int| 0 <= k < at ==> #[trigger] now[k] == then[k]
    &&& forall|k: int|
        at <= k < now.len() ==> {
            let v = #[trigger] now[k];
            &&& v.parent matches Some(q) && (q == e || q >= at)
            &&& v.parent == Some(e) ==> !(v.kind is Attribute)
        }
    &&& tree_view::kid_trees(now, e, at) == ts
}

/// The start tag of element `i`: the element, and its attributes behind it.
proof fn lemma_tag(d: Doc, i: int, f: ParseState)
    requires
        doc::nodes_ok(d.nodes),
        0 <= i < d.nodes.len(),
        d.nodes[i].kind is Element,
        sound(f),
        f.pending is None,
    ensures
        ({
            let s = tree::with_element(f, element_of(d, i));
            let at = f.draft.nodes.len() as int;
            let heads = tree_view::attr_heads(d.nodes, i, i + 1);
            let now = s.draft.nodes;
            &&& s.open == f.open
            &&& s.pending is None
            &&& sound(s)
            &&& now.len() == at + 1 + heads.len()
            &&& forall|k: int| 0 <= k < at ==> #[trigger] now[k] == f.draft.nodes[k]
            &&& now[at].kind is Element
            &&& now[at].parent == tree::parent_of(f.open)
            &&& now[at].value is None
            &&& tree_view::bare(now[at]) == tree_view::bare(d.nodes[i])
            &&& forall|k: int|
                0 <= k < heads.len() ==> now[at + 1 + k].kind is Attribute && now[at + 1 + k].parent
                    == Some(at) && tree_view::bare(now[at + 1 + k]) == #[trigger] heads[k]
        }),
{
    let e = element_of(d, i);
    let at = f.draft.nodes.len() as int;
    let s = tree::with_element(f, e);
    let head = tree::draft_head(f.draft, tree::parent_of(f.open), e);
    let heads = tree_view::attr_heads(d.nodes, i, i + 1);
    let items = attr_items(d.nodes, i, i + 1);
    let decls = decl_items(d.decls, i, d.decls.len() as int);
    assert(doc::node_ok(d.nodes, i));
    lemma_attr_nodes(head, at, e.attrs);
    lemma_attr_nodes_concat(decls, items, at);
    lemma_decl_nodes(d.decls, i, d.decls.len() as int, at);
    lemma_attrs_made(d.nodes, i, i + 1, at);
    let made = attr_nodes(items, at);
    assert(attr_nodes(e.attrs, at) =~= made);
    let now = s.draft.nodes;
    assert(now =~= f.draft.nodes.push(head.nodes[at]) + made);
    if f.open.len() > 0 {
        assert(f.open.last() == f.open[f.open.len() - 1]);
    }
    assert forall|k: int| 0 <= k < heads.len() implies now[at + 1 + k].kind is Attribute && now[at
        + 1 + k].parent == Some(at) && tree_view::bare(now[at + 1 + k]) == #[trigger] heads[k] by {
        assert(now[at + 1 + k] == made[k]);
    }
    assert forall|k: int| 0 <= k < now.len() implies ((#[trigger] now[k]).parent matches Some(
        q,
    ) ==> 0 <= q < k) by {
        if k < at {
            assert(now[k] == f.draft.nodes[k]);
        } else if k > at {
            assert(now[k] == made[k - at - 1]);
        }
    }
}

/// A processing instruction's words read as its name and its value.
proof fn lemma_pi_words(v: NodeView)
    requires
        doc::leaf_ok(v),
        v.kind is ProcessingInstruction,
    ensures
        text::head_word(pi_words(v)) == v.name->0,
        text::tail_words(pi_words(v)) == v.value->0,
{
    reveal_strlit(" ");
    let raw = pi_words(v);
    let name = v.name->0;
    let value = v.value->0;
    lemma_first_white(name, raw.skip(name.len() as int));
    assert(raw =~= name + raw.skip(name.len() as int));
    if value.len() > 0 {
        assert(raw.skip(name.len() as int)[0] == ' ');
        assert(text::first_white(raw) == name.len());
        assert(raw.skip(name.len() as int + 1) =~= value);
    } else {
        assert(raw =~= name);
        assert(value =~= Seq::<char>::empty());
    }
    assert(raw.take(name.len() as int) =~= name);
}

proof fn lemma_first_white(word: Seq<char>, rest: Seq<char>)
    requires
        text::first_white(word) == word.len(),
    ensures
        text::first_white(word + rest) == word.len() + text::first_white(rest),
    decreases word.len(),
{
    if word.len() == 0 {
        assert(word + rest =~= rest);
    } else {
        assert((word + rest).drop_first() =~= word.drop_first() + rest);
        lemma_first_white(word.drop_first(), rest);
    }
}

/// A leaf is written as one event, which adds it.
proof fn lemma_leaf(d: Doc, i: int, st: ParseState)
    requires
        doc::nodes_ok(d.nodes),
        0 <= i < d.nodes.len(),
        !(d.nodes[i].kind is Element),
        !(d.nodes[i].kind is Attribute),
        sound(st),
    ensures
        ({
            let after = event_steps::steps(st, tree_events(d, i));
            &&& sound(after)
            &&& after.open == st.open
            &&& one_more(
                out(st),
                out(after),
                tree::parent_of(st.open),
                tree_view::tree_at(d.nodes, i),
            )
        }),
{
    let v = d.nodes[i];
    assert(doc::node_ok(d.nodes, i));
    lemma_flushed(st);
    let f = tree::flushed(st);
    let ev = tree_events(d, i)[0];
    assert(tree_events(d, i) =~= seq![ev]);
    event_steps::lemma_one_step(st, ev);
    let after = tree::step(st, ev, event_steps::keep_all());
    if v.kind is ProcessingInstruction {
        lemma_pi_words(v);
    }
    if st.open.len() > 0 {
        assert(st.open.last() == st.open[st.open.len() - 1]);
    }
    let now = out(after);
    let at = f.draft.nodes.len() as int;
    assert(now.len() == at + 1);
    assert(tree_view::bare(now[at]) == tree_view::bare(v));
    assert(sound(after)) by {
        let nodes = after.draft.nodes;
        assert forall|k: int| 0 <= k < nodes.len() implies ((#[trigger] nodes[k]).parent matches Some(
            q,
        ) ==> 0 <= q < k) by {
            if k < at {
                assert(nodes[k] == f.draft.nodes[k]);
            }
        }
    }
}

/// The tree of an element whose children stand behind its attributes.
proof fn lemma_whole(
    d: Doc,
    i: int,
    tag: Seq<NodeView>,
    now: Seq<NodeView>,
    at: int,
)
    requires
        doc::nodes_ok(d.nodes),
        0 <= i < d.nodes.len(),
        d.nodes[i].kind is Element,
        0 <= at,
        ({
            let heads = tree_view::attr_heads(d.nodes, i, i + 1);
            &&& tag.len() == at + 1 + heads.len()
            &&& tag[at].kind is Element
            &&& tree_view::bare(tag[at]) == tree_view::bare(d.nodes[i])
            &&& forall|k: int|
                0 <= k < heads.len() ==> tag[at + 1 + k].kind is Attribute && tag[at + 1 + k].parent
                    == Some(at) && tree_view::bare(tag[at + 1 + k]) == #[trigger] heads[k]
        }),
        tag.len() <= now.len(),
        forall|k: int| at < k < tag.len() ==> #[trigger] now[k] == tag[k],
        now[at].kind is Element,
        tree_view::bare(now[at]) == tree_view::bare(tag[at]),
        forall|k: int|
            tag.len() <= k < now.len() ==> !doc::is_kid(#[trigger] now[k], Some(at), true),
        (match now[at].value {
            Some(t) => seq![tree_view::text_leaf(t)],
            None => tree_view::kid_trees(now, at, tag.len() as int),
        }) == tree_view::tree_at(d.nodes, i).kids,
    ensures
        tree_view::tree_at(now, at) == tree_view::tree_at(d.nodes, i),
{
    let heads = tree_view::attr_heads(d.nodes, i, i + 1);
    assert forall|k: int| 0 <= k < heads.len() implies doc::is_kid(
        now[at + 1 + k],
        Some(at),
        true,
    ) && tree_view::bare(now[at + 1 + k]) == #[trigger] heads[k] by {
        assert(now[at + 1 + k] == tag[at + 1 + k]);
    }
    tree_view::lemma_attrs_in_a_row(now, at, at + 1, heads);
    if now[at].value is None {
        assert forall|k: int| at + 1 <= k < tag.len() implies !doc::is_kid(
            #[trigger] now[k],
            Some(at),
            false,
        ) by {
            assert(now[k] == tag[k]);
            let j = k - at - 1;
            assert(tree_view::bare(tag[at + 1 + j]) == heads[j]);
            assert(tag[at + 1 + j] == tag[k]);
        }
        tree_view::lemma_no_kids(now, at, at + 1, tag.len() as int);
    }
}

/// An element's end: its children stand behind its attributes, or one text has become its
/// value.
proof fn lemma_end(d: Doc, i: int, f: Seq<NodeView>, tag: Seq<NodeView>, inner: ParseState)
    requires
        doc::nodes_ok(d.nodes),
        0 <= i < d.nodes.len(),
        d.nodes[i].kind is Element,
        ({
            let heads = tree_view::attr_heads(d.nodes, i, i + 1);
            let at = f.len() as int;
            &&& tag.len() == at + 1 + heads.len()
            &&& forall|k: int| 0 <= k < at ==> #[trigger] tag[k] == f[k]
            &&& tag[at].kind is Element
            &&& tag[at].value is None
            &&& tree_view::bare(tag[at]) == tree_view::bare(d.nodes[i])
            &&& forall|k: int|
                0 <= k < heads.len() ==> tag[at + 1 + k].kind is Attribute && tag[at + 1 + k].parent
                    == Some(at) && tree_view::bare(tag[at + 1 + k]) == #[trigger] heads[k]
        }),
        sound(inner),
        inner.open.len() > 0,
        inner.open.last() == f.len(),
        some_more(tag, out(inner), f.len() as int, tree_view::tree_at(d.nodes, i).kids),
    ensures
        ({
            let after = tree::step(inner, EventView::End, event_steps::keep_all());
            &&& sound(after)
            &&& after.open == inner.open.drop_last()
            &&& one_more(f, out(after), tag[f.len() as int].parent, tree_view::tree_at(d.nodes, i))
        }),
{
    let at = f.len() as int;
    let heads = tree_view::attr_heads(d.nodes, i, i + 1);
    let after = tree::step(inner, EventView::End, event_steps::keep_all());
    let nodes = inner.draft.nodes;
    let all = out(inner);
    lemma_flushed(inner);
    assert forall|k: int| at < k < tag.len() implies (#[trigger] tag[k]).kind is Attribute
        && tag[k].parent == Some(at) by {
        let j = k - at - 1;
        assert(tree_view::bare(tag[at + 1 + j]) == heads[j]);
        assert(tag[at + 1 + j] == tag[k]);
    }
    let folds = inner.pending is Some && doc::first_kid(nodes, Some(at), false, 0) is None;
    if folds {
        let t = inner.pending->0;
        let now = after.draft.nodes;
        assert(out(after) == now);
        assert(all =~= nodes.push(
            tree::text_node(E4XNodeKindReadOnly::Text, Some(at), t),
        ));
        assert(now =~= nodes.update(at, NodeView { value: Some(t), ..nodes[at] }));
        doc::lemma_first_kid(nodes, Some(at), false, 0);
        // Nothing but the text is a child.
        assert(nodes.len() >= tag.len()) by {
            assert(inner.open[inner.open.len() - 1] == at);
            if nodes.len() < tag.len() {
                assert(all[nodes.len() as int] == tag[nodes.len() as int]);
            }
        }
        assert forall|k: int| tag.len() <= k < nodes.len() implies !doc::is_kid(
            #[trigger] all[k],
            Some(at),
            false,
        ) by {
            assert(all[k] == nodes[k]);
        }
        let last = nodes.len() as int;
        tree_view::lemma_no_kids(all, at, tag.len() as int, last);
        assert(tree_view::kid_trees(all, at, last + 1) =~= Seq::<TreeView>::empty());
        assert(doc::is_kid(all[last], Some(at), false));
        assert(tree_view::tree_at(all, last) == tree_view::text_leaf(t));
        assert(tree_view::kid_trees(all, at, last) =~= seq![tree_view::text_leaf(t)]);
        assert(nodes[at] == tag[at]) by {
            assert(all[at] == tag[at]);
        }
        assert forall|k: int| at < k < tag.len() implies #[trigger] now[k] == tag[k] by {
            assert(all[k] == tag[k]);
        }
        assert forall|k: int| tag.len() <= k < now.len() implies !doc::is_kid(
            #[trigger] now[k],
            Some(at),
            true,
        ) by {
            assert(all[k] == now[k]);
        }
        lemma_whole(d, i, tag, now, at);
        assert forall|k: int| 0 <= k < at implies #[trigger] now[k] == f[k] by {
            assert(all[k] == tag[k]);
        }
        assert forall|k: int| at < k < now.len() implies ((#[trigger] now[k]).parent matches Some(
            q,
        ) && q >= at) by {
            assert(all[k] == now[k]);
            if k < tag.len() {
                assert(all[k] == tag[k]);
            }
        }
        assert forall|k: int| 0 <= k < now.len() implies ((#[trigger] now[k]).parent matches Some(
            q,
        ) ==> 0 <= q < k) by {
            assert(now[k].parent == nodes[k].parent);
        }
    } else {
        assert(after.draft.nodes == all);
        assert(after.pending is None);
        assert(out(after) == all);
        assert(all[at] == tag[at]);
        assert forall|k: int| tag.len() <= k < all.len() implies !doc::is_kid(
            #[trigger] all[k],
            Some(at),
            true,
        ) by {}
        lemma_whole(d, i, tag, all, at);
        assert forall|k: int| 0 <= k < at implies #[trigger] all[k] == f[k] by {
            assert(all[k] == tag[k]);
        }
        assert forall|k: int| at < k < all.len() implies ((#[trigger] all[k]).parent matches Some(
            q,
        ) && q >= at) by {
            if k < tag.len() {
                assert(all[k] == tag[k]);
            }
        }
    }
    assert forall|k: int| 0 <= k < after.open.len() implies 0 <= #[trigger] after.open[k]
        < after.draft.nodes.len() by {
        assert(after.open[k] == inner.open[k]);
    }
}

/// The events of a node add its tree.
proof fn lemma_subtree(d: Doc, i: int, st: ParseState)
    requires
        doc::nodes_ok(d.nodes),
        0 <= i < d.nodes.len(),
        !(d.nodes[i].kind is Attribute),
        sound(st),
    ensures
        ({
            let after = event_steps::steps(st, tree_events(d, i));
            &&& sound(after)
            &&& after.open == st.open
            &&& one_more(
                out(st),
                out(after),
                tree::parent_of(st.open),
                tree_view::tree_at(d.nodes, i),
            )
        }),
    decreases d.nodes.len() - i, 1int,
{
    let v = d.nodes[i];
    if !(v.kind is Element) {
        lemma_leaf(d, i, st);
        return;
    }
    lemma_flushed(st);
    let f = tree::flushed(st);
    let at = f.draft.nodes.len() as int;
    let e = element_of(d, i);
    lemma_tag(d, i, f);
    let s = tree::with_element(f, e);
    let tag = s.draft.nodes;
    let kept = event_steps::keep_all();
    let childless = doc::first_kid(d.nodes, Some(i), false, 0) is None;
    if v.value is None && childless {
        event_steps::lemma_one_step(st, EventView::Empty(e));
        doc::lemma_first_kid(d.nodes, Some(i), false, 0);
        assert forall|k: int| i + 1 <= k < d.nodes.len() implies !doc::is_kid(
            #[trigger] d.nodes[k],
            Some(i),
            false,
        ) by {}
        tree_view::lemma_no_kids(d.nodes, i, i + 1, d.nodes.len() as int);
        assert(tree_view::tree_at(d.nodes, i).kids =~= Seq::<TreeView>::empty());
        assert(tree_view::kid_trees(tag, at, tag.len() as int) =~= Seq::<TreeView>::empty());
        lemma_whole(d, i, tag, tag, at);
        let heads = tree_view::attr_heads(d.nodes, i, i + 1);
        assert forall|k: int| at < k < tag.len() implies ((#[trigger] tag[k]).parent matches Some(
            q,
        ) && q >= at) by {
            let j = k - at - 1;
            assert(tree_view::bare(tag[at + 1 + j]) == heads[j]);
            assert(tag[at + 1 + j] == tag[k]);
        }
        return;
    }
    let opened = ParseState { open: f.open.push(at), ..s };
    assert(tree::step(st, EventView::Start(e), kept) == opened);
    assert(sound(opened)) by {
        assert forall|k: int| 0 <= k < opened.open.len() implies 0 <= #[trigger] opened.open[k]
            < tag.len() by {
            if k < f.open.len() {
                assert(opened.open[k] == f.open[k]);
            }
        }
    }
    assert(out(opened) == tag);
    let start = seq![EventView::Start(e)];
    let inner = match v.value {
        Some(t) => seq![EventView::Text(t)],
        None => kid_events(d, i, i + 1),
    };
    let end = seq![EventView::End];
    assert(tree_events(d, i) == start + inner + end);
    event_steps::lemma_one_step(st, EventView::Start(e));
    event_steps::lemma_steps_concat(st, start, inner);
    event_steps::lemma_steps_concat(st, start + inner, end);
    let mid = event_steps::steps(opened, inner);
    event_steps::lemma_one_step(mid, EventView::End);
    match v.value {
        Some(t) => {
            event_steps::lemma_one_step(opened, EventView::Text(t));
            let all = out(mid);
            assert(all =~= tag.push(tree::text_node(E4XNodeKindReadOnly::Text, Some(at), t)));
            assert(tree_view::kid_trees(all, at, tag.len() as int + 1) =~= Seq::<TreeView>::empty());
            assert(doc::is_kid(all[tag.len() as int], Some(at), false));
            assert(tree_view::tree_at(all, tag.len() as int) == tree_view::text_leaf(t));
            assert(tree_view::kid_trees(all, at, tag.len() as int) =~= seq![
                tree_view::text_leaf(t),
            ]);
            assert(some_more(tag, all, at, tree_view::tree_at(d.nodes, i).kids));
        },
        None => {
            lemma_kids(d, i, i + 1, opened);
        },
    }
    lemma_end(d, i, f.draft.nodes, tag, mid);
    assert(mid.open.drop_last() =~= st.open);
}

/// The events of children add their trees to the innermost open element.
proof fn lemma_kids(d: Doc, p: int, from: int, st: ParseState)
    requires
        doc::nodes_ok(d.nodes),
        0 <= from,
        sound(st),
        st.open.len() > 0,
    ensures
        ({
            let after = event_steps::steps(st, kid_events(d, p, from));
            &&& sound(after)
            &&& after.open == st.open
            &&& some_more(
                out(st),
                out(after),
                st.open.last(),
                tree_view::kid_trees(d.nodes, p, from),
            )
        }),
    decreases d.nodes.len() - from, 2int,
{
    let e = st.open.last();
    let then = out(st);
    assert(e == st.open[st.open.len() - 1]);
    lemma_flushed(st);
    if from >= d.nodes.len() {
        assert(event_steps::steps(st, kid_events(d, p, from)) == st);
        assert(tree_view::kid_trees(then, e, then.len() as int) =~= Seq::<TreeView>::empty());
    } else if doc::is_kid(d.nodes[from], Some(p), false) {
        let first = tree_events(d, from);
        let rest = kid_events(d, p, from + 1);
        event_steps::lemma_steps_concat(st, first, rest);
        lemma_subtree(d, from, st);
        let mid = event_steps::steps(st, first);
        let between = out(mid);
        lemma_kids(d, p, from + 1, mid);
        let after = event_steps::steps(mid, rest);
        let now = out(after);
        let at = then.len() as int;
        assert(now[at] == between[at]);
        assert forall|k: int| 0 <= k < at implies #[trigger] now[k] == then[k] by {
            assert(now[k] == between[k]);
        }
        assert forall|k: int| at < k < between.len() implies !doc::is_kid(
            #[trigger] now[k],
            Some(e),
            false,
        ) by {
            assert(now[k] == between[k]);
        }
        tree_view::lemma_no_kids(now, e, at + 1, between.len() as int);
        assert(tree_view::kept(between, now, at));
        tree_view::lemma_tree_kept(between, now, at);
        assert(doc::is_kid(now[at], Some(e), false));
        assert(tree_view::kid_trees(now, e, at) == seq![tree_view::tree_at(now, at)]
            + tree_view::kid_trees(now, e, between.len() as int));
        assert forall|k: int| at <= k < now.len() implies ({
            let v = #[trigger] now[k];
            &&& v.parent matches Some(q) && (q == e || q >= at)
            &&& v.parent == Some(e) ==> !(v.kind is Attribute)
        }) by {
            if k < between.len() {
                assert(now[k] == between[k]);
            }
        }
    } else {
        lemma_kids(d, p, from + 1, st);
    }
}

/// Parsing the events that a node is written as gives its tree back: one root, which is
/// deeply equal to the node, and the node to it. Attributes have no events of their own.
pub proof fn lemma_written_parses(d: Doc, i: int)
    requires
        doc::nodes_ok(d.nodes),
        0 <= i < d.nodes.len(),
        !(d.nodes[i].kind is Attribute),
        tree::run(
            tree::start_state(),
            tree_events(d, i),
            event_steps::keep_all(),
        ).draft.nodes.len() <= PARENT_MASK,
    ensures
        ({
            let nodes = tree::run(
                tree::start_state(),
                tree_events(d, i),
                event_steps::keep_all(),
            ).draft.nodes;
            &&& doc::kids(nodes, None, false, 0) == seq![0int]
            &&& queries::deep_equal(nodes, 0, d.nodes, i as u32)
            &&& queries::deep_equal(d.nodes, i as u32, nodes, 0)
        }),
{
    let st = tree::start_state();
    let evs = tree_events(d, i);
    let none = Seq::<EventView>::empty();
    lemma_going_on(d, i);
    lemma_subtree(d, i, st);
    event_steps::lemma_run_steps(st, evs, none);
    assert(evs + none =~= evs);
    let after = event_steps::steps(st, evs);
    let nodes = out(after);
    assert(tree::run(after, none, event_steps::keep_all()) == tree::flushed(after));
    assert(out(st) =~= Seq::<NodeView>::empty());
    lemma_flushed(after);
    assert(tree_view::tree_at(nodes, 0) == tree_view::tree_at(d.nodes, i));
    assert(tree_view::parents_before(d.nodes)) by {
        assert forall|k: int| 0 <= k < d.nodes.len() implies ((
        #[trigger] d.nodes[k]).parent matches Some(q) ==> 0 <= q < k) by {
            assert(doc::node_ok(d.nodes, k));
        }
    }
    tree_view::lemma_trees_equal(nodes, 0, d.nodes, i as u32);
    tree_view::lemma_trees_equal(d.nodes, i as u32, nodes, 0);
    assert(doc::kids(nodes, None, false, 1) =~= Seq::<int>::empty()) by {
        lemma_no_more_roots(nodes, 1);
    }
    assert(doc::is_kid(nodes[0], None, false));
    assert(doc::kids(nodes, None, false, 0) =~= seq![0int]);
}

proof fn lemma_no_more_roots(nodes: Seq<NodeView>, from: int)
    requires
        0 <= from,
        forall|k: int| from <= k < nodes.len() ==> (#[trigger] nodes[k]).parent is Some,
    ensures
        doc::kids(nodes, None, false, from) == Seq::<int>::empty(),
    decreases nodes.len() - from,
{
    if from < nodes.len() {
        lemma_no_more_roots(nodes, from + 1);
    }
}

} // verus!
