//! Events as text, and that a node's text is the text of its events.

use crate::doc;
use crate::doc::DeclView;
use crate::doc::Doc;
use crate::doc::NodeView;
use crate::events::AttrView;
use crate::events::ElementView;
use crate::events::EventView;
use crate::node_data::E4XNodeKindReadOnly;
use crate::queries;
use crate::rewrite;
use crate::serialize;
use crate::tree;
use vstd::prelude::*;

verus! {

/// One item among the attributes of a start tag.
pub open spec fn item_text(a: AttrView) -> Seq<char> {
    match a {
        AttrView::Decl { declared, uri } => serialize::decl_text(
            DeclView { node: 0, prefix: declared, uri },
        ),
        AttrView::Attr { local, ns, prefix, value } => serialize::attr_text(
            tree::named_node(
                E4XNodeKindReadOnly::Attribute,
                None,
                local,
                ns,
                prefix,
                Some(value),
            ),
        ),
    }
}

/// The items among the attributes of a start tag.
pub open spec fn items_text(items: Seq<AttrView>) -> Seq<char>
    decreases items.len(),
{
    if items.len() == 0 {
        Seq::empty()
    } else {
        items_text(items.drop_last()) + item_text(items.last())
    }
}

/// The name of an element as its tags have it.
pub open spec fn tag_name(e: ElementView) -> Seq<char> {
    serialize::qualified(
        tree::named_node(E4XNodeKindReadOnly::Element, None, e.local, e.ns, e.prefix, None),
    )
}

/// A start tag up to its closing bracket.
pub open spec fn tag_text(e: ElementView) -> Seq<char> {
    "<"@ + tag_name(e) + items_text(e.attrs)
}

/// The text of an event that no name of an open element is needed for.
pub open spec fn event_text(ev: EventView) -> Seq<char> {
    match ev {
        EventView::Start(e) => tag_text(e) + ">"@,
        EventView::Empty(e) => tag_text(e) + "/>"@,
        EventView::Text(t) => serialize::escaped(t, false),
        EventView::Cdata(t) => "<![CDATA["@ + t + "]]>"@,
        EventView::Comment(t) => "<!--"@ + t + "-->"@,
        EventView::Pi(raw) => "<?"@ + raw + "?>"@,
        _ => Seq::empty(),
    }
}

/// The text of events, within open elements of the names `open`.
pub open spec fn markup(evs: Seq<EventView>, open: Seq<Seq<char>>) -> Seq<char>
    decreases evs.len(),
{
    if evs.len() == 0 {
        Seq::empty()
    } else {
        let rest = evs.drop_first();
        match evs[0] {
            EventView::Start(e) => event_text(evs[0]) + markup(rest, open.push(tag_name(e))),
            EventView::End => "</"@ + open.last() + ">"@ + markup(rest, open.drop_last()),
            _ => event_text(evs[0]) + markup(rest, open),
        }
    }
}

proof fn lemma_items_front(a: AttrView, rest: Seq<AttrView>)
    ensures
        items_text(seq![a] + rest) == item_text(a) + items_text(rest),
    decreases rest.len(),
{
    let all = seq![a] + rest;
    if rest.len() == 0 {
        assert(all.drop_last() =~= Seq::<AttrView>::empty());
        assert(items_text(all.drop_last()) =~= Seq::<char>::empty());
        assert(items_text(all) =~= item_text(a) + items_text(rest));
    } else {
        lemma_items_front(a, rest.drop_last());
        assert(all.drop_last() =~= seq![a] + rest.drop_last());
        assert(items_text(all) =~= item_text(a) + items_text(rest));
    }
}

proof fn lemma_items_concat(a: Seq<AttrView>, b: Seq<AttrView>)
    ensures
        items_text(a + b) == items_text(a) + items_text(b),
    decreases b.len(),
{
    if b.len() == 0 {
        assert(a + b =~= a);
        assert(items_text(a) + Seq::<char>::empty() =~= items_text(a));
    } else {
        assert((a + b).drop_last() =~= a + b.drop_last());
        lemma_items_concat(a, b.drop_last());
        assert(items_text(a + b) =~= items_text(a) + items_text(b));
    }
}

proof fn lemma_attrs_front(nodes: Seq<NodeView>, at: int, rest: Seq<int>)
    ensures
        serialize::attrs_text(nodes, seq![at] + rest) == serialize::attr_text(nodes[at])
            + serialize::attrs_text(nodes, rest),
    decreases rest.len(),
{
    let all = seq![at] + rest;
    if rest.len() == 0 {
        assert(all.drop_last() =~= Seq::<int>::empty());
        assert(serialize::attrs_text(nodes, all.drop_last()) =~= Seq::<char>::empty());
        assert(serialize::attrs_text(nodes, all) =~= serialize::attr_text(nodes[at])
            + serialize::attrs_text(nodes, rest));
    } else {
        lemma_attrs_front(nodes, at, rest.drop_last());
        assert(all.drop_last() =~= seq![at] + rest.drop_last());
        assert(serialize::attrs_text(nodes, all) =~= serialize::attr_text(nodes[at])
            + serialize::attrs_text(nodes, rest));
    }
}

proof fn lemma_decls(decls: Seq<DeclView>, at: int, n: int)
    ensures
        items_text(rewrite::decl_items(decls, at, n)) == serialize::decls_text(decls, at, n),
    decreases n,
{
    if n > 0 {
        lemma_decls(decls, at, n - 1);
        if decls[n - 1].node == at {
            let items = rewrite::decl_items(decls, at, n);
            assert(items.drop_last() =~= rewrite::decl_items(decls, at, n - 1));
        }
    }
}

proof fn lemma_attrs(nodes: Seq<NodeView>, p: int, from: int)
    requires
        doc::nodes_ok(nodes),
        0 <= from,
    ensures
        items_text(rewrite::attr_items(nodes, p, from)) == serialize::attrs_text(
            nodes,
            doc::kids(nodes, Some(p), true, from),
        ),
    decreases nodes.len() - from,
{
    if from < nodes.len() {
        lemma_attrs(nodes, p, from + 1);
        if doc::is_kid(nodes[from], Some(p), true) {
            assert(doc::node_ok(nodes, from));
            let a = rewrite::attr_item(nodes[from]);
            lemma_items_front(a, rewrite::attr_items(nodes, p, from + 1));
            lemma_attrs_front(nodes, from, doc::kids(nodes, Some(p), true, from + 1));
            assert(item_text(a) == serialize::attr_text(nodes[from]));
        }
    }
}

proof fn lemma_tag(d: Doc, i: int)
    requires
        doc::nodes_ok(d.nodes),
        0 <= i < d.nodes.len(),
        d.nodes[i].kind is Element,
    ensures
        tag_text(rewrite::element_of(d, i)) == serialize::open_tag(d, i),
        tag_name(rewrite::element_of(d, i)) == serialize::qualified(d.nodes[i]),
{
    let e = rewrite::element_of(d, i);
    let decls = rewrite::decl_items(d.decls, i, d.decls.len() as int);
    let attrs = rewrite::attr_items(d.nodes, i, i + 1);
    assert(doc::node_ok(d.nodes, i));
    lemma_items_concat(decls, attrs);
    lemma_decls(d.decls, i, d.decls.len() as int);
    lemma_attrs(d.nodes, i, i + 1);
    queries::lemma_kids_behind(d.nodes, i, true);
    assert(tag_text(e) =~= serialize::open_tag(d, i));
}

proof fn lemma_first(ev: EventView, rest: Seq<EventView>)
    ensures
        (seq![ev] + rest)[0] == ev,
        (seq![ev] + rest).drop_first() == rest,
{
    assert((seq![ev] + rest).drop_first() =~= rest);
}

/// The text of a node's events, with more events behind them.
proof fn lemma_node_text(d: Doc, i: int, rest: Seq<EventView>, open: Seq<Seq<char>>)
    requires
        doc::nodes_ok(d.nodes),
        0 <= i < d.nodes.len(),
        !(d.nodes[i].kind is Attribute),
    ensures
        markup(rewrite::tree_events(d, i) + rest, open) == serialize::xml_text(d, i) + markup(
            rest,
            open,
        ),
    decreases d.nodes.len() - i, 1int,
{
    let v = d.nodes[i];
    let evs = rewrite::tree_events(d, i);
    assert(doc::node_ok(d.nodes, i));
    if v.kind is Element {
        lemma_tag(d, i);
        let e = rewrite::element_of(d, i);
        let name = tag_name(e);
        if v.value is None && doc::first_kid(d.nodes, Some(i), false, 0) is None {
            lemma_first(EventView::Empty(e), rest);
        } else {
            let inner = match v.value {
                Some(t) => seq![EventView::Text(t)],
                None => rewrite::kid_events(d, i, i + 1),
            };
            let body = match v.value {
                Some(t) => serialize::escaped(t, false),
                None => serialize::kids_xml(d, i, i + 1),
            };
            let end = seq![EventView::End] + rest;
            let within = open.push(name);
            assert(evs + rest =~= seq![EventView::Start(e)] + (inner + end));
            lemma_first(EventView::Start(e), inner + end);
            match v.value {
                Some(t) => lemma_first(EventView::Text(t), end),
                None => lemma_kids_text(d, i, i + 1, end, within),
            }
            assert(markup(inner + end, within) == body + markup(end, within));
            lemma_first(EventView::End, rest);
            assert(within.last() == name);
            assert(within.drop_last() =~= open);
            assert(markup(end, within) == "</"@ + name + ">"@ + markup(rest, open));
            lemma_assoc(tag_text(e) + ">"@, body, serialize::end_tag(d, i), markup(rest, open));
        }
    } else {
        let ev = evs[0];
        assert(evs =~= seq![ev]);
        lemma_first(ev, rest);
        if v.kind is ProcessingInstruction {
            assert("<?"@ + rewrite::pi_words(v) + "?>"@ =~= serialize::pi_text(v));
        }
        assert(event_text(ev) == serialize::xml_text(d, i));
    }
}

proof fn lemma_assoc(a: Seq<char>, b: Seq<char>, c: Seq<char>, d: Seq<char>)
    ensures
        a + (b + (c + d)) == a + b + c + d,
{
    assert(a + (b + (c + d)) =~= a + b + c + d);
}

proof fn lemma_kids_text(d: Doc, p: int, from: int, rest: Seq<EventView>, open: Seq<Seq<char>>)
    requires
        doc::nodes_ok(d.nodes),
        0 <= from,
    ensures
        markup(rewrite::kid_events(d, p, from) + rest, open) == serialize::kids_xml(d, p, from)
            + markup(rest, open),
    decreases d.nodes.len() - from, 2int,
{
    if from >= d.nodes.len() {
        assert(rewrite::kid_events(d, p, from) + rest =~= rest);
        assert(Seq::<char>::empty() + markup(rest, open) =~= markup(rest, open));
    } else if doc::is_kid(d.nodes[from], Some(p), false) {
        let first = rewrite::tree_events(d, from);
        let more = rewrite::kid_events(d, p, from + 1);
        assert(first + more + rest =~= first + (more + rest));
        lemma_node_text(d, from, more + rest, open);
        lemma_kids_text(d, p, from + 1, rest, open);
        let a = serialize::xml_text(d, from);
        let b = serialize::kids_xml(d, p, from + 1);
        let c = markup(rest, open);
        assert(a + (b + c) =~= (a + b) + c);
    } else {
        lemma_kids_text(d, p, from + 1, rest, open);
    }
}

/// What a node is written as is the text of its events.
pub proof fn lemma_written_text(d: Doc, i: int)
    requires
        doc::nodes_ok(d.nodes),
        0 <= i < d.nodes.len(),
        !(d.nodes[i].kind is Attribute),
    ensures
        serialize::xml_text(d, i) == markup(rewrite::tree_events(d, i), Seq::empty()),
{
    let none = Seq::<EventView>::empty();
    lemma_node_text(d, i, none, Seq::empty());
    assert(rewrite::tree_events(d, i) + none =~= rewrite::tree_events(d, i));
    assert(serialize::xml_text(d, i) + markup(none, Seq::empty()) =~= serialize::xml_text(d, i));
}

} // verus!
