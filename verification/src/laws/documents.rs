//! What a document holds of its source: the tags, attributes, sections, comments and
//! instructions, all of them, in their order.

use crate::builder::Draft;
use crate::doc::DeclView;
use crate::doc::NodeView;
use crate::events::AttrView;
use crate::events::ElementView;
use crate::events::EventView;
use crate::events::ParseSettings;
use crate::laws::numbers;
use crate::node_data::E4XNodeKindReadOnly;
use crate::parse;
use crate::parse::Unescaping;
use crate::text;
use crate::tree;
use crate::tree::ParseState;
use crate::xml_reader;
use crate::xml_reader::RawStep;
use crate::xml_reader::RawView;
use vstd::multiset::Multiset;
use vstd::prelude::*;
use vstd::utf8::*;

verus! {

/// A part of a document other than a text.
#[verifier::ext_equal]
pub enum Part {
    Element { name: Seq<char>, ns: Option<Seq<char>>, prefix: Option<Seq<char>> },
    Attribute {
        name: Seq<char>,
        ns: Option<Seq<char>>,
        prefix: Option<Seq<char>>,
        value: Seq<char>,
    },
    Cdata(Seq<char>),
    Comment(Seq<char>),
    Instruction { target: Seq<char>, value: Seq<char> },
}

/// The part that a node is; a text is none.
pub open spec fn part_of(v: NodeView) -> Option<Part> {
    match v.kind {
        E4XNodeKindReadOnly::Element => Some(
            Part::Element { name: v.name->0, ns: v.ns, prefix: v.prefix },
        ),
        E4XNodeKindReadOnly::Attribute => Some(
            Part::Attribute { name: v.name->0, ns: v.ns, prefix: v.prefix, value: v.value->0 },
        ),
        E4XNodeKindReadOnly::Cdata => Some(Part::Cdata(v.value->0)),
        E4XNodeKindReadOnly::Comment => Some(Part::Comment(v.value->0)),
        E4XNodeKindReadOnly::ProcessingInstruction => Some(
            Part::Instruction { target: v.name->0, value: v.value->0 },
        ),
        E4XNodeKindReadOnly::Text => None,
    }
}

/// The parts that nodes are, in order.
pub open spec fn parts_of(nodes: Seq<NodeView>) -> Seq<Part>
    decreases nodes.len(),
{
    if nodes.len() == 0 {
        Seq::empty()
    } else {
        match part_of(nodes.last()) {
            Some(p) => parts_of(nodes.drop_last()).push(p),
            None => parts_of(nodes.drop_last()),
        }
    }
}

/// The attributes of a tag, in order; declarations are none.
pub open spec fn attrs_of(items: Seq<AttrView>) -> Seq<Part>
    decreases items.len(),
{
    if items.len() == 0 {
        Seq::empty()
    } else {
        match items.last() {
            AttrView::Attr { local, ns, prefix, value } => attrs_of(items.drop_last()).push(
                Part::Attribute { name: local, ns, prefix, value },
            ),
            AttrView::Decl { declared, uri } => attrs_of(items.drop_last()),
        }
    }
}

/// The parts that an event brings.
pub open spec fn brought(ev: EventView, set: ParseSettings) -> Seq<Part> {
    match ev {
        EventView::Start(e) | EventView::Empty(e) => seq![
            Part::Element { name: e.local, ns: e.ns, prefix: e.prefix },
        ] + attrs_of(e.attrs),
        EventView::Cdata(t) => seq![Part::Cdata(t)],
        EventView::Comment(t) => if set.ignore_comments {
            Seq::empty()
        } else {
            seq![Part::Comment(t)]
        },
        EventView::Pi(raw) => if set.ignore_pi {
            Seq::empty()
        } else {
            seq![
                Part::Instruction { target: text::head_word(raw), value: text::tail_words(raw) },
            ]
        },
        _ => Seq::empty(),
    }
}

/// The parts that events bring, up to the end of the input or the first that is malformed.
pub open spec fn all_brought(evs: Seq<EventView>, set: ParseSettings) -> Seq<Part>
    decreases evs.len(),
{
    if evs.len() == 0 || evs[0] is Eof || evs[0] is Malformed {
        Seq::empty()
    } else {
        brought(evs[0], set) + all_brought(evs.drop_first(), set)
    }
}

proof fn lemma_push(nodes: Seq<NodeView>, v: NodeView)
    ensures
        parts_of(nodes.push(v)) == (match part_of(v) {
            Some(p) => parts_of(nodes).push(p),
            None => parts_of(nodes),
        }),
{
    assert(nodes.push(v).drop_last() =~= nodes);
}

proof fn lemma_update(nodes: Seq<NodeView>, e: int, v: NodeView)
    requires
        0 <= e < nodes.len(),
        part_of(v) == part_of(nodes[e]),
    ensures
        parts_of(nodes.update(e, v)) == parts_of(nodes),
    decreases nodes.len(),
{
    let more = nodes.update(e, v);
    if e == nodes.len() - 1 {
        assert(more.drop_last() =~= nodes.drop_last());
    } else {
        assert(more.drop_last() =~= nodes.drop_last().update(e, v));
        assert(more.last() == nodes.last());
        lemma_update(nodes.drop_last(), e, v);
    }
}

proof fn lemma_attrs(d: Draft, id: int, items: Seq<AttrView>)
    ensures
        parts_of(tree::draft_attrs(d, id, items).nodes) == parts_of(d.nodes) + attrs_of(items),
    decreases items.len(),
{
    if items.len() == 0 {
        assert(parts_of(d.nodes) + attrs_of(items) =~= parts_of(d.nodes));
    } else {
        lemma_attrs(d, id, items.drop_last());
        let before = tree::draft_attrs(d, id, items.drop_last());
        match items.last() {
            AttrView::Attr { local, ns, prefix, value } => {
                let v = tree::named_node(
                    E4XNodeKindReadOnly::Attribute,
                    Some(id),
                    local,
                    ns,
                    prefix,
                    Some(value),
                );
                lemma_push(before.nodes, v);
                assert(tree::draft_attrs(d, id, items).nodes == before.nodes.push(v));
                assert(parts_of(tree::draft_attrs(d, id, items).nodes) =~= parts_of(d.nodes)
                    + attrs_of(items));
            },
            AttrView::Decl { declared, uri } => {},
        }
    }
}

/// The open elements are elements of the document.
spec fn open_ok(st: ParseState) -> bool {
    forall|k: int|
        0 <= k < st.open.len() ==> 0 <= #[trigger] st.open[k] < st.draft.nodes.len()
            && st.draft.nodes[st.open[k]].kind is Element
}

proof fn lemma_attrs_keep(d: Draft, id: int, items: Seq<AttrView>)
    ensures
        d.nodes.is_prefix_of(tree::draft_attrs(d, id, items).nodes),
    decreases items.len(),
{
    if items.len() > 0 {
        lemma_attrs_keep(d, id, items.drop_last());
        let before = tree::draft_attrs(d, id, items.drop_last()).nodes;
        let after = tree::draft_attrs(d, id, items).nodes;
        assert(d.nodes =~= after.take(d.nodes.len() as int)) by {
            assert(d.nodes =~= before.take(d.nodes.len() as int));
        }
    } else {
        assert(d.nodes =~= d.nodes.take(d.nodes.len() as int));
    }
}

proof fn lemma_flushed(st: ParseState)
    requires
        open_ok(st),
    ensures
        parts_of(tree::flushed(st).draft.nodes) == parts_of(st.draft.nodes),
        open_ok(tree::flushed(st)),
        tree::flushed(st).open == st.open,
{
    if let Some(t) = st.pending {
        let v = tree::text_node(E4XNodeKindReadOnly::Text, tree::parent_of(st.open), t);
        lemma_push(st.draft.nodes, v);
        assert(tree::flushed(st).draft.nodes == st.draft.nodes.push(v));
    }
}

proof fn lemma_tag(f: ParseState, e: ElementView)
    requires
        open_ok(f),
    ensures
        parts_of(tree::with_element(f, e).draft.nodes) == parts_of(f.draft.nodes) + (seq![
            Part::Element { name: e.local, ns: e.ns, prefix: e.prefix },
        ] + attrs_of(e.attrs)),
        open_ok(tree::with_element(f, e)),
        f.draft.nodes.len() < tree::with_element(f, e).draft.nodes.len(),
        tree::with_element(f, e).draft.nodes[f.draft.nodes.len() as int].kind is Element,
{
    let head = tree::draft_head(f.draft, tree::parent_of(f.open), e);
    let v = head.nodes.last();
    lemma_push(f.draft.nodes, v);
    assert(head.nodes =~= f.draft.nodes.push(v));
    lemma_attrs(head, f.draft.nodes.len() as int, e.attrs);
    lemma_attrs_keep(head, f.draft.nodes.len() as int, e.attrs);
    let all = tree::with_element(f, e).draft.nodes;
    assert(parts_of(all) =~= parts_of(f.draft.nodes) + (seq![
        Part::Element { name: e.local, ns: e.ns, prefix: e.prefix },
    ] + attrs_of(e.attrs)));
    assert forall|k: int| 0 <= k < head.nodes.len() implies all[k] == head.nodes[k] by {
        assert(head.nodes =~= all.take(head.nodes.len() as int));
        assert(all.take(head.nodes.len() as int)[k] == all[k]);
    }
}

proof fn lemma_step(st: ParseState, ev: EventView, set: ParseSettings)
    requires
        open_ok(st),
    ensures
        parts_of(tree::step(st, ev, set).draft.nodes) == parts_of(st.draft.nodes) + brought(ev, set),
        open_ok(tree::step(st, ev, set)),
{
    lemma_flushed(st);
    let f = tree::flushed(st);
    let next = tree::step(st, ev, set);
    let old_parts = parts_of(st.draft.nodes);
    assert(old_parts + Seq::<Part>::empty() =~= old_parts);
    match ev {
        EventView::Start(e) => {
            lemma_tag(f, e);
            let w = tree::with_element(f, e);
            assert forall|k: int| 0 <= k < next.open.len() implies 0 <= #[trigger] next.open[k]
                < next.draft.nodes.len() && next.draft.nodes[next.open[k]].kind is Element by {
                if k < f.open.len() {
                    assert(next.open[k] == w.open[k]);
                }
            }
        },
        EventView::Empty(e) => lemma_tag(f, e),
        EventView::Cdata(t) => {
            let v = tree::text_node(E4XNodeKindReadOnly::Cdata, tree::parent_of(f.open), t);
            lemma_push(f.draft.nodes, v);
            assert(next.draft.nodes == f.draft.nodes.push(v));
            assert(parts_of(next.draft.nodes) =~= old_parts + brought(ev, set));
        },
        EventView::Comment(t) => if !set.ignore_comments {
            let v = tree::text_node(E4XNodeKindReadOnly::Comment, tree::parent_of(f.open), t);
            lemma_push(f.draft.nodes, v);
            assert(next.draft.nodes == f.draft.nodes.push(v));
            assert(parts_of(next.draft.nodes) =~= old_parts + brought(ev, set));
        },
        EventView::Pi(raw) => if !set.ignore_pi {
            let v = next.draft.nodes.last();
            lemma_push(f.draft.nodes, v);
            assert(next.draft.nodes =~= f.draft.nodes.push(v));
            assert(parts_of(next.draft.nodes) =~= old_parts + brought(ev, set));
        },
        EventView::End => {
            if st.open.len() > 0 {
                let e = st.open.last();
                assert(st.open[st.open.len() - 1] == e);
                if let Some(t) = st.pending {
                    let v = NodeView { value: Some(t), ..st.draft.nodes[e] };
                    lemma_update(st.draft.nodes, e, v);
                }
                assert forall|k: int| 0 <= k < next.open.len() implies 0 <= #[trigger] next.open[k]
                    < next.draft.nodes.len() && next.draft.nodes[next.open[k]].kind is Element by {
                    assert(next.open[k] == st.open[k]);
                    assert(f.open[k] == st.open[k]);
                }
            }
        },
        _ => {},
    }
}

proof fn lemma_run(st: ParseState, evs: Seq<EventView>, set: ParseSettings)
    requires
        open_ok(st),
    ensures
        parts_of(tree::run(st, evs, set).draft.nodes) == parts_of(st.draft.nodes) + all_brought(
            evs,
            set,
        ),
    decreases evs.len(),
{
    let none = Seq::<Part>::empty();
    assert(parts_of(st.draft.nodes) + none =~= parts_of(st.draft.nodes));
    if evs.len() == 0 {
        lemma_flushed(st);
    } else {
        lemma_step(st, evs[0], set);
        if !(evs[0] is Eof || evs[0] is Malformed) {
            lemma_run(tree::step(st, evs[0], set), evs.drop_first(), set);
            assert(parts_of(st.draft.nodes) + brought(evs[0], set) + all_brought(
                evs.drop_first(),
                set,
            ) =~= parts_of(st.draft.nodes) + all_brought(evs, set));
        }
    }
}

/// A parsed document has exactly the elements, attributes, CDATA sections, comments and
/// processing instructions of its source, in their order and as they are, but for those that
/// are to be ignored.
pub proof fn lemma_nothing_lost(source: Seq<char>, set: ParseSettings, g: Unescaping)
    ensures
        parts_of(parse::parsed(source, set, g).draft.nodes) == all_brought(
            parse::decoded_all(xml_reader::source_events(source), g),
            set,
        ),
{
    let evs = parse::decoded_all(xml_reader::source_events(source), g);
    lemma_run(tree::start_state(), evs, set);
    assert(parts_of(Seq::<NodeView>::empty()) =~= Seq::<Part>::empty());
    assert(Seq::<Part>::empty() + all_brought(evs, set) =~= all_brought(evs, set));
}

/// A declaration by its prefix and URI.
pub open spec fn decls_of(items: Seq<AttrView>) -> Seq<(Seq<char>, Seq<char>)>
    decreases items.len(),
{
    if items.len() == 0 {
        Seq::empty()
    } else {
        match items.last() {
            AttrView::Decl { declared, uri } => decls_of(items.drop_last()).push((declared, uri)),
            AttrView::Attr { local, ns, prefix, value } => decls_of(items.drop_last()),
        }
    }
}

/// A tag declares what its items do, on its element and nowhere else; the attributes among them
/// are attributes of that element.
pub proof fn lemma_tag_declares(d: Draft, parent: Option<int>, e: ElementView)
    ensures
        ({
            let at = d.nodes.len() as int;
            let after = tree::draft_element(d, parent, e);
            let pairs = decls_of(e.attrs);
            &&& after.decls.len() == d.decls.len() + pairs.len()
            &&& d.decls.is_prefix_of(after.decls)
            &&& forall|k: int|
                0 <= k < pairs.len() ==> #[trigger] after.decls[d.decls.len() + k] == (DeclView {
                    node: at,
                    prefix: pairs[k].0,
                    uri: pairs[k].1,
                })
            &&& after.nodes[at].parent == parent && after.nodes[at].kind is Element
                && after.nodes[at].value is None && after.nodes[at].name == Some(e.local)
            &&& forall|k: int|
                at < k < after.nodes.len() ==> (#[trigger] after.nodes[k]).parent == Some(at)
                    && after.nodes[k].kind is Attribute
        }),
{
    lemma_tag_items(tree::draft_head(d, parent, e), d.nodes.len() as int, e.attrs);
    let head = tree::draft_head(d, parent, e);
    assert(head.nodes[d.nodes.len() as int] == head.nodes.last());
}

proof fn lemma_tag_items(d: Draft, at: int, items: Seq<AttrView>)
    requires
        0 <= at,
        d.nodes.len() == at + 1,
    ensures
        ({
            let after = tree::draft_attrs(d, at, items);
            let pairs = decls_of(items);
            &&& after.decls.len() == d.decls.len() + pairs.len()
            &&& d.decls.is_prefix_of(after.decls)
            &&& forall|k: int|
                0 <= k < pairs.len() ==> #[trigger] after.decls[d.decls.len() + k] == (DeclView {
                    node: at,
                    prefix: pairs[k].0,
                    uri: pairs[k].1,
                })
            &&& after.nodes.len() > at && after.nodes[at] == d.nodes[at]
            &&& forall|k: int|
                at < k < after.nodes.len() ==> (#[trigger] after.nodes[k]).parent == Some(at)
                    && after.nodes[k].kind is Attribute
        }),
    decreases items.len(),
{
    if items.len() > 0 {
        lemma_tag_items(d, at, items.drop_last());
        let before = tree::draft_attrs(d, at, items.drop_last());
        let after = tree::draft_attrs(d, at, items);
        let pairs = decls_of(items);
        assert(d.decls =~= after.decls.take(d.decls.len() as int)) by {
            assert(d.decls =~= before.decls.take(d.decls.len() as int));
        }
        assert forall|k: int| 0 <= k < pairs.len() implies #[trigger] after.decls[d.decls.len() + k]
            == (DeclView { node: at, prefix: pairs[k].0, uri: pairs[k].1 }) by {
            if k < decls_of(items.drop_last()).len() {
                assert(after.decls[d.decls.len() + k] == before.decls[d.decls.len() + k]);
            }
        }
        assert forall|k: int| at < k < after.nodes.len() implies (
        #[trigger] after.nodes[k]).parent == Some(at) && after.nodes[k].kind is Attribute by {
            if k < before.nodes.len() {
                assert(after.nodes[k] == before.nodes[k]);
            }
        }
    } else {
        assert(d.decls =~= d.decls.take(d.decls.len() as int));
    }
}

/// A processing instruction's target is what stands before the first white space, its value
/// what stands behind that white space.
pub proof fn lemma_instruction_words(word: Seq<char>, gap: Seq<char>, rest: Seq<char>)
    requires
        forall|i: int| 0 <= i < word.len() ==> !numbers::space(#[trigger] word[i]),
        numbers::spaces(gap),
        rest.len() > 0 ==> !numbers::space(rest[0]),
        gap.len() == 0 ==> rest.len() == 0,
    ensures
        text::head_word(word + gap + rest) == word,
        text::tail_words(word + gap + rest) == rest,
{
    let s = word + gap + rest;
    let k = word.len() as int;
    assert forall|i: int| 0 <= i < k implies !text::white(#[trigger] s[i]) by {
        assert(s[i] == word[i]);
        assert(!numbers::space(word[i]));
    }
    if gap.len() > 0 {
        assert(s[k] == gap[0]);
        assert(numbers::space(gap[0]));
    }
    lemma_first_white(s, k);
    assert(s.take(k) =~= word);
    if gap.len() > 0 {
        let drop = |c: char| text::white(c);
        let pre = gap.drop_first();
        assert(s.skip(k + 1) =~= pre + rest);
        assert forall|i: int| 0 <= i < pre.len() implies drop(#[trigger] pre[i]) by {
            assert(numbers::space(gap[i + 1]));
        }
        crate::laws::white_space::lemma_start(pre, rest, drop);
        if rest.len() > 0 {
            assert(!drop(rest[0]));
        }
    }
}

proof fn lemma_first_white(s: Seq<char>, k: int)
    requires
        0 <= k <= s.len(),
        forall|i: int| 0 <= i < k ==> !text::white(#[trigger] s[i]),
        k < s.len() ==> text::white(s[k]),
    ensures
        text::first_white(s) == k,
    decreases k,
{
    if k > 0 {
        assert(!text::white(s[0]));
        assert forall|i: int| 0 <= i < k - 1 implies !text::white(#[trigger] s.drop_first()[i]) by {
            assert(!text::white(s[i + 1]));
        }
        lemma_first_white(s.drop_first(), k - 1);
    }
}

proof fn lemma_colon(p: Seq<u8>, l: Seq<u8>)
    requires
        !p.contains(58),
    ensures
        xml_reader::prefix_of(p + seq![58u8] + l) == Some(p),
        xml_reader::local_of(p + seq![58u8] + l) == l,
        xml_reader::prefix_of(p) is None,
        xml_reader::local_of(p) == p,
{
    lemma_colon_at(p, l);
    let n = p + seq![58u8] + l;
    assert(n.take(p.len() as int) =~= p);
    assert(n.skip(p.len() as int + 1) =~= l);
}

proof fn lemma_colon_at(p: Seq<u8>, l: Seq<u8>)
    requires
        !p.contains(58),
    ensures
        xml_reader::colon_at(p + seq![58u8] + l) == p.len(),
        xml_reader::colon_at(p) == p.len(),
    decreases p.len(),
{
    let n = p + seq![58u8] + l;
    if p.len() > 0 {
        assert(p.contains(p[0]));
        let q = p.drop_first();
        assert(!q.contains(58)) by {
            if q.contains(58) {
                let k = choose|k: int| 0 <= k < q.len() && q[k] == 58;
                assert(p[k + 1] == 58);
            }
        }
        lemma_colon_at(q, l);
        assert(n.drop_first() =~= q + seq![58u8] + l);
        assert(n[0] == p[0]);
    } else {
        assert(n[0] == 58);
    }
}

/// An element's name: a prefix that is bound gives the namespace and is kept; one that is not
/// is dropped, and the element is in none; without a prefix the element is in the default
/// namespace, where there is one. An empty URI stands for no namespace. The prefix ends at the
/// first colon.
pub proof fn lemma_element_names(
    p: Seq<u8>,
    l: Seq<u8>,
    scope: Map<Seq<u8>, Seq<u8>>,
    g: Unescaping,
)
    requires
        !p.contains(58),
        p.len() > 0,
    ensures
        ({
            let q = p + seq![58u8] + l;
            let e = parse::decoded_element(q, q.len(), scope, g);
            let bound = scope.dom().contains(p) && scope[p].len() > 0;
            &&& e.local == text::utf8_lossy(l)
            &&& bound ==> e.ns == Some(text::utf8_lossy(scope[p])) && e.prefix == Some(
                text::utf8_lossy(p),
            )
            &&& !bound ==> e.ns is None && e.prefix is None
        }),
        !l.contains(58) ==> {
            let e = parse::decoded_element(l, l.len(), scope, g);
            let none = Seq::<u8>::empty();
            let bound = scope.dom().contains(none) && scope[none].len() > 0;
            &&& e.local == text::utf8_lossy(l)
            &&& e.prefix is None
            &&& bound ==> e.ns == Some(text::utf8_lossy(scope[none]))
            &&& !bound ==> e.ns is None
        },
{
    let q = p + seq![58u8] + l;
    lemma_colon(p, l);
    if !l.contains(58) {
        lemma_colon(l, p);
    }
    assert(q.take(q.len() as int) =~= q);
    assert(l.take(l.len() as int) =~= l);
}

/// An attribute: one bound to the namespace of declarations declares a prefix, one called
/// `xmlns` the default namespace. Any other is an attribute, in the namespace of its prefix
/// where that is bound, otherwise in none.
pub proof fn lemma_attribute_names(
    p: Seq<u8>,
    l: Seq<u8>,
    value: Seq<u8>,
    scope: Map<Seq<u8>, Seq<u8>>,
    g: Unescaping,
)
    requires
        !p.contains(58),
        p.len() > 0,
    ensures
        ({
            let a = parse::decoded_attr(p + seq![58u8] + l, value, scope, g);
            let v = parse::unescaped(value, g);
            let bound = scope.dom().contains(p);
            let declares = bound && scope[p] == encode_utf8("http://www.w3.org/2000/xmlns/"@);
            &&& declares ==> a == (AttrView::Decl { declared: text::utf8_lossy(l), uri: v })
            &&& bound && !declares && scope[p].len() > 0 ==> a == (AttrView::Attr {
                local: text::utf8_lossy(l),
                ns: Some(text::utf8_lossy(scope[p])),
                prefix: Some(text::utf8_lossy(p)),
                value: v,
            })
            &&& !bound || !declares && scope[p].len() == 0 ==> a == (AttrView::Attr {
                local: text::utf8_lossy(l),
                ns: None,
                prefix: None,
                value: v,
            })
        }),
        !l.contains(58) ==> {
            let a = parse::decoded_attr(l, value, scope, g);
            let v = parse::unescaped(value, g);
            &&& text::utf8_lossy(l) == "xmlns"@ ==> a == (AttrView::Decl {
                declared: Seq::empty(),
                uri: v,
            })
            &&& text::utf8_lossy(l) != "xmlns"@ ==> a == (AttrView::Attr {
                local: text::utf8_lossy(l),
                ns: None,
                prefix: None,
                value: v,
            })
        },
{
    reveal_strlit("");
    assert(""@ =~= Seq::<char>::empty());
    lemma_colon(p, l);
    if !l.contains(58) {
        lemma_colon(l, p);
    }
}

/// Events: texts, comments and attribute values have their escapes undone, or stand as they
/// are where the escapes are wrong; CDATA sections and instructions stand as they are.
pub proof fn lemma_events_decoded(s: RawStep, g: Unescaping)
    ensures
        match s.event {
            RawView::Text(raw) => parse::decoded(s, g) == EventView::Text(
                if g(raw) is Some {
                    g(raw)->0
                } else {
                    text::utf8_lossy(raw)
                },
            ),
            RawView::Comment(raw) => parse::decoded(s, g) == EventView::Comment(
                if g(raw) is Some {
                    g(raw)->0
                } else {
                    text::utf8_lossy(raw)
                },
            ),
            RawView::Cdata(raw) => parse::decoded(s, g) == EventView::Cdata(text::utf8_lossy(raw)),
            RawView::Pi(raw) => parse::decoded(s, g) == EventView::Pi(text::utf8_lossy(raw)),
            RawView::Start { tag, name_len } => parse::decoded(s, g) == EventView::Start(
                parse::decoded_element(tag, name_len, s.scope, g),
            ),
            RawView::Empty { tag, name_len } => parse::decoded(s, g) == EventView::Empty(
                parse::decoded_element(tag, name_len, s.scope, g),
            ),
            RawView::End => parse::decoded(s, g) is End,
            RawView::Other => parse::decoded(s, g) is Other,
            RawView::Eof => parse::decoded(s, g) is Eof,
            RawView::Malformed => parse::decoded(s, g) is Malformed,
        },
        forall|raw: Seq<u8>| #[trigger]
            parse::unescaped(raw, g) == (if g(raw) is Some {
                g(raw)->0
            } else {
                text::utf8_lossy(raw)
            }),
{
}

/// The attributes of a tag that are well-formed, in order.
pub proof fn lemma_attributes_decoded(
    items: Seq<Option<(Seq<u8>, Seq<u8>)>>,
    item: Option<(Seq<u8>, Seq<u8>)>,
    scope: Map<Seq<u8>, Seq<u8>>,
    g: Unescaping,
)
    ensures
        parse::decoded_attrs(Seq::empty(), scope, g).len() == 0,
        parse::decoded_attrs(items.push(item), scope, g) == (match item {
            Some(kv) => parse::decoded_attrs(items, scope, g).push(
                parse::decoded_attr(kv.0, kv.1, scope, g),
            ),
            None => parse::decoded_attrs(items, scope, g),
        }),
{
    assert(items.push(item).drop_last() =~= items);
}

/// A text that is all that an element holds becomes the element's value, and then no node of
/// its own.
pub proof fn lemma_only_text(e: ElementView, t: Seq<char>, set: ParseSettings)
    requires
        !set.ignore_white,
    ensures
        ({
            let evs = seq![EventView::Start(e), EventView::Text(t), EventView::End];
            let nodes = tree::run(tree::start_state(), evs, set).draft.nodes;
            &&& nodes.len() == 1 + attrs_of(e.attrs).len()
            &&& nodes[0].kind is Element && nodes[0].name == Some(e.local) && nodes[0].value
                == Some(t) && nodes[0].parent is None
        }),
{
    let st = tree::start_state();
    let evs = seq![EventView::Start(e), EventView::Text(t), EventView::End];
    let one = tree::step(st, evs[0], set);
    let two = tree::step(one, evs[1], set);
    let three = tree::step(two, evs[2], set);
    let rest = evs.drop_first();
    assert(rest[0] == evs[1]);
    assert(rest.drop_first()[0] == evs[2]);
    assert(rest.drop_first().drop_first() =~= Seq::<EventView>::empty());
    assert(tree::run(three, rest.drop_first().drop_first(), set) == tree::flushed(three));
    assert(tree::run(two, rest.drop_first(), set) == tree::flushed(three));
    assert(tree::run(one, rest, set) == tree::flushed(three));
    assert(tree::run(st, evs, set) == tree::flushed(three));
    lemma_tag_declares(st.draft, None, e);
    let nodes = one.draft.nodes;
    lemma_attr_count(tree::draft_head(st.draft, None, e), 0, e.attrs);
    assert(crate::doc::first_kid(nodes, Some(0), false, 0) is None) by {
        crate::doc::lemma_first_kid(nodes, Some(0), false, 0);
        if crate::doc::first_kid(nodes, Some(0), false, 0) is Some {
            let j = crate::doc::first_kid(nodes, Some(0), false, 0)->0;
            if j > 0 {
                assert(nodes[j].kind is Attribute);
            }
        }
    }
    assert(two.pending == Some(t));
    assert(two.open.last() == 0);
    assert(three.draft.nodes.len() == nodes.len());
    assert(three.draft.nodes[0] == NodeView { value: Some(t), ..nodes[0] });
    assert(three.pending is None);
}

proof fn lemma_attr_count(d: Draft, id: int, items: Seq<AttrView>)
    ensures
        tree::draft_attrs(d, id, items).nodes.len() == d.nodes.len() + attrs_of(items).len(),
    decreases items.len(),
{
    if items.len() > 0 {
        lemma_attr_count(d, id, items.drop_last());
    }
}

/// A name that begins with a colon has an empty prefix, which is bound to nothing.
pub proof fn lemma_empty_prefix(l: Seq<u8>, scope: Map<Seq<u8>, Seq<u8>>, g: Unescaping)
    ensures
        ({
            let q = seq![58u8] + l;
            let e = parse::decoded_element(q, q.len(), scope, g);
            e.local == text::utf8_lossy(l) && e.ns is None && e.prefix is None
        }),
{
    let q = seq![58u8] + l;
    let none = Seq::<u8>::empty();
    assert(none + seq![58u8] + l =~= q);
    assert(q.take(q.len() as int) =~= q);
    lemma_colon(none, l);
}

/// Where the input ends, all that was read is in the document, and what would follow is not.
pub proof fn lemma_end_of_input(
    st: ParseState,
    a: Seq<EventView>,
    b: Seq<EventView>,
    set: ParseSettings,
)
    requires
        forall|i: int| 0 <= i < a.len() ==> !(#[trigger] a[i] is Eof) && !(a[i] is Malformed),
    ensures
        tree::run(st, a + seq![EventView::Eof] + b, set) == tree::run(st, a, set),
        tree::run(st, a + seq![EventView::Malformed] + b, set) == tree::run(
            st,
            a + seq![EventView::Malformed],
            set,
        ),
    decreases a.len(),
{
    let x = a + seq![EventView::Eof] + b;
    let y = a + seq![EventView::Malformed] + b;
    let z = a + seq![EventView::Malformed];
    if a.len() > 0 {
        let rest = a.drop_first();
        assert forall|i: int| 0 <= i < rest.len() implies !(#[trigger] rest[i] is Eof) && !(rest[i]
            is Malformed) by {
            assert(rest[i] == a[i + 1]);
        }
        lemma_end_of_input(tree::step(st, a[0], set), rest, b, set);
        assert(x.drop_first() =~= rest + seq![EventView::Eof] + b);
        assert(y.drop_first() =~= rest + seq![EventView::Malformed] + b);
        assert(z.drop_first() =~= rest + seq![EventView::Malformed]);
        assert(x[0] == a[0] && y[0] == a[0] && z[0] == a[0]);
    } else {
        assert(x[0] is Eof && y[0] is Malformed && z[0] is Malformed);
    }
}

/// The text that a node holds: that of a text or a CDATA section, or of an element that has
/// taken its only text.
pub open spec fn text_in(v: NodeView) -> Multiset<Seq<char>> {
    if (v.kind is Text || v.kind is Cdata || v.kind is Element) && v.value is Some {
        Multiset::singleton(v.value->0)
    } else {
        Multiset::empty()
    }
}

/// The texts that nodes hold.
pub open spec fn texts_in(nodes: Seq<NodeView>) -> Multiset<Seq<char>>
    decreases nodes.len(),
{
    if nodes.len() == 0 {
        Multiset::empty()
    } else {
        texts_in(nodes.drop_last()).add(text_in(nodes.last()))
    }
}

/// The texts and CDATA sections among events.
pub open spec fn texts_read(evs: Seq<EventView>) -> Multiset<Seq<char>>
    decreases evs.len(),
{
    if evs.len() == 0 {
        Multiset::empty()
    } else {
        let rest = texts_read(evs.drop_first());
        match evs[0] {
            EventView::Text(t) => Multiset::singleton(t).add(rest),
            EventView::Cdata(t) => Multiset::singleton(t).add(rest),
            _ => rest,
        }
    }
}

spec fn texts_held(st: ParseState) -> Multiset<Seq<char>> {
    texts_in(st.draft.nodes).add(
        match st.pending {
            Some(t) => Multiset::singleton(t),
            None => Multiset::empty(),
        },
    )
}

/// Elements that are open stand in the order of their nodes and have no value.
spec fn open_in_order(st: ParseState) -> bool {
    &&& forall|k: int|
        0 <= k < st.open.len() ==> 0 <= #[trigger] st.open[k] < st.draft.nodes.len()
            && st.draft.nodes[st.open[k]].kind is Element && st.draft.nodes[st.open[k]].value
            is None
    &&& forall|k: int, l: int|
        0 <= k < l < st.open.len() ==> #[trigger] st.open[k] < #[trigger] st.open[l]
}

proof fn lemma_text_pushed(nodes: Seq<NodeView>, v: NodeView)
    ensures
        texts_in(nodes.push(v)) == texts_in(nodes).add(text_in(v)),
{
    assert(nodes.push(v).drop_last() =~= nodes);
}

proof fn lemma_text_taken(nodes: Seq<NodeView>, e: int, w: NodeView)
    requires
        0 <= e < nodes.len(),
        text_in(nodes[e]) == Multiset::<Seq<char>>::empty(),
    ensures
        texts_in(nodes.update(e, w)) =~= texts_in(nodes).add(text_in(w)),
    decreases nodes.len(),
{
    let more = nodes.update(e, w);
    if e == nodes.len() - 1 {
        assert(more.drop_last() =~= nodes.drop_last());
    } else {
        lemma_text_taken(nodes.drop_last(), e, w);
        assert(more.drop_last() =~= nodes.drop_last().update(e, w));
        assert(more.last() == nodes.last());
    }
}

proof fn lemma_texts_of_tag(d: Draft, id: int, items: Seq<AttrView>)
    ensures
        texts_in(tree::draft_attrs(d, id, items).nodes) =~= texts_in(d.nodes),
        d.nodes.is_prefix_of(tree::draft_attrs(d, id, items).nodes),
    decreases items.len(),
{
    if items.len() > 0 {
        let front = tree::draft_attrs(d, id, items.drop_last());
        lemma_texts_of_tag(d, id, items.drop_last());
        match items.last() {
            AttrView::Attr { local, ns, prefix, value } => {
                let after = tree::draft_attr(front, id, items.last());
                lemma_text_pushed(front.nodes, after.nodes.last());
                assert(after.nodes =~= front.nodes.push(after.nodes.last()));
            },
            _ => {},
        }
    }
}

proof fn lemma_step_texts(st: ParseState, ev: EventView, set: ParseSettings)
    requires
        open_in_order(st),
        !set.ignore_white,
    ensures
        open_in_order(tree::step(st, ev, set)),
        texts_held(tree::step(st, ev, set)) =~= texts_held(st).add(texts_read(seq![ev])),
{
    let f = tree::flushed(st);
    if st.pending is Some {
        let v = tree::text_node(
            E4XNodeKindReadOnly::Text,
            tree::parent_of(st.open),
            st.pending->0,
        );
        lemma_text_pushed(st.draft.nodes, v);
        assert(f.draft.nodes == st.draft.nodes.push(v));
    }
    assert(texts_held(f) =~= texts_held(st));
    assert(open_in_order(f));
    assert(seq![ev].drop_first() =~= Seq::<EventView>::empty());
    assert(texts_read(Seq::<EventView>::empty()) == Multiset::<Seq<char>>::empty());
    match ev {
        EventView::Start(e) | EventView::Empty(e) => {
            let head = tree::draft_head(f.draft, tree::parent_of(f.open), e);
            let v = head.nodes.last();
            assert(head.nodes == f.draft.nodes.push(v));
            lemma_text_pushed(f.draft.nodes, v);
            lemma_texts_of_tag(head, f.draft.nodes.len() as int, e.attrs);
            let after = tree::draft_element(f.draft, tree::parent_of(f.open), e);
            assert forall|k: int| 0 <= k < head.nodes.len() implies #[trigger] after.nodes[k]
                == head.nodes[k] by {}
            let next = tree::step(st, ev, set);
            assert(next.draft == after);
            assert forall|k: int| 0 <= k < next.open.len() implies 0 <= #[trigger] next.open[k]
                < next.draft.nodes.len() && next.draft.nodes[next.open[k]].kind is Element
                && next.draft.nodes[next.open[k]].value is None by {
                if k < f.open.len() {
                    assert(next.open[k] == f.open[k]);
                    assert(after.nodes[f.open[k]] == head.nodes[f.open[k]]);
                } else {
                    assert(after.nodes[f.draft.nodes.len() as int] == v);
                }
            }
        },
        EventView::Text(t) => {},
        EventView::Cdata(t) => {
            let v = tree::text_node(E4XNodeKindReadOnly::Cdata, tree::parent_of(f.open), t);
            lemma_text_pushed(f.draft.nodes, v);
        },
        EventView::Comment(t) => {
            let v = tree::text_node(E4XNodeKindReadOnly::Comment, tree::parent_of(f.open), t);
            lemma_text_pushed(f.draft.nodes, v);
        },
        EventView::Pi(raw) => {
            let next = tree::with_pi(f, raw);
            lemma_text_pushed(f.draft.nodes, next.draft.nodes.last());
            assert(next.draft.nodes == f.draft.nodes.push(next.draft.nodes.last()));
        },
        EventView::End => {
            if st.open.len() > 0 && st.pending is Some {
                let e = st.open.last();
                let t = st.pending->0;
                assert(e == st.open[st.open.len() - 1]);
                let w = NodeView { value: Some(t), ..st.draft.nodes[e] };
                lemma_text_taken(st.draft.nodes, e, w);
                let next = tree::step(st, ev, set);
                assert forall|k: int| 0 <= k < next.open.len() implies next.open[k] == st.open[k]
                    && st.open[k] < e by {}
            }
        },
        _ => {},
    }
}

proof fn lemma_texts_from(st: ParseState, evs: Seq<EventView>, set: ParseSettings)
    requires
        !set.ignore_white,
        open_in_order(st),
        forall|i: int|
            0 <= i < evs.len() ==> !(#[trigger] evs[i] is Malformed) && !(evs[i] is Eof),
    ensures
        texts_in(tree::run(st, evs, set).draft.nodes) =~= texts_held(st).add(texts_read(evs)),
    decreases evs.len(),
{
    if evs.len() == 0 {
        lemma_step_texts(st, EventView::Eof, set);
        assert(tree::flushed(st).pending is None);
        assert(texts_read(seq![EventView::Eof]) == texts_read(
            seq![EventView::Eof].drop_first(),
        ));
        assert(seq![EventView::Eof].drop_first() =~= Seq::<EventView>::empty());
    } else {
        let rest = evs.drop_first();
        lemma_step_texts(st, evs[0], set);
        assert forall|i: int| 0 <= i < rest.len() implies !(#[trigger] rest[i] is Malformed) && !(
        rest[i] is Eof) by {
            assert(rest[i] == evs[i + 1]);
        }
        lemma_texts_from(tree::step(st, evs[0], set), rest, set);
        let one = seq![evs[0]];
        assert(one.drop_first() =~= Seq::<EventView>::empty());
        assert(texts_read(one.drop_first()) == Multiset::<Seq<char>>::empty());
        assert(texts_read(evs) =~= texts_read(one).add(texts_read(rest)));
    }
}

/// A document parsed with white space kept holds exactly the texts and CDATA sections of its
/// source, each as it is and as often as it is there.
pub proof fn lemma_texts_kept(
    source: Seq<char>,
    evs: Seq<EventView>,
    set: ParseSettings,
    g: Unescaping,
)
    requires
        !set.ignore_white,
        parse::decoded_all(xml_reader::source_events(source), g) == evs.push(EventView::Eof),
        forall|i: int|
            0 <= i < evs.len() ==> !(#[trigger] evs[i] is Malformed) && !(evs[i] is Eof),
    ensures
        texts_in(parse::parsed(source, set, g).draft.nodes) == texts_read(evs),
{
    let st = tree::start_state();
    let none = Seq::<EventView>::empty();
    lemma_texts_from(st, evs, set);
    lemma_end_of_input(st, evs, none, set);
    assert(evs.push(EventView::Eof) =~= evs + seq![EventView::Eof] + none);
    assert(texts_in(parse::parsed(source, set, g).draft.nodes) =~= texts_read(evs));
}

} // verus!
