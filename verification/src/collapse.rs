//! What the collapse of an element's only text into the element leaves as it was.

use crate::builder::Draft;
use crate::doc;
use crate::doc::Doc;
use crate::doc::NodeView;
use crate::events::AttrView;
use crate::events::ElementView;
use crate::events::EventView;
use crate::events::ParseSettings;
use crate::node_data::E4XNodeKindReadOnly;
use crate::queries;
use crate::serialize;
use crate::tree;
use crate::tree::ParseState;
use vstd::prelude::*;

verus! {

/// The simple contents of the nodes at indices, one behind the other.
pub open spec fn texts_at(nodes: Seq<NodeView>, at: Seq<u32>) -> Seq<char>
    decreases at.len(),
{
    if at.len() == 0 {
        Seq::empty()
    } else {
        queries::string_value(nodes, at[0]) + texts_at(nodes, at.drop_first())
    }
}

/// The nodes at indices as XML, one behind the other.
pub open spec fn xmls_at(d: Doc, at: Seq<u32>) -> Seq<char>
    decreases at.len(),
{
    if at.len() == 0 {
        Seq::empty()
    } else {
        serialize::xml_at(d, at[0]) + xmls_at(d, at.drop_first())
    }
}

/// A collapsed element has one child: a text with the element as its parent and the
/// element's value as its own.
pub proof fn lemma_collapsed_child(nodes: Seq<NodeView>, i: u32)
    requires
        doc::nodes_ok(nodes),
        i < nodes.len(),
        doc::collapsed(nodes[i as int]),
    ensures
        doc::child_indices(nodes, i) == seq![doc::virtual_index(i as int)],
        queries::text_indices(nodes, i) == seq![doc::virtual_index(i as int)],
        doc::valid_index(nodes, doc::virtual_index(i as int)),
        doc::node_at(nodes, doc::virtual_index(i as int)) == tree::text_node(
            E4XNodeKindReadOnly::Text,
            Some(i as int),
            nodes[i as int].value->0,
        ),
{
}

proof fn lemma_kids_texts(nodes: Seq<NodeView>, i: int, from: int)
    requires
        doc::nodes_ok(nodes),
        0 <= from,
    ensures
        queries::kids_text(nodes, i, from) == texts_at(
            nodes,
            doc::as_links(doc::kids(nodes, Some(i), false, from)),
        ),
    decreases nodes.len() - from,
{
    if from < nodes.len() {
        lemma_kids_texts(nodes, i, from + 1);
        if doc::is_kid(nodes[from], Some(i), false) {
            let at = doc::as_links(doc::kids(nodes, Some(i), false, from));
            assert(at[0] == from as u32);
            assert(at.drop_first() =~= doc::as_links(doc::kids(nodes, Some(i), false, from + 1)));
            assert(queries::string_value(nodes, at[0]) == queries::simple_text(nodes, from));
        }
    }
}

proof fn lemma_kids_xmls(d: Doc, i: int, from: int)
    requires
        doc::nodes_ok(d.nodes),
        0 <= from,
    ensures
        serialize::kids_xml(d, i, from) == xmls_at(
            d,
            doc::as_links(doc::kids(d.nodes, Some(i), false, from)),
        ),
    decreases d.nodes.len() - from,
{
    if from < d.nodes.len() {
        lemma_kids_xmls(d, i, from + 1);
        if doc::is_kid(d.nodes[from], Some(i), false) {
            let at = doc::as_links(doc::kids(d.nodes, Some(i), false, from));
            assert(at[0] == from as u32);
            assert(at.drop_first() =~= doc::as_links(doc::kids(d.nodes, Some(i), false, from + 1)));
            assert(serialize::xml_at(d, at[0]) == serialize::xml_text(d, from));
        }
    }
}

/// The simple content of an element is that of its children, whether or not its text was
/// taken into the element.
pub proof fn lemma_text_of_children(nodes: Seq<NodeView>, i: u32)
    requires
        doc::nodes_ok(nodes),
        i < nodes.len(),
        nodes[i as int].kind is Element,
    ensures
        queries::string_value(nodes, i) == texts_at(nodes, doc::child_indices(nodes, i)),
{
    if doc::collapsed(nodes[i as int]) {
        let at = seq![doc::virtual_index(i as int)];
        assert(at.drop_first() =~= Seq::<u32>::empty());
        assert(texts_at(nodes, at.drop_first()) =~= Seq::<char>::empty());
        assert(queries::string_value(nodes, i) =~= texts_at(nodes, at));
    } else {
        queries::lemma_kids_behind(nodes, i as int, false);
        lemma_kids_texts(nodes, i as int, i + 1);
    }
}

/// An element is written as its tags around its children, whether or not its text was taken
/// into the element; without children as one tag.
pub proof fn lemma_xml_of_children(d: Doc, i: u32)
    requires
        doc::nodes_ok(d.nodes),
        i < d.nodes.len(),
        d.nodes[i as int].kind is Element,
    ensures
        ({
            let at = doc::child_indices(d.nodes, i);
            serialize::xml_at(d, i) == (if at.len() == 0 {
                serialize::open_tag(d, i as int) + "/>"@
            } else {
                serialize::open_tag(d, i as int) + ">"@ + xmls_at(d, at) + serialize::end_tag(
                    d,
                    i as int,
                )
            })
        }),
{
    let nodes = d.nodes;
    if doc::collapsed(nodes[i as int]) {
        let at = seq![doc::virtual_index(i as int)];
        assert(at.drop_first() =~= Seq::<u32>::empty());
        assert(xmls_at(d, at.drop_first()) =~= Seq::<char>::empty());
        assert(xmls_at(d, at) =~= serialize::escaped(nodes[i as int].value->0, false));
    } else {
        queries::lemma_kids_behind(nodes, i as int, false);
        lemma_kids_xmls(d, i as int, i + 1);
        doc::lemma_kids_step(nodes, Some(i as int), false, 0);
    }
}

/// The nodes that an element stands for with its attributes.
pub open spec fn element_cost(attrs: Seq<AttrView>) -> nat
    decreases attrs.len(),
{
    if attrs.len() == 0 {
        1
    } else {
        element_cost(attrs.drop_last()) + (if attrs.last() is Attr {
            1nat
        } else {
            0
        })
    }
}

/// The nodes that events stand for if every text has a node of its own.
pub open spec fn plain_cost(evs: Seq<EventView>) -> nat
    decreases evs.len(),
{
    if evs.len() == 0 {
        0
    } else {
        plain_cost(evs.drop_first()) + (match evs[0] {
            EventView::Start(e) | EventView::Empty(e) => element_cost(e.attrs),
            EventView::Text(_) | EventView::Cdata(_) | EventView::Comment(_) | EventView::Pi(
                _,
            ) => 1,
            _ => 0,
        })
    }
}

proof fn lemma_element_cost(st: ParseState, e: ElementView)
    ensures
        tree::with_element(st, e).draft.nodes.len() == st.draft.nodes.len() + element_cost(e.attrs),
{
    let head = tree::draft_head(st.draft, tree::parent_of(st.open), e);
    lemma_attrs_cost(head, st.draft.nodes.len() as int, e.attrs);
}

proof fn lemma_attrs_cost(d: Draft, id: int, attrs: Seq<AttrView>)
    ensures
        tree::draft_attrs(d, id, attrs).nodes.len() + 1 == d.nodes.len() + element_cost(attrs),
    decreases attrs.len(),
{
    if attrs.len() > 0 {
        lemma_attrs_cost(d, id, attrs.drop_last());
    }
}

/// The nodes so far, with the text that is held back.
pub open spec fn nodes_due(st: ParseState) -> nat {
    st.draft.nodes.len() + (if st.pending is Some {
        1nat
    } else {
        0
    })
}

/// The collapse never costs nodes: a document has at most one for each element, attribute,
/// text, comment and processing instruction that was read.
pub proof fn lemma_collapse_saves(st: ParseState, evs: Seq<EventView>, set: ParseSettings)
    ensures
        tree::run(st, evs, set).draft.nodes.len() <= nodes_due(st) + plain_cost(evs),
    decreases evs.len(),
{
    if evs.len() > 0 {
        let next = tree::step(st, evs[0], set);
        match evs[0] {
            EventView::Start(e) | EventView::Empty(e) => {
                lemma_element_cost(tree::flushed(st), e);
            },
            _ => {},
        }
        if !(evs[0] is Eof || evs[0] is Malformed) {
            lemma_collapse_saves(next, evs.drop_first(), set);
        }
    }
}

} // verus!
