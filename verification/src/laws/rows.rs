//! What columns take from rows.

use crate::cells;
use crate::cells::OwnedSelectorView;
use crate::cells::Resolving;
use crate::cells::Row;
use crate::cells::SelectorView;
use crate::multiname::MultinameView;
use crate::queries;
use crate::text;
use crate::xml_tree;
use crate::xml_tree::XmlKind;
use crate::xml_tree::XmlNode;
use vstd::prelude::*;

verus! {

/// A field selects the row itself where it is empty, attributes where it begins with `@`, and
/// child elements otherwise; no field selects nothing. Its label is its name.
pub proof fn lemma_fields(name: Seq<char>)
    ensures
        cells::opt_selector(None) is Empty,
        cells::opt_selector(Some(Seq::empty())) is Node,
        cells::opt_selector(Some(seq!['@'] + name)) == OwnedSelectorView::Attr(name),
        name.len() > 0 && name[0] != '@' ==> cells::opt_selector(Some(name))
            == OwnedSelectorView::Child(name),
        cells::field_label(None).len() == 0,
        cells::field_label(Some(seq!['@'] + name)) == name,
        name.len() == 0 || name[0] != '@' ==> cells::field_label(Some(name)) == name,
{
    assert((seq!['@'] + name).drop_first() =~= name);
}

/// A selector's name is resolved as an attribute's or an element's; where it cannot be, there is
/// no selector.
pub proof fn lemma_selectors(name: Seq<char>, g: Resolving)
    ensures
        cells::resolved(OwnedSelectorView::Empty, g) == Some(SelectorView::Empty),
        cells::resolved(OwnedSelectorView::Node, g) == Some(SelectorView::Node),
        g(name, false) is None ==> cells::resolved(OwnedSelectorView::Child(name), g) is None,
        g(name, true) is None ==> cells::resolved(OwnedSelectorView::Attr(name), g) is None,
        g(name, false) matches Some(m) ==> cells::resolved(OwnedSelectorView::Child(name), g)
            == Some(SelectorView::Child(m)),
        g(name, true) matches Some(m) ==> cells::resolved(OwnedSelectorView::Attr(name), g) == Some(
            SelectorView::Attr(m),
        ),
{
}

/// A column takes from a row the text of what it selects: of the row, or of its matching
/// attributes or child elements in lines; an object has a text of its own for each column.
pub proof fn lemma_row_texts(row: Row, selectors: Seq<SelectorView>, c: int)
    requires
        0 <= c < selectors.len(),
    ensures
        ({
            let t = cells::row_texts(row, selectors)[c];
            &&& cells::row_texts(row, selectors).len() == selectors.len()
            &&& selectors[c] is Empty ==> t.len() == 0
            &&& row matches Row::ReadOnly(n) ==> match selectors[c] {
                SelectorView::Empty => true,
                SelectorView::Node => t == queries::string_value(n@.nodes(), n@.index),
                SelectorView::Attr(m) => t == queries::joined_text(
                    n@.nodes(),
                    queries::matching_attrs(n@.nodes(), n@.index, m),
                ),
                SelectorView::Child(m) => t == queries::joined_text(
                    n@.nodes(),
                    queries::matching_children(n@.nodes(), n@.index, m),
                ),
            }
            &&& row matches Row::Xml(n) ==> match selectors[c] {
                SelectorView::Empty => true,
                SelectorView::Node => t == xml_tree::simple_text(*n),
                SelectorView::Attr(m) => t == xml_tree::lines(
                    xml_tree::selected(xml_tree::attributes_of(*n), m, false),
                ),
                SelectorView::Child(m) => t == xml_tree::lines(
                    xml_tree::selected(xml_tree::children_of(*n), m, true),
                ),
            }
            &&& row matches Row::Object(texts) ==> (!(selectors[c] is Empty) ==> {
                &&& c < texts@.len() && texts@[c] is Some ==> t == texts@[c]->0@
                &&& c >= texts@.len() || texts@[c] is None ==> t.len() == 0
            })
        }),
{
}

/// The content of a tree's node: the text of a text, a CDATA section or an attribute, none of a
/// comment or a processing instruction, of an element that of its children in order.
pub proof fn lemma_tree_content(node: XmlNode, nodes: Seq<XmlNode>)
    ensures
        match node.kind {
            XmlKind::Text(s) => xml_tree::simple_text(node) == s@,
            XmlKind::CData(s) => xml_tree::simple_text(node) == s@,
            XmlKind::Attribute(s) => xml_tree::simple_text(node) == s@,
            XmlKind::Comment(_) => xml_tree::simple_text(node).len() == 0,
            XmlKind::ProcessingInstruction(_) => xml_tree::simple_text(node).len() == 0,
            XmlKind::Element { children, attributes } => xml_tree::simple_text(node)
                == xml_tree::simple_texts(children@) && xml_tree::children_of(node) == children@
                && xml_tree::attributes_of(node) == attributes@,
        },
        xml_tree::simple_texts(Seq::empty()).len() == 0,
        xml_tree::simple_texts(nodes.push(node)) == xml_tree::simple_texts(nodes)
            + xml_tree::simple_text(node),
{
    assert(nodes.push(node).drop_last() =~= nodes);
}

/// The contents of several nodes of a tree stand in lines.
pub proof fn lemma_tree_lines(nodes: Seq<XmlNode>, node: XmlNode)
    ensures
        xml_tree::lines(Seq::empty()).len() == 0,
        xml_tree::lines(seq![node]) == xml_tree::simple_text(node),
        nodes.len() > 0 ==> xml_tree::lines(nodes.push(node)) == xml_tree::lines(nodes) + seq![
            '\u{a}',
        ] + xml_tree::simple_text(node),
{
    assert(nodes.push(node).drop_last() =~= nodes);
    if nodes.len() > 0 {
        assert(xml_tree::lines(nodes).push('\n') =~= xml_tree::lines(nodes) + seq!['\u{a}']);
    }
}

/// What a name selects among nodes of a tree: those of a matching name, in order, and only
/// elements where elements are asked for. A name matches as it does in a document.
pub proof fn lemma_tree_selected(
    nodes: Seq<XmlNode>,
    node: XmlNode,
    want: MultinameView,
    elements: bool,
    as_stored: crate::doc::NodeView,
)
    requires
        as_stored.name == text::opt_text(node.name),
        as_stored.ns == text::opt_text(node.ns),
    ensures
        xml_tree::selected(Seq::empty(), want, elements).len() == 0,
        xml_tree::selected(nodes.push(node), want, elements) == (if queries::name_matches(
            as_stored,
            want,
        ) && (!elements || node.kind is Element) {
            xml_tree::selected(nodes, want, elements).push(node)
        } else {
            xml_tree::selected(nodes, want, elements)
        }),
{
    assert(nodes.push(node).drop_last() =~= nodes);
}

} // verus!
