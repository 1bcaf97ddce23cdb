//! The events of a document, with names resolved and texts unescaped.

use crate::text;
use vstd::prelude::*;

verus! {

/// What to leave out of a parsed document.
#[derive(Clone, Copy)]
pub struct ParseSettings {
    pub ignore_white: bool,
    pub ignore_comments: bool,
    pub ignore_pi: bool,
}

/// What stands among an element's attributes: a namespace declaration or an
/// attribute.
pub enum AttrItem {
    Decl { declared: String, uri: String },
    Attr { local: String, ns: Option<String>, prefix: Option<String>, value: String },
}

/// An element's name and attributes.
pub struct ElementItem {
    pub local: String,
    pub ns: Option<String>,
    pub prefix: Option<String>,
    pub attrs: Vec<AttrItem>,
}

/// One event of a document.
pub enum XmlEvent {
    Start(ElementItem),
    Empty(ElementItem),
    Text(String),
    Cdata(String),
    Comment(String),
    Pi(String),
    End,
    /// A declaration or document type: nothing is kept of it.
    Other,
    Eof,
    /// The source is not well-formed from here on.
    Malformed,
}

/// An [`AttrItem`] by its texts.
pub enum AttrView {
    Decl { declared: Seq<char>, uri: Seq<char> },
    Attr {
        local: Seq<char>,
        ns: Option<Seq<char>>,
        prefix: Option<Seq<char>>,
        value: Seq<char>,
    },
}

/// An [`ElementItem`] by its texts.
#[verifier::ext_equal]
pub struct ElementView {
    pub local: Seq<char>,
    pub ns: Option<Seq<char>>,
    pub prefix: Option<Seq<char>>,
    pub attrs: Seq<AttrView>,
}

/// An [`XmlEvent`] by its texts.
#[verifier::ext_equal]
pub enum EventView {
    Start(ElementView),
    Empty(ElementView),
    Text(Seq<char>),
    Cdata(Seq<char>),
    Comment(Seq<char>),
    Pi(Seq<char>),
    End,
    Other,
    Eof,
    Malformed,
}

impl View for AttrItem {
    type V = AttrView;

    open spec fn view(&self) -> AttrView {
        match *self {
            AttrItem::Decl { declared, uri } => AttrView::Decl { declared: declared@, uri: uri@ },
            AttrItem::Attr { local, ns, prefix, value } => AttrView::Attr {
                local: local@,
                ns: text::opt_text(ns),
                prefix: text::opt_text(prefix),
                value: value@,
            },
        }
    }
}

impl View for ElementItem {
    type V = ElementView;

    open spec fn view(&self) -> ElementView {
        ElementView {
            local: self.local@,
            ns: text::opt_text(self.ns),
            prefix: text::opt_text(self.prefix),
            attrs: attr_views(self.attrs@),
        }
    }
}

/// Attribute items by their texts.
pub open spec fn attr_views(attrs: Seq<AttrItem>) -> Seq<AttrView> {
    Seq::new(attrs.len(), |i: int| attrs[i]@)
}

impl View for XmlEvent {
    type V = EventView;

    open spec fn view(&self) -> EventView {
        match *self {
            XmlEvent::Start(e) => EventView::Start(e@),
            XmlEvent::Empty(e) => EventView::Empty(e@),
            XmlEvent::Text(t) => EventView::Text(t@),
            XmlEvent::Cdata(t) => EventView::Cdata(t@),
            XmlEvent::Comment(t) => EventView::Comment(t@),
            XmlEvent::Pi(t) => EventView::Pi(t@),
            XmlEvent::End => EventView::End,
            XmlEvent::Other => EventView::Other,
            XmlEvent::Eof => EventView::Eof,
            XmlEvent::Malformed => EventView::Malformed,
        }
    }
}

} // verus!
