//! The XML reader: events as the tokenizer gives them, and names resolved against the
//! namespace bindings in force.

use quick_xml::events::BytesStart;
use quick_xml::events::Event;
use quick_xml::name::QName;
use quick_xml::name::ResolveResult;
use quick_xml::NsReader;
use vstd::prelude::*;

verus! {

/// `quick_xml::NsReader`, the namespace-aware tokenizer.
#[verifier::external_type_specification]
#[verifier::external_body]
#[verifier::reject_recursive_types(R)]
pub struct ExNsReader<R>(quick_xml::NsReader<R>);

/// An event as the tokenizer gives it. A tag is the text between its brackets, of
/// which the first `name_len` bytes are the name.
pub enum RawEvent {
    Start { tag: Vec<u8>, name_len: usize },
    Empty { tag: Vec<u8>, name_len: usize },
    Text(Vec<u8>),
    Cdata(Vec<u8>),
    Comment(Vec<u8>),
    Pi(Vec<u8>),
    End,
    Other,
    Eof,
    Malformed,
}

/// A [`RawEvent`] by its bytes.
pub enum RawView {
    Start { tag: Seq<u8>, name_len: nat },
    Empty { tag: Seq<u8>, name_len: nat },
    Text(Seq<u8>),
    Cdata(Seq<u8>),
    Comment(Seq<u8>),
    Pi(Seq<u8>),
    End,
    Other,
    Eof,
    Malformed,
}

impl View for RawEvent {
    type V = RawView;

    open spec fn view(&self) -> RawView {
        match *self {
            RawEvent::Start { tag, name_len } => RawView::Start {
                tag: tag@,
                name_len: name_len as nat,
            },
            RawEvent::Empty { tag, name_len } => RawView::Empty {
                tag: tag@,
                name_len: name_len as nat,
            },
            RawEvent::Text(t) => RawView::Text(t@),
            RawEvent::Cdata(t) => RawView::Cdata(t@),
            RawEvent::Comment(t) => RawView::Comment(t@),
            RawEvent::Pi(t) => RawView::Pi(t@),
            RawEvent::End => RawView::End,
            RawEvent::Other => RawView::Other,
            RawEvent::Eof => RawView::Eof,
            RawEvent::Malformed => RawView::Malformed,
        }
    }
}

/// One event, and the namespace bindings in force once it was read: from each prefix
/// (the empty one for the default namespace) to its URI. A prefix bound to the empty
/// URI is not bound.
pub struct RawStep {
    pub event: RawView,
    pub scope: Map<Seq<u8>, Seq<u8>>,
}

/// The events that a reader has still to give, in order.
pub uninterp spec fn events_ahead(reader: NsReader<&[u8]>) -> Seq<RawStep>;

/// The namespace bindings in force at a reader's position.
pub uninterp spec fn bindings(reader: NsReader<&[u8]>) -> Map<Seq<u8>, Seq<u8>>;

/// The events that `NsReader::from_str` finds in a source.
pub uninterp spec fn source_events(source: Seq<char>) -> Seq<RawStep>;

/// `NsReader::from_str`: a reader before the first event of `source`. Which events a
/// source holds is left to the tokenizer.
#[verifier::external_body]
pub(crate) fn open_source(source: &str) -> (r: NsReader<&[u8]>)
    ensures
        events_ahead(r) == source_events(source@),
{
    NsReader::from_str(source)
}

/// `NsReader::read_event`: gives the next event and goes on behind it; behind the last
/// one it gives the end of input for ever. A tag's name lies inside the tag.
#[verifier::external_body]
pub(crate) fn read_raw(reader: &mut NsReader<&[u8]>) -> (r: RawEvent)
    ensures
        events_ahead(*old(reader)).len() > 0 ==> {
            &&& r@ == events_ahead(*old(reader))[0].event
            &&& bindings(*final(reader)) == events_ahead(*old(reader))[0].scope
            &&& events_ahead(*final(reader)) == events_ahead(*old(reader)).drop_first()
        },
        events_ahead(*old(reader)).len() == 0 ==> r@ is Eof && events_ahead(*final(reader)).len()
            == 0,
        r matches RawEvent::Start { tag, name_len } ==> name_len <= tag@.len(),
        r matches RawEvent::Empty { tag, name_len } ==> name_len <= tag@.len(),
{
    let Ok(event) = reader.read_event() else { return RawEvent::Malformed };
    match event {
        Event::Start(e) => RawEvent::Start { tag: e.to_vec(), name_len: e.name().0.len() },
        Event::Empty(e) => RawEvent::Empty { tag: e.to_vec(), name_len: e.name().0.len() },
        Event::Text(t) => RawEvent::Text(t.to_vec()),
        Event::CData(t) => RawEvent::Cdata(t.to_vec()),
        Event::Comment(t) => RawEvent::Comment(t.to_vec()),
        Event::PI(t) => RawEvent::Pi(t.to_vec()),
        Event::End(_) => RawEvent::End,
        Event::Eof => RawEvent::Eof,
        _ => RawEvent::Other,
    }
}

/// What the attribute iterator of `quick_xml` finds in a tag behind its name: key and
/// value of each attribute, nothing for one that is not well-formed.
pub uninterp spec fn tag_attributes(tag: Seq<u8>, name_len: nat) -> Seq<
    Option<(Seq<u8>, Seq<u8>)>,
>;

/// Attribute keys and values by their bytes.
pub open spec fn pair_views(items: Seq<Option<(Vec<u8>, Vec<u8>)>>) -> Seq<
    Option<(Seq<u8>, Seq<u8>)>,
> {
    Seq::new(
        items.len(),
        |i: int|
            match items[i] {
                Some(kv) => Some((kv.0@, kv.1@)),
                None => None,
            },
    )
}

/// `BytesStart::attributes`: the attributes of a tag, in order, with those that are not
/// well-formed marked.
#[verifier::external_body]
pub(crate) fn attributes_of(tag: &[u8], name_len: usize) -> (r: Vec<Option<(Vec<u8>, Vec<u8>)>>)
    requires
        name_len <= tag@.len(),
    ensures
        pair_views(r@) == tag_attributes(tag@, name_len as nat),
{
    BytesStart::from_content(String::from_utf8_lossy(tag), name_len).attributes().map(
        |a| a.ok().map(|a| (a.key.0.to_vec(), a.value.to_vec())),
    ).collect()
}

/// A name's namespace: bound to a URI, in none, or with a prefix that is not bound.
pub enum Resolved {
    Bound(Vec<u8>),
    Unbound,
    Unknown,
}

/// A [`Resolved`] by its bytes.
pub enum ResolvedView {
    Bound(Seq<u8>),
    Unbound,
    Unknown,
}

impl View for Resolved {
    type V = ResolvedView;

    open spec fn view(&self) -> ResolvedView {
        match *self {
            Resolved::Bound(ns) => ResolvedView::Bound(ns@),
            Resolved::Unbound => ResolvedView::Unbound,
            Resolved::Unknown => ResolvedView::Unknown,
        }
    }
}

/// Where the first colon of a name stands, or its length.
pub open spec fn colon_at(name: Seq<u8>) -> int
    decreases name.len(),
{
    if name.len() == 0 || name[0] == 58 {
        0
    } else {
        1 + colon_at(name.drop_first())
    }
}

/// The prefix of a qualified name.
pub open spec fn prefix_of(name: Seq<u8>) -> Option<Seq<u8>> {
    if colon_at(name) < name.len() {
        Some(name.take(colon_at(name)))
    } else {
        None
    }
}

/// The local part of a qualified name.
pub open spec fn local_of(name: Seq<u8>) -> Seq<u8> {
    if colon_at(name) < name.len() {
        name.skip(colon_at(name) + 1)
    } else {
        name
    }
}

/// The namespace of a name under given bindings. A prefix must be bound; without one,
/// an element is in the default namespace and an attribute in none.
pub open spec fn resolution(
    scope: Map<Seq<u8>, Seq<u8>>,
    name: Seq<u8>,
    element: bool,
) -> ResolvedView {
    match prefix_of(name) {
        Some(p) => if p.len() > 0 && scope.dom().contains(p) {
            ResolvedView::Bound(scope[p])
        } else {
            ResolvedView::Unknown
        },
        None => if element && scope.dom().contains(Seq::<u8>::empty()) {
            ResolvedView::Bound(scope[Seq::<u8>::empty()])
        } else {
            ResolvedView::Unbound
        },
    }
}

/// `NsReader::resolve_element`: the namespace of an element name under the bindings in
/// force.
#[verifier::external_body]
pub(crate) fn resolve_element(reader: &NsReader<&[u8]>, name: &[u8]) -> (r: Resolved)
    ensures
        r@ == resolution(bindings(*reader), name@, true),
{
    match reader.resolve_element(QName(name)).0 {
        ResolveResult::Bound(ns) => Resolved::Bound(ns.into_inner().to_vec()),
        ResolveResult::Unbound => Resolved::Unbound,
        ResolveResult::Unknown(_) => Resolved::Unknown,
    }
}

/// `NsReader::resolve_attribute`: the namespace of an attribute name under the bindings
/// in force.
#[verifier::external_body]
pub(crate) fn resolve_attribute(reader: &NsReader<&[u8]>, name: &[u8]) -> (r: Resolved)
    ensures
        r@ == resolution(bindings(*reader), name@, false),
{
    match reader.resolve_attribute(QName(name)).0 {
        ResolveResult::Bound(ns) => Resolved::Bound(ns.into_inner().to_vec()),
        ResolveResult::Unbound => Resolved::Unbound,
        ResolveResult::Unknown(_) => Resolved::Unknown,
    }
}

/// Splits a qualified name at its first colon.
pub(crate) fn split_name(name: &[u8]) -> (r: (Option<&[u8]>, &[u8]))
    ensures
        r.1@ == local_of(name@),
        match r.0 {
            Some(p) => prefix_of(name@) == Some(p@),
            None => prefix_of(name@) is None,
        },
{
    let n: usize = name.len();
    let mut at: usize = 0;
    assert(name@.skip(0) =~= name@);
    while at < n && name[at] != 58
        invariant
            at <= n == name@.len(),
            colon_at(name@) == at + colon_at(name@.skip(at as int)),
        decreases n - at,
    {
        assert(name@.skip(at as int).drop_first() =~= name@.skip(at + 1));
        at += 1;
    }
    if at == n {
        return (None, name);
    }
    let prefix = vstd::slice::slice_subrange(name, 0, at);
    let local = vstd::slice::slice_subrange(name, at + 1, n);
    assert(prefix@ =~= name@.take(at as int));
    assert(local@ =~= name@.skip(at + 1));
    (Some(prefix), local)
}

} // verus!
