//! Parsing a source text into a document.

use crate::builder;
use crate::doc::Doc;
use crate::events;
use crate::events::AttrItem;
use crate::events::AttrView;
use crate::events::ElementItem;
use crate::events::ElementView;
use crate::events::EventView;
use crate::events::ParseSettings;
use crate::events::XmlEvent;
use crate::store::E4XStoreReadOnly;
use crate::text;
use crate::text::same_bytes;
use crate::text::same_text;
use crate::text::text_from_utf8_lossy;
use crate::tree;
use crate::tree::ParseState;
use crate::tree::TreeBuilder;
use crate::xml_reader;
use crate::xml_reader::attributes_of;
use crate::xml_reader::open_source;
use crate::xml_reader::read_raw;
use crate::xml_reader::resolve_attribute;
use crate::xml_reader::resolve_element;
use crate::xml_reader::split_name;
use crate::xml_reader::RawEvent;
use crate::xml_reader::RawStep;
use crate::xml_reader::RawView;
use crate::xml_reader::Resolved;
use crate::xml_reader::ResolvedView;
use quick_xml::NsReader;
use vstd::prelude::*;
use vstd::utf8::*;

verus! {

/// How escapes are undone: from the bytes of a text to the text, or nothing where the
/// escapes in it are wrong.
pub type Unescaping = spec_fn(Seq<u8>) -> Option<Seq<char>>;

/// `f` computes `g`.
pub open spec fn computes<F: Fn(&[u8]) -> Option<String>>(f: F, g: Unescaping) -> bool {
    forall|raw: &[u8], r: Option<String>| #[trigger]
        call_ensures(f, (raw,), r) ==> g(raw@) == text::opt_text(r)
}

/// A text with its escapes undone, or as it stands where they are wrong.
pub open spec fn unescaped(raw: Seq<u8>, g: Unescaping) -> Seq<char> {
    match g(raw) {
        Some(t) => t,
        None => text::utf8_lossy(raw),
    }
}

/// The namespace URI reserved for `xmlns:` declarations.
pub open spec fn xmlns_uri() -> Seq<char> {
    "http://www.w3.org/2000/xmlns/"@
}

/// The namespace URI of a resolved name, where it is in one.
pub open spec fn bound_uri(res: ResolvedView) -> Option<Seq<char>> {
    match res {
        ResolvedView::Bound(ns) => if ns.len() > 0 {
            Some(text::utf8_lossy(ns))
        } else {
            None
        },
        _ => None,
    }
}

/// The prefix that is kept of a name: only that of a name in a namespace.
pub open spec fn kept_prefix(name: Seq<u8>, res: ResolvedView) -> Option<Seq<char>> {
    if bound_uri(res) is Some {
        match xml_reader::prefix_of(name) {
            Some(p) => Some(text::utf8_lossy(p)),
            None => None,
        }
    } else {
        None
    }
}

/// One attribute of a tag: a namespace declaration or an attribute.
pub open spec fn decoded_attr(
    key: Seq<u8>,
    value: Seq<u8>,
    scope: Map<Seq<u8>, Seq<u8>>,
    g: Unescaping,
) -> AttrView {
    let res = xml_reader::resolution(scope, key, false);
    let local = text::utf8_lossy(xml_reader::local_of(key));
    if res == ResolvedView::Bound(encode_utf8(xmlns_uri())) {
        AttrView::Decl { declared: local, uri: unescaped(value, g) }
    } else if res is Unbound && local == "xmlns"@ {
        AttrView::Decl { declared: ""@, uri: unescaped(value, g) }
    } else {
        AttrView::Attr {
            local,
            ns: bound_uri(res),
            prefix: kept_prefix(key, res),
            value: unescaped(value, g),
        }
    }
}

/// The attributes of a tag, in order, without those that are not well-formed.
pub open spec fn decoded_attrs(
    items: Seq<Option<(Seq<u8>, Seq<u8>)>>,
    scope: Map<Seq<u8>, Seq<u8>>,
    g: Unescaping,
) -> Seq<AttrView>
    decreases items.len(),
{
    if items.len() == 0 {
        Seq::empty()
    } else {
        match items.last() {
            Some(kv) => decoded_attrs(items.drop_last(), scope, g).push(
                decoded_attr(kv.0, kv.1, scope, g),
            ),
            None => decoded_attrs(items.drop_last(), scope, g),
        }
    }
}

/// The element that a tag opens.
pub open spec fn decoded_element(
    tag: Seq<u8>,
    name_len: nat,
    scope: Map<Seq<u8>, Seq<u8>>,
    g: Unescaping,
) -> ElementView {
    let name = tag.take(name_len as int);
    let res = xml_reader::resolution(scope, name, true);
    ElementView {
        local: text::utf8_lossy(xml_reader::local_of(name)),
        ns: bound_uri(res),
        prefix: kept_prefix(name, res),
        attrs: decoded_attrs(xml_reader::tag_attributes(tag, name_len), scope, g),
    }
}

/// An event with its names resolved and its escapes undone.
pub open spec fn decoded(s: RawStep, g: Unescaping) -> EventView {
    match s.event {
        RawView::Start { tag, name_len } => EventView::Start(
            decoded_element(tag, name_len, s.scope, g),
        ),
        RawView::Empty { tag, name_len } => EventView::Empty(
            decoded_element(tag, name_len, s.scope, g),
        ),
        RawView::Text(raw) => EventView::Text(unescaped(raw, g)),
        RawView::Cdata(raw) => EventView::Cdata(text::utf8_lossy(raw)),
        RawView::Comment(raw) => EventView::Comment(unescaped(raw, g)),
        RawView::Pi(raw) => EventView::Pi(text::utf8_lossy(raw)),
        RawView::End => EventView::End,
        RawView::Other => EventView::Other,
        RawView::Eof => EventView::Eof,
        RawView::Malformed => EventView::Malformed,
    }
}

/// All events with names resolved and escapes undone.
pub open spec fn decoded_all(steps: Seq<RawStep>, g: Unescaping) -> Seq<EventView> {
    Seq::new(steps.len(), |i: int| decoded(steps[i], g))
}

/// The state that parsing a source ends in.
pub open spec fn parsed(source: Seq<char>, set: ParseSettings, g: Unescaping) -> ParseState {
    tree::run(
        tree::start_state(),
        decoded_all(xml_reader::source_events(source), g),
        set,
    )
}

/// Undoes the escapes of `raw`.
fn unescape_text<F: Fn(&[u8]) -> Option<String>>(raw: &[u8], unescape: &F) -> (r: String)
    requires
        forall|x: &[u8]| call_requires(*unescape, (x,)),
    ensures
        forall|g: Unescaping| #[trigger] computes(*unescape, g) ==> r@ == unescaped(raw@, g),
{
    match unescape(raw) {
        Some(t) => t,
        None => text_from_utf8_lossy(raw),
    }
}

/// The URI and the prefix that are kept of a resolved name.
fn kept_name(res: &Resolved, prefix: Option<&[u8]>) -> (r: (Option<String>, Option<String>))
    ensures
        text::opt_text(r.0) == bound_uri(res@),
        text::opt_text(r.1) == (if bound_uri(res@) is Some {
            match prefix {
                Some(p) => Some(text::utf8_lossy(p@)),
                None => None,
            }
        } else {
            None
        }),
{
    match res {
        Resolved::Bound(ns) => if ns.len() > 0 {
            let p: Option<String> = match prefix {
                Some(p) => Some(text_from_utf8_lossy(p)),
                None => None,
            };
            (Some(text_from_utf8_lossy(ns.as_slice())), p)
        } else {
            (None, None)
        },
        _ => (None, None),
    }
}

/// Resolves one attribute of a tag.
fn decode_attr<F: Fn(&[u8]) -> Option<String>>(
    reader: &NsReader<&[u8]>,
    key: &[u8],
    value: &[u8],
    unescape: &F,
) -> (r: AttrItem)
    requires
        forall|x: &[u8]| call_requires(*unescape, (x,)),
    ensures
        forall|g: Unescaping| #[trigger]
            computes(*unescape, g) ==> r@ == decoded_attr(
                key@,
                value@,
                xml_reader::bindings(*reader),
                g,
            ),
{
    let res = resolve_attribute(reader, key);
    let (prefix, local_bytes) = split_name(key);
    let local = text_from_utf8_lossy(local_bytes);
    let value = unescape_text(value, unescape);
    let declares: bool = match &res {
        Resolved::Bound(ns) => same_bytes(
            ns.as_slice(),
            "http://www.w3.org/2000/xmlns/".as_bytes(),
        ),
        _ => false,
    };
    if declares {
        return AttrItem::Decl { declared: local, uri: value };
    }
    let unbound: bool = matches!(res, Resolved::Unbound);
    if unbound && same_text(local.as_str(), "xmlns") {
        return AttrItem::Decl { declared: "".to_string(), uri: value };
    }
    let (ns, prefix) = kept_name(&res, prefix);
    AttrItem::Attr { local, ns, prefix, value }
}

/// Resolves the element that a tag opens.
fn decode_element<F: Fn(&[u8]) -> Option<String>>(
    reader: &NsReader<&[u8]>,
    tag: &[u8],
    name_len: usize,
    unescape: &F,
) -> (r: ElementItem)
    requires
        name_len <= tag@.len(),
        forall|x: &[u8]| call_requires(*unescape, (x,)),
    ensures
        forall|g: Unescaping| #[trigger]
            computes(*unescape, g) ==> r@ == decoded_element(
                tag@,
                name_len as nat,
                xml_reader::bindings(*reader),
                g,
            ),
{
    let name = vstd::slice::slice_subrange(tag, 0, name_len);
    assert(name@ =~= tag@.take(name_len as int));
    let res = resolve_element(reader, name);
    let (prefix, local_bytes) = split_name(name);
    let local = text_from_utf8_lossy(local_bytes);
    let (ns, prefix) = kept_name(&res, prefix);
    let items = attributes_of(tag, name_len);
    let ghost views = xml_reader::pair_views(items@);
    let ghost scope = xml_reader::bindings(*reader);
    let mut attrs: Vec<AttrItem> = Vec::new();
    let mut i: usize = 0;
    proof {
        assert(views.take(0) =~= Seq::empty());
        assert(events::attr_views(attrs@) =~= Seq::empty());
    }
    while i < items.len()
        invariant
            i <= items@.len(),
            views == xml_reader::pair_views(items@),
            scope == xml_reader::bindings(*reader),
            forall|x: &[u8]| call_requires(*unescape, (x,)),
            forall|g: Unescaping| #[trigger]
                computes(*unescape, g) ==> events::attr_views(attrs@) == decoded_attrs(
                    views.take(i as int),
                    scope,
                    g,
                ),
        decreases items@.len() - i,
    {
        let ghost before = attrs@;
        proof {
            assert(views.take(i + 1).drop_last() =~= views.take(i as int));
            assert(views.take(i + 1).last() == views[i as int]);
        }
        match &items[i] {
            Some(kv) => {
                let a = decode_attr(reader, kv.0.as_slice(), kv.1.as_slice(), unescape);
                attrs.push(a);
                proof {
                    assert(events::attr_views(attrs@) =~= events::attr_views(before).push(a@));
                }
            },
            None => {},
        }
        i += 1;
    }
    proof {
        assert(views.take(i as int) =~= views);
    }
    ElementItem { local, ns, prefix, attrs }
}

/// Resolves the names of an event just read and undoes its escapes.
fn decode<F: Fn(&[u8]) -> Option<String>>(
    reader: &NsReader<&[u8]>,
    raw: &RawEvent,
    unescape: &F,
) -> (r: XmlEvent)
    requires
        raw matches RawEvent::Start { tag, name_len } ==> name_len <= tag@.len(),
        raw matches RawEvent::Empty { tag, name_len } ==> name_len <= tag@.len(),
        forall|x: &[u8]| call_requires(*unescape, (x,)),
    ensures
        forall|g: Unescaping| #[trigger]
            computes(*unescape, g) ==> r@ == decoded(
                (RawStep { event: raw@, scope: xml_reader::bindings(*reader) }),
                g,
            ),
{
    match raw {
        RawEvent::Start { tag, name_len } => XmlEvent::Start(
            decode_element(reader, tag.as_slice(), *name_len, unescape),
        ),
        RawEvent::Empty { tag, name_len } => XmlEvent::Empty(
            decode_element(reader, tag.as_slice(), *name_len, unescape),
        ),
        RawEvent::Text(t) => XmlEvent::Text(unescape_text(t.as_slice(), unescape)),
        RawEvent::Cdata(t) => XmlEvent::Cdata(text_from_utf8_lossy(t.as_slice())),
        RawEvent::Comment(t) => XmlEvent::Comment(unescape_text(t.as_slice(), unescape)),
        RawEvent::Pi(t) => XmlEvent::Pi(text_from_utf8_lossy(t.as_slice())),
        RawEvent::End => XmlEvent::End,
        RawEvent::Other => XmlEvent::Other,
        RawEvent::Eof => XmlEvent::Eof,
        RawEvent::Malformed => XmlEvent::Malformed,
    }
}

/// A state that does not fit leads to no state that fits.
proof fn lemma_run_extends(st: ParseState, evs: Seq<EventView>, set: ParseSettings)
    ensures
        builder::fits(tree::run(st, evs, set).draft) ==> builder::fits(st.draft),
    decreases evs.len(),
{
    if evs.len() == 0 {
        tree::lemma_step_fits(st, EventView::Eof, set);
    } else {
        tree::lemma_step_fits(st, evs[0], set);
        if !(evs[0] is Eof || evs[0] is Malformed) {
            lemma_run_extends(tree::step(st, evs[0], set), evs.drop_first(), set);
        }
    }
}

impl E4XStoreReadOnly {
    /// Parses `source`. Malformed input ends the document where it stands; `None` means
    /// that the document does not fit the arenas.
    ///
    /// `unescape` undoes the character and entity references of a text.
    pub fn parse<F: Fn(&[u8]) -> Option<String>>(
        source: &str,
        ignore_white: bool,
        ignore_comments: bool,
        ignore_pi: bool,
        unescape: &F,
    ) -> (r: Option<Self>)
        requires
            forall|x: &[u8]| call_requires(*unescape, (x,)),
        ensures
            forall|g: Unescaping| #[trigger]
                computes(*unescape, g) ==> {
                    let set = ParseSettings { ignore_white, ignore_comments, ignore_pi };
                    let end = parsed(source@, set, g);
                    &&& r is Some <==> builder::fits(end.draft)
                    &&& r matches Some(store) ==> store.doc() == (Doc {
                        nodes: end.draft.nodes,
                        decls: end.draft.decls,
                    }) && store.refs() == builder::refs_of(end.draft.log)
                },
    {
        let set = ParseSettings { ignore_white, ignore_comments, ignore_pi };
        let mut tree = TreeBuilder::new();
        let mut reader = open_source(source);
        loop
            invariant
                tree.wf(),
                set == (ParseSettings { ignore_white, ignore_comments, ignore_pi }),
                forall|x: &[u8]| call_requires(*unescape, (x,)),
                forall|g: Unescaping| #[trigger]
                    computes(*unescape, g) ==> parsed(source@, set, g) == tree::run(
                        tree@,
                        decoded_all(xml_reader::events_ahead(reader), g),
                        set,
                    ),
            decreases xml_reader::events_ahead(reader).len(),
        {
            let ghost ahead = xml_reader::events_ahead(reader);
            let ghost st = tree@;
            let raw = read_raw(&mut reader);
            let ev = decode(&reader, &raw, unescape);
            let last: bool = matches!(raw, RawEvent::Eof) || matches!(raw, RawEvent::Malformed);
            proof {
                assert forall|g: Unescaping| #[trigger] computes(*unescape, g) implies {
                    let after = tree::step(st, ev@, set);
                    &&& last ==> parsed(source@, set, g) == after
                    &&& !last ==> ahead.len() > 0 && parsed(source@, set, g) == tree::run(
                        after,
                        decoded_all(xml_reader::events_ahead(reader), g),
                        set,
                    )
                    &&& builder::fits(parsed(source@, set, g).draft) ==> builder::fits(after.draft)
                } by {
                    let evs = decoded_all(ahead, g);
                    if ahead.len() > 0 {
                        assert(evs[0] == ev@);
                        assert(evs.drop_first() =~= decoded_all(
                            xml_reader::events_ahead(reader),
                            g,
                        ));
                        if !last {
                            lemma_run_extends(
                                tree::step(st, ev@, set),
                                evs.drop_first(),
                                set,
                            );
                        }
                    } else {
                        assert(evs.len() == 0);
                    }
                }
            }
            if !tree.apply(&ev, set) {
                return None;
            }
            if last {
                proof {
                    tree.lemma_fits();
                }
                return Some(tree.finish());
            }
        }
    }
}

} // verus!
