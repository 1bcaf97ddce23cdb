//! From events to a tree: open elements, held-back text, and the collapse of an
//! element's only text into the element.

use crate::builder;
use crate::builder::Builder;
use crate::builder::Draft;
use crate::builder::NsDeclReadOnly;
use crate::doc;
use crate::doc::DeclView;
use crate::doc::Doc;
use crate::doc::NodeView;
use crate::events::AttrItem;
use crate::events::AttrView;
use crate::events::ElementItem;
use crate::events::ElementView;
use crate::events::EventView;
use crate::events::ParseSettings;
use crate::events::XmlEvent;
use crate::node_data::E4XNodeDataReadOnly;
use crate::node_data::E4XNodeKindReadOnly;
use crate::node_data::NO_NODE;
use crate::store::E4XStoreReadOnly;
use crate::text;
use crate::text::is_all_blank;
use crate::text::split_word;
use crate::text::trim_blank;
use vstd::prelude::*;

verus! {

/// A document part-way through its events: the draft, the open elements from the
/// outside in, and the text that may yet become the innermost one's value.
#[verifier::ext_equal]
pub struct ParseState {
    pub draft: Draft,
    pub open: Seq<int>,
    pub pending: Option<Seq<char>>,
}

/// Before any event.
pub open spec fn start_state() -> ParseState {
    ParseState { draft: builder::empty_draft(), open: Seq::empty(), pending: None }
}

/// The innermost open element.
pub open spec fn parent_of(open: Seq<int>) -> Option<int> {
    if open.len() > 0 {
        Some(open.last())
    } else {
        None
    }
}

/// A text-like node: no name, only a value.
pub open spec fn text_node(
    kind: E4XNodeKindReadOnly,
    parent: Option<int>,
    value: Seq<char>,
) -> NodeView {
    NodeView { kind, parent, name: None, ns: None, prefix: None, value: Some(value) }
}

/// A named node.
pub open spec fn named_node(
    kind: E4XNodeKindReadOnly,
    parent: Option<int>,
    name: Seq<char>,
    ns: Option<Seq<char>>,
    prefix: Option<Seq<char>>,
    value: Option<Seq<char>>,
) -> NodeView {
    NodeView { kind, parent, name: Some(name), ns, prefix, value }
}

/// A text-like node added to the innermost open element.
pub open spec fn texted(st: ParseState, kind: E4XNodeKindReadOnly, t: Seq<char>) -> ParseState {
    ParseState {
        draft: builder::with_node(
            builder::logged_value(st.draft, t),
            text_node(kind, parent_of(st.open), t),
        ),
        ..st
    }
}

/// The held-back text has become a node of its own.
pub open spec fn flushed(st: ParseState) -> ParseState {
    match st.pending {
        Some(t) => texted(
            ParseState { pending: None, ..st },
            E4XNodeKindReadOnly::Text,
            t,
        ),
        None => st,
    }
}

/// One item among the attributes of element `id`.
pub open spec fn draft_attr(d: Draft, id: int, a: AttrView) -> Draft {
    match a {
        AttrView::Decl { declared, uri } => builder::with_decl(
            builder::logged(builder::logged(d, declared), uri),
            DeclView { node: id, prefix: declared, uri },
        ),
        AttrView::Attr { local, ns, prefix, value } => builder::with_node(
            builder::logged_value(
                builder::logged(builder::logged_opt(builder::logged_opt(d, ns), prefix), local),
                value,
            ),
            named_node(E4XNodeKindReadOnly::Attribute, Some(id), local, ns, prefix, Some(value)),
        ),
    }
}

/// All items among the attributes of element `id`, in order.
pub open spec fn draft_attrs(d: Draft, id: int, attrs: Seq<AttrView>) -> Draft
    decreases attrs.len(),
{
    if attrs.len() == 0 {
        d
    } else {
        draft_attr(draft_attrs(d, id, attrs.drop_last()), id, attrs.last())
    }
}

/// The draft with an element, before its attributes.
pub open spec fn draft_head(d: Draft, parent: Option<int>, e: ElementView) -> Draft {
    builder::with_node(
        builder::logged_opt(builder::logged_opt(builder::logged(d, e.local), e.ns), e.prefix),
        named_node(E4XNodeKindReadOnly::Element, parent, e.local, e.ns, e.prefix, None),
    )
}

/// The draft with an element, its attributes behind it.
pub open spec fn draft_element(d: Draft, parent: Option<int>, e: ElementView) -> Draft {
    draft_attrs(draft_head(d, parent, e), d.nodes.len() as int, e.attrs)
}

/// An element added to the innermost open element.
pub open spec fn with_element(st: ParseState, e: ElementView) -> ParseState {
    ParseState { draft: draft_element(st.draft, parent_of(st.open), e), ..st }
}

/// The innermost open element is closed. Held-back text that is its only content
/// becomes its value.
pub open spec fn closed_state(st: ParseState) -> ParseState {
    if st.open.len() == 0 {
        flushed(st)
    } else {
        let e = st.open.last();
        let inner = match st.pending {
            Some(t) => if doc::first_kid(st.draft.nodes, Some(e), false, 0) is None {
                ParseState {
                    draft: builder::with_value(builder::logged_value(st.draft, t), e, t),
                    pending: None,
                    ..st
                }
            } else {
                flushed(st)
            },
            None => st,
        };
        ParseState { open: st.open.drop_last(), ..inner }
    }
}

/// A processing instruction: its first word is the target, the rest its value.
pub open spec fn with_pi(st: ParseState, raw: Seq<char>) -> ParseState {
    ParseState {
        draft: builder::with_node(
            builder::logged_value(
                builder::logged(st.draft, text::head_word(raw)),
                text::tail_words(raw),
            ),
            named_node(
                E4XNodeKindReadOnly::ProcessingInstruction,
                parent_of(st.open),
                text::head_word(raw),
                None,
                None,
                Some(text::tail_words(raw)),
            ),
        ),
        ..st
    }
}

/// The state after one event.
pub open spec fn step(st: ParseState, ev: EventView, set: ParseSettings) -> ParseState {
    match ev {
        EventView::Start(e) => {
            let f = flushed(st);
            ParseState {
                open: f.open.push(f.draft.nodes.len() as int),
                ..with_element(f, e)
            }
        },
        EventView::Empty(e) => with_element(flushed(st), e),
        EventView::Text(raw) => if set.ignore_white && text::all_blank(raw) {
            st
        } else {
            ParseState {
                pending: Some(
                    if set.ignore_white {
                        text::blank_trimmed(raw)
                    } else {
                        raw
                    },
                ),
                ..flushed(st)
            }
        },
        EventView::Cdata(t) => texted(flushed(st), E4XNodeKindReadOnly::Cdata, t),
        EventView::Comment(t) => if set.ignore_comments {
            st
        } else {
            texted(flushed(st), E4XNodeKindReadOnly::Comment, t)
        },
        EventView::Pi(raw) => if set.ignore_pi {
            st
        } else {
            with_pi(flushed(st), raw)
        },
        EventView::End => closed_state(st),
        EventView::Eof => flushed(st),
        EventView::Other | EventView::Malformed => st,
    }
}

/// The state after all events up to the first end of input or malformed one.
pub open spec fn run(st: ParseState, evs: Seq<EventView>, set: ParseSettings) -> ParseState
    decreases evs.len(),
{
    if evs.len() == 0 {
        flushed(st)
    } else if evs[0] is Eof || evs[0] is Malformed {
        step(st, evs[0], set)
    } else {
        run(step(st, evs[0], set), evs.drop_first(), set)
    }
}

/// Open elements, their last children, the roots and the last root are what the
/// nodes say.
pub open spec fn frame_ok(
    nodes: Seq<NodeView>,
    open: Seq<int>,
    last_child: Seq<u32>,
    roots: Seq<u32>,
    top_last: u32,
) -> bool {
    &&& open.len() == last_child.len()
    &&& forall|k: int|
        0 <= k < open.len() ==> {
            let e = #[trigger] open[k];
            0 <= e < nodes.len() && nodes[e].kind is Element && nodes[e].value is None
                && last_child[k] == doc::link(doc::last_kid(nodes, Some(e), false))
        }
    &&& forall|k: int, l: int|
        0 <= k < l < open.len() ==> #[trigger] open[k] != #[trigger] open[l]
    &&& top_last == doc::link(doc::last_kid(nodes, None, false))
    &&& roots == doc::as_links(doc::kids(nodes, None, false, 0))
}

proof fn lemma_kids_push(
    nodes: Seq<NodeView>,
    v: NodeView,
    parent: Option<int>,
    attr: bool,
    from: int,
)
    requires
        0 <= from <= nodes.len(),
    ensures
        doc::kids(nodes.push(v), parent, attr, from) == doc::kids(nodes, parent, attr, from) + (
        if doc::is_kid(v, parent, attr) {
            seq![nodes.len() as int]
        } else {
            Seq::empty()
        }),
    decreases nodes.len() - from,
{
    let more = nodes.push(v);
    if from < nodes.len() {
        lemma_kids_push(nodes, v, parent, attr, from + 1);
        assert(more[from] == nodes[from]);
        assert(doc::kids(more, parent, attr, from) =~= doc::kids(nodes, parent, attr, from) + (
        if doc::is_kid(v, parent, attr) {
            seq![nodes.len() as int]
        } else {
            Seq::empty()
        }));
    } else {
        assert(more[from] == v);
        reveal_with_fuel(doc::kids, 2);
        assert(doc::kids(more, parent, attr, from) =~= doc::kids(nodes, parent, attr, from) + (
        if doc::is_kid(v, parent, attr) {
            seq![nodes.len() as int]
        } else {
            Seq::empty()
        }));
    }
}

pub proof fn lemma_last_kid_push(nodes: Seq<NodeView>, v: NodeView, parent: Option<int>, attr: bool)
    ensures
        doc::last_kid(nodes.push(v), parent, attr) == (if doc::is_kid(v, parent, attr) {
            Some(nodes.len() as int)
        } else {
            doc::last_kid(nodes, parent, attr)
        }),
{
    assert(nodes.push(v).drop_last() =~= nodes);
}

/// An attribute leaves the frame as it is.
proof fn lemma_frame_attr(
    nodes: Seq<NodeView>,
    v: NodeView,
    open: Seq<int>,
    last_child: Seq<u32>,
    roots: Seq<u32>,
    top_last: u32,
)
    requires
        frame_ok(nodes, open, last_child, roots, top_last),
        v.kind is Attribute,
    ensures
        frame_ok(nodes.push(v), open, last_child, roots, top_last),
{
    let more = nodes.push(v);
    assert forall|k: int| 0 <= k < open.len() implies {
        let e = #[trigger] open[k];
        0 <= e < more.len() && more[e].kind is Element && more[e].value is None && last_child[k]
            == doc::link(doc::last_kid(more, Some(e), false))
    } by {
        lemma_last_kid_push(nodes, v, Some(open[k]), false);
    }
    lemma_last_kid_push(nodes, v, None, false);
    lemma_kids_push(nodes, v, None, false, 0);
    assert(doc::kids(more, None, false, 0) =~= doc::kids(nodes, None, false, 0));
}

/// A child of the innermost open element becomes its last child.
proof fn lemma_frame_child(
    nodes: Seq<NodeView>,
    v: NodeView,
    open: Seq<int>,
    last_child: Seq<u32>,
    roots: Seq<u32>,
    top_last: u32,
)
    requires
        frame_ok(nodes, open, last_child, roots, top_last),
        !(v.kind is Attribute),
        v.parent == parent_of(open),
    ensures
        open.len() > 0 ==> frame_ok(
            nodes.push(v),
            open,
            last_child.update(open.len() - 1, nodes.len() as u32),
            roots,
            top_last,
        ),
        open.len() == 0 ==> frame_ok(
            nodes.push(v),
            open,
            last_child,
            roots.push(nodes.len() as u32),
            nodes.len() as u32,
        ),
{
    let more = nodes.push(v);
    let last2 = if open.len() > 0 {
        last_child.update(open.len() - 1, nodes.len() as u32)
    } else {
        last_child
    };
    assert forall|k: int| 0 <= k < open.len() implies {
        let e = #[trigger] open[k];
        0 <= e < more.len() && more[e].kind is Element && more[e].value is None && last2[k]
            == doc::link(doc::last_kid(more, Some(e), false))
    } by {
        lemma_last_kid_push(nodes, v, Some(open[k]), false);
        if k < open.len() - 1 {
            assert(open[k] != open[open.len() - 1]);
        }
    }
    lemma_last_kid_push(nodes, v, None, false);
    lemma_kids_push(nodes, v, None, false, 0);
    if open.len() > 0 {
        assert(doc::kids(more, None, false, 0) =~= doc::kids(nodes, None, false, 0));
    } else {
        assert(roots.push(nodes.len() as u32) =~= doc::as_links(doc::kids(more, None, false, 0)));
    }
}

/// Closing the innermost element, whatever its value became.
proof fn lemma_frame_close(
    nodes: Seq<NodeView>,
    after: Seq<NodeView>,
    open: Seq<int>,
    last_child: Seq<u32>,
    roots: Seq<u32>,
    top_last: u32,
)
    requires
        frame_ok(nodes, open, last_child, roots, top_last),
        open.len() > 0,
        doc::same_shape(nodes, after),
        forall|i: int|
            0 <= i < nodes.len() && i != open.last() ==> #[trigger] after[i] == nodes[i],
    ensures
        frame_ok(after, open.drop_last(), last_child.drop_last(), roots, top_last),
{
    let open2 = open.drop_last();
    let last2 = last_child.drop_last();
    assert forall|k: int| 0 <= k < open2.len() implies {
        let e = #[trigger] open2[k];
        0 <= e < after.len() && after[e].kind is Element && after[e].value is None && last2[k]
            == doc::link(doc::last_kid(after, Some(e), false))
    } by {
        assert(open2[k] == open[k]);
        assert(open[k] != open[open.len() - 1]);
        doc::lemma_last_kid_same_shape(nodes, after, Some(open[k]), false);
    }
    assert forall|k: int, l: int| 0 <= k < l < open2.len() implies #[trigger] open2[k]
        != #[trigger] open2[l] by {
        assert(open[k] != open[l]);
    }
    doc::lemma_last_kid_same_shape(nodes, after, None, false);
    lemma_kids_same_shape(nodes, after, None, false, 0);
}

/// Which nodes are kids depends on kinds and parents alone.
pub proof fn lemma_kids_same_shape(
    a: Seq<NodeView>,
    b: Seq<NodeView>,
    parent: Option<int>,
    attr: bool,
    from: int,
)
    requires
        doc::same_shape(a, b),
        0 <= from,
    ensures
        doc::kids(a, parent, attr, from) == doc::kids(b, parent, attr, from),
    decreases a.len() - from,
{
    if from < a.len() {
        assert(a[from].kind == b[from].kind);
        lemma_kids_same_shape(a, b, parent, attr, from + 1);
    }
}

/// The tree builder: consumes events one at a time.
pub struct TreeBuilder {
    b: Builder,
    open: Vec<u32>,
    last_child: Vec<u32>,
    roots: Vec<u32>,
    top_last: u32,
    pending: Option<String>,
}

spec fn positions(open: Seq<u32>) -> Seq<int> {
    Seq::new(open.len(), |i: int| open[i] as int)
}

impl View for TreeBuilder {
    type V = ParseState;

    closed spec fn view(&self) -> ParseState {
        ParseState {
            draft: self.b@,
            open: positions(self.open@),
            pending: text::opt_text(self.pending),
        }
    }
}

impl TreeBuilder {
    pub closed spec fn wf(self) -> bool {
        &&& self.b.wf()
        &&& frame_ok(
            self.b@.nodes,
            positions(self.open@),
            self.last_child@,
            self.roots@,
            self.top_last,
        )
    }

    /// A well-formed builder holds what fits the arenas.
    pub proof fn lemma_fits(self)
        requires
            self.wf(),
        ensures
            builder::fits(self@.draft),
    {
        self.b.lemma_wf();
    }

    /// A builder before any event.
    pub fn new() -> (r: Self)
        ensures
            r.wf(),
            r@ == start_state(),
    {
        let r = TreeBuilder {
            b: Builder::new(),
            open: Vec::new(),
            last_child: Vec::new(),
            roots: Vec::new(),
            top_last: NO_NODE,
            pending: None,
        };
        assert(positions(r.open@) =~= Seq::<int>::empty());
        assert(doc::as_links(doc::kids(r.b@.nodes, None, false, 0)) =~= r.roots@);
        r
    }

    /// The innermost open element, or `NO_NODE`.
    fn parent(&self) -> (r: u32)
        requires
            self.wf(),
        ensures
            r == doc::link(parent_of(self@.open)),
    {
        proof {
            self.b.lemma_wf();
        }
        let n: usize = self.open.len();
        if n > 0 {
            assert(positions(self.open@)[n - 1] == self.open@[n - 1]);
            self.open[n - 1]
        } else {
            NO_NODE
        }
    }

    /// Pushes a node as the last child of the innermost open element, or as a root.
    fn attach_child(&mut self, rec: E4XNodeDataReadOnly, Ghost(v): Ghost<NodeView>) -> (r: Option<
        u32,
    >)
        requires
            old(self).wf(),
            v.parent == parent_of(old(self)@.open),
            !(v.kind is Attribute),
            v.kind is Element ==> v.name is Some,
            !(v.kind is Element) ==> v.value is Some,
            doc::leaf_ok(v),
            doc::fresh_rec(rec@, v, old(self).refs()),
        ensures
            r is Some <==> builder::fits(builder::with_node(old(self)@.draft, v)),
            r matches Some(id) ==> {
                &&& id == old(self)@.draft.nodes.len()
                &&& final(self).wf()
                &&& final(self)@ == (ParseState {
                    draft: builder::with_node(old(self)@.draft, v),
                    ..old(self)@
                })
                &&& final(self).refs() == old(self).refs()
            },
    {
        let ghost open = positions(self.open@);
        let n: usize = self.open.len();
        proof {
            self.b.lemma_wf();
            lemma_frame_child(
                self.b@.nodes,
                v,
                open,
                self.last_child@,
                self.roots@,
                self.top_last,
            );
        }
        let last: u32 = if n > 0 {
            assert(open[n - 1] == open.last());
            self.last_child[n - 1]
        } else {
            self.top_last
        };
        match self.b.attach(rec, last, Ghost(v)) {
            Some(id) => {
                if n > 0 {
                    self.last_child.set(n - 1, id);
                } else {
                    self.top_last = id;
                    self.roots.push(id);
                }
                Some(id)
            },
            None => None,
        }
    }

    pub closed spec fn refs(self) -> Map<u32, Seq<u8>> {
        self.b.refs()
    }

    /// Pushes a text-like node.
    fn push_text(&mut self, kind: E4XNodeKindReadOnly, t: &str) -> (ok: bool)
        requires
            old(self).wf(),
            kind is Text || kind is Cdata || kind is Comment,
        ensures
            ok <==> builder::fits(texted(old(self)@, kind, t@).draft),
            ok ==> final(self).wf() && final(self)@ == texted(old(self)@, kind, t@),
    {
        let ghost target = texted(self@, kind, t@);
        proof {
            lemma_logged(self@.draft, t@);
            builder::lemma_extends_fits(target.draft, builder::logged_value(self@.draft, t@));
        }
        let parent: u32 = self.parent();
        let ghost v = text_node(kind, parent_of(self@.open), t@);
        match self.b.intern_value(t) {
            Some(value) => {
                let rec = E4XNodeDataReadOnly::new(kind, NO_NODE, value, NO_NODE, NO_NODE, parent);
                match self.attach_child(rec, Ghost(v)) {
                    Some(_) => true,
                    None => false,
                }
            },
            None => false,
        }
    }

    /// Turns held-back text into a node of its own.
    fn flush_pending(&mut self) -> (ok: bool)
        requires
            old(self).wf(),
        ensures
            ok <==> builder::fits(flushed(old(self)@).draft),
            ok ==> final(self).wf() && final(self)@ == flushed(old(self)@),
    {
        proof {
            self.b.lemma_wf();
        }
        match self.pending.take() {
            Some(t) => self.push_text(E4XNodeKindReadOnly::Text, t.as_str()),
            None => true,
        }
    }

    /// Adds one item among the attributes of element `id` behind `last_attr`; gives
    /// the last attribute now.
    fn push_attr(&mut self, id: u32, last_attr: u32, a: &AttrItem) -> (r: Option<u32>)
        requires
            old(self).wf(),
            id < old(self)@.draft.nodes.len(),
            old(self)@.draft.nodes[id as int].kind is Element,
            last_attr == doc::link(
                doc::last_kid(old(self)@.draft.nodes, Some(id as int), true),
            ),
        ensures
            r is Some <==> builder::fits(draft_attr(old(self)@.draft, id as int, a@)),
            r matches Some(last) ==> {
                &&& final(self).wf()
                &&& final(self)@ == (ParseState {
                    draft: draft_attr(old(self)@.draft, id as int, a@),
                    ..old(self)@
                })
                &&& last == doc::link(
                    doc::last_kid(final(self)@.draft.nodes, Some(id as int), true),
                )
            },
    {
        let ghost d = self.b@;
        let ghost open = positions(self.open@);
        let ghost target = draft_attr(d, id as int, a@);
        proof {
            self.b.lemma_wf();
        }
        match a {
            AttrItem::Decl { declared, uri } => {
                proof {
                    lemma_logged(builder::logged(d, declared@), uri@);
                    lemma_not_before(
                        target,
                        builder::logged(builder::logged(d, declared@), uri@),
                        builder::logged(d, declared@),
                    );
                }
                let prefix: u32 = match self.b.intern(declared.as_str()) {
                    Some(r) => r,
                    None => {
                        return None;
                    },
                };
                let ghost refs1 = self.b.refs();
                let uri_ref: u32 = match self.b.intern(uri.as_str()) {
                    Some(r) => r,
                    None => {
                        return None;
                    },
                };
                proof {
                    doc::lemma_refers_more(prefix, Some(declared@), refs1, self.b.refs());
                }
                self.b.add_decl(
                    NsDeclReadOnly { node: id, prefix, uri: uri_ref },
                    Ghost(DeclView { node: id as int, prefix: declared@, uri: uri@ }),
                );
                Some(last_attr)
            },
            AttrItem::Attr { local, ns, prefix, value } => {
                let ghost d1 = builder::logged_opt(d, text::opt_text(*ns));
                let ghost d2 = builder::logged_opt(d1, text::opt_text(*prefix));
                let ghost d3 = builder::logged(d2, local@);
                let ghost d4 = builder::logged_value(d3, value@);
                proof {
                    lemma_logged(d2, local@);
                    lemma_logged(d3, value@);
                    lemma_opt_prefix(d1, text::opt_text(*prefix));
                    lemma_opt_prefix(d, text::opt_text(*ns));
                    lemma_not_before(target, d4, d3);
                    lemma_not_before(target, d3, d2);
                    lemma_not_before(target, d2, d1);
                }
                let ns_ref: u32 = match self.b.intern_opt(ns) {
                    Some(r) => r,
                    None => {
                        return None;
                    },
                };
                let ghost refs1 = self.b.refs();
                let prefix_ref: u32 = match self.b.intern_opt(prefix) {
                    Some(r) => r,
                    None => {
                        return None;
                    },
                };
                let ghost refs2 = self.b.refs();
                let name: u32 = match self.b.intern(local.as_str()) {
                    Some(r) => r,
                    None => {
                        return None;
                    },
                };
                let ghost refs3 = self.b.refs();
                let value_ref: u32 = match self.b.intern_value(value.as_str()) {
                    Some(r) => r,
                    None => {
                        return None;
                    },
                };
                let ghost v = named_node(
                    E4XNodeKindReadOnly::Attribute,
                    Some(id as int),
                    local@,
                    text::opt_text(*ns),
                    text::opt_text(*prefix),
                    Some(value@),
                );
                proof {
                    let refs4 = self.b.refs();
                    doc::lemma_refers_more(ns_ref, v.ns, refs1, refs2);
                    doc::lemma_refers_more(ns_ref, v.ns, refs2, refs3);
                    doc::lemma_refers_more(ns_ref, v.ns, refs3, refs4);
                    doc::lemma_refers_more(prefix_ref, v.prefix, refs2, refs3);
                    doc::lemma_refers_more(prefix_ref, v.prefix, refs3, refs4);
                    doc::lemma_refers_more(name, v.name, refs3, refs4);
                    lemma_frame_attr(
                        d.nodes,
                        v,
                        open,
                        self.last_child@,
                        self.roots@,
                        self.top_last,
                    );
                    lemma_last_kid_push(d.nodes, v, Some(id as int), true);
                }
                let rec = E4XNodeDataReadOnly::new(
                    E4XNodeKindReadOnly::Attribute,
                    name,
                    value_ref,
                    ns_ref,
                    prefix_ref,
                    id,
                );
                self.b.attach(rec, last_attr, Ghost(v))
            },
        }
    }

    /// Pushes an element with its attributes and namespace declarations.
    fn make_element(&mut self, item: &ElementItem) -> (r: Option<u32>)
        requires
            old(self).wf(),
        ensures
            r is Some <==> builder::fits(with_element(old(self)@, item@).draft),
            r matches Some(id) ==> {
                &&& id == old(self)@.draft.nodes.len()
                &&& final(self).wf()
                &&& final(self)@ == with_element(old(self)@, item@)
            },
    {
        let ghost d = self.b@;
        let ghost st = self@;
        let ghost e = item@;
        let ghost target = draft_element(d, parent_of(st.open), e);
        let ghost head = draft_head(d, parent_of(st.open), e);
        let parent: u32 = self.parent();
        let ghost d1 = builder::logged(d, e.local);
        let ghost d2 = builder::logged_opt(d1, e.ns);
        let ghost d3 = builder::logged_opt(d2, e.prefix);
        proof {
            self.b.lemma_wf();
            lemma_opt_prefix(d1, e.ns);
            lemma_opt_prefix(d2, e.prefix);
            lemma_attrs_extend(head, d.nodes.len() as int, e.attrs);
            lemma_not_before(target, head, d3);
            lemma_not_before(target, d3, d2);
            lemma_not_before(target, d2, d1);
            builder::lemma_extends_fits(target, head);
        }
        let name: u32 = match self.b.intern(item.local.as_str()) {
            Some(r) => r,
            None => {
                return None;
            },
        };
        let ghost refs1 = self.b.refs();
        let ns: u32 = match self.b.intern_opt(&item.ns) {
            Some(r) => r,
            None => {
                return None;
            },
        };
        let ghost refs2 = self.b.refs();
        let prefix: u32 = match self.b.intern_opt(&item.prefix) {
            Some(r) => r,
            None => {
                return None;
            },
        };
        let ghost v = named_node(
            E4XNodeKindReadOnly::Element,
            parent_of(st.open),
            e.local,
            e.ns,
            e.prefix,
            None,
        );
        proof {
            let refs3 = self.b.refs();
            doc::lemma_refers_more(name, v.name, refs1, refs2);
            doc::lemma_refers_more(name, v.name, refs2, refs3);
            doc::lemma_refers_more(ns, v.ns, refs2, refs3);
        }
        let rec = E4XNodeDataReadOnly::new(
            E4XNodeKindReadOnly::Element,
            name,
            NO_NODE,
            ns,
            prefix,
            parent,
        );
        let id: u32 = match self.attach_child(rec, Ghost(v)) {
            Some(id) => id,
            None => {
                return None;
            },
        };
        let mut last_attr: u32 = NO_NODE;
        let mut i: usize = 0;
        proof {
            lemma_no_kids_yet(d.nodes, v, true);
            assert(e.attrs.take(0) =~= Seq::<AttrView>::empty());
        }
        while i < item.attrs.len()
            invariant
                0 <= i <= item.attrs@.len(),
                self.wf(),
                id == d.nodes.len(),
                e == item@,
                head.nodes == d.nodes.push(v),
                v.kind is Element,
                st == old(self)@,
                target == with_element(st, e).draft,
                target == draft_attrs(head, id as int, e.attrs),
                self@ == (ParseState {
                    draft: draft_attrs(head, id as int, e.attrs.take(i as int)),
                    ..st
                }),
                last_attr == doc::link(doc::last_kid(self@.draft.nodes, Some(id as int), true)),
            decreases item.attrs@.len() - i,
        {
            let ghost more = e.attrs.take(i + 1);
            proof {
                assert(more.drop_last() =~= e.attrs.take(i as int));
                assert(more.last() == item.attrs@[i as int]@);
                lemma_attrs_keep(head, id as int, e.attrs.take(i as int), id as int);
                lemma_attrs_take(head, id as int, e.attrs, i + 1);
                builder::lemma_extends_fits(target, draft_attrs(head, id as int, more));
            }
            last_attr = match self.push_attr(id, last_attr, &item.attrs[i]) {
                Some(last) => last,
                None => {
                    return None;
                },
            };
            i += 1;
        }
        proof {
            assert(e.attrs.take(i as int) =~= e.attrs);
            self.b.lemma_wf();
        }
        Some(id)
    }

    /// Consumes one event; false where the document no longer fits the arenas.
    pub fn apply(&mut self, ev: &XmlEvent, set: ParseSettings) -> (ok: bool)
        requires
            old(self).wf(),
        ensures
            ok <==> builder::fits(step(old(self)@, ev@, set).draft),
            ok ==> final(self).wf() && final(self)@ == step(old(self)@, ev@, set),
    {
        let ghost st = self@;
        let ghost f = flushed(st);
        let ghost target = step(st, ev@, set);
        proof {
            self.b.lemma_wf();
            if writes_out(ev@, set) {
                lemma_step_extends(st, ev@, set);
            }
        }
        match ev {
            XmlEvent::Start(item) => {
                if !self.flush_pending() {
                    return false;
                }
                let ghost before = self.b@.nodes;
                proof {
                    self.b.lemma_wf();
                    assert forall|k: int| 0 <= k < f.open.len() implies #[trigger] f.open[k]
                        < before.len() by {}
                    lemma_open(f, item@);
                }
                match self.make_element(item) {
                    Some(id) => {
                        let ghost nodes = self.b@.nodes;
                        proof {
                            lemma_frame_open(
                                nodes,
                                positions(self.open@),
                                self.last_child@,
                                self.roots@,
                                self.top_last,
                                id as int,
                            );
                        }
                        let ghost open = self.open@;
                        self.open.push(id);
                        self.last_child.push(NO_NODE);
                        proof {
                            assert(positions(self.open@) =~= positions(open).push(id as int));
                            assert(self@ =~= target);
                        }
                        true
                    },
                    None => false,
                }
            },
            XmlEvent::Empty(item) => {
                if !self.flush_pending() {
                    return false;
                }
                match self.make_element(item) {
                    Some(_) => true,
                    None => false,
                }
            },
            XmlEvent::Text(raw) => {
                if set.ignore_white && is_all_blank(raw.as_str()) {
                    return true;
                }
                let stored: String = if set.ignore_white {
                    trim_blank(raw.as_str())
                } else {
                    raw.clone()
                };
                if !self.flush_pending() {
                    return false;
                }
                self.pending = Some(stored);
                true
            },
            XmlEvent::Cdata(t) => {
                if !self.flush_pending() {
                    return false;
                }
                self.push_text(E4XNodeKindReadOnly::Cdata, t.as_str())
            },
            XmlEvent::Comment(t) => {
                if set.ignore_comments {
                    return true;
                }
                if !self.flush_pending() {
                    return false;
                }
                self.push_text(E4XNodeKindReadOnly::Comment, t.as_str())
            },
            XmlEvent::Pi(raw) => {
                if set.ignore_pi {
                    return true;
                }
                if !self.flush_pending() {
                    return false;
                }
                self.push_pi(raw.as_str())
            },
            XmlEvent::End => self.close(),
            XmlEvent::Eof => self.flush_pending(),
            XmlEvent::Other => true,
            XmlEvent::Malformed => true,
        }
    }

    /// The document of the events so far. Text still held back is left out.
    pub fn finish(self) -> (r: E4XStoreReadOnly)
        requires
            self.wf(),
        ensures
            r.doc() == (Doc { nodes: self@.draft.nodes, decls: self@.draft.decls }),
            r.refs() == builder::refs_of(self@.draft.log),
    {
        E4XStoreReadOnly::assemble(self.b, self.roots)
    }

    /// Pushes a processing instruction.
    fn push_pi(&mut self, raw: &str) -> (ok: bool)
        requires
            old(self).wf(),
        ensures
            ok <==> builder::fits(with_pi(old(self)@, raw@).draft),
            ok ==> final(self).wf() && final(self)@ == with_pi(old(self)@, raw@),
    {
        let (target, data) = split_word(raw);
        let ghost d = self.b@;
        let ghost d1 = builder::logged(d, target@);
        let ghost d2 = builder::logged_value(d1, data@);
        let parent: u32 = self.parent();
        let ghost v = named_node(
            E4XNodeKindReadOnly::ProcessingInstruction,
            parent_of(self@.open),
            target@,
            None,
            None,
            Some(data@),
        );
        proof {
            text::lemma_words(raw@);
            lemma_logged(d1, data@);
            lemma_not_before(builder::with_node(d2, v), d2, d1);
        }
        let name: u32 = match self.b.intern(target.as_str()) {
            Some(r) => r,
            None => {
                return false;
            },
        };
        let ghost refs1 = self.b.refs();
        let value: u32 = match self.b.intern_value(data.as_str()) {
            Some(r) => r,
            None => {
                return false;
            },
        };
        proof {
            doc::lemma_refers_more(name, v.name, refs1, self.b.refs());
        }
        let rec = E4XNodeDataReadOnly::new(
            E4XNodeKindReadOnly::ProcessingInstruction,
            name,
            value,
            NO_NODE,
            NO_NODE,
            parent,
        );
        match self.attach_child(rec, Ghost(v)) {
            Some(_) => true,
            None => false,
        }
    }

    /// Closes the innermost open element.
    fn close(&mut self) -> (ok: bool)
        requires
            old(self).wf(),
        ensures
            ok <==> builder::fits(closed_state(old(self)@).draft),
            ok ==> final(self).wf() && final(self)@ == closed_state(old(self)@),
    {
        let n: usize = self.open.len();
        if n == 0 {
            return self.flush_pending();
        }
        let ghost st = self@;
        let ghost nodes = self.b@.nodes;
        let ghost open = positions(self.open@);
        let elem: u32 = self.open[n - 1];
        proof {
            self.b.lemma_wf();
            assert(open[n - 1] == elem);
            assert(positions(self.open@.drop_last()) =~= open.drop_last());
            assert(self.open@.subrange(0, n - 1) =~= self.open@.drop_last());
            assert(self.last_child@.subrange(0, n - 1) =~= self.last_child@.drop_last());
        }
        match self.pending.take() {
            Some(t) => {
                if self.b.childless(elem) {
                    match self.b.intern_value(t.as_str()) {
                        Some(v) => {
                            self.b.set_value(elem, v, Ghost(t@));
                            proof {
                                lemma_frame_close(
                                    nodes,
                                    self.b@.nodes,
                                    open,
                                    self.last_child@,
                                    self.roots@,
                                    self.top_last,
                                );
                            }
                        },
                        None => {
                            proof {
                                let d1 = builder::logged_value(st.draft, t@);
                                let d2 = closed_state(st).draft;
                                assert(d1.log =~= d2.log.take(d1.log.len() as int));
                                builder::lemma_extends_fits(d2, d1);
                            }
                            return false;
                        },
                    }
                } else {
                    if !self.push_text(E4XNodeKindReadOnly::Text, t.as_str()) {
                        return false;
                    }
                    proof {
                        lemma_frame_close(
                            self.b@.nodes,
                            self.b@.nodes,
                            open,
                            self.last_child@,
                            self.roots@,
                            self.top_last,
                        );
                    }
                }
            },
            None => {
                proof {
                    lemma_frame_close(
                        nodes,
                        nodes,
                        open,
                        self.last_child@,
                        self.roots@,
                        self.top_last,
                    );
                }
            },
        }
        let ghost last = self.last_child@;
        let ghost opened = self.open@;
        self.open.pop();
        self.last_child.pop();
        proof {
            assert(opened.subrange(0, n - 1) =~= opened.drop_last());
            assert(last.subrange(0, n - 1) =~= last.drop_last());
            assert(positions(self.open@) =~= open.drop_last());
            assert(self@ =~= closed_state(st));
            self.b.lemma_wf();
        }
        true
    }
}

/// Interning a string extends a draft.
proof fn lemma_logged(d: Draft, s: Seq<char>)
    ensures
        builder::extends(builder::logged(d, s), d),
        builder::extends(builder::logged_value(d, s), d),
{
    assert(d.log =~= builder::logged(d, s).log.take(d.log.len() as int));
    assert(d.log =~= builder::logged_value(d, s).log.take(d.log.len() as int));
}

proof fn lemma_opt_prefix(d: Draft, s: Option<Seq<char>>)
    ensures
        builder::extends(builder::logged_opt(d, s), d),
{
    let e = builder::logged_opt(d, s);
    assert(d.log =~= e.log.take(d.log.len() as int));
}

/// `c` extends `b` and `b` extends `a`: where `a` does not fit, neither do `b` and `c`.
proof fn lemma_not_before(c: Draft, b: Draft, a: Draft)
    requires
        b.log.is_prefix_of(c.log),
        b.nodes.len() <= c.nodes.len(),
        builder::extends(b, a),
    ensures
        builder::extends(c, a),
        builder::fits(c) ==> builder::fits(a),
{
    assert(builder::extends(c, b));
    builder::lemma_extends_trans(c, b, a);
    builder::lemma_extends_fits(c, a);
}

proof fn lemma_attr_extends(d: Draft, id: int, a: AttrView)
    ensures
        builder::extends(draft_attr(d, id, a), d),
{
    let e = draft_attr(d, id, a);
    assert(d.log =~= e.log.take(d.log.len() as int));
}

proof fn lemma_attrs_extend(d: Draft, id: int, attrs: Seq<AttrView>)
    ensures
        builder::extends(draft_attrs(d, id, attrs), d),
    decreases attrs.len(),
{
    if attrs.len() == 0 {
        assert(d.log =~= d.log.take(d.log.len() as int));
    } else {
        let mid = draft_attrs(d, id, attrs.drop_last());
        lemma_attrs_extend(d, id, attrs.drop_last());
        lemma_attr_extends(mid, id, attrs.last());
        builder::lemma_extends_trans(draft_attrs(d, id, attrs), mid, d);
    }
}

proof fn lemma_attrs_take(d: Draft, id: int, attrs: Seq<AttrView>, k: int)
    requires
        0 <= k <= attrs.len(),
    ensures
        builder::extends(draft_attrs(d, id, attrs), draft_attrs(d, id, attrs.take(k))),
    decreases attrs.len(),
{
    if k == attrs.len() {
        assert(attrs.take(k) =~= attrs);
        let e = draft_attrs(d, id, attrs);
        assert(e.log =~= e.log.take(e.log.len() as int));
    } else {
        let mid = draft_attrs(d, id, attrs.drop_last());
        lemma_attrs_take(d, id, attrs.drop_last(), k);
        assert(attrs.drop_last().take(k) =~= attrs.take(k));
        lemma_attr_extends(mid, id, attrs.last());
        builder::lemma_extends_trans(
            draft_attrs(d, id, attrs),
            mid,
            draft_attrs(d, id, attrs.take(k)),
        );
    }
}

/// Attributes leave the nodes before them as they are.
proof fn lemma_attrs_keep(d: Draft, id: int, attrs: Seq<AttrView>, i: int)
    requires
        0 <= i < d.nodes.len(),
    ensures
        i < draft_attrs(d, id, attrs).nodes.len(),
        draft_attrs(d, id, attrs).nodes[i] == d.nodes[i],
    decreases attrs.len(),
{
    if attrs.len() > 0 {
        lemma_attrs_keep(d, id, attrs.drop_last(), i);
    }
}

/// Attributes are no children: an element has the children it had before them.
proof fn lemma_attrs_no_child(d: Draft, id: int, attrs: Seq<AttrView>, parent: Option<int>)
    ensures
        doc::last_kid(draft_attrs(d, id, attrs).nodes, parent, false) == doc::last_kid(
            d.nodes,
            parent,
            false,
        ),
    decreases attrs.len(),
{
    if attrs.len() > 0 {
        let mid = draft_attrs(d, id, attrs.drop_last());
        lemma_attrs_no_child(d, id, attrs.drop_last(), parent);
        match attrs.last() {
            AttrView::Decl { declared, uri } => {},
            AttrView::Attr { local, ns, prefix, value } => {
                lemma_last_kid_push(
                    mid.nodes,
                    named_node(
                        E4XNodeKindReadOnly::Attribute,
                        Some(id),
                        local,
                        ns,
                        prefix,
                        Some(value),
                    ),
                    parent,
                    false,
                );
            },
        }
    }
}

/// A node just pushed has no kids, where no earlier node names it as parent.
pub proof fn lemma_no_kids_yet(nodes: Seq<NodeView>, v: NodeView, attr: bool)
    requires
        doc::nodes_ok(nodes),
        v.parent != Some(nodes.len() as int),
    ensures
        doc::last_kid(nodes.push(v), Some(nodes.len() as int), attr) is None,
{
    let n = nodes.len() as int;
    lemma_last_kid_push(nodes, v, Some(n), attr);
    doc::lemma_last_kid(nodes, Some(n), attr);
    if doc::last_kid(nodes, Some(n), attr) is Some {
        assert(doc::node_ok(nodes, doc::last_kid(nodes, Some(n), attr)->0));
    }
}

/// Whether an event writes held-back text out.
spec fn writes_out(ev: EventView, set: ParseSettings) -> bool {
    match ev {
        EventView::Start(_) | EventView::Empty(_) | EventView::Cdata(_) => true,
        EventView::Comment(_) => !set.ignore_comments,
        EventView::Pi(_) => !set.ignore_pi,
        _ => false,
    }
}

/// An event that writes held-back text out fits only if that text does.
proof fn lemma_step_extends(st: ParseState, ev: EventView, set: ParseSettings)
    requires
        writes_out(ev, set),
    ensures
        builder::fits(step(st, ev, set).draft) ==> builder::fits(flushed(st).draft),
{
    let f = flushed(st).draft;
    let t = step(st, ev, set).draft;
    match ev {
        EventView::Start(e) | EventView::Empty(e) => {
            let head = draft_head(f, parent_of(flushed(st).open), e);
            lemma_attrs_extend(head, f.nodes.len() as int, e.attrs);
            assert(f.log =~= head.log.take(f.log.len() as int));
            lemma_not_before(t, head, f);
        },
        _ => {
            assert(f.log =~= t.log.take(f.log.len() as int));
            builder::lemma_extends_fits(t, f);
        },
    }
}

/// A state that does not fit leads to none that fits.
pub proof fn lemma_step_fits(st: ParseState, ev: EventView, set: ParseSettings)
    ensures
        builder::fits(step(st, ev, set).draft) ==> builder::fits(st.draft),
{
    let d = st.draft;
    let f = flushed(st).draft;
    let t = step(st, ev, set).draft;
    assert(d.log =~= f.log.take(d.log.len() as int));
    builder::lemma_extends_fits(f, d);
    if writes_out(ev, set) {
        lemma_step_extends(st, ev, set);
    } else if ev is End {
        assert(d.log =~= t.log.take(d.log.len() as int));
        builder::lemma_extends_fits(t, d);
    }
}

/// An element just added stands where the nodes ended, without value or children.
proof fn lemma_open(f: ParseState, e: ElementView)
    requires
        doc::nodes_ok(f.draft.nodes),
        parent_of(f.open) != Some(f.draft.nodes.len() as int),
    ensures
        ({
            let nodes = with_element(f, e).draft.nodes;
            let id = f.draft.nodes.len() as int;
            &&& id < nodes.len()
            &&& nodes[id].kind is Element
            &&& nodes[id].value is None
            &&& doc::last_kid(nodes, Some(id), false) is None
        }),
{
    let head = draft_head(f.draft, parent_of(f.open), e);
    let id = f.draft.nodes.len() as int;
    lemma_attrs_keep(head, id, e.attrs, id);
    lemma_attrs_no_child(head, id, e.attrs, Some(id));
    lemma_no_kids_yet(f.draft.nodes, head.nodes[id], false);
}

/// Opening an element without children.
proof fn lemma_frame_open(
    nodes: Seq<NodeView>,
    open: Seq<int>,
    last_child: Seq<u32>,
    roots: Seq<u32>,
    top_last: u32,
    id: int,
)
    requires
        frame_ok(nodes, open, last_child, roots, top_last),
        0 <= id < nodes.len(),
        nodes[id].kind is Element,
        nodes[id].value is None,
        doc::last_kid(nodes, Some(id), false) is None,
        forall|k: int| 0 <= k < open.len() ==> #[trigger] open[k] != id,
    ensures
        frame_ok(nodes, open.push(id), last_child.push(NO_NODE), roots, top_last),
{
}

} // verus!
