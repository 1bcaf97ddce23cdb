//! A row set as the XML document that it stands for: the events which that document would
//! be parsed from, and that both give the same nodes.

use crate::builder;
use crate::builder::Draft;
use crate::doc;
use crate::doc::DeclView;
use crate::doc::NodeView;
use crate::event_steps;
use crate::events::AttrView;
use crate::events::ElementView;
use crate::events::EventView;
use crate::resp_model;
use crate::resp_model::RespModel;
use crate::resp_wire;
use crate::resp_wire::HeaderView;
use crate::resp_wire::RecordView;
use crate::tree;
use crate::tree::ParseState;
use vstd::prelude::*;

verus! {

/// An element in no namespace.
pub open spec fn plain(name: Seq<char>) -> ElementView {
    ElementView { local: name, ns: None, prefix: None, attrs: Seq::empty() }
}

/// An element of the envelope.
pub open spec fn soap(name: Seq<char>) -> ElementView {
    ElementView {
        local: name,
        ns: Some(resp_model::soap_uri()),
        prefix: Some(resp_model::soap_prefix()),
        attrs: Seq::empty(),
    }
}

/// An element with nothing but a text, or nothing at all, in it.
pub open spec fn leaf_events(name: Seq<char>, value: Option<Seq<char>>) -> Seq<EventView> {
    match value {
        Some(t) => seq![EventView::Start(plain(name)), EventView::Text(t), EventView::End],
        None => seq![EventView::Empty(plain(name))],
    }
}

/// The first `n` cells of a row.
pub open spec fn cells_events(
    cols: Seq<Seq<char>>,
    cells: Seq<Option<Seq<u8>>>,
    n: int,
) -> Seq<EventView>
    decreases n,
{
    if n <= 0 {
        Seq::empty()
    } else {
        cells_events(cols, cells, n - 1) + leaf_events(
            cols[n - 1],
            resp_model::cell_value(cells[n - 1]),
        )
    }
}

/// A row.
pub open spec fn row_events(
    row_name: Seq<char>,
    cols: Seq<Seq<char>>,
    cells: Seq<Option<Seq<u8>>>,
) -> Seq<EventView> {
    seq![EventView::Start(plain(row_name))] + cells_events(cols, cells, cols.len() as int) + seq![
        EventView::End,
    ]
}

/// A fault.
pub open spec fn fault_events(msg: Seq<char>) -> Seq<EventView> {
    seq![EventView::Start(soap("Fault"@))] + leaf_events("faultcode"@, Some("SOAP-ENV:Server"@))
        + leaf_events("faultstring"@, Some(msg)) + seq![EventView::End]
}

/// The end of body and envelope.
pub open spec fn end_events() -> Seq<EventView> {
    seq![EventView::End, EventView::End, EventView::Eof]
}

/// The rows and what follows them, within the root.
pub open spec fn records_events(m: RespModel) -> Seq<EventView>
    decreases m.buf.len(),
{
    match resp_wire::record_at(m.buf, m.cols.len()) {
        RecordView::Row { len, cells } => if 0 < len <= m.buf.len() {
            row_events(m.row_name, m.cols, cells) + records_events(
                RespModel { buf: m.buf.skip(len), ..m },
            )
        } else {
            seq![EventView::End] + end_events()
        },
        RecordView::Fault { msg, .. } => seq![EventView::End] + fault_events(msg) + end_events(),
        _ => seq![EventView::End] + end_events(),
    }
}

/// The root, with its namespace declared.
pub open spec fn root_element(root_qname: Seq<char>, ns_uri: Seq<char>) -> ElementView {
    ElementView {
        local: resp_model::name_local(root_qname),
        ns: resp_model::nonempty(ns_uri),
        prefix: resp_model::name_prefix(root_qname),
        attrs: if ns_uri.len() > 0 {
            seq![
                AttrView::Decl {
                    declared: match resp_model::name_prefix(root_qname) {
                        Some(p) => p,
                        None => ""@,
                    },
                    uri: ns_uri,
                },
            ]
        } else {
            Seq::empty()
        },
    }
}

/// The envelope, with its namespace declared.
pub open spec fn envelope_element() -> ElementView {
    ElementView {
        attrs: seq![
            AttrView::Decl {
                declared: resp_model::soap_prefix(),
                uri: resp_model::soap_uri(),
            },
        ],
        ..soap("Envelope"@)
    }
}

/// The events of the document that a row set's bytes stand for.
pub open spec fn binary_events(bytes: Seq<u8>) -> Seq<EventView> {
    seq![EventView::Start(envelope_element()), EventView::Start(soap("Body"@))] + (
    match resp_wire::header_at(bytes) {
        HeaderView::Ready { consumed, root_qname, ns_uri, row_el, names } => seq![
            EventView::Start(root_element(root_qname, ns_uri)),
        ] + records_events(
            resp_model::with_header(RespModel { buf: bytes, ..resp_model::start_model() }),
        ),
        _ => end_events(),
    })
}

/// Two drafts have the same nodes and declarations.
spec fn alike(a: Draft, b: Draft) -> bool {
    a.nodes == b.nodes && a.decls == b.decls
}

/// Every node's parent stands before it.
spec fn parents_before(nodes: Seq<NodeView>) -> bool {
    forall|i: int|
        0 <= i < nodes.len() ==> ((#[trigger] nodes[i]).parent matches Some(p) ==> p < i)
}

/// Events have added up to `d`, with the same elements open and no text held back.
spec fn reached(st: ParseState, open: Seq<int>, d: Draft) -> bool {
    &&& alike(st.draft, d)
    &&& st.open == open
    &&& st.pending is None
    &&& parents_before(d.nodes)
}

proof fn lemma_start(st: ParseState, e: ElementView)
    requires
        st.pending is None,
        e.attrs.len() == 0,
    ensures
        ({
            let next = tree::step(st, EventView::Start(e), event_steps::keep_all());
            let node = resp_model::element(
                tree::parent_of(st.open),
                e.local,
                e.ns,
                e.prefix,
                None,
            );
            &&& alike(next.draft, builder::with_node(st.draft, node))
            &&& next.open == st.open.push(st.draft.nodes.len() as int)
            &&& next.pending is None
        }),
{
    assert(tree::draft_attrs(
        tree::draft_head(st.draft, tree::parent_of(st.open), e),
        st.draft.nodes.len() as int,
        e.attrs,
    ) == tree::draft_head(st.draft, tree::parent_of(st.open), e));
}

/// The events of a leaf add one element.
proof fn lemma_leaf(st: ParseState, name: Seq<char>, value: Option<Seq<char>>)
    requires
        st.pending is None,
        st.open.len() > 0,
        forall|k: int| 0 <= k < st.open.len() ==> 0 <= #[trigger] st.open[k] < st.draft.nodes.len(),
        parents_before(st.draft.nodes),
    ensures
        event_steps::going_on(leaf_events(name, value)),
        reached(
            event_steps::steps(st, leaf_events(name, value)),
            st.open,
            builder::with_node(
                st.draft,
                resp_model::element(Some(st.open.last()), name, None, None, value),
            ),
        ),
{
    let evs = leaf_events(name, value);
    let e = plain(name);
    let n = st.draft.nodes.len() as int;
    let node = resp_model::element(Some(st.open.last()), name, None, None, value);
    let done = builder::with_node(st.draft, node);
    assert(st.open.last() == st.open[st.open.len() - 1]);
    match value {
        Some(t) => {
            let s1 = tree::step(st, EventView::Start(e), event_steps::keep_all());
            let s2 = tree::step(s1, EventView::Text(t), event_steps::keep_all());
            let s3 = tree::step(s2, EventView::End, event_steps::keep_all());
            lemma_start(st, e);
            assert(evs.drop_last().drop_last().drop_last() =~= Seq::<EventView>::empty());
            assert(evs.drop_last().drop_last().last() == EventView::Start(e));
            assert(evs.drop_last().last() == EventView::Text(t));
            assert(event_steps::steps(st, evs.drop_last().drop_last().drop_last()) == st);
            assert(event_steps::steps(st, evs.drop_last().drop_last()) == s1);
            assert(event_steps::steps(st, evs.drop_last()) == s2);
            assert(event_steps::steps(st, evs) == s3);
            doc::lemma_first_kid(s2.draft.nodes, Some(n), false, 0);
            assert(doc::first_kid(s2.draft.nodes, Some(n), false, 0) is None) by {
                if let Some(j) = doc::first_kid(s2.draft.nodes, Some(n), false, 0) {
                    assert(doc::is_kid(s2.draft.nodes[j], Some(n), false));
                    if j < n {
                        assert(s2.draft.nodes[j] == st.draft.nodes[j]);
                    }
                }
            }
            assert(s3.draft.nodes =~= done.nodes);
            assert(s3.open =~= st.open);
        },
        None => {
            let s1 = tree::step(st, EventView::Empty(e), event_steps::keep_all());
            assert(evs.drop_last() =~= Seq::<EventView>::empty());
            assert(event_steps::steps(st, evs.drop_last()) == st);
            assert(event_steps::steps(st, evs) == s1);
            assert(tree::draft_attrs(
                tree::draft_head(st.draft, tree::parent_of(st.open), e),
                n,
                e.attrs,
            ) == tree::draft_head(st.draft, tree::parent_of(st.open), e));
        },
    }
    assert(parents_before(done.nodes));
}

/// The open elements stand among the nodes.
spec fn open_in(open: Seq<int>, nodes: Seq<NodeView>) -> bool {
    &&& open.len() > 0
    &&& forall|k: int| 0 <= k < open.len() ==> 0 <= #[trigger] open[k] < nodes.len()
}

proof fn lemma_cells(
    st: ParseState,
    d: Draft,
    open: Seq<int>,
    cols: Seq<Seq<char>>,
    cells: Seq<Option<Seq<u8>>>,
    n: int,
)
    requires
        reached(st, open, d),
        open_in(open, d.nodes),
    ensures
        event_steps::going_on(cells_events(cols, cells, n)),
        reached(
            event_steps::steps(st, cells_events(cols, cells, n)),
            open,
            resp_model::with_cells(d, open.last(), cols, cells, n),
        ),
        resp_model::with_cells(d, open.last(), cols, cells, n).nodes.len() >= d.nodes.len(),
    decreases n,
{
    if n > 0 {
        lemma_cells(st, d, open, cols, cells, n - 1);
        let front = cells_events(cols, cells, n - 1);
        let value = resp_model::cell_value(cells[n - 1]);
        let leaf = leaf_events(cols[n - 1], value);
        let mid = event_steps::steps(st, front);
        let dm = resp_model::with_cells(d, open.last(), cols, cells, n - 1);
        lemma_leaf(mid, cols[n - 1], value);
        event_steps::lemma_steps_concat(st, front, leaf);
    }
}

/// The events of a row add the row.
proof fn lemma_row(st: ParseState, m: RespModel, open: Seq<int>, cells: Seq<Option<Seq<u8>>>)
    requires
        reached(st, open, m.draft),
        open_in(open, m.draft.nodes),
        open.last() == m.root,
    ensures
        event_steps::going_on(row_events(m.row_name, m.cols, cells)),
        reached(
            event_steps::steps(st, row_events(m.row_name, m.cols, cells)),
            open,
            resp_model::with_row(m, cells),
        ),
        resp_model::with_row(m, cells).nodes.len() >= m.draft.nodes.len(),
{
    let n = m.cols.len() as int;
    let first = seq![EventView::Start(plain(m.row_name))];
    let inner = cells_events(m.cols, cells, n);
    let last = seq![EventView::End];
    let s1 = tree::step(st, first[0], event_steps::keep_all());
    lemma_start(st, plain(m.row_name));
    assert(first.drop_last() =~= Seq::<EventView>::empty());
    assert(event_steps::steps(st, first.drop_last()) == st);
    assert(event_steps::steps(st, first) == s1);
    let row = m.draft.nodes.len() as int;
    let d1 = builder::with_node(
        m.draft,
        resp_model::element(Some(m.root), m.row_name, None, None, None),
    );
    let open1 = open.push(row);
    assert(parents_before(d1.nodes)) by {
        assert(open[open.len() - 1] < m.draft.nodes.len());
    }
    assert(open_in(open1, d1.nodes));
    lemma_cells(s1, d1, open1, m.cols, cells, n);
    let s2 = event_steps::steps(s1, inner);
    event_steps::lemma_steps_concat(st, first, inner);
    let s3 = tree::step(s2, EventView::End, event_steps::keep_all());
    assert(last.drop_last() =~= Seq::<EventView>::empty());
    assert(event_steps::steps(s2, last.drop_last()) == s2);
    assert(event_steps::steps(s2, last) == s3);
    event_steps::lemma_steps_concat(st, first + inner, last);
    assert(s3.open =~= open);
    let all = row_events(m.row_name, m.cols, cells);
    assert forall|i: int| 0 <= i < all.len() implies !(#[trigger] all[i] is Eof) && !(
    all[i] is Malformed) by {
        if 0 < i < all.len() - 1 {
            assert(all[i] == inner[i - 1]);
        }
    }
}

/// Closing the elements that are open adds nothing.
proof fn lemma_ends(st: ParseState, evs: Seq<EventView>)
    requires
        st.pending is None,
        evs.len() > 0,
        evs.last() is Eof,
        forall|i: int| 0 <= i < evs.len() - 1 ==> #[trigger] evs[i] is End,
    ensures
        tree::run(st, evs, event_steps::keep_all()).draft == st.draft,
    decreases evs.len(),
{
    if !(evs[0] is Eof) {
        assert(evs[0] is End);
        let next = tree::step(st, evs[0], event_steps::keep_all());
        assert(next.draft == st.draft && next.pending is None);
        lemma_ends(next, evs.drop_first());
    }
}

/// The events of a fault add the fault.
proof fn lemma_fault(st: ParseState, d: Draft, open: Seq<int>, msg: Seq<char>)
    requires
        reached(st, open, d),
        open_in(open, d.nodes),
        open.last() == 1,
    ensures
        event_steps::going_on(fault_events(msg)),
        reached(event_steps::steps(st, fault_events(msg)), open, resp_model::with_fault(d, msg)),
{
    let at = d.nodes.len() as int;
    let first = seq![EventView::Start(soap("Fault"@))];
    let code = leaf_events("faultcode"@, Some("SOAP-ENV:Server"@));
    let text = leaf_events("faultstring"@, Some(msg));
    let last = seq![EventView::End];
    let s1 = tree::step(st, first[0], event_steps::keep_all());
    lemma_start(st, soap("Fault"@));
    assert(first.drop_last() =~= Seq::<EventView>::empty());
    assert(event_steps::steps(st, first.drop_last()) == st);
    assert(event_steps::steps(st, first) == s1);
    let d1 = builder::with_node(d, resp_model::soap_element(Some(1), "Fault"@));
    let open1 = open.push(at);
    assert(parents_before(d1.nodes)) by {
        assert(open[open.len() - 1] < d.nodes.len());
    }
    assert(s1.draft.nodes =~= d1.nodes);
    assert(s1.open == open1);
    lemma_leaf(s1, "faultcode"@, Some("SOAP-ENV:Server"@));
    let s2 = event_steps::steps(s1, code);
    event_steps::lemma_steps_concat(st, first, code);
    lemma_leaf(s2, "faultstring"@, Some(msg));
    let s3 = event_steps::steps(s2, text);
    event_steps::lemma_steps_concat(st, first + code, text);
    let s4 = tree::step(s3, EventView::End, event_steps::keep_all());
    assert(last.drop_last() =~= Seq::<EventView>::empty());
    assert(event_steps::steps(s3, last.drop_last()) == s3);
    assert(event_steps::steps(s3, last) == s4);
    event_steps::lemma_steps_concat(st, first + code + text, last);
    assert(s4.open =~= open);
    assert(s4.draft.nodes =~= resp_model::with_fault(d, msg).nodes);
    assert(parents_before(resp_model::with_fault(d, msg).nodes));
}

/// What follows a header adds what the records do.
proof fn lemma_records(st: ParseState, m: RespModel)
    requires
        m.header_done,
        !m.finished,
        m.root == 2,
        reached(st, seq![0int, 1, 2], m.draft),
        m.draft.nodes.len() >= 3,
    ensures
        alike(
            tree::run(st, records_events(m), event_steps::keep_all()).draft,
            resp_model::with_records(m).draft,
        ),
    decreases m.buf.len(),
{
    let open = seq![0int, 1, 2];
    assert(open_in(open, m.draft.nodes));
    let close = seq![EventView::End];
    let s1 = tree::step(st, EventView::End, event_steps::keep_all());
    assert(close.drop_last() =~= Seq::<EventView>::empty());
    assert(event_steps::steps(st, close.drop_last()) == st);
    assert(event_steps::steps(st, close) == s1);
    match resp_wire::record_at(m.buf, m.cols.len()) {
        RecordView::Row { len, cells } => {
            if 0 < len <= m.buf.len() {
                let row = row_events(m.row_name, m.cols, cells);
                let next = RespModel {
                    buf: m.buf.skip(len),
                    draft: resp_model::with_row(m, cells),
                    ..m
                };
                lemma_row(st, m, open, cells);
                event_steps::lemma_run_steps(st, row, records_events(RespModel { buf: m.buf.skip(len), ..m }));
                lemma_records(event_steps::steps(st, row), next);
                lemma_events_by_buf(next, m.draft);
                assert(RespModel { draft: m.draft, ..next } =~= RespModel {
                    buf: m.buf.skip(len),
                    ..m
                });
            } else {
                event_steps::lemma_run_steps(st, close, end_events());
                lemma_ends(s1, end_events());
            }
        },
        RecordView::Fault { msg, .. } => {
            let open1 = seq![0int, 1];
            assert(s1.open =~= open1);
            event_steps::lemma_run_steps(st, close, fault_events(msg) + end_events());
            assert(close + (fault_events(msg) + end_events()) =~= close + fault_events(msg)
                + end_events());
            lemma_fault(s1, m.draft, open1, msg);
            let s2 = event_steps::steps(s1, fault_events(msg));
            event_steps::lemma_run_steps(s1, fault_events(msg), end_events());
            lemma_ends(s2, end_events());
        },
        _ => {
            event_steps::lemma_run_steps(st, close, end_events());
            lemma_ends(s1, end_events());
        },
    }
}

/// Which events follow depends on the bytes, not on the document so far.
proof fn lemma_events_by_buf(m: RespModel, d: Draft)
    ensures
        records_events(m) == records_events(RespModel { draft: d, ..m }),
    decreases m.buf.len(),
{
    match resp_wire::record_at(m.buf, m.cols.len()) {
        RecordView::Row { len, cells } => {
            if 0 < len <= m.buf.len() {
                lemma_events_by_buf(RespModel { buf: m.buf.skip(len), ..m }, d);
            }
        },
        _ => {},
    }
}

/// A row set gives the document that would be parsed from the envelope it stands for: the
/// nodes and the declarations are the same.
pub proof fn lemma_binary_as_parsed(bytes: Seq<u8>)
    ensures
        tree::run(tree::start_state(), binary_events(bytes), event_steps::keep_all()).draft.nodes
            == resp_model::absorbed(bytes).draft.nodes,
        tree::run(tree::start_state(), binary_events(bytes), event_steps::keep_all()).draft.decls
            == resp_model::absorbed(bytes).draft.decls,
{
    let st = tree::start_state();
    let env = resp_model::envelope();
    let front = seq![EventView::Start(envelope_element()), EventView::Start(soap("Body"@))];
    let s1 = tree::step(st, front[0], event_steps::keep_all());
    let s2 = tree::step(s1, front[1], event_steps::keep_all());
    assert(front.drop_last().drop_last() =~= Seq::<EventView>::empty());
    assert(front.drop_last().last() == front[0]);
    assert(event_steps::steps(st, front.drop_last().drop_last()) == st);
    assert(event_steps::steps(st, front.drop_last()) == s1);
    assert(event_steps::steps(st, front) == s2);
    lemma_declared(st, envelope_element());
    lemma_start(s1, soap("Body"@));
    assert(s1.open =~= seq![0int]);
    assert(s2.open =~= seq![0int, 1]);
    assert(s2.draft.nodes =~= env.nodes);
    assert(s2.draft.decls =~= env.decls);
    assert(parents_before(env.nodes));
    let m = RespModel { buf: bytes, ..resp_model::start_model() };
    match resp_wire::header_at(bytes) {
        HeaderView::Ready { consumed, root_qname, ns_uri, row_el, names } => {
            let h = resp_model::with_header(m);
            let root = root_element(root_qname, ns_uri);
            let start = seq![EventView::Start(root)];
            let s3 = tree::step(s2, start[0], event_steps::keep_all());
            lemma_declared(s2, root);
            assert(start.drop_last() =~= Seq::<EventView>::empty());
            assert(event_steps::steps(s2, start.drop_last()) == s2);
            assert(event_steps::steps(s2, start) == s3);
            event_steps::lemma_run_steps(st, front, start + records_events(h));
            event_steps::lemma_run_steps(s2, start, records_events(h));
            assert(s3.open =~= seq![0int, 1, 2]);
            assert(s3.draft.nodes =~= h.draft.nodes);
            assert(s3.draft.decls =~= h.draft.decls);
            assert(parents_before(h.draft.nodes));
            lemma_records(s3, h);
        },
        _ => {
            event_steps::lemma_run_steps(st, front, end_events());
            lemma_ends(s2, end_events());
        },
    }
}

/// An element with at most a declaration among its attributes.
proof fn lemma_declared(st: ParseState, e: ElementView)
    requires
        st.pending is None,
        e.attrs.len() <= 1,
        e.attrs.len() == 1 ==> e.attrs[0] is Decl,
    ensures
        ({
            let next = tree::step(st, EventView::Start(e), event_steps::keep_all());
            let n = st.draft.nodes.len() as int;
            &&& next.draft.nodes == st.draft.nodes.push(
                resp_model::element(tree::parent_of(st.open), e.local, e.ns, e.prefix, None),
            )
            &&& next.draft.decls == (if e.attrs.len() == 0 {
                st.draft.decls
            } else {
                st.draft.decls.push(
                    DeclView {
                        node: n,
                        prefix: e.attrs[0]->declared,
                        uri: e.attrs[0]->uri,
                    },
                )
            })
            &&& next.open == st.open.push(n)
            &&& next.pending is None
        }),
{
    let head = tree::draft_head(st.draft, tree::parent_of(st.open), e);
    let n = st.draft.nodes.len() as int;
    if e.attrs.len() == 1 {
        assert(e.attrs.drop_last() =~= Seq::<AttrView>::empty());
        assert(tree::draft_attrs(head, n, e.attrs.drop_last()) == head);
        assert(tree::draft_attrs(head, n, e.attrs) == tree::draft_attr(head, n, e.attrs[0]));
    } else {
        assert(tree::draft_attrs(head, n, e.attrs) == head);
    }
}

} // verus!
