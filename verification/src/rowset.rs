//! The document of a row set in the making: envelope, root, rows and a fault.

use crate::builder;
use crate::builder::Builder;
use crate::builder::Draft;
use crate::builder::Entry;
use crate::builder::NsDeclReadOnly;
use crate::doc;
use crate::doc::DeclView;
use crate::doc::Doc;
use crate::doc::NodeView;
use crate::node_data::E4XNodeDataReadOnly;
use crate::node_data::E4XNodeKindReadOnly;
use crate::node_data::NO_NODE;
use crate::resp_model;
use crate::resp_model::RespModel;
use crate::resp_wire;
use crate::resp_wire::RecordView;
use crate::resp_wire::RespCursor;
use crate::store::E4XStoreReadOnly;
use crate::text;
use crate::text::chars_of;
use crate::text::text_from_utf8_lossy;
use crate::text::text_of;
use crate::tree;
use vstd::prelude::*;
use vstd::utf8::*;

verus! {

/// A string reference for each of several texts.
pub open spec fn refer_all(rs: Seq<u32>, names: Seq<Seq<char>>, refs: Map<u32, Seq<u8>>) -> bool {
    &&& rs.len() == names.len()
    &&& forall|i: int| 0 <= i < rs.len() ==> doc::refers(#[trigger] rs[i], Some(names[i]), refs)
}

proof fn lemma_refer_all_more(
    rs: Seq<u32>,
    names: Seq<Seq<char>>,
    refs: Map<u32, Seq<u8>>,
    more: Map<u32, Seq<u8>>,
)
    requires
        refer_all(rs, names, refs),
        refs.submap_of(more),
    ensures
        refer_all(rs, names, more),
{
    assert forall|i: int| 0 <= i < rs.len() implies doc::refers(
        #[trigger] rs[i],
        Some(names[i]),
        more,
    ) by {
        doc::lemma_refers_more(rs[i], Some(names[i]), refs, more);
    }
}

/// Only the first node is a root.
pub open spec fn one_root(nodes: Seq<NodeView>) -> bool {
    &&& nodes.len() >= 2
    &&& nodes[0] == resp_model::soap_element(None, "Envelope"@)
    &&& nodes[1] == resp_model::soap_element(Some(0), "Body"@)
    &&& forall|i: int| 1 <= i < nodes.len() ==> (#[trigger] nodes[i]).parent is Some
}

proof fn lemma_one_root(nodes: Seq<NodeView>)
    requires
        one_root(nodes),
    ensures
        doc::kids(nodes, None, false, 0) == seq![0int],
{
    lemma_no_roots(nodes, 1);
    assert(seq![0int] + Seq::<int>::empty() =~= seq![0int]);
}

proof fn lemma_no_roots(nodes: Seq<NodeView>, from: int)
    requires
        one_root(nodes),
        1 <= from,
    ensures
        doc::kids(nodes, None, false, from) == Seq::<int>::empty(),
    decreases nodes.len() - from,
{
    if from < nodes.len() {
        assert(nodes[from].parent is Some);
        lemma_no_roots(nodes, from + 1);
    }
}

/// A draft with more strings and nodes fits only if the shorter one does.
proof fn lemma_prefix_fits(later: Draft, earlier: Draft)
    requires
        earlier.log.len() <= later.log.len(),
        earlier.log == later.log.take(earlier.log.len() as int),
        earlier.nodes.len() <= later.nodes.len(),
    ensures
        builder::fits(later) ==> builder::fits(earlier),
{
    builder::lemma_extends_fits(later, earlier);
}

/// A few short strings always fit.
proof fn lemma_few_fit(log: Seq<Entry>)
    requires
        log.len() <= 1024,
        forall|i: int|
            0 <= i < log.len() ==> !(#[trigger] log[i]).value && encode_utf8(log[i].text).len()
                <= u32::MAX,
    ensures
        builder::pool_of(log) is Some,
        builder::pool_of(log)->0.fill.len() <= log.len(),
    decreases log.len(),
{
    if log.len() > 0 {
        assert forall|i: int| 0 <= i < log.len() - 1 implies !(
        #[trigger] log.drop_last()[i]).value && encode_utf8(log.drop_last()[i].text).len()
            <= u32::MAX by {
            assert(log.drop_last()[i] == log[i]);
        }
        lemma_few_fit(log.drop_last());
    }
}

/// The envelope fits the arenas.
pub proof fn lemma_envelope_fits()
    ensures
        builder::fits(resp_model::envelope()),
        builder::pool_of(resp_model::envelope().log.take(1)) is Some,
        builder::pool_of(resp_model::envelope().log.take(2)) is Some,
        builder::pool_of(resp_model::envelope().log.take(3)) is Some,
{
    reveal_strlit("http://schemas.xmlsoap.org/soap/envelope/");
    reveal_strlit("SOAP-ENV");
    reveal_strlit("Envelope");
    reveal_strlit("Body");
    let log = resp_model::envelope().log;
    assert forall|i: int| 0 <= i < log.len() implies !(#[trigger] log[i]).value && encode_utf8(
        log[i].text,
    ).len() <= u32::MAX by {
        assert(is_ascii_chars(log[i].text));
        is_ascii_chars_encode_utf8(log[i].text);
    }
    lemma_few_fit(log);
    builder::lemma_pool_prefix(log.take(1), log);
    builder::lemma_pool_prefix(log.take(2), log);
    builder::lemma_pool_prefix(log.take(3), log);
}

proof fn lemma_cells_extend(
    d: Draft,
    row: int,
    cols: Seq<Seq<char>>,
    cells: Seq<Option<Seq<u8>>>,
    k: int,
    n: int,
)
    requires
        0 <= k <= n,
    ensures
        builder::extends(
            resp_model::with_cells(d, row, cols, cells, n),
            resp_model::with_cells(d, row, cols, cells, k),
        ),
    decreases n - k,
{
    let a = resp_model::with_cells(d, row, cols, cells, k);
    if k < n {
        lemma_cells_extend(d, row, cols, cells, k, n - 1);
        let b = resp_model::with_cells(d, row, cols, cells, n - 1);
        let c = resp_model::with_cells(d, row, cols, cells, n);
        assert(b.log =~= c.log.take(b.log.len() as int));
        builder::lemma_extends_trans(c, b, a);
    } else {
        assert(a.log =~= a.log.take(a.log.len() as int));
    }
}

/// What is read later fits only if what was read before does.
pub proof fn lemma_records_fits(m: RespModel)
    ensures
        builder::fits(resp_model::with_records(m).draft) ==> builder::fits(m.draft),
    decreases m.buf.len(),
{
    if m.header_done && !m.finished {
        match resp_wire::record_at(m.buf, m.cols.len()) {
            RecordView::Row { len, cells } => if 0 < len <= m.buf.len() {
                let next = RespModel {
                    buf: m.buf.skip(len),
                    draft: resp_model::with_row(m, cells),
                    ..m
                };
                lemma_records_fits(next);
                let head = builder::with_node(
                    m.draft,
                    resp_model::element(Some(m.root), m.row_name, None, None, None),
                );
                lemma_cells_extend(
                    head,
                    m.draft.nodes.len() as int,
                    m.cols,
                    cells,
                    0,
                    m.cols.len() as int,
                );
                builder::lemma_extends_fits(next.draft, head);
                assert(m.draft.log =~= head.log.take(m.draft.log.len() as int));
                lemma_prefix_fits(head, m.draft);
            },
            RecordView::Fault { msg, .. } => {
                let f = resp_model::with_fault(m.draft, msg);
                assert(m.draft.log =~= f.log.take(m.draft.log.len() as int));
                lemma_prefix_fits(f, m.draft);
            },
            _ => {},
        }
    }
}

/// The arenas and the references that rows are made of.
pub struct RowSet {
    b: Builder,
    col_refs: Vec<u32>,
    soap_uri: u32,
    soap_prefix: u32,
    root_idx: u32,
    row_name: u32,
    last_row: u32,
}

impl RowSet {
    /// The document so far.
    pub closed spec fn draft(self) -> Draft {
        self.b@
    }

    /// Whether the rows can go on: the root is there, and behind nothing else in `Body`.
    spec fn root_ok(self, m: RespModel) -> bool {
        let nodes = m.draft.nodes;
        &&& 1 < m.root < nodes.len()
        &&& self.root_idx == m.root
        &&& nodes[m.root].kind is Element
        &&& nodes[m.root].value is None
        &&& doc::last_kid(nodes, Some(1), false) == Some(m.root)
        &&& self.last_row == doc::link(doc::last_kid(nodes, Some(m.root), false))
        &&& doc::refers(self.row_name, Some(m.row_name), self.b.refs())
        &&& refer_all(self.col_refs@, m.cols, self.b.refs())
    }

    /// The arenas hold the document of `m`.
    pub closed spec fn holds(self, m: RespModel) -> bool {
        &&& self.b.wf()
        &&& self.b@ == m.draft
        &&& one_root(m.draft.nodes)
        &&& doc::refers(self.soap_uri, Some(resp_model::soap_uri()), self.b.refs())
        &&& doc::refers(self.soap_prefix, Some(resp_model::soap_prefix()), self.b.refs())
        &&& m.header_done && !m.finished ==> self.root_ok(m)
        &&& !m.header_done ==> doc::last_kid(m.draft.nodes, Some(1), false) is None
    }

    pub proof fn lemma_holds(self, m: RespModel)
        requires
            self.holds(m),
        ensures
            builder::fits(m.draft),
            m.header_done && !m.finished ==> self.columns() == m.cols.len(),
    {
        self.b.lemma_wf();
    }

    pub closed spec fn columns(self) -> nat {
        self.col_refs@.len()
    }

    /// The document does not change when only bytes and flags do.
    pub proof fn lemma_holds_same(self, m: RespModel, n: RespModel)
        requires
            self.holds(m),
            n.draft == m.draft,
            n.header_done == m.header_done || n.finished && n.header_done,
            n.finished == m.finished || n.finished,
            n.cols == m.cols,
            n.row_name == m.row_name,
            n.root == m.root,
        ensures
            self.holds(n),
    {
    }

    /// The empty envelope.
    pub fn new() -> (r: Self)
        ensures
            r.holds(resp_model::start_model()),
    {
        let mut b = Builder::new();
        proof {
            lemma_envelope_fits();
            let log = resp_model::envelope().log;
            assert(log.take(1) =~= builder::logged(
                builder::empty_draft(),
                resp_model::soap_uri(),
            ).log);
            assert(log.take(2) =~= log.take(1).push(builder::name_entry(resp_model::soap_prefix())));
            assert(log.take(3) =~= log.take(2).push(builder::name_entry("Envelope"@)));
            assert(log =~= log.take(3).push(builder::name_entry("Body"@)));
        }
        let soap_uri: u32 = match b.intern("http://schemas.xmlsoap.org/soap/envelope/") {
            Some(r) => r,
            None => {
                assert(false);
                NO_NODE
            },
        };
        let ghost refs1 = b.refs();
        let soap_prefix: u32 = match b.intern("SOAP-ENV") {
            Some(r) => r,
            None => {
                assert(false);
                NO_NODE
            },
        };
        let ghost refs2 = b.refs();
        let env_name: u32 = match b.intern("Envelope") {
            Some(r) => r,
            None => {
                assert(false);
                NO_NODE
            },
        };
        let ghost refs3 = b.refs();
        let body_name: u32 = match b.intern("Body") {
            Some(r) => r,
            None => {
                assert(false);
                NO_NODE
            },
        };
        let ghost env = resp_model::soap_element(None, "Envelope"@);
        let ghost body = resp_model::soap_element(Some(0), "Body"@);
        proof {
            let refs4 = b.refs();
            doc::lemma_refers_more(soap_uri, Some(resp_model::soap_uri()), refs1, refs2);
            doc::lemma_refers_more(soap_uri, Some(resp_model::soap_uri()), refs2, refs3);
            doc::lemma_refers_more(soap_uri, Some(resp_model::soap_uri()), refs3, refs4);
            doc::lemma_refers_more(soap_prefix, Some(resp_model::soap_prefix()), refs2, refs3);
            doc::lemma_refers_more(soap_prefix, Some(resp_model::soap_prefix()), refs3, refs4);
            doc::lemma_refers_more(env_name, Some("Envelope"@), refs3, refs4);
            b.lemma_wf();
        }
        let rec = E4XNodeDataReadOnly::new(
            E4XNodeKindReadOnly::Element,
            env_name,
            NO_NODE,
            soap_uri,
            soap_prefix,
            NO_NODE,
        );
        let env_idx: u32 = match b.attach(rec, NO_NODE, Ghost(env)) {
            Some(id) => id,
            None => {
                assert(false);
                0
            },
        };
        b.add_decl(
            NsDeclReadOnly { node: env_idx, prefix: soap_prefix, uri: soap_uri },
            Ghost(
                DeclView {
                    node: 0,
                    prefix: resp_model::soap_prefix(),
                    uri: resp_model::soap_uri(),
                },
            ),
        );
        let rec = E4XNodeDataReadOnly::new(
            E4XNodeKindReadOnly::Element,
            body_name,
            NO_NODE,
            soap_uri,
            soap_prefix,
            env_idx,
        );
        proof {
            reveal_with_fuel(doc::last_kid, 3);
        }
        match b.attach(rec, NO_NODE, Ghost(body)) {
            Some(_) => {},
            None => {
                assert(false);
            },
        }
        proof {
            assert(b@.nodes =~= seq![env, body]);
            assert(b@ =~= resp_model::envelope());
        }
        RowSet {
            b,
            col_refs: Vec::new(),
            soap_uri,
            soap_prefix,
            root_idx: NO_NODE,
            row_name: NO_NODE,
            last_row: NO_NODE,
        }
    }

    /// Number of columns.
    pub fn column_count(&self) -> (r: usize)
        ensures
            r == self.columns(),
    {
        self.col_refs.len()
    }

    /// The document.
    pub fn finish(self, Ghost(m): Ghost<RespModel>) -> (r: E4XStoreReadOnly)
        requires
            self.holds(m),
        ensures
            r.doc() == (Doc { nodes: m.draft.nodes, decls: m.draft.decls }),
            r.refs() == builder::refs_of(m.draft.log),
    {
        let mut roots: Vec<u32> = Vec::new();
        roots.push(0);
        proof {
            lemma_one_root(m.draft.nodes);
            assert(roots@ =~= doc::as_links(seq![0int]));
        }
        E4XStoreReadOnly::assemble(self.b, roots)
    }

    /// Adds the root that a header names; false where it does not fit.
    pub fn commit_header(
        &mut self,
        root_qname: &str,
        ns_uri: &str,
        row_el: &str,
        names: &Vec<String>,
        Ghost(m): Ghost<RespModel>,
        Ghost(next): Ghost<RespModel>,
    ) -> (ok: bool)
        requires
            old(self).holds(m),
            !m.header_done,
            next.draft == resp_model::with_root(
                m.draft,
                root_qname@,
                ns_uri@,
                row_el@,
                resp_wire::text_views(names@),
            ),
            next.cols == resp_wire::text_views(names@),
            next.row_name == row_el@,
            next.root == m.draft.nodes.len(),
            next.header_done,
        ensures
            ok <==> builder::fits(next.draft),
            ok ==> final(self).holds(next),
    {
        let ghost d = m.draft;
        let ghost all = resp_wire::text_views(names@);
        let (prefix, local) = split_name(root_qname);
        let ns: Option<String> = if ns_uri.is_empty() {
            None
        } else {
            Some(ns_uri.to_owned())
        };
        let ghost ns_view = resp_model::nonempty(ns_uri@);
        let ghost prefix_view = resp_model::name_prefix(root_qname@);
        let ghost d1 = builder::logged(d, local@);
        let ghost d2 = builder::logged_opt(d1, ns_view);
        let ghost d3 = builder::logged_opt(d2, prefix_view);
        let ghost d4 = builder::logged(d3, row_el@);
        let ghost d5 = resp_model::logged_all(d4, all);
        let ghost v = resp_model::element(Some(1), local@, ns_view, prefix_view, None);
        let ghost d6 = builder::with_node(d5, v);
        proof {
            self.b.lemma_wf();
            assert(d1.log =~= next.draft.log.take(d1.log.len() as int));
            assert(d2.log =~= next.draft.log.take(d2.log.len() as int));
            assert(d3.log =~= next.draft.log.take(d3.log.len() as int));
            assert(d4.log =~= next.draft.log.take(d4.log.len() as int));
            assert(d6.log =~= next.draft.log.take(d6.log.len() as int));
            lemma_prefix_fits(next.draft, d1);
            lemma_prefix_fits(next.draft, d2);
            lemma_prefix_fits(next.draft, d3);
            lemma_prefix_fits(next.draft, d4);
            lemma_prefix_fits(next.draft, d6);
        }
        let ghost refs0 = self.b.refs();
        let root_local: u32 = match self.b.intern(local.as_str()) {
            Some(r) => r,
            None => {
                return false;
            },
        };
        let ghost refs1 = self.b.refs();
        let root_ns: u32 = match self.b.intern_opt(&ns) {
            Some(r) => r,
            None => {
                return false;
            },
        };
        let ghost refs2 = self.b.refs();
        let root_prefix: u32 = match self.b.intern_opt(&prefix) {
            Some(r) => r,
            None => {
                return false;
            },
        };
        let ghost refs3 = self.b.refs();
        let row_name: u32 = match self.b.intern(row_el) {
            Some(r) => r,
            None => {
                return false;
            },
        };
        let ghost refs4 = self.b.refs();
        let mut cols: Vec<u32> = Vec::new();
        let mut i: usize = 0;
        assert(d4.log + builder::name_entries(all.take(0)) =~= d4.log);
        while i < names.len()
            invariant
                i <= names@.len(),
                all == resp_wire::text_views(names@),
                self.b.wf(),
                self.b@ == resp_model::logged_all(d4, all.take(i as int)),
                refs4.submap_of(self.b.refs()),
                refer_all(cols@, all.take(i as int), self.b.refs()),
                self.soap_uri == old(self).soap_uri,
                self.soap_prefix == old(self).soap_prefix,
                d4.log + builder::name_entries(all) == d5.log,
                d5.nodes.len() <= next.draft.nodes.len(),
                d4.nodes == d5.nodes,
                d5.log.len() <= next.draft.log.len(),
                d5.log == next.draft.log.take(d5.log.len() as int),
            decreases names@.len() - i,
        {
            let ghost before = self.b.refs();
            let ghost now = resp_model::logged_all(d4, all.take(i + 1));
            proof {
                assert(all.take(i + 1) =~= all.take(i as int).push(names@[i as int]@));
                assert(now.log =~= (d4.log + builder::name_entries(all.take(i as int))).push(
                    builder::name_entry(names@[i as int]@),
                ));
                assert(now =~= builder::logged(self.b@, names@[i as int]@));
                assert(now.log =~= next.draft.log.take(now.log.len() as int)) by {
                    assert(now.log =~= d5.log.take(now.log.len() as int));
                }
                lemma_prefix_fits(next.draft, now);
            }
            let r: u32 = match self.b.intern(names[i].as_str()) {
                Some(r) => r,
                None => {
                    return false;
                },
            };
            proof {
                lemma_refer_all_more(cols@, all.take(i as int), before, self.b.refs());
                doc::lemma_submap_trans(refs4, before, self.b.refs());
            }
            cols.push(r);
            i += 1;
        }
        proof {
            assert(all.take(i as int) =~= all);
            let refs5 = self.b.refs();
            doc::lemma_submap_trans(refs0, refs1, refs2);
            doc::lemma_submap_trans(refs0, refs2, refs3);
            doc::lemma_submap_trans(refs0, refs3, refs4);
            doc::lemma_submap_trans(refs0, refs4, refs5);
            doc::lemma_refers_more(root_local, v.name, refs1, refs2);
            doc::lemma_refers_more(root_local, v.name, refs2, refs3);
            doc::lemma_refers_more(root_local, v.name, refs3, refs4);
            doc::lemma_refers_more(root_local, v.name, refs4, refs5);
            doc::lemma_refers_more(root_ns, v.ns, refs2, refs3);
            doc::lemma_refers_more(root_ns, v.ns, refs3, refs4);
            doc::lemma_refers_more(root_ns, v.ns, refs4, refs5);
            doc::lemma_refers_more(root_prefix, v.prefix, refs3, refs4);
            doc::lemma_refers_more(root_prefix, v.prefix, refs4, refs5);
            doc::lemma_refers_more(row_name, Some(row_el@), refs4, refs5);
            doc::lemma_refers_more(self.soap_uri, Some(resp_model::soap_uri()), refs0, refs5);
            doc::lemma_refers_more(self.soap_prefix, Some(resp_model::soap_prefix()), refs0, refs5);
            tree::lemma_last_kid_push(d.nodes, v, Some(1), false);
            tree::lemma_no_kids_yet(d.nodes, v, false);
        }
        let rec = E4XNodeDataReadOnly::new(
            E4XNodeKindReadOnly::Element,
            root_local,
            NO_NODE,
            root_ns,
            root_prefix,
            1,
        );
        let new_root: u32 = match self.b.attach(rec, NO_NODE, Ghost(v)) {
            Some(id) => id,
            None => {
                return false;
            },
        };
        let ghost refs6 = self.b.refs();
        if root_ns != NO_NODE {
            let decl_prefix: u32 = if root_prefix != NO_NODE {
                root_prefix
            } else {
                match self.b.intern("") {
                    Some(r) => r,
                    None => {
                        return false;
                    },
                }
            };
            let ghost declared = match prefix_view {
                Some(p) => p,
                None => ""@,
            };
            proof {
                let refs7 = self.b.refs();
                doc::lemma_refers_more(root_ns, ns_view, refs6, refs7);
                doc::lemma_refers_more(row_name, Some(row_el@), refs6, refs7);
                doc::lemma_refers_more(self.soap_uri, Some(resp_model::soap_uri()), refs6, refs7);
                doc::lemma_refers_more(
                    self.soap_prefix,
                    Some(resp_model::soap_prefix()),
                    refs6,
                    refs7,
                );
                lemma_refer_all_more(cols@, all, refs6, refs7);
            }
            self.b.add_decl(
                NsDeclReadOnly { node: new_root, prefix: decl_prefix, uri: root_ns },
                Ghost(DeclView { node: new_root as int, prefix: declared, uri: ns_uri@ }),
            );
        }
        proof {
            self.b.lemma_wf();
            assert(self.b@ =~= next.draft);
        }
        self.root_idx = new_root;
        self.row_name = row_name;
        self.col_refs = cols;
        self.last_row = NO_NODE;
        true
    }

    /// Adds the row that the record at the front of `data` holds; false where it does
    /// not fit.
    pub fn push_row(
        &mut self,
        data: &[u8],
        Ghost(m): Ghost<RespModel>,
        Ghost(cells): Ghost<Seq<Option<Seq<u8>>>>,
    ) -> (ok: bool)
        requires
            old(self).holds(m),
            m.header_done,
            !m.finished,
            resp_wire::record_at(data@, m.cols.len()) matches RecordView::Row { cells: c, .. }
                && c == cells,
        ensures
            ok <==> builder::fits(resp_model::with_row(m, cells)),
            ok ==> final(self).holds(
                (RespModel { draft: resp_model::with_row(m, cells), ..m }),
            ),
            ok ==> final(self).columns() == old(self).columns(),
    {
        let ghost d = m.draft;
        let ghost n = m.cols.len() as int;
        let ghost row = resp_model::element(Some(m.root), m.row_name, None, None, None);
        let ghost head = builder::with_node(d, row);
        let ghost at = d.nodes.len() as int;
        let ghost target = resp_model::with_row(m, cells);
        proof {
            self.b.lemma_wf();
            resp_wire::lemma_record_stable(data@, Seq::empty(), m.cols.len());
            lemma_cells_extend(head, at, m.cols, cells, 0, n);
            builder::lemma_extends_fits(target, head);
            tree::lemma_last_kid_push(d.nodes, row, Some(1), false);
            tree::lemma_last_kid_push(d.nodes, row, Some(m.root), false);
            tree::lemma_no_kids_yet(d.nodes, row, false);
        }
        let rec = E4XNodeDataReadOnly::new(
            E4XNodeKindReadOnly::Element,
            self.row_name,
            NO_NODE,
            NO_NODE,
            NO_NODE,
            self.root_idx,
        );
        let row_idx: u32 = match self.b.attach(rec, self.last_row, Ghost(row)) {
            Some(id) => id,
            None => {
                return false;
            },
        };
        let mut c = RespCursor::new(data);
        let _marker: Option<u8> = c.u8();
        let mut last_col: u32 = NO_NODE;
        let mut i: usize = 0;
        let ghost refs0 = self.b.refs();
        while i < self.col_refs.len()
            invariant
                i <= self.col_refs@.len(),
                self.col_refs@ == old(self).col_refs@,
                self.soap_uri == old(self).soap_uri,
                self.soap_prefix == old(self).soap_prefix,
                self.root_idx == old(self).root_idx,
                self.row_name == old(self).row_name,
                n == m.cols.len(),
                n == self.col_refs@.len(),
                refs0 == old(self).b.refs(),
                refs0.submap_of(self.b.refs()),
                refer_all(self.col_refs@, m.cols, refs0),
                at == row_idx,
                d == m.draft,
                1 < m.root < at,
                self.b.wf(),
                head == builder::with_node(d, row),
                at == d.nodes.len(),
                row.kind is Element,
                row.value is None,
                target == resp_model::with_cells(head, at, m.cols, cells, n),
                target == resp_model::with_row(m, cells),
                self.b@ == resp_model::with_cells(head, at, m.cols, cells, i as int),
                self.b@.nodes.len() > at,
                self.b@.nodes[at] == row,
                one_root(self.b@.nodes),
                forall|k: int| 0 <= k < at ==> #[trigger] self.b@.nodes[k] == d.nodes[k],
                last_col == doc::link(doc::last_kid(self.b@.nodes, Some(at), false)),
                doc::last_kid(self.b@.nodes, Some(m.root), false) == Some(at),
                doc::last_kid(self.b@.nodes, Some(1), false) == Some(m.root),
                c.wf(),
                c.data() == data@,
                resp_wire::cells_at(data@, 1, n as nat) matches Some(all) && all.0 == cells,
                cells.len() == n,
                resp_wire::cells_at(data@, 1, i as nat) matches Some(s) && s.1 == c.pos(),
            decreases self.col_refs@.len() - i,
        {
            let ghost before = self.b@;
            let ghost refs1 = self.b.refs();
            proof {
                lemma_cell(data@, 1, i as nat, n as nat);
                self.b.lemma_wf();
                let next = resp_model::with_cells(head, at, m.cols, cells, i + 1);
                lemma_cells_extend(head, at, m.cols, cells, i + 1, n);
                builder::lemma_extends_fits(target, next);
                let logged = builder::logged_value_opt(
                    before,
                    resp_model::cell_value(cells[i as int]),
                );
                assert(logged.log =~= next.log.take(logged.log.len() as int));
                lemma_prefix_fits(next, logged);
            }
            let nf: u8 = match c.u8() {
                Some(b) => b,
                None => 0,
            };
            let value: Option<String> = if nf == 1 {
                match c.lp_bytes() {
                    Some(slice) => if slice.len() > 0 {
                        Some(text_from_utf8_lossy(slice))
                    } else {
                        None
                    },
                    None => None,
                }
            } else {
                None
            };
            assert(text::opt_text(value) == resp_model::cell_value(cells[i as int]));
            let vref: u32 = match self.b.intern_value_opt(&value) {
                Some(r) => r,
                None => {
                    return false;
                },
            };
            let col_name: u32 = self.col_refs[i];
            let ghost v = resp_model::element(
                Some(at),
                m.cols[i as int],
                None,
                None,
                resp_model::cell_value(cells[i as int]),
            );
            proof {
                doc::lemma_refers_more(col_name, Some(m.cols[i as int]), refs0, refs1);
                doc::lemma_refers_more(col_name, Some(m.cols[i as int]), refs1, self.b.refs());
                doc::lemma_submap_trans(refs0, refs1, self.b.refs());
                tree::lemma_last_kid_push(before.nodes, v, Some(1), false);
                tree::lemma_last_kid_push(before.nodes, v, Some(m.root), false);
                tree::lemma_last_kid_push(before.nodes, v, Some(at), false);
            }
            let rec = E4XNodeDataReadOnly::new(
                E4XNodeKindReadOnly::Element,
                col_name,
                vref,
                NO_NODE,
                NO_NODE,
                row_idx,
            );
            last_col = match self.b.attach(rec, last_col, Ghost(v)) {
                Some(id) => id,
                None => {
                    return false;
                },
            };
            i += 1;
        }
        self.last_row = row_idx;
        proof {
            self.b.lemma_wf();
            let refs2 = self.b.refs();
            doc::lemma_refers_more(self.soap_uri, Some(resp_model::soap_uri()), refs0, refs2);
            doc::lemma_refers_more(self.soap_prefix, Some(resp_model::soap_prefix()), refs0, refs2);
            doc::lemma_refers_more(self.row_name, Some(m.row_name), refs0, refs2);
            lemma_refer_all_more(self.col_refs@, m.cols, refs0, refs2);
        }
        true
    }

    /// Adds a fault behind the root; false where it does not fit.
    pub fn append_fault(&mut self, msg: &str, Ghost(m): Ghost<RespModel>) -> (ok: bool)
        requires
            old(self).holds(m),
            m.header_done,
            !m.finished,
        ensures
            ok <==> builder::fits(resp_model::with_fault(m.draft, msg@)),
            ok ==> final(self).holds(
                (RespModel {
                    draft: resp_model::with_fault(m.draft, msg@),
                    finished: true,
                    buf: Seq::empty(),
                    ..m
                }),
            ),
    {
        let ghost d = m.draft;
        let ghost at = d.nodes.len() as int;
        let ghost target = resp_model::with_fault(d, msg@);
        let ghost d1 = builder::logged(d, "Fault"@);
        let ghost d2 = builder::logged(d1, "faultcode"@);
        let ghost d3 = builder::logged_value(d2, "SOAP-ENV:Server"@);
        let ghost d4 = builder::logged(d3, "faultstring"@);
        let ghost d5 = builder::logged_value(d4, msg@);
        let ghost fault = resp_model::soap_element(Some(1), "Fault"@);
        let ghost code = resp_model::element(
            Some(at),
            "faultcode"@,
            None,
            None,
            Some("SOAP-ENV:Server"@),
        );
        let ghost string = resp_model::element(
            Some(at),
            "faultstring"@,
            None,
            None,
            Some(msg@),
        );
        let ghost d6 = builder::with_node(d5, fault);
        let ghost d7 = builder::with_node(d6, code);
        proof {
            self.b.lemma_wf();
            assert(d1.log =~= target.log.take(d1.log.len() as int));
            assert(d2.log =~= target.log.take(d2.log.len() as int));
            assert(d3.log =~= target.log.take(d3.log.len() as int));
            assert(d4.log =~= target.log.take(d4.log.len() as int));
            assert(d5.log =~= target.log.take(d5.log.len() as int));
            lemma_prefix_fits(target, d1);
            lemma_prefix_fits(target, d2);
            lemma_prefix_fits(target, d3);
            lemma_prefix_fits(target, d4);
            lemma_prefix_fits(target, d5);
            lemma_prefix_fits(target, d6);
            lemma_prefix_fits(target, d7);
        }
        let ghost refs0 = self.b.refs();
        let fault_name: u32 = match self.b.intern("Fault") {
            Some(r) => r,
            None => {
                return false;
            },
        };
        let ghost refs1 = self.b.refs();
        let code_name: u32 = match self.b.intern("faultcode") {
            Some(r) => r,
            None => {
                return false;
            },
        };
        let ghost refs2 = self.b.refs();
        let code_value: u32 = match self.b.intern_value("SOAP-ENV:Server") {
            Some(r) => r,
            None => {
                return false;
            },
        };
        let ghost refs3 = self.b.refs();
        let string_name: u32 = match self.b.intern("faultstring") {
            Some(r) => r,
            None => {
                return false;
            },
        };
        let ghost refs4 = self.b.refs();
        let string_value: u32 = match self.b.intern_value(msg) {
            Some(r) => r,
            None => {
                return false;
            },
        };
        proof {
            let refs5 = self.b.refs();
            doc::lemma_submap_trans(refs3, refs4, refs5);
            doc::lemma_submap_trans(refs2, refs3, refs5);
            doc::lemma_submap_trans(refs1, refs2, refs5);
            doc::lemma_submap_trans(refs0, refs1, refs5);
            doc::lemma_refers_more(self.soap_uri, Some(resp_model::soap_uri()), refs0, refs5);
            doc::lemma_refers_more(self.soap_prefix, Some(resp_model::soap_prefix()), refs0, refs5);
            doc::lemma_refers_more(fault_name, fault.name, refs1, refs5);
            doc::lemma_refers_more(code_name, code.name, refs2, refs5);
            doc::lemma_refers_more(code_value, code.value, refs3, refs5);
            doc::lemma_refers_more(string_name, string.name, refs4, refs5);
            tree::lemma_no_kids_yet(d.nodes, fault, false);
        }
        let rec = E4XNodeDataReadOnly::new(
            E4XNodeKindReadOnly::Element,
            fault_name,
            NO_NODE,
            self.soap_uri,
            self.soap_prefix,
            1,
        );
        let fault_idx: u32 = match self.b.attach(rec, self.root_idx, Ghost(fault)) {
            Some(id) => id,
            None => {
                return false;
            },
        };
        let rec = E4XNodeDataReadOnly::new(
            E4XNodeKindReadOnly::Element,
            code_name,
            code_value,
            NO_NODE,
            NO_NODE,
            fault_idx,
        );
        let code_idx: u32 = match self.b.attach(rec, NO_NODE, Ghost(code)) {
            Some(id) => id,
            None => {
                return false;
            },
        };
        proof {
            self.b.lemma_wf();
            tree::lemma_last_kid_push(d6.nodes, code, Some(at), false);
        }
        let rec = E4XNodeDataReadOnly::new(
            E4XNodeKindReadOnly::Element,
            string_name,
            string_value,
            NO_NODE,
            NO_NODE,
            fault_idx,
        );
        match self.b.attach(rec, code_idx, Ghost(string)) {
            Some(_) => {},
            None => {
                return false;
            },
        }
        proof {
            self.b.lemma_wf();
        }
        true
    }
}

/// Splits a name at its first colon.
fn split_name(name: &str) -> (r: (Option<String>, String))
    ensures
        text::opt_text(r.0) == resp_model::name_prefix(name@),
        r.1@ == resp_model::name_local(name@),
{
    let chars = chars_of(name);
    let n: usize = chars.len();
    let mut at: usize = 0;
    assert(chars@.skip(0) =~= chars@);
    while at < n && chars[at] != ':'
        invariant
            at <= n == chars@.len(),
            resp_model::colon_at(chars@) == at + resp_model::colon_at(chars@.skip(at as int)),
        decreases n - at,
    {
        assert(chars@.skip(at as int).drop_first() =~= chars@.skip(at + 1));
        at += 1;
    }
    if at == n {
        return (None, name.to_owned());
    }
    let prefix = text_of(&chars, 0, at);
    let local = text_of(&chars, at + 1, n);
    assert(prefix@ =~= name@.take(at as int));
    assert(local@ =~= name@.skip(at + 1));
    (Some(prefix), local)
}

/// The cells of a whole row are there one by one.
proof fn lemma_cell(data: Seq<u8>, pos: int, k: nat, n: nat)
    requires
        k < n,
        resp_wire::cells_at(data, pos, n) is Some,
    ensures
        resp_wire::cells_at(data, pos, k) is Some,
        resp_wire::cells_at(data, pos, k + 1) is Some,
        ({
            let all = resp_wire::cells_at(data, pos, n)->0;
            let some = resp_wire::cells_at(data, pos, k)->0;
            let next = resp_wire::cells_at(data, pos, k + 1)->0;
            &&& resp_wire::cell_at(data, some.1) == Some((all.0[k as int], next.1))
            &&& some.0.len() == k
            &&& all.0.len() == n
        }),
    decreases n,
{
    lemma_cells_len(data, pos, k);
    lemma_cells_len(data, pos, n);
    if k + 1 < n {
        lemma_cell(data, pos, k, (n - 1) as nat);
        lemma_cells_len(data, pos, (n - 1) as nat);
    }
}

proof fn lemma_cells_len(data: Seq<u8>, pos: int, n: nat)
    ensures
        resp_wire::cells_at(data, pos, n) matches Some(c) ==> c.0.len() == n,
    decreases n,
{
    if n > 0 {
        lemma_cells_len(data, pos, (n - 1) as nat);
    }
}

} // verus!
