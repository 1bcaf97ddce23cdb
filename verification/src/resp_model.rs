//! What a row set's bytes stand for: an envelope, and in it the rows of all records that
//! are whole.

use crate::builder;
use crate::builder::Draft;
use crate::doc::DeclView;
use crate::doc::NodeView;
use crate::node_data::E4XNodeKindReadOnly;
use crate::resp_wire;
use crate::resp_wire::HeaderView;
use crate::resp_wire::RecordView;
use crate::text;
use crate::tree;
use vstd::prelude::*;

verus! {

/// A row set part-way through its bytes: whether the header was read, whether a
/// terminator was, the bytes not yet used, the document so far, the columns' and the
/// rows' names, and where the root stands.
#[verifier::ext_equal]
pub struct RespModel {
    pub header_done: bool,
    pub finished: bool,
    pub buf: Seq<u8>,
    pub draft: Draft,
    pub cols: Seq<Seq<char>>,
    pub row_name: Seq<char>,
    pub root: int,
}

/// The envelope's namespace.
pub open spec fn soap_uri() -> Seq<char> {
    "http://schemas.xmlsoap.org/soap/envelope/"@
}

/// The envelope's prefix.
pub open spec fn soap_prefix() -> Seq<char> {
    "SOAP-ENV"@
}

/// An element without attributes.
pub open spec fn element(
    parent: Option<int>,
    name: Seq<char>,
    ns: Option<Seq<char>>,
    prefix: Option<Seq<char>>,
    value: Option<Seq<char>>,
) -> NodeView {
    tree::named_node(E4XNodeKindReadOnly::Element, parent, name, ns, prefix, value)
}

/// An element of the envelope.
pub open spec fn soap_element(parent: Option<int>, name: Seq<char>) -> NodeView {
    element(parent, name, Some(soap_uri()), Some(soap_prefix()), None)
}

/// The strings of the envelope.
pub open spec fn envelope_log() -> Draft {
    builder::logged(
        builder::logged(
            builder::logged(builder::logged(builder::empty_draft(), soap_uri()), soap_prefix()),
            "Envelope"@,
        ),
        "Body"@,
    )
}

/// The empty envelope: `Envelope`, with its namespace declared, and `Body` in it.
pub open spec fn envelope() -> Draft {
    builder::with_node(
        builder::with_decl(
            builder::with_node(envelope_log(), soap_element(None, "Envelope"@)),
            DeclView { node: 0, prefix: soap_prefix(), uri: soap_uri() },
        ),
        soap_element(Some(0), "Body"@),
    )
}

/// Before any byte.
pub open spec fn start_model() -> RespModel {
    RespModel {
        header_done: false,
        finished: false,
        buf: Seq::empty(),
        draft: envelope(),
        cols: Seq::empty(),
        row_name: Seq::empty(),
        root: 0,
    }
}

/// Where the first colon of a name stands, or its length.
pub open spec fn colon_at(s: Seq<char>) -> int
    decreases s.len(),
{
    if s.len() == 0 || s[0] == ':' {
        0
    } else {
        1 + colon_at(s.drop_first())
    }
}

/// The part of a name before its first colon.
pub open spec fn name_prefix(s: Seq<char>) -> Option<Seq<char>> {
    if colon_at(s) < s.len() {
        Some(s.take(colon_at(s)))
    } else {
        None
    }
}

/// The part of a name behind its first colon.
pub open spec fn name_local(s: Seq<char>) -> Seq<char> {
    if colon_at(s) < s.len() {
        s.skip(colon_at(s) + 1)
    } else {
        s
    }
}

/// A text, unless it is empty.
pub open spec fn nonempty(s: Seq<char>) -> Option<Seq<char>> {
    if s.len() > 0 {
        Some(s)
    } else {
        None
    }
}

/// The draft after interning several strings.
pub open spec fn logged_all(d: Draft, names: Seq<Seq<char>>) -> Draft {
    Draft { log: d.log + builder::name_entries(names), ..d }
}

/// The strings that a header interns.
pub open spec fn header_log(
    d: Draft,
    root_qname: Seq<char>,
    ns_uri: Seq<char>,
    row_el: Seq<char>,
    names: Seq<Seq<char>>,
) -> Draft {
    logged_all(
        builder::logged(
            builder::logged_opt(
                builder::logged_opt(
                    builder::logged(d, name_local(root_qname)),
                    nonempty(ns_uri),
                ),
                name_prefix(root_qname),
            ),
            row_el,
        ),
        names,
    )
}

/// The root's own declaration of its namespace, where it is in one.
pub open spec fn root_declared(
    d: Draft,
    root: int,
    ns: Option<Seq<char>>,
    prefix: Option<Seq<char>>,
) -> Draft {
    match ns {
        Some(uri) => match prefix {
            Some(p) => builder::with_decl(d, DeclView { node: root, prefix: p, uri }),
            None => builder::with_decl(
                builder::logged(d, ""@),
                DeclView { node: root, prefix: ""@, uri },
            ),
        },
        None => d,
    }
}

/// The document with the root that a header names.
pub open spec fn with_root(
    d: Draft,
    root_qname: Seq<char>,
    ns_uri: Seq<char>,
    row_el: Seq<char>,
    names: Seq<Seq<char>>,
) -> Draft {
    root_declared(
        builder::with_node(
            header_log(d, root_qname, ns_uri, row_el, names),
            element(
                Some(1),
                name_local(root_qname),
                nonempty(ns_uri),
                name_prefix(root_qname),
                None,
            ),
        ),
        d.nodes.len() as int,
        nonempty(ns_uri),
        name_prefix(root_qname),
    )
}

/// What is kept of a cell: its text, unless it is absent or empty.
pub open spec fn cell_value(c: Option<Seq<u8>>) -> Option<Seq<char>> {
    match c {
        Some(b) => if b.len() > 0 {
            Some(text::utf8_lossy(b))
        } else {
            None
        },
        None => None,
    }
}

/// The first `n` cells of the row at `row`, an element each.
pub open spec fn with_cells(
    d: Draft,
    row: int,
    cols: Seq<Seq<char>>,
    cells: Seq<Option<Seq<u8>>>,
    n: int,
) -> Draft
    decreases n,
{
    if n <= 0 {
        d
    } else {
        builder::with_node(
            builder::logged_value_opt(
                with_cells(d, row, cols, cells, n - 1),
                cell_value(cells[n - 1]),
            ),
            element(Some(row), cols[n - 1], None, None, cell_value(cells[n - 1])),
        )
    }
}

/// The document with one more row.
pub open spec fn with_row(m: RespModel, cells: Seq<Option<Seq<u8>>>) -> Draft {
    with_cells(
        builder::with_node(m.draft, element(Some(m.root), m.row_name, None, None, None)),
        m.draft.nodes.len() as int,
        m.cols,
        cells,
        m.cols.len() as int,
    )
}

/// The strings of a fault.
pub open spec fn fault_log(d: Draft, msg: Seq<char>) -> Draft {
    builder::logged_value(
        builder::logged(
            builder::logged_value(
                builder::logged(builder::logged(d, "Fault"@), "faultcode"@),
                "SOAP-ENV:Server"@,
            ),
            "faultstring"@,
        ),
        msg,
    )
}

/// The document with a fault behind the root: a code and a message.
pub open spec fn with_fault(d: Draft, msg: Seq<char>) -> Draft {
    let at = d.nodes.len() as int;
    builder::with_node(
        builder::with_node(
            builder::with_node(fault_log(d, msg), soap_element(Some(1), "Fault"@)),
            element(Some(at), "faultcode"@, None, None, Some("SOAP-ENV:Server"@)),
        ),
        element(Some(at), "faultstring"@, None, None, Some(msg)),
    )
}

/// The header is read, if it is whole.
pub open spec fn with_header(m: RespModel) -> RespModel {
    match resp_wire::header_at(m.buf) {
        HeaderView::NeedMore => m,
        HeaderView::Bad => RespModel {
            header_done: true,
            finished: true,
            buf: Seq::empty(),
            ..m
        },
        HeaderView::Ready { consumed, root_qname, ns_uri, row_el, names } => RespModel {
            header_done: true,
            buf: m.buf.skip(consumed),
            draft: with_root(m.draft, root_qname, ns_uri, row_el, names),
            cols: names,
            row_name: row_el,
            root: m.draft.nodes.len() as int,
            ..m
        },
    }
}

/// All records that are whole are read, up to a terminator.
pub open spec fn with_records(m: RespModel) -> RespModel
    decreases m.buf.len(),
{
    if !m.header_done || m.finished {
        m
    } else {
        match resp_wire::record_at(m.buf, m.cols.len()) {
            RecordView::Incomplete => m,
            RecordView::Row { len, cells } => if 0 < len <= m.buf.len() {
                with_records(
                    RespModel { buf: m.buf.skip(len), draft: with_row(m, cells), ..m },
                )
            } else {
                m
            },
            RecordView::End { .. } => RespModel { finished: true, buf: Seq::empty(), ..m },
            RecordView::Fault { msg, .. } => RespModel {
                finished: true,
                buf: Seq::empty(),
                draft: with_fault(m.draft, msg),
                ..m
            },
            RecordView::Malformed => RespModel { finished: true, buf: Seq::empty(), ..m },
        }
    }
}

/// Everything that the bytes at hand allow is read.
pub open spec fn settled(m: RespModel) -> RespModel {
    if m.finished {
        m
    } else if m.header_done {
        with_records(m)
    } else {
        with_records(with_header(m))
    }
}

/// The row set that some bytes stand for.
pub open spec fn absorbed(bytes: Seq<u8>) -> RespModel {
    settled(RespModel { buf: bytes, ..start_model() })
}

/// More bytes at the end of a buffer.
pub open spec fn extended(m: RespModel, more: Seq<u8>) -> RespModel {
    RespModel { buf: m.buf + more, ..m }
}

/// More bytes after the decoder failed on them: a header that became whole counts,
/// records do not.
pub open spec fn broken_off(m: RespModel, more: Seq<u8>) -> RespModel {
    let h = if m.header_done {
        m
    } else {
        with_header(extended(m, more))
    };
    RespModel { finished: true, buf: Seq::empty(), ..h }
}

proof fn lemma_records_extend(m: RespModel, more: Seq<u8>)
    ensures
        with_records(extended(m, more)) == (if with_records(m).finished {
            if m.finished {
                extended(m, more)
            } else {
                with_records(m)
            }
        } else {
            with_records(extended(with_records(m), more))
        }),
    decreases m.buf.len(),
{
    if m.header_done && !m.finished {
        let n = m.cols.len();
        resp_wire::lemma_record_stable(m.buf, more, n);
        match resp_wire::record_at(m.buf, n) {
            RecordView::Row { len, cells } => {
                let next = RespModel { buf: m.buf.skip(len), draft: with_row(m, cells), ..m };
                lemma_records_extend(next, more);
                assert((m.buf + more).skip(len) =~= m.buf.skip(len) + more);
            },
            _ => {},
        }
    }
}

/// Reading bytes in two parts gives what reading them at once gives.
pub proof fn lemma_settled_in_parts(m: RespModel, a: Seq<u8>, b: Seq<u8>)
    requires
        !m.finished,
    ensures
        settled(extended(m, a + b)) == (if settled(extended(m, a)).finished {
            settled(extended(m, a))
        } else {
            settled(extended(settled(extended(m, a)), b))
        }),
{
    let ma = extended(m, a);
    let mab = extended(m, a + b);
    assert(mab =~= extended(ma, b)) by {
        assert(m.buf + (a + b) =~= m.buf + a + b);
    }
    if m.header_done {
        lemma_records_extend(ma, b);
        lemma_records_header(ma);
    } else {
        resp_wire::lemma_header_stable(ma.buf, b);
        match resp_wire::header_at(ma.buf) {
            HeaderView::NeedMore => {},
            HeaderView::Bad => {
                assert(with_header(mab) =~= with_header(ma));
            },
            HeaderView::Ready { consumed, .. } => {
                let h = with_header(ma);
                assert(mab.buf.skip(consumed) =~= ma.buf.skip(consumed) + b);
                assert(with_header(mab) =~= extended(h, b));
                lemma_records_extend(h, b);
                lemma_records_header(h);
            },
        }
    }
}

/// Reading records leaves the header as it is.
pub proof fn lemma_records_header(m: RespModel)
    ensures
        with_records(m).header_done == m.header_done,
    decreases m.buf.len(),
{
    if m.header_done && !m.finished {
        match resp_wire::record_at(m.buf, m.cols.len()) {
            RecordView::Row { len, cells } => if 0 < len <= m.buf.len() {
                lemma_records_header(
                    RespModel { buf: m.buf.skip(len), draft: with_row(m, cells), ..m },
                );
            },
            _ => {},
        }
    }
}

/// A row set read from a stream, in parts of any size, is the row set read at once:
/// what a part adds depends on what was read before, not on where the parts end.
pub proof fn lemma_streaming(a: Seq<u8>, b: Seq<u8>)
    ensures
        absorbed(a + b) == (if absorbed(a).finished {
            absorbed(a)
        } else {
            settled(extended(absorbed(a), b))
        }),
{
    let m = start_model();
    assert(extended(m, a) =~= RespModel { buf: a, ..m }) by {
        assert(m.buf + a =~= a);
    }
    assert(extended(m, a + b) =~= RespModel { buf: a + b, ..m }) by {
        assert(m.buf + (a + b) =~= a + b);
    }
    lemma_settled_in_parts(m, a, b);
}

/// Reading again without new bytes changes nothing.
pub proof fn lemma_settled_again(m: RespModel)
    ensures
        settled(settled(m)) == settled(m),
{
    if !m.finished {
        let none = Seq::<u8>::empty();
        assert(extended(m, none) =~= m) by {
            assert(m.buf + none =~= m.buf);
        }
        assert(none + none =~= none);
        lemma_settled_in_parts(m, none, none);
        let s = settled(m);
        assert(extended(s, none) =~= s) by {
            assert(s.buf + none =~= s.buf);
        }
    }
}

/// After a terminator nothing that follows counts.
pub proof fn lemma_finished_stays(a: Seq<u8>, b: Seq<u8>)
    requires
        absorbed(a).finished,
    ensures
        absorbed(a + b) == absorbed(a),
{
    lemma_streaming(a, b);
}

} // verus!
