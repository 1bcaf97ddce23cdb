//! Row sets: what a table's bytes on the wire are, and that reading them gives the table back.

use crate::builder;
use crate::builder::Draft;
use crate::doc::DeclView;
use crate::doc::NodeView;
use crate::inflate;
use crate::node_data::E4XNodeKindReadOnly;
use crate::queries;
use crate::resp_model;
use crate::resp_model::RespModel;
use crate::resp_stream;
use crate::resp_wire;
use crate::resp_wire::HeaderView;
use crate::resp_wire::RecordView;
use crate::text;
use vstd::arithmetic::power2::*;
use vstd::prelude::*;

verus! {

/// A number on the wire: seven bits a byte, the low ones first, with the top bit set on all
/// bytes but the last.
pub open spec fn number_bytes(n: nat) -> Seq<u8>
    decreases n,
{
    if n < 128 {
        seq![n as u8]
    } else {
        seq![(128 + n % 128) as u8] + number_bytes(n / 128)
    }
}

/// Bytes on the wire: behind their length.
pub open spec fn framed(b: Seq<u8>) -> Seq<u8> {
    number_bytes(b.len()) + b
}

/// Several of them.
pub open spec fn framed_all(list: Seq<Seq<u8>>) -> Seq<u8>
    decreases list.len(),
{
    if list.len() == 0 {
        Seq::empty()
    } else {
        framed_all(list.drop_last()) + framed(list.last())
    }
}

/// A cell on the wire: a one and its bytes, or a zero where it is absent.
pub open spec fn cell_bytes(c: Option<Seq<u8>>) -> Seq<u8> {
    match c {
        Some(b) => seq![1u8] + framed(b),
        None => seq![0u8],
    }
}

/// Several of them.
pub open spec fn cells_bytes(cells: Seq<Option<Seq<u8>>>) -> Seq<u8>
    decreases cells.len(),
{
    if cells.len() == 0 {
        Seq::empty()
    } else {
        cells_bytes(cells.drop_last()) + cell_bytes(cells.last())
    }
}

/// Rows on the wire: a one and the cells, each.
pub open spec fn rows_bytes(rows: Seq<Seq<Option<Seq<u8>>>>) -> Seq<u8>
    decreases rows.len(),
{
    if rows.len() == 0 {
        Seq::empty()
    } else {
        seq![1u8] + cells_bytes(rows[0]) + rows_bytes(rows.drop_first())
    }
}

/// What is named in front of the rows.
pub struct Naming {
    pub root: Seq<u8>,
    pub uri: Seq<u8>,
    pub row: Seq<u8>,
    pub cols: Seq<Seq<u8>>,
}

/// The header on the wire: `RESP`, a version, and the names.
pub open spec fn header_bytes(version: u8, n: Naming) -> Seq<u8> {
    seq![0x52u8, 0x45u8, 0x53u8, 0x50u8, version] + framed(n.root) + framed(n.uri) + framed(n.row)
        + number_bytes(n.cols.len()) + framed_all(n.cols)
}

/// `part` stands in `data` at `pos`.
spec fn stands(data: Seq<u8>, pos: int, part: Seq<u8>) -> bool {
    0 <= pos && pos + part.len() <= data.len() && forall|i: int|
        0 <= i < part.len() ==> #[trigger] part[i] == data[pos + i]
}

proof fn lemma_split(data: Seq<u8>, pos: int, a: Seq<u8>, b: Seq<u8>)
    requires
        stands(data, pos, a + b),
    ensures
        stands(data, pos, a),
        stands(data, pos + a.len(), b),
{
    assert forall|i: int| 0 <= i < a.len() implies #[trigger] a[i] == data[pos + i] by {
        assert((a + b)[i] == a[i]);
    }
    assert forall|i: int| 0 <= i < b.len() implies #[trigger] b[i] == data[pos + a.len() + i] by {
        assert((a + b)[a.len() + i] == b[i]);
    }
}

proof fn lemma_bits(b: u8, low: u8, acc: u64, shift: u64)
    requires
        b == low || b == low + 128,
        low < 128,
        shift < 64,
        acc < (1u64 << shift),
    ensures
        b & 0x7f == low,
        (b & 0x80 == 0) == (b == low),
        (acc | ((low as u64) << shift)) == acc + ((low as u64) << shift),
{
    assert(b & 0x7f == low && ((b & 0x80 == 0) == (b == low))) by (bit_vector)
        requires
            b == low || b == low + 128,
            low < 128,
    ;
    let x = low as u64;
    assert((acc | (x << shift)) == acc + (x << shift)) by (bit_vector)
        requires
            shift < 64,
            acc < (1u64 << shift),
    ;
}

proof fn lemma_number_parts(acc: int, n: int, p: int)
    requires
        n >= 0,
        p > 0,
        0 <= acc < p,
    ensures
        acc + (n % 128) * p + (n / 128) * (p * 128) == acc + n * p,
        acc + (n % 128) * p < p * 128,
        (n % 128) * p <= n * p,
        n >= 128 ==> p * 128 <= n * p,
{
    let q = n / 128;
    let r = n % 128;
    assert(n == 128 * q + r);
    assert(q * (p * 128) + r * p == n * p) by (nonlinear_arith)
        requires
            n == 128 * q + r,
    ;
    assert(r * p <= 127 * p) by (nonlinear_arith)
        requires
            0 <= r <= 127,
            p > 0,
    ;
    assert(0 <= q * (p * 128)) by (nonlinear_arith)
        requires
            0 <= q,
            p > 0,
    ;
    if n >= 128 {
        assert(p * 128 <= n * p) by (nonlinear_arith)
            requires
                n >= 128,
                p > 0,
        ;
    }
}

proof fn lemma_number(n: nat, data: Seq<u8>, pos: int, shift: nat, acc: u64)
    requires
        stands(data, pos, number_bytes(n)),
        shift <= 63,
        shift % 7 == 0,
        acc < pow2(shift),
        acc + n * pow2(shift) <= u64::MAX,
    ensures
        resp_wire::varint_at(data, pos, shift as u32, acc) == Some(
            ((acc + n * pow2(shift)) as u64, pos + number_bytes(n).len()),
        ),
    decreases n,
{
    let p = pow2(shift) as int;
    lemma_pow2_pos(shift);
    lemma_number_parts(acc as int, n as int, p);
    let part = number_bytes(n);
    let low = (n % 128) as u8;
    let b = data[pos];
    assert(part[0] == b);
    assert(1 * pow2(shift) <= u64::MAX) by {
        if shift == 63 {
            lemma2_to64();
            lemma2_to64_rest();
        } else {
            lemma_pow2_strictly_increases(shift, 63);
            lemma2_to64_rest();
        }
    }
    vstd::bits::lemma_u64_shl_is_mul(1u64, shift as u64);
    vstd::bits::lemma_u64_shl_is_mul(low as u64, shift as u64);
    assert(low as u64 == (n % 128));
    assert(((low as u64) << (shift as u64)) == (n % 128) * p);
    lemma_bits(b, low, acc, shift as u64);
    let v = acc | (((b & 0x7f) as u64) << (shift as u32));
    assert(((b & 0x7f) as u64) << (shift as u32) == ((low as u64) << (shift as u64)));
    assert(v == acc + (n % 128) * p);
    if n < 128 {
        assert(n % 128 == n);
        assert(b == low);
        assert(part.len() == 1);
    } else {
        assert(b != low);
        lemma_pow2_adds(shift, 7);
        lemma2_to64();
        assert(pow2(shift + 7) == p * 128);
        assert(shift + 7 <= 63) by {
            if shift + 7 > 63 {
                assert(shift == 63);
                lemma2_to64_rest();
                assert(pow2(70) == pow2(63) * 128);
            }
        }
        let rest = number_bytes(n / 128);
        let front = seq![(128 + n % 128) as u8];
        lemma_split(data, pos, front, rest);
        lemma_number(n / 128, data, pos + 1, shift + 7, v);
    }
}

proof fn lemma_length(n: nat, data: Seq<u8>, pos: int)
    requires
        stands(data, pos, number_bytes(n)),
        n <= usize::MAX,
    ensures
        resp_wire::length_at(data, pos) == Some((n as usize, pos + number_bytes(n).len())),
{
    lemma2_to64();
    lemma_number(n, data, pos, 0, 0);
}

proof fn lemma_framed(b: Seq<u8>, data: Seq<u8>, pos: int)
    requires
        stands(data, pos, framed(b)),
        data.len() <= usize::MAX,
    ensures
        resp_wire::bytes_at(data, pos) == Some((b, pos + framed(b).len())),
        resp_wire::string_at(data, pos) == Some((text::utf8_lossy(b), pos + framed(b).len())),
{
    let head = number_bytes(b.len());
    lemma_split(data, pos, head, b);
    lemma_length(b.len(), data, pos);
    let at = pos + head.len();
    assert(data.subrange(at, at + b.len()) =~= b);
}

/// Texts, as bytes decode to them.
pub open spec fn decoded(list: Seq<Seq<u8>>) -> Seq<Seq<char>> {
    Seq::new(list.len(), |i: int| text::utf8_lossy(list[i]))
}

proof fn lemma_framed_all(list: Seq<Seq<u8>>, data: Seq<u8>, pos: int)
    requires
        stands(data, pos, framed_all(list)),
        data.len() <= usize::MAX,
    ensures
        resp_wire::strings_at(data, pos, list.len()) == Some(
            (decoded(list), pos + framed_all(list).len()),
        ),
    decreases list.len(),
{
    if list.len() > 0 {
        let front = list.drop_last();
        lemma_split(data, pos, framed_all(front), framed(list.last()));
        lemma_framed_all(front, data, pos);
        lemma_framed(list.last(), data, pos + framed_all(front).len());
        assert(decoded(list) =~= decoded(front).push(text::utf8_lossy(list.last())));
    } else {
        assert(decoded(list) =~= Seq::<Seq<char>>::empty());
    }
}

proof fn lemma_cells(cells: Seq<Option<Seq<u8>>>, data: Seq<u8>, pos: int)
    requires
        stands(data, pos, cells_bytes(cells)),
        data.len() <= usize::MAX,
    ensures
        resp_wire::cells_at(data, pos, cells.len()) == Some((cells, pos + cells_bytes(cells).len())),
    decreases cells.len(),
{
    if cells.len() > 0 {
        let front = cells.drop_last();
        let c = cells.last();
        lemma_split(data, pos, cells_bytes(front), cell_bytes(c));
        lemma_cells(front, data, pos);
        let at = pos + cells_bytes(front).len();
        assert(cell_bytes(c)[0] == data[at]);
        match c {
            Some(b) => {
                lemma_split(data, at, seq![1u8], framed(b));
                lemma_framed(b, data, at + 1);
            },
            None => {},
        }
        assert(cells =~= front.push(c));
    } else {
        assert(cells =~= Seq::<Option<Seq<u8>>>::empty());
    }
}

proof fn lemma_header(version: u8, n: Naming, data: Seq<u8>)
    requires
        stands(data, 0, header_bytes(version, n)),
        n.cols.len() <= 100_000,
        data.len() <= usize::MAX,
    ensures
        resp_wire::header_at(data) == (HeaderView::Ready {
            consumed: header_bytes(version, n).len() as int,
            root_qname: text::utf8_lossy(n.root),
            ns_uri: text::utf8_lossy(n.uri),
            row_el: text::utf8_lossy(n.row),
            names: decoded(n.cols),
        }),
{
    let a = seq![0x52u8, 0x45u8, 0x53u8, 0x50u8, version];
    let b = framed(n.root);
    let c = framed(n.uri);
    let d = framed(n.row);
    let e = number_bytes(n.cols.len());
    let f = framed_all(n.cols);
    lemma_split(data, 0, a + b + c + d + e, f);
    lemma_split(data, 0, a + b + c + d, e);
    lemma_split(data, 0, a + b + c, d);
    lemma_split(data, 0, a + b, c);
    lemma_split(data, 0, a, b);
    assert(data.take(4) =~= resp_wire::magic()) by {
        assert(a[0] == data[0] && a[1] == data[1] && a[2] == data[2] && a[3] == data[3]);
    }
    lemma_framed(n.root, data, 5);
    lemma_framed(n.uri, data, 5int + b.len());
    lemma_framed(n.row, data, 5int + b.len() + c.len());
    lemma_length(n.cols.len(), data, 5int + b.len() + c.len() + d.len());
    lemma_framed_all(n.cols, data, 5int + b.len() + c.len() + d.len() + e.len());
}

/// An element of a row set.
pub open spec fn plain_element(parent: int, name: Seq<char>, value: Option<Seq<char>>) -> NodeView {
    NodeView {
        kind: E4XNodeKindReadOnly::Element,
        parent: Some(parent),
        name: Some(name),
        ns: None,
        prefix: None,
        value,
    }
}

/// What a cell's element holds: the text that the cell's bytes decode to; nothing where there
/// are none.
pub open spec fn cell_text(c: Option<Seq<u8>>) -> Option<Seq<char>> {
    if c is Some && c->0.len() > 0 {
        Some(text::utf8_lossy(c->0))
    } else {
        None
    }
}

/// A row at position `at` of a document: its element, and in it an element for each column.
pub open spec fn row_nodes(
    at: int,
    row: Seq<char>,
    cols: Seq<Seq<char>>,
    cells: Seq<Option<Seq<u8>>>,
) -> Seq<NodeView> {
    seq![plain_element(2, row, None)] + Seq::new(
        cols.len(),
        |c: int| plain_element(at, cols[c], cell_text(cells[c])),
    )
}

/// Rows from position `at` of a document on.
pub open spec fn rows_nodes(
    at: int,
    row: Seq<char>,
    cols: Seq<Seq<char>>,
    rows: Seq<Seq<Option<Seq<u8>>>>,
) -> Seq<NodeView>
    decreases rows.len(),
{
    if rows.len() == 0 {
        Seq::empty()
    } else {
        row_nodes(at, row, cols, rows[0]) + rows_nodes(
            at + 1 + cols.len(),
            row,
            cols,
            rows.drop_first(),
        )
    }
}

proof fn lemma_with_cells(
    d: Draft,
    row: int,
    cols: Seq<Seq<char>>,
    cells: Seq<Option<Seq<u8>>>,
    n: int,
)
    requires
        0 <= n <= cols.len(),
    ensures
        resp_model::with_cells(d, row, cols, cells, n).nodes == d.nodes + Seq::new(
            n as nat,
            |c: int| plain_element(row, cols[c], cell_text(cells[c])),
        ),
        resp_model::with_cells(d, row, cols, cells, n).decls == d.decls,
    decreases n,
{
    let now = Seq::new(n as nat, |c: int| plain_element(row, cols[c], cell_text(cells[c])));
    if n > 0 {
        lemma_with_cells(d, row, cols, cells, n - 1);
        let before = Seq::new(
            (n - 1) as nat,
            |c: int| plain_element(row, cols[c], cell_text(cells[c])),
        );
        assert(now =~= before.push(plain_element(row, cols[n - 1], cell_text(cells[n - 1]))));
        assert(resp_model::with_cells(d, row, cols, cells, n).nodes =~= d.nodes + now);
    } else {
        assert(d.nodes + now =~= d.nodes);
    }
}

/// A table's row count and the widths of its rows fit its columns.
pub open spec fn table_ok(n: Naming, rows: Seq<Seq<Option<Seq<u8>>>>) -> bool {
    &&& n.cols.len() <= 100_000
    &&& forall|r: int| 0 <= r < rows.len() ==> (#[trigger] rows[r]).len() == n.cols.len()
}

proof fn lemma_records(m: RespModel, rows: Seq<Seq<Option<Seq<u8>>>>, tail: Seq<u8>) -> (d: Draft)
    requires
        m.header_done,
        !m.finished,
        m.root == 2,
        m.buf == rows_bytes(rows) + tail,
        m.buf.len() <= usize::MAX,
        forall|r: int| 0 <= r < rows.len() ==> (#[trigger] rows[r]).len() == m.cols.len(),
    ensures
        d.nodes == m.draft.nodes + rows_nodes(
            m.draft.nodes.len() as int,
            m.row_name,
            m.cols,
            rows,
        ),
        d.decls == m.draft.decls,
        resp_model::with_records(m) == resp_model::with_records(
            RespModel { buf: tail, draft: d, ..m },
        ),
    decreases rows.len(),
{
    let at = m.draft.nodes.len() as int;
    if rows.len() == 0 {
        assert(m.buf =~= tail);
        assert(m.draft.nodes + rows_nodes(at, m.row_name, m.cols, rows) =~= m.draft.nodes);
        assert(m =~= RespModel { buf: tail, draft: m.draft, ..m });
        m.draft
    } else {
        let data = m.buf;
        let cells = rows[0];
        let rest = rows.drop_first();
        let front = seq![1u8] + cells_bytes(cells);
        assert(data =~= front + (rows_bytes(rest) + tail));
        assert(stands(data, 0, front));
        lemma_split(data, 0, seq![1u8], cells_bytes(cells));
        assert(seq![1u8][0] == data[0]);
        assert(cells.len() == m.cols.len());
        lemma_cells(cells, data, 1);
        assert(resp_wire::record_at(data, m.cols.len()) == (RecordView::Row {
            len: front.len() as int,
            cells,
        }));
        assert(data.skip(front.len() as int) =~= rows_bytes(rest) + tail);
        let next = RespModel {
            buf: data.skip(front.len() as int),
            draft: resp_model::with_row(m, cells),
            ..m
        };
        let head = builder::with_node(
            m.draft,
            resp_model::element(Some(m.root), m.row_name, None, None, None),
        );
        lemma_with_cells(head, at, m.cols, cells, m.cols.len() as int);
        let made = row_nodes(at, m.row_name, m.cols, cells);
        assert(next.draft.nodes =~= m.draft.nodes + made);
        assert forall|r: int| 0 <= r < rest.len() implies (#[trigger] rest[r]).len()
            == m.cols.len() by {
            assert(rest[r] == rows[r + 1]);
        }
        let d = lemma_records(next, rest, tail);
        assert(d.nodes =~= m.draft.nodes + rows_nodes(at, m.row_name, m.cols, rows));
        assert(RespModel { buf: tail, draft: d, ..next } =~= RespModel {
            buf: tail,
            draft: d,
            ..m
        });
        d
    }
}

/// An element of the envelope.
pub open spec fn envelope_element(parent: Option<int>, name: Seq<char>) -> NodeView {
    NodeView {
        kind: E4XNodeKindReadOnly::Element,
        parent,
        name: Some(name),
        ns: Some("http://schemas.xmlsoap.org/soap/envelope/"@),
        prefix: Some("SOAP-ENV"@),
        value: None,
    }
}

/// A name that may have a prefix is that of a node: with a colon, what stands before the first
/// is the prefix and what stands behind it the local name; without, all of it is.
pub open spec fn named_as(v: NodeView, qname: Seq<char>) -> bool {
    match v.prefix {
        Some(p) => v.name is Some && !p.contains(':') && qname == p + seq![':'] + v.name->0,
        None => v.name == Some(qname) && !qname.contains(':'),
    }
}

proof fn lemma_colon(s: Seq<char>)
    ensures
        0 <= resp_model::colon_at(s) <= s.len(),
        resp_model::colon_at(s) < s.len() ==> s[resp_model::colon_at(s)] == ':',
        forall|i: int| 0 <= i < resp_model::colon_at(s) ==> s[i] != ':',
    decreases s.len(),
{
    if s.len() > 0 && s[0] != ':' {
        lemma_colon(s.drop_first());
        assert forall|i: int| 0 <= i < resp_model::colon_at(s) implies s[i] != ':' by {
            if i > 0 {
                assert(s[i] == s.drop_first()[i - 1]);
            }
        }
    }
}

proof fn lemma_named(qname: Seq<char>, v: NodeView)
    requires
        v.name == Some(resp_model::name_local(qname)),
        v.prefix == resp_model::name_prefix(qname),
    ensures
        named_as(v, qname),
{
    lemma_colon(qname);
    let k = resp_model::colon_at(qname);
    if k < qname.len() {
        assert(qname =~= qname.take(k) + seq![':'] + qname.skip(k + 1));
        assert(!qname.take(k).contains(':')) by {
            if qname.take(k).contains(':') {
                let i = choose|i: int| 0 <= i < k && qname.take(k)[i] == ':';
                assert(qname[i] == ':');
            }
        }
    } else {
        assert(!qname.contains(':')) by {
            if qname.contains(':') {
                let i = choose|i: int| 0 <= i < qname.len() && qname[i] == ':';
                assert(qname[i] == ':');
            }
        }
    }
}

/// The document of a table: the envelope, in it the body, in it the root with its namespace
/// declared, and in it the rows.
pub open spec fn is_table(d: Draft, n: Naming, rows: Seq<Seq<Option<Seq<u8>>>>) -> bool {
    let uri = text::utf8_lossy(n.uri);
    let root = d.nodes[2];
    &&& d.nodes.len() >= 3
    &&& d.nodes[0] == envelope_element(None, "Envelope"@)
    &&& d.nodes[1] == envelope_element(Some(0), "Body"@)
    &&& root.kind is Element && root.parent == Some(1int) && root.value is None
    &&& named_as(root, text::utf8_lossy(n.root))
    &&& root.ns == (if uri.len() > 0 {
        Some(uri)
    } else {
        None
    })
    &&& d.nodes.skip(3) == rows_nodes(3, text::utf8_lossy(n.row), decoded(n.cols), rows)
    &&& d.decls.len() == (if uri.len() > 0 {
        2int
    } else {
        1
    })
    &&& d.decls[0] == DeclView {
        node: 0,
        prefix: "SOAP-ENV"@,
        uri: "http://schemas.xmlsoap.org/soap/envelope/"@,
    }
    &&& uri.len() > 0 ==> d.decls[1] == DeclView {
        node: 2,
        prefix: match root.prefix {
            Some(p) => p,
            None => Seq::empty(),
        },
        uri,
    }
}

proof fn lemma_table(
    version: u8,
    n: Naming,
    rows: Seq<Seq<Option<Seq<u8>>>>,
    tail: Seq<u8>,
) -> (m: RespModel)
    requires
        table_ok(n, rows),
        (header_bytes(version, n) + rows_bytes(rows) + tail).len() <= usize::MAX,
    ensures
        resp_model::absorbed(header_bytes(version, n) + rows_bytes(rows) + tail)
            == resp_model::with_records(m),
        m.header_done,
        !m.finished,
        m.buf == tail,
        m.cols == decoded(n.cols),
        is_table(m.draft, n, rows),
{
    reveal_strlit("");
    let head = header_bytes(version, n);
    let data = head + rows_bytes(rows) + tail;
    assert(stands(data, 0, head));
    lemma_header(version, n, data);
    let first = RespModel { buf: data, ..resp_model::start_model() };
    let m = resp_model::with_header(first);
    assert(data.skip(head.len() as int) =~= rows_bytes(rows) + tail);
    let qname = text::utf8_lossy(n.root);
    let uri = text::utf8_lossy(n.uri);
    assert(first.draft.nodes.len() == 2);
    assert(m.draft.nodes.len() == 3);
    let root = m.draft.nodes[2];
    lemma_named(qname, root);
    assert forall|r: int| 0 <= r < rows.len() implies (#[trigger] rows[r]).len()
        == m.cols.len() by {
        assert(rows[r].len() == n.cols.len());
    }
    let d = lemma_records(m, rows, tail);
    let made = rows_nodes(3, text::utf8_lossy(n.row), decoded(n.cols), rows);
    assert(d.nodes.skip(3) =~= made);
    assert(""@ =~= Seq::<char>::empty());
    assert(d.nodes[0] == m.draft.nodes[0] && d.nodes[1] == m.draft.nodes[1] && d.nodes[2] == root);
    RespModel { buf: tail, draft: d, ..m }
}

/// A table on the wire, behind its names and before the closing zero, reads as that table,
/// whatever follows the zero.
pub proof fn lemma_table_read(
    version: u8,
    n: Naming,
    rows: Seq<Seq<Option<Seq<u8>>>>,
    more: Seq<u8>,
)
    requires
        table_ok(n, rows),
        (header_bytes(version, n) + rows_bytes(rows) + (seq![0u8] + more)).len() <= usize::MAX,
    ensures
        ({
            let read = resp_model::absorbed(
                header_bytes(version, n) + rows_bytes(rows) + (seq![0u8] + more),
            );
            read.finished && is_table(read.draft, n, rows)
        }),
{
    let tail = seq![0u8] + more;
    let m = lemma_table(version, n, rows, tail);
    assert(m.buf[0] == 0);
}

/// A table on the wire of which the end has not come reads as the rows that have.
pub proof fn lemma_table_so_far(version: u8, n: Naming, rows: Seq<Seq<Option<Seq<u8>>>>)
    requires
        table_ok(n, rows),
        (header_bytes(version, n) + rows_bytes(rows)).len() <= usize::MAX,
    ensures
        ({
            let read = resp_model::absorbed(header_bytes(version, n) + rows_bytes(rows));
            !read.finished && is_table(read.draft, n, rows)
        }),
{
    let none = Seq::<u8>::empty();
    let all = header_bytes(version, n) + rows_bytes(rows);
    assert(all + none =~= all);
    let m = lemma_table(version, n, rows, none);
}

/// Where a fault closes a table on the wire, the body has it behind the root: a code, and the
/// message.
pub proof fn lemma_fault_read(
    version: u8,
    n: Naming,
    rows: Seq<Seq<Option<Seq<u8>>>>,
    msg: Seq<u8>,
    more: Seq<u8>,
)
    requires
        table_ok(n, rows),
        (header_bytes(version, n) + rows_bytes(rows) + (seq![0xffu8] + framed(msg) + more)).len()
            <= usize::MAX,
    ensures
        ({
            let read = resp_model::absorbed(
                header_bytes(version, n) + rows_bytes(rows) + (seq![0xffu8] + framed(msg) + more),
            );
            let at = read.draft.nodes.len() - 3;
            &&& read.finished
            &&& at >= 3
            &&& is_table(Draft { nodes: read.draft.nodes.take(at), ..read.draft }, n, rows)
            &&& read.draft.nodes[at] == envelope_element(Some(1), "Fault"@)
            &&& read.draft.nodes[at + 1] == plain_element(
                at,
                "faultcode"@,
                Some("SOAP-ENV:Server"@),
            )
            &&& read.draft.nodes[at + 2] == plain_element(
                at,
                "faultstring"@,
                Some(text::utf8_lossy(msg)),
            )
        }),
{
    let tail = seq![0xffu8] + framed(msg) + more;
    let m = lemma_table(version, n, rows, tail);
    assert(m.buf[0] == 0xff);
    assert(stands(tail, 1, framed(msg))) by {
        assert forall|i: int| 0 <= i < framed(msg).len() implies #[trigger] framed(msg)[i]
            == tail[1 + i] by {}
    }
    lemma_framed(msg, tail, 1);
    let read = resp_model::with_records(m);
    let at = m.draft.nodes.len() as int;
    assert(read.draft.nodes.take(at) =~= m.draft.nodes);
    assert(read.draft.nodes.take(at).skip(3) =~= m.draft.nodes.skip(3));
}

/// A record that opens with any other byte ends the reading; the rows before it stay.
pub proof fn lemma_bad_record(
    version: u8,
    n: Naming,
    rows: Seq<Seq<Option<Seq<u8>>>>,
    byte: u8,
    more: Seq<u8>,
)
    requires
        table_ok(n, rows),
        byte != 0 && byte != 1 && byte != 0xff,
        (header_bytes(version, n) + rows_bytes(rows) + (seq![byte] + more)).len() <= usize::MAX,
    ensures
        ({
            let read = resp_model::absorbed(
                header_bytes(version, n) + rows_bytes(rows) + (seq![byte] + more),
            );
            read.finished && is_table(read.draft, n, rows)
        }),
{
    let m = lemma_table(version, n, rows, seq![byte] + more);
    assert(m.buf[0] == byte);
}

/// Bytes that do not begin with `RESP` are no row set: the envelope stays empty.
pub proof fn lemma_no_row_set(data: Seq<u8>)
    requires
        data.len() >= 4,
        !(data[0] == 0x52 && data[1] == 0x45 && data[2] == 0x53 && data[3] == 0x50),
    ensures
        resp_model::absorbed(data).finished,
        resp_model::absorbed(data).draft.nodes == seq![
            envelope_element(None, "Envelope"@),
            envelope_element(Some(0), "Body"@),
        ],
{
    assert(data.take(4) != resp_wire::magic()) by {
        if data.take(4) == resp_wire::magic() {
            assert(data.take(4)[0] == 0x52 && data.take(4)[1] == 0x45 && data.take(4)[2] == 0x53
                && data.take(4)[3] == 0x50);
        }
    }
    let got = resp_model::absorbed(data).draft.nodes;
    assert(got =~= seq![
        envelope_element(None, "Envelope"@),
        envelope_element(Some(0), "Body"@),
    ]);
}

proof fn lemma_rows_at(
    at: int,
    row: Seq<char>,
    cols: Seq<Seq<char>>,
    rows: Seq<Seq<Option<Seq<u8>>>>,
    r: int,
)
    requires
        0 <= r < rows.len(),
    ensures
        ({
            let all = rows_nodes(at, row, cols, rows);
            let k = r * (1 + cols.len());
            &&& all.len() == rows.len() * (1 + cols.len())
            &&& 0 <= k && k + cols.len() < all.len()
            &&& all[k] == plain_element(2, row, None)
            &&& forall|c: int|
                0 <= c < cols.len() ==> #[trigger] all[k + 1 + c] == plain_element(
                    at + k,
                    cols[c],
                    cell_text(rows[r][c]),
                )
        }),
    decreases rows.len(),
{
    let w = 1 + cols.len();
    let rest = rows.drop_first();
    let more = rows_nodes(at + w, row, cols, rest);
    let all = rows_nodes(at, row, cols, rows);
    let one = row_nodes(at, row, cols, rows[0]);
    assert(all == one + more);
    assert(one.len() == w);
    lemma_rows_len(at + w, row, cols, rest);
    assert(rows.len() * w == rest.len() * w + w) by (nonlinear_arith)
        requires
            rows.len() == rest.len() + 1,
    ;
    if r == 0 {
        assert(0 * w == 0);
        assert(rest.len() * w >= 0) by (nonlinear_arith);
    } else {
        lemma_rows_at(at + w, row, cols, rest, r - 1);
        assert(r * w == (r - 1) * w + w) by (nonlinear_arith);
        let k = (r - 1) * w;
        assert forall|c: int| 0 <= c < cols.len() implies #[trigger] all[r * w + 1 + c]
            == plain_element(at + r * w, cols[c], cell_text(rows[r][c])) by {
            assert(all[r * w + 1 + c] == more[k + 1 + c]);
            assert(rest[r - 1] == rows[r]);
        }
        assert(all[r * w] == more[k]);
    }
}

proof fn lemma_rows_len(
    at: int,
    row: Seq<char>,
    cols: Seq<Seq<char>>,
    rows: Seq<Seq<Option<Seq<u8>>>>,
)
    ensures
        rows_nodes(at, row, cols, rows).len() == rows.len() * (1 + cols.len()),
    decreases rows.len(),
{
    let w = 1 + cols.len();
    if rows.len() > 0 {
        let rest = rows.drop_first();
        lemma_rows_len(at + w, row, cols, rest);
        assert(rows.len() * w == rest.len() * w + w) by (nonlinear_arith)
            requires
                rows.len() == rest.len() + 1,
        ;
    } else {
        assert(0 * w == 0);
    }
}

/// Reading a table on the wire gives back each cell in its row and column: an element of the
/// column's name in the row's element, with the text that the cell's bytes decode to. A cell
/// that is absent or empty is an element without a text.
pub proof fn lemma_cell_read(
    version: u8,
    n: Naming,
    rows: Seq<Seq<Option<Seq<u8>>>>,
    more: Seq<u8>,
    r: int,
    c: int,
)
    requires
        table_ok(n, rows),
        (header_bytes(version, n) + rows_bytes(rows) + (seq![0u8] + more)).len() <= usize::MAX,
        0 <= r < rows.len(),
        0 <= c < n.cols.len(),
    ensures
        ({
            let nodes = resp_model::absorbed(
                header_bytes(version, n) + rows_bytes(rows) + (seq![0u8] + more),
            ).draft.nodes;
            let at = 3 + r * (1 + n.cols.len());
            let v = nodes[at + 1 + c];
            &&& nodes.len() == 3 + rows.len() * (1 + n.cols.len())
            &&& nodes[at].kind is Element && nodes[at].parent == Some(2int) && nodes[at].name
                == Some(text::utf8_lossy(n.row))
            &&& v.kind is Element && v.parent == Some(at) && v.name == Some(
                text::utf8_lossy(n.cols[c]),
            )
            &&& rows[r][c] is Some && rows[r][c]->0.len() > 0 ==> v.value == Some(
                text::utf8_lossy(rows[r][c]->0),
            ) && queries::simple_text(nodes, at + 1 + c) == text::utf8_lossy(rows[r][c]->0)
            &&& rows[r][c] is None || rows[r][c]->0.len() == 0 ==> v.value is None
        }),
{
    lemma_table_read(version, n, rows, more);
    let nodes = resp_model::absorbed(
        header_bytes(version, n) + rows_bytes(rows) + (seq![0u8] + more),
    ).draft.nodes;
    let cols = decoded(n.cols);
    lemma_rows_at(3, text::utf8_lossy(n.row), cols, rows, r);
    let k = r * (1 + cols.len());
    let all = rows_nodes(3, text::utf8_lossy(n.row), cols, rows);
    assert(nodes.skip(3) == all);
    assert(nodes[3 + k] == nodes.skip(3)[k]);
    assert(nodes[3 + k + 1 + c] == nodes.skip(3)[k + 1 + c]);
    assert(all[k + 1 + c] == plain_element(3 + k, cols[c], cell_text(rows[r][c])));
}

/// A stream that carries a row set: behind a codec byte, inflated where that byte is one; a
/// plain one as it is.
pub proof fn lemma_stream(data: Seq<u8>, codec: u8)
    ensures
        resp_stream::payload(true, data) == data,
        codec != 1 ==> resp_stream::payload(false, seq![codec] + data) == data,
        resp_stream::payload(false, seq![1u8] + data) == inflate::inflated(data),
{
    assert((seq![codec] + data).skip(1) =~= data);
    assert((seq![1u8] + data).skip(1) =~= data);
}

/// In a row on the wire a cell is there exactly if a one stands before it: with any other byte
/// it is absent, and the next cell follows at once.
pub proof fn lemma_absent_cells(marks: Seq<u8>, more: Seq<u8>)
    requires
        forall|i: int| 0 <= i < marks.len() ==> #[trigger] marks[i] != 1,
    ensures
        resp_wire::record_at(seq![1u8] + marks + more, marks.len()) == (RecordView::Row {
            len: 1 + marks.len() as int,
            cells: Seq::new(marks.len(), |i: int| None),
        }),
{
    let data = seq![1u8] + marks + more;
    assert(data[0] == 1);
    lemma_marks(data, marks, marks.len());
}

proof fn lemma_marks(data: Seq<u8>, marks: Seq<u8>, n: nat)
    requires
        n <= marks.len(),
        data.len() >= 1 + marks.len(),
        forall|i: int| 0 <= i < marks.len() ==> data[1 + i] == #[trigger] marks[i],
        forall|i: int| 0 <= i < marks.len() ==> #[trigger] marks[i] != 1,
    ensures
        resp_wire::cells_at(data, 1, n) == Some(
            (Seq::new(n, |i: int| None::<Seq<u8>>), 1 + n as int),
        ),
    decreases n,
{
    let none = Seq::new(n, |i: int| None::<Seq<u8>>);
    if n == 0 {
        assert(none =~= Seq::empty());
    } else {
        lemma_marks(data, marks, (n - 1) as nat);
        assert(marks[n - 1] != 1);
        assert(none =~= Seq::new((n - 1) as nat, |i: int| None::<Seq<u8>>).push(None));
    }
}

/// A stream that breaks off leaves what its header names, where all of the header had come, and
/// no rows that were still to be read; it is at its end.
pub proof fn lemma_broken_off(version: u8, n: Naming, more: Seq<u8>, m: RespModel)
    requires
        n.cols.len() <= 100_000,
        (header_bytes(version, n) + more).len() <= usize::MAX,
    ensures
        ({
            let left = resp_model::broken_off(
                resp_model::start_model(),
                header_bytes(version, n) + more,
            );
            left.finished && is_table(left.draft, n, Seq::empty())
        }),
        m.header_done ==> resp_model::broken_off(m, more).draft == m.draft,
        resp_model::broken_off(m, more).finished,
{
    reveal_strlit("");
    let head = header_bytes(version, n);
    let data = head + more;
    assert(stands(data, 0, head));
    lemma_header(version, n, data);
    let first = resp_model::extended(resp_model::start_model(), data);
    assert(first.buf =~= data);
    let left = resp_model::with_header(first);
    assert(first.draft.nodes.len() == 2);
    assert(left.draft.nodes.len() == 3);
    lemma_named(text::utf8_lossy(n.root), left.draft.nodes[2]);
    assert(left.draft.nodes.skip(3) =~= rows_nodes(
        3,
        text::utf8_lossy(n.row),
        decoded(n.cols),
        Seq::empty(),
    ));
    assert(""@ =~= Seq::<char>::empty());
}

} // verus!
