//! The wire format of a row set: a header of names, then records until a terminator.

use crate::text;
use crate::text::text_from_utf8_lossy;
use vstd::prelude::*;

verus! {

/// Most columns a header may announce.
pub const MAX_COLUMNS: usize = 100_000;

/// A variable-length integer at `pos`, seven bits per byte with the low ones first, the
/// top bit marking that more follow; and the position behind it. `acc` holds the bits
/// read so far and `shift` how many they are. None if the bytes run out, or if more
/// bits follow than a word has.
pub open spec fn varint_at(data: Seq<u8>, pos: int, shift: u32, acc: u64) -> Option<(u64, int)>
    decreases 80 - shift,
{
    if shift >= 64 || pos < 0 || pos >= data.len() {
        None
    } else {
        let v = acc | (((data[pos] & 0x7f) as u64) << shift);
        if data[pos] & 0x80 == 0 {
            Some((v, pos + 1))
        } else {
            varint_at(data, pos + 1, (shift + 7) as u32, v)
        }
    }
}

/// A length at `pos`, and the position behind it.
pub open spec fn length_at(data: Seq<u8>, pos: int) -> Option<(usize, int)> {
    match varint_at(data, pos, 0, 0) {
        Some(v) => Some((v.0 as usize, v.1)),
        None => None,
    }
}

/// Bytes behind their length at `pos`, and the position behind them.
pub open spec fn bytes_at(data: Seq<u8>, pos: int) -> Option<(Seq<u8>, int)> {
    match length_at(data, pos) {
        Some(n) => if n.1 + n.0 <= data.len() {
            Some((data.subrange(n.1, n.1 + n.0), n.1 + n.0))
        } else {
            None
        },
        None => None,
    }
}

/// A text behind its length at `pos`, and the position behind it.
pub open spec fn string_at(data: Seq<u8>, pos: int) -> Option<(Seq<char>, int)> {
    match bytes_at(data, pos) {
        Some(b) => Some((text::utf8_lossy(b.0), b.1)),
        None => None,
    }
}

/// `n` texts from `pos` on, and the position behind them.
pub open spec fn strings_at(data: Seq<u8>, pos: int, n: nat) -> Option<(Seq<Seq<char>>, int)>
    decreases n,
{
    if n == 0 {
        Some((Seq::empty(), pos))
    } else {
        match strings_at(data, pos, (n - 1) as nat) {
            Some(front) => match string_at(data, front.1) {
                Some(s) => Some((front.0.push(s.0), s.1)),
                None => None,
            },
            None => None,
        }
    }
}

/// What the front of a buffer holds of a header.
pub enum HeaderView {
    NeedMore,
    Bad,
    Ready {
        consumed: int,
        root_qname: Seq<char>,
        ns_uri: Seq<char>,
        row_el: Seq<char>,
        names: Seq<Seq<char>>,
    },
}

/// The magic bytes that open a row set.
pub open spec fn magic() -> Seq<u8> {
    seq![0x52u8, 0x45u8, 0x53u8, 0x50u8]
}

/// The header at the front of a buffer: magic, a version byte, the root's name, its
/// namespace, the rows' name, and the columns' names behind their number.
pub open spec fn header_at(data: Seq<u8>) -> HeaderView {
    if data.len() < 4 {
        HeaderView::NeedMore
    } else if data.take(4) != magic() {
        HeaderView::Bad
    } else if data.len() < 5 {
        HeaderView::NeedMore
    } else {
        match string_at(data, 5) {
            None => HeaderView::NeedMore,
            Some(root) => match string_at(data, root.1) {
                None => HeaderView::NeedMore,
                Some(ns) => match string_at(data, ns.1) {
                    None => HeaderView::NeedMore,
                    Some(row) => match length_at(data, row.1) {
                        None => HeaderView::NeedMore,
                        Some(n) => if n.0 > MAX_COLUMNS {
                            HeaderView::Bad
                        } else {
                            match strings_at(data, n.1, n.0 as nat) {
                                None => HeaderView::NeedMore,
                                Some(names) => HeaderView::Ready {
                                    consumed: names.1,
                                    root_qname: root.0,
                                    ns_uri: ns.0,
                                    row_el: row.0,
                                    names: names.0,
                                },
                            }
                        },
                    },
                },
            },
        }
    }
}

/// `n` cells from `pos` on, and the position behind them. A cell is a presence byte and,
/// where that is one, bytes behind their length.
pub open spec fn cells_at(data: Seq<u8>, pos: int, n: nat) -> Option<(Seq<Option<Seq<u8>>>, int)>
    decreases n,
{
    if n == 0 {
        Some((Seq::empty(), pos))
    } else {
        match cells_at(data, pos, (n - 1) as nat) {
            Some(front) => match cell_at(data, front.1) {
                Some(c) => Some((front.0.push(c.0), c.1)),
                None => None,
            },
            None => None,
        }
    }
}

/// One cell at `pos`, and the position behind it.
pub open spec fn cell_at(data: Seq<u8>, pos: int) -> Option<(Option<Seq<u8>>, int)> {
    if pos < 0 || pos >= data.len() {
        None
    } else if data[pos] != 1 {
        Some((None, pos + 1))
    } else {
        match bytes_at(data, pos + 1) {
            Some(b) => Some((Some(b.0), b.1)),
            None => None,
        }
    }
}

/// What the front of a buffer holds of a record.
pub enum RecordView {
    Incomplete,
    Row { len: int, cells: Seq<Option<Seq<u8>>> },
    End { len: int },
    Fault { len: int, msg: Seq<char> },
    Malformed,
}

/// The record at the front of a buffer, of a row set with `cols` columns.
pub open spec fn record_at(data: Seq<u8>, cols: nat) -> RecordView {
    if data.len() == 0 {
        RecordView::Incomplete
    } else if data[0] == 0 {
        RecordView::End { len: 1 }
    } else if data[0] == 0xff {
        match string_at(data, 1) {
            Some(s) => RecordView::Fault { len: s.1, msg: s.0 },
            None => RecordView::Incomplete,
        }
    } else if data[0] == 1 {
        match cells_at(data, 1, cols) {
            Some(c) => RecordView::Row { len: c.1, cells: c.0 },
            None => RecordView::Incomplete,
        }
    } else {
        RecordView::Malformed
    }
}

/// A number that is whole is read the same with more bytes behind it.
pub proof fn lemma_varint_stable(data: Seq<u8>, more: Seq<u8>, pos: int, shift: u32, acc: u64)
    ensures
        varint_at(data, pos, shift, acc) matches Some(v) ==> {
            &&& varint_at(data + more, pos, shift, acc) == Some(v)
            &&& pos < v.1 <= data.len()
        },
    decreases 80 - shift,
{
    if shift < 64 && 0 <= pos < data.len() {
        assert((data + more)[pos] == data[pos]);
        let v = acc | (((data[pos] & 0x7f) as u64) << shift);
        lemma_varint_stable(data, more, pos + 1, (shift + 7) as u32, v);
    }
}

pub proof fn lemma_bytes_stable(data: Seq<u8>, more: Seq<u8>, pos: int)
    ensures
        bytes_at(data, pos) matches Some(b) ==> {
            &&& bytes_at(data + more, pos) == Some(b)
            &&& pos < b.1 <= data.len()
        },
        string_at(data, pos) matches Some(s) ==> {
            &&& string_at(data + more, pos) == Some(s)
            &&& pos < s.1 <= data.len()
        },
        length_at(data, pos) matches Some(n) ==> {
            &&& length_at(data + more, pos) == Some(n)
            &&& pos < n.1 <= data.len()
        },
{
    lemma_varint_stable(data, more, pos, 0, 0);
    match length_at(data, pos) {
        Some(n) => if n.1 + n.0 <= data.len() {
            assert((data + more).subrange(n.1, n.1 + n.0) =~= data.subrange(n.1, n.1 + n.0));
        },
        None => {},
    }
}

pub proof fn lemma_strings_stable(data: Seq<u8>, more: Seq<u8>, pos: int, n: nat)
    requires
        pos <= data.len(),
    ensures
        strings_at(data, pos, n) matches Some(s) ==> {
            &&& strings_at(data + more, pos, n) == Some(s)
            &&& pos <= s.1 <= data.len()
            &&& s.0.len() == n
        },
    decreases n,
{
    if n > 0 {
        lemma_strings_stable(data, more, pos, (n - 1) as nat);
        match strings_at(data, pos, (n - 1) as nat) {
            Some(front) => {
                lemma_bytes_stable(data, more, front.1);
            },
            None => {},
        }
    }
}

pub proof fn lemma_cells_stable(data: Seq<u8>, more: Seq<u8>, pos: int, n: nat)
    requires
        pos <= data.len(),
    ensures
        cells_at(data, pos, n) matches Some(c) ==> {
            &&& cells_at(data + more, pos, n) == Some(c)
            &&& pos <= c.1 <= data.len()
            &&& c.0.len() == n
        },
    decreases n,
{
    if n > 0 {
        lemma_cells_stable(data, more, pos, (n - 1) as nat);
        match cells_at(data, pos, (n - 1) as nat) {
            Some(front) => {
                lemma_bytes_stable(data, more, front.1 + 1);
                if 0 <= front.1 < data.len() {
                    assert((data + more)[front.1] == data[front.1]);
                }
            },
            None => {},
        }
    }
}

/// A header that is whole, or wrong, stays so with more bytes behind it.
pub proof fn lemma_header_stable(data: Seq<u8>, more: Seq<u8>)
    ensures
        !(header_at(data) is NeedMore) ==> header_at(data + more) == header_at(data),
        header_at(data) matches HeaderView::Ready { consumed, .. } ==> 0 < consumed <= data.len(),
{
    if data.len() >= 4 {
        assert((data + more).take(4) =~= data.take(4));
    }
    lemma_bytes_stable(data, more, 5);
    match string_at(data, 5) {
        Some(root) => {
            lemma_bytes_stable(data, more, root.1);
            match string_at(data, root.1) {
                Some(ns) => {
                    lemma_bytes_stable(data, more, ns.1);
                    match string_at(data, ns.1) {
                        Some(row) => {
                            lemma_bytes_stable(data, more, row.1);
                            match length_at(data, row.1) {
                                Some(n) => lemma_strings_stable(data, more, n.1, n.0 as nat),
                                None => {},
                            }
                        },
                        None => {},
                    }
                },
                None => {},
            }
        },
        None => {},
    }
}

/// A record that is whole, or wrong, stays so with more bytes behind it.
pub proof fn lemma_record_stable(data: Seq<u8>, more: Seq<u8>, cols: nat)
    ensures
        !(record_at(data, cols) is Incomplete) ==> record_at(data + more, cols) == record_at(
            data,
            cols,
        ),
        record_at(data, cols) matches RecordView::Row { len, cells } ==> 0 < len <= data.len()
            && cells.len() == cols,
        record_at(data, cols) matches RecordView::End { len } ==> 0 < len <= data.len(),
        record_at(data, cols) matches RecordView::Fault { len, .. } ==> 0 < len <= data.len(),
{
    if data.len() > 0 {
        assert((data + more)[0] == data[0]);
        lemma_bytes_stable(data, more, 1);
        lemma_cells_stable(data, more, 1, cols);
    }
}

/// A bounds-checked cursor over a buffer.
pub struct RespCursor<'a> {
    data: &'a [u8],
    pos: usize,
}

impl<'a> RespCursor<'a> {
    pub closed spec fn data(self) -> Seq<u8> {
        self.data@
    }

    pub closed spec fn pos(self) -> int {
        self.pos as int
    }

    /// The position lies in the buffer or at its end.
    pub closed spec fn wf(self) -> bool {
        self.pos <= self.data@.len()
    }

    /// A cursor at the front of `data`.
    pub fn new(data: &'a [u8]) -> (r: Self)
        ensures
            r.wf(),
            r.data() == data@,
            r.pos() == 0,
    {
        RespCursor { data, pos: 0 }
    }

    /// The position.
    pub fn position(&self) -> (r: usize)
        ensures
            r == self.pos(),
            self.wf() ==> r <= self.data().len(),
    {
        self.pos
    }

    /// The next byte.
    pub fn u8(&mut self) -> (r: Option<u8>)
        requires
            old(self).wf(),
        ensures
            final(self).wf(),
            final(self).data() == old(self).data(),
            match r {
                Some(b) => old(self).pos() < old(self).data().len() && b == old(self).data()[old(
                    self,
                ).pos()] && final(self).pos() == old(self).pos() + 1,
                None => old(self).pos() >= old(self).data().len() && final(self).pos() == old(
                    self,
                ).pos(),
            },
    {
        let n: usize = self.data.len();
        if self.pos < n {
            let b: u8 = self.data[self.pos];
            self.pos = self.pos + 1;
            Some(b)
        } else {
            None
        }
    }

    /// The next `n` bytes.
    pub fn take(&mut self, n: usize) -> (r: Option<&'a [u8]>)
        requires
            old(self).wf(),
        ensures
            final(self).wf(),
            final(self).data() == old(self).data(),
            match r {
                Some(s) => old(self).pos() + n <= old(self).data().len() && s@ == old(
                    self,
                ).data().subrange(old(self).pos(), old(self).pos() + n) && final(self).pos()
                    == old(self).pos() + n,
                None => old(self).pos() + n > old(self).data().len(),
            },
    {
        let total: usize = self.data.len();
        if n > total - self.pos {
            return None;
        }
        let s = vstd::slice::slice_subrange(self.data, self.pos, self.pos + n);
        self.pos = self.pos + n;
        Some(s)
    }

    /// An unsigned variable-length integer.
    pub fn varint(&mut self) -> (r: Option<usize>)
        requires
            old(self).wf(),
        ensures
            final(self).wf(),
            final(self).data() == old(self).data(),
            match r {
                Some(v) => length_at(old(self).data(), old(self).pos()) == Some(
                    (v, final(self).pos()),
                ),
                None => length_at(old(self).data(), old(self).pos()) is None,
            },
    {
        let ghost data = self.data();
        let ghost start = self.pos();
        let mut result: u64 = 0;
        let mut shift: u32 = 0;
        loop
            invariant
                self.wf(),
                self.data() == data,
                data == old(self).data(),
                start == old(self).pos(),
                shift < 64,
                varint_at(data, start, 0, 0) == varint_at(data, self.pos(), shift, result),
            decreases 80 - shift,
        {
            let byte: u8 = match self.u8() {
                Some(b) => b,
                None => {
                    return None;
                },
            };
            result = result | (((byte & 0x7f) as u64) << shift);
            if byte & 0x80 == 0 {
                return Some(#[verifier::truncate] (result as usize));
            }
            shift = shift + 7;
            if shift >= 64 {
                return None;
            }
        }
    }

    /// Bytes behind their length.
    pub fn lp_bytes(&mut self) -> (r: Option<&'a [u8]>)
        requires
            old(self).wf(),
        ensures
            final(self).wf(),
            final(self).data() == old(self).data(),
            match r {
                Some(s) => bytes_at(old(self).data(), old(self).pos()) == Some(
                    (s@, final(self).pos()),
                ),
                None => bytes_at(old(self).data(), old(self).pos()) is None,
            },
    {
        match self.varint() {
            Some(len) => self.take(len),
            None => None,
        }
    }

    /// A text behind its length; bytes that are no UTF-8 are replaced.
    pub fn lp_string(&mut self) -> (r: Option<String>)
        requires
            old(self).wf(),
        ensures
            final(self).wf(),
            final(self).data() == old(self).data(),
            match r {
                Some(s) => string_at(old(self).data(), old(self).pos()) == Some(
                    (s@, final(self).pos()),
                ),
                None => string_at(old(self).data(), old(self).pos()) is None,
            },
    {
        match self.lp_bytes() {
            Some(s) => Some(text_from_utf8_lossy(s)),
            None => None,
        }
    }
}

/// Texts by their characters.
pub open spec fn text_views(list: Seq<String>) -> Seq<Seq<char>> {
    Seq::new(list.len(), |i: int| list[i]@)
}

/// What the front of a buffer holds of a header.
pub enum HeaderScan {
    NeedMore,
    Bad,
    Ready {
        consumed: usize,
        root_qname: String,
        ns_uri: String,
        row_el: String,
        names: Vec<String>,
    },
}

impl View for HeaderScan {
    type V = HeaderView;

    open spec fn view(&self) -> HeaderView {
        match *self {
            HeaderScan::NeedMore => HeaderView::NeedMore,
            HeaderScan::Bad => HeaderView::Bad,
            HeaderScan::Ready { consumed, root_qname, ns_uri, row_el, names } => HeaderView::Ready {
                consumed: consumed as int,
                root_qname: root_qname@,
                ns_uri: ns_uri@,
                row_el: row_el@,
                names: text_views(names@),
            },
        }
    }
}

/// Scans the header at the front of `data`.
#[verifier::loop_isolation(false)]
pub fn scan_header(data: &[u8]) -> (r: HeaderScan)
    ensures
        r@ == header_at(data@),
{
    let mut c = RespCursor::new(data);
    match c.take(4) {
        Some(m) => {
            assert(m@ =~= data@.take(4));
            if !(m[0] == 0x52 && m[1] == 0x45 && m[2] == 0x53 && m[3] == 0x50) {
                assert(m@ != magic());
                return HeaderScan::Bad;
            }
            assert(m@ =~= magic());
        },
        None => {
            return HeaderScan::NeedMore;
        },
    }
    match c.u8() {
        Some(_) => {},
        None => {
            return HeaderScan::NeedMore;
        },
    }
    let root_qname = match c.lp_string() {
        Some(s) => s,
        None => {
            return HeaderScan::NeedMore;
        },
    };
    let ns_uri = match c.lp_string() {
        Some(s) => s,
        None => {
            return HeaderScan::NeedMore;
        },
    };
    let row_el = match c.lp_string() {
        Some(s) => s,
        None => {
            return HeaderScan::NeedMore;
        },
    };
    let col_count: usize = match c.varint() {
        Some(n) => n,
        None => {
            return HeaderScan::NeedMore;
        },
    };
    if col_count > MAX_COLUMNS {
        return HeaderScan::Bad;
    }
    let ghost at = c.pos();
    let mut names: Vec<String> = Vec::new();
    let mut i: usize = 0;
    assert(text_views(names@) =~= Seq::<Seq<char>>::empty());
    while i < col_count
        invariant
            i <= col_count,
            c.wf(),
            c.data() == data@,
            strings_at(data@, at, i as nat) == Some((text_views(names@), c.pos())),
        decreases col_count - i,
    {
        let ghost before = names@;
        match c.lp_string() {
            Some(s) => {
                let ghost v = s@;
                names.push(s);
                proof {
                    assert(text_views(names@) =~= text_views(before).push(v));
                }
            },
            None => {
                proof {
                    lemma_strings_none(data@, at, (i + 1) as nat, col_count as nat);
                }
                return HeaderScan::NeedMore;
            },
        }
        i += 1;
    }
    HeaderScan::Ready { consumed: c.position(), root_qname, ns_uri, row_el, names }
}

/// Where some texts are not there, more are not there either.
proof fn lemma_strings_none(data: Seq<u8>, pos: int, n: nat, more: nat)
    requires
        n <= more,
        strings_at(data, pos, n) is None,
    ensures
        strings_at(data, pos, more) is None,
    decreases more - n,
{
    if n < more {
        lemma_strings_none(data, pos, n, (more - 1) as nat);
    }
}

proof fn lemma_cells_none(data: Seq<u8>, pos: int, n: nat, more: nat)
    requires
        n <= more,
        cells_at(data, pos, n) is None,
    ensures
        cells_at(data, pos, more) is None,
    decreases more - n,
{
    if n < more {
        lemma_cells_none(data, pos, n, (more - 1) as nat);
    }
}

/// What the front of a buffer holds of a record.
pub enum Scan {
    Incomplete,
    Row { len: usize },
    End { len: usize },
    Fault { len: usize, msg: String },
    Malformed,
}

/// A scan says what the record is.
pub open spec fn scan_is(s: Scan, r: RecordView) -> bool {
    match r {
        RecordView::Incomplete => s is Incomplete,
        RecordView::Row { len, .. } => s matches Scan::Row { len: l } && l == len,
        RecordView::End { len } => s matches Scan::End { len: l } && l == len,
        RecordView::Fault { len, msg } => s matches Scan::Fault { len: l, msg: m } && l == len
            && m@ == msg,
        RecordView::Malformed => s is Malformed,
    }
}

/// Scans the record at the front of `data` without building anything.
pub fn scan_record(data: &[u8], col_count: usize) -> (r: Scan)
    ensures
        scan_is(r, record_at(data@, col_count as nat)),
{
    let mut c = RespCursor::new(data);
    let marker: u8 = match c.u8() {
        Some(m) => m,
        None => {
            return Scan::Incomplete;
        },
    };
    if marker == 0 {
        return Scan::End { len: c.position() };
    }
    if marker == 0xff {
        return match c.lp_string() {
            Some(msg) => Scan::Fault { len: c.position(), msg },
            None => Scan::Incomplete,
        };
    }
    if marker != 1 {
        return Scan::Malformed;
    }
    let mut i: usize = 0;
    while i < col_count
        invariant
            i <= col_count,
            c.wf(),
            c.data() == data@,
            data@.len() > 0,
            data@[0] == 1,
            cells_at(data@, 1, i as nat) matches Some(s) && s.1 == c.pos(),
        decreases col_count - i,
    {
        let ghost at = c.pos();
        let present: bool = match c.u8() {
            Some(nf) => nf == 1,
            None => {
                proof {
                    assert(cells_at(data@, 1, (i + 1) as nat) is None);
                    lemma_cells_none(data@, 1, (i + 1) as nat, col_count as nat);
                }
                return Scan::Incomplete;
            },
        };
        if present {
            match c.lp_bytes() {
                Some(_) => {},
                None => {
                    proof {
                        assert(cells_at(data@, 1, (i + 1) as nat) is None);
                        lemma_cells_none(data@, 1, (i + 1) as nat, col_count as nat);
                    }
                    return Scan::Incomplete;
                },
            }
        }
        i += 1;
    }
    Scan::Row { len: c.position() }
}

} // verus!
