//! An export that is under way: what it has written, and how it goes on.

use crate::cell_text;
use crate::cell_text::sanitize_sheet_name;
use crate::cells;
use crate::cells::infer_col_types;
use crate::cells::read_type_opts;
use crate::cells::Row;
use crate::cells::Selector;
use crate::cells::SelectorView;
use crate::cells::Table;
use crate::cells::TypeOpts;
use crate::crc;
use crate::crc::CrcTable;
use crate::csv;
use crate::csv::build_csv_row;
use crate::csv::csv_preamble;
use crate::deflate;
use crate::deflate::deflate_onto;
use crate::deflate::finish_onto;
use crate::deflate::new_deflater;
use crate::deflate::DeflateCall;
use crate::header;
use crate::header::HeaderNode;
use crate::header::HeaderView;
use crate::inflate;
use crate::sheet;
use crate::sheet::build_xlsx_row;
use crate::sheet::closing_text;
use crate::sheet::column_names;
use crate::sheet::head_merges;
use crate::sheet::lay_out;
use crate::sheet::opening_text;
use crate::sheet::Dating;
use crate::sheet::HeadView;
use crate::sheet::SheetLayout;
use crate::sheet::SheetView;
use crate::sheet::MAX_COLS;
use crate::sheet::MAX_ROWS;
use crate::styles;
use crate::styles::build_styles;
use crate::styles::content_types_text;
use crate::styles::package_rels_text;
use crate::styles::workbook_rels_text;
use crate::styles::workbook_xml;
use crate::styles::StyleOpts;
use crate::styles::StyleView;
use crate::text;
use crate::zip;
use crate::zip::add_file;
use crate::zip::seal;
use crate::zip::write_local_header;
use crate::zip::Part;
use flate2::Compress;
use vstd::prelude::*;
use vstd::utf8::*;

verus! {

/// Why an export stopped.
#[derive(Clone, Copy, PartialEq, Eq, Structural, Debug)]
pub enum ExportError {
    /// The format is neither `xlsx` nor `csv`.
    Format,
    /// A row could not be read.
    Row,
    /// The deflater failed.
    Deflate,
    /// There is no export under way by this number.
    Handle,
}

/// What is written for each row.
pub enum FormatState {
    Xlsx(SheetLayout),
    Csv { separator: String, force_text: bool },
}

/// A [`FormatState`] by its texts.
pub enum FormatView {
    Xlsx(SheetView),
    Csv { separator: Seq<char>, force_text: bool },
}

impl View for FormatState {
    type V = FormatView;

    open spec fn view(&self) -> FormatView {
        match *self {
            FormatState::Xlsx(layout) => FormatView::Xlsx(layout@),
            FormatState::Csv { separator, force_text } => FormatView::Csv {
                separator: separator@,
                force_text,
            },
        }
    }
}

/// An export that is under way: the files that are in its archive already, the file that is
/// being written, if there is an archive, what has been written of it, the calls of its
/// deflater and whether that has failed, and where in the rows it is.
#[verifier::ext_equal]
pub struct ExportView {
    pub parts: Seq<Part>,
    pub level: u32,
    pub entry: Option<Seq<char>>,
    pub content: Seq<u8>,
    pub calls: Seq<DeflateCall>,
    pub broken: bool,
    pub selectors: Seq<SelectorView>,
    pub rows_done: int,
    pub total_rows: int,
    pub chunk_size: int,
    pub format: FormatView,
}

/// The text of row `i`.
pub open spec fn row_text(format: FormatView, texts: Seq<Seq<char>>, i: int, d: Dating) -> Seq<char> {
    match format {
        FormatView::Xlsx(s) => sheet::row_xml(s, texts, i, d),
        FormatView::Csv { separator, force_text } => csv::csv_line(texts, separator, force_text),
    }
}

/// What is written for row `i`.
pub open spec fn row_bytes(format: FormatView, texts: Seq<Seq<char>>, i: int, d: Dating) -> Seq<u8> {
    encode_utf8(row_text(format, texts, i, d))
}

/// What is written for the rows from `from` up to `to`.
pub open spec fn rows_bytes(format: FormatView, g: Table, d: Dating, from: int, to: int) -> Seq<u8>
    decreases to - from,
{
    if to <= from {
        Seq::empty()
    } else {
        rows_bytes(format, g, d, from, to - 1) + row_bytes(format, g(to - 1)->0, to - 1, d)
    }
}

/// Where writing the rows from `from` up to `to` stops: at the last row that a sheet has.
pub open spec fn stop(format: FormatView, from: int, to: int) -> int {
    match format {
        FormatView::Xlsx(s) => {
            let cap = MAX_ROWS + 1 - s.data_start;
            if to <= cap {
                to
            } else if cap < from {
                from
            } else {
                cap
            }
        },
        FormatView::Csv { separator, force_text } => to,
    }
}

/// The row that a chunk ends before.
pub open spec fn chunk_end(v: ExportView, chunk: int) -> int {
    let to = if v.rows_done + chunk < v.total_rows {
        v.rows_done + chunk
    } else {
        v.total_rows
    };
    stop(v.format, v.rows_done, to)
}

/// The calls of an export's deflater once `bytes` are handed to it. One that has failed gets
/// nothing more.
pub open spec fn calls_after(v: ExportView, calls: Seq<DeflateCall>, bytes: Seq<u8>) -> Seq<
    DeflateCall,
> {
    if v.entry is None || deflate::failing(v.level, calls) {
        calls
    } else {
        deflate::fed(v.level, calls, bytes, SCRATCH_LEN as nat)
    }
}

/// An export's deflater has failed after some calls.
pub open spec fn stuck(v: ExportView, calls: Seq<DeflateCall>) -> bool {
    v.entry is Some && deflate::failing(v.level, calls)
}

/// The calls of an export's deflater once the rows from `from` up to `to` are written, one
/// at a time.
pub open spec fn row_calls(v: ExportView, g: Table, d: Dating, from: int, to: int) -> Seq<
    DeflateCall,
>
    decreases to - from,
{
    if to <= from {
        v.calls
    } else {
        calls_after(
            v,
            row_calls(v, g, d, from, to - 1),
            row_bytes(v.format, g(to - 1)->0, to - 1, d),
        )
    }
}

/// An export with the rows before `to` written.
pub open spec fn advanced(v: ExportView, g: Table, d: Dating, to: int) -> ExportView {
    ExportView {
        content: v.content + rows_bytes(v.format, g, d, v.rows_done, to),
        calls: row_calls(v, g, d, v.rows_done, to),
        rows_done: to,
        ..v
    }
}

/// An export with the next chunk of rows written.
pub open spec fn continued(v: ExportView, g: Table, d: Dating, chunk: int) -> ExportView {
    advanced(v, g, d, chunk_end(v, chunk))
}

/// An export whose deflater has failed after some calls.
pub open spec fn broken_off(v: ExportView, calls: Seq<DeflateCall>) -> ExportView {
    ExportView {
        content: deflate::deflater_after(v.level, calls).read,
        calls,
        broken: true,
        ..v
    }
}

/// The deflater fails, or has failed, on the rows of a chunk that are read.
pub open spec fn chunk_fails(v: ExportView, g: Table, d: Dating, chunk: int) -> bool {
    let gap = unreadable(g, v.rows_done, chunk_end(v, chunk));
    gap > v.rows_done && stuck(v, row_calls(v, g, d, v.rows_done, gap))
}

/// The first row from `from` on that cannot be read, or `to`.
pub open spec fn unreadable(g: Table, from: int, to: int) -> int
    decreases to - from,
{
    if from >= to || g(from) is None {
        from
    } else {
        unreadable(g, from + 1, to)
    }
}

/// Everything that an export writes to its file.
pub open spec fn full_content(v: ExportView) -> Seq<u8> {
    match v.format {
        FormatView::Xlsx(s) => v.content + encode_utf8(sheet::closing(s, v.total_rows)),
        FormatView::Csv { separator, force_text } => v.content,
    }
}

/// The calls of an export's deflater once everything is written to the file.
pub open spec fn full_calls(v: ExportView) -> Seq<DeflateCall> {
    match v.format {
        FormatView::Xlsx(s) => calls_after(
            v,
            v.calls,
            encode_utf8(sheet::closing(s, v.total_rows)),
        ),
        FormatView::Csv { separator, force_text } => v.calls,
    }
}

/// All calls of an export's deflater.
pub open spec fn last_calls(v: ExportView) -> Seq<DeflateCall> {
    deflate::ended(v.level, full_calls(v), SCRATCH_LEN as nat)
}

/// What the file of an export is packed to.
pub open spec fn packed_file(v: ExportView) -> Seq<u8> {
    deflate::deflater_after(v.level, last_calls(v)).written
}

/// Finishing an export makes its deflater fail, or finds it failed.
pub open spec fn end_fails(v: ExportView) -> bool {
    stuck(v, full_calls(v)) || stuck(v, last_calls(v))
}

/// The result of an export: the file itself, or an archive that ends with the file. What the
/// file is packed to decodes to the file.
pub open spec fn finished(v: ExportView, out: Seq<u8>) -> bool {
    match v.entry {
        None => out == full_content(v),
        Some(name) => inflate::inflation(packed_file(v)) == (full_content(v), false) && out
            == zip::archive(
            v.parts,
            v.level,
            Part { name, content: full_content(v) },
            packed_file(v),
        ),
    }
}

/// Rows in two pieces make the calls of the rows in one.
proof fn lemma_calls_split(v: ExportView, w: ExportView, g: Table, d: Dating, from: int, mid: int, to: int)
    requires
        from <= mid <= to,
        w.entry == v.entry,
        w.level == v.level,
        w.format == v.format,
        w.calls == row_calls(v, g, d, from, mid),
    ensures
        row_calls(w, g, d, mid, to) == row_calls(v, g, d, from, to),
    decreases to - mid,
{
    if mid < to {
        lemma_calls_split(v, w, g, d, from, mid, to - 1);
    }
}

/// Two exports alike in what is written make the same calls for the same rows.
pub proof fn lemma_calls_of(v: ExportView, w: ExportView, g: Table, d: Dating, from: int, to: int)
    requires
        w.entry == v.entry,
        w.level == v.level,
        w.format == v.format,
        w.calls == v.calls,
    ensures
        row_calls(w, g, d, from, to) == row_calls(v, g, d, from, to),
    decreases to - from,
{
    if from < to {
        lemma_calls_of(v, w, g, d, from, to - 1);
    }
}

/// A deflater that has failed gets no more calls.
proof fn lemma_stuck_stays(v: ExportView, g: Table, d: Dating, from: int, mid: int, to: int)
    requires
        from <= mid <= to,
        stuck(v, row_calls(v, g, d, from, mid)),
    ensures
        row_calls(v, g, d, from, to) == row_calls(v, g, d, from, mid),
    decreases to - mid,
{
    if mid < to {
        lemma_stuck_stays(v, g, d, from, mid, to - 1);
    }
}

/// Rows in two pieces are the rows in one.
pub proof fn lemma_rows_split(format: FormatView, g: Table, d: Dating, from: int, mid: int, to: int)
    requires
        from <= mid <= to,
    ensures
        rows_bytes(format, g, d, from, mid) + rows_bytes(format, g, d, mid, to) == rows_bytes(
            format,
            g,
            d,
            from,
            to,
        ),
    decreases to - mid,
{
    if mid == to {
        assert(rows_bytes(format, g, d, from, mid) + Seq::<u8>::empty() =~= rows_bytes(
            format,
            g,
            d,
            from,
            mid,
        ));
    } else {
        lemma_rows_split(format, g, d, from, mid, to - 1);
        let a = rows_bytes(format, g, d, from, mid);
        let b = rows_bytes(format, g, d, mid, to - 1);
        let c = row_bytes(format, g(to - 1)->0, to - 1, d);
        assert(a + (b + c) =~= (a + b) + c);
    }
}

/// The text of the rows from `from` up to `to`.
pub open spec fn rows_text(format: FormatView, g: Table, d: Dating, from: int, to: int) -> Seq<char>
    decreases to - from,
{
    if to <= from {
        Seq::empty()
    } else {
        rows_text(format, g, d, from, to - 1) + row_text(format, g(to - 1)->0, to - 1, d)
    }
}

proof fn lemma_rows_text(format: FormatView, g: Table, d: Dating, from: int, to: int)
    ensures
        rows_bytes(format, g, d, from, to) == encode_utf8(rows_text(format, g, d, from, to)),
    decreases to - from,
{
    if to > from {
        lemma_rows_text(format, g, d, from, to - 1);
        text::lemma_encode_concat(
            rows_text(format, g, d, from, to - 1),
            row_text(format, g(to - 1)->0, to - 1, d),
        );
    } else {
        assert(encode_utf8(Seq::<char>::empty()) =~= Seq::<u8>::empty());
    }
}

/// A worksheet's file is one text: the opening, the rows, and the closing.
pub proof fn lemma_worksheet_text(
    v: ExportView,
    s: SheetView,
    g: Table,
    d: Dating,
    opening: Seq<char>,
    to: int,
)
    requires
        v.format == FormatView::Xlsx(s),
        v.content == encode_utf8(opening),
    ensures
        full_content(advanced(v, g, d, to)) == encode_utf8(
            opening + rows_text(v.format, g, d, v.rows_done, to) + sheet::closing(s, v.total_rows),
        ),
{
    let rows = rows_text(v.format, g, d, v.rows_done, to);
    lemma_rows_text(v.format, g, d, v.rows_done, to);
    text::lemma_encode_concat(opening, rows);
    text::lemma_encode_concat(opening + rows, sheet::closing(s, v.total_rows));
}

/// How an export is cut into chunks does not matter: two chunks write what one of both sizes
/// writes, with the same calls of the deflater and so the same output. Where the first chunk
/// is written, the second fails exactly where the one of both sizes does.
pub proof fn lemma_chunks_alike(v: ExportView, g: Table, d: Dating, first: int, second: int)
    requires
        0 <= v.rows_done <= v.total_rows,
        0 <= first,
        0 <= second,
    ensures
        continued(continued(v, g, d, first), g, d, second) == continued(v, g, d, first + second),
        chunk_end(continued(v, g, d, first), second) == chunk_end(v, first + second),
        v.rows_done <= chunk_end(v, first) <= chunk_end(v, first + second),
        cells::readable(g, v.rows_done, chunk_end(v, first)) && !chunk_fails(v, g, d, first)
            ==> chunk_fails(continued(v, g, d, first), g, d, second) == chunk_fails(
            v,
            g,
            d,
            first + second,
        ),
{
    let mid = chunk_end(v, first);
    let one = continued(v, g, d, first);
    let to = chunk_end(one, second);
    assert(to == chunk_end(v, first + second));
    lemma_rows_split(v.format, g, d, v.rows_done, mid, to);
    let a = rows_bytes(v.format, g, d, v.rows_done, mid);
    let b = rows_bytes(v.format, g, d, mid, to);
    assert((v.content + a) + b =~= v.content + (a + b));
    lemma_calls_split(v, one, g, d, v.rows_done, mid, to);
    if cells::readable(g, v.rows_done, mid) && !chunk_fails(v, g, d, first) {
        lemma_readable_to(g, v.rows_done, mid, mid);
        lemma_readable_to(g, v.rows_done, mid, to);
        let gap = unreadable(g, v.rows_done, to);
        lemma_calls_split(v, one, g, d, v.rows_done, mid, gap);
    }
}

/// The first row that cannot be read comes behind rows that can.
proof fn lemma_readable_to(g: Table, from: int, mid: int, to: int)
    requires
        from <= mid <= to,
        cells::readable(g, from, mid),
    ensures
        mid <= unreadable(g, from, to) <= to,
        unreadable(g, from, to) == unreadable(g, mid, to),
    decreases mid - from,
{
    if from < mid {
        assert(g(from) is Some);
        lemma_readable_to(g, from + 1, mid, to);
    } else {
        lemma_gap_within(g, from, to);
    }
}

proof fn lemma_gap_within(g: Table, from: int, to: int)
    requires
        from <= to,
    ensures
        from <= unreadable(g, from, to) <= to,
    decreases to - from,
{
    if from < to && g(from) is Some {
        lemma_gap_within(g, from + 1, to);
    }
}

proof fn lemma_unreadable(g: Table, from: int, to: int, i: int)
    requires
        from <= i < to,
        cells::readable(g, from, i),
        g(i) is None,
    ensures
        unreadable(g, from, to) == i,
    decreases i - from,
{
    if from < i {
        assert(g(from) is Some);
        lemma_unreadable(g, from + 1, to, i);
    }
}

/// An export that is under way.
pub struct ExportState {
    output: Vec<u8>,
    scratch: Vec<u8>,
    compress: Option<Compress>,
    table: CrcTable,
    crc: u32,
    uncomp: u64,
    header_offset: usize,
    data_offset: usize,
    entry_name: String,
    central_dir: Vec<u8>,
    file_count: u16,
    broken: bool,
    selectors: Vec<Selector>,
    rows_done: usize,
    total_rows: usize,
    chunk_size: usize,
    fmt: FormatState,
    parts: Ghost<Seq<Part>>,
}

/// The size of the buffer that is deflated into.
pub const SCRATCH_LEN: usize = 65536;

/// Most files in an archive before the last.
pub const MAX_PARTS: u16 = 100;

impl View for ExportState {
    type V = ExportView;

    closed spec fn view(&self) -> ExportView {
        ExportView {
            parts: self.parts@,
            level: match self.compress {
                Some(c) => level_made(c),
                None => 0,
            },
            entry: match self.compress {
                Some(_) => Some(self.entry_name@),
                None => None,
            },
            content: match self.compress {
                Some(c) => deflate::deflater_read(c),
                None => self.output@,
            },
            calls: match self.compress {
                Some(c) => deflate::deflater_calls(c),
                None => Seq::empty(),
            },
            broken: self.broken,
            selectors: cells::selector_views(self.selectors@),
            rows_done: self.rows_done as int,
            total_rows: self.total_rows as int,
            chunk_size: self.chunk_size as int,
            format: self.fmt@,
        }
    }
}

/// The level that a deflater was made with.
spec fn level_made(c: Compress) -> u32 {
    deflate::deflater_level(c)->0
}

/// What has been put out for a stream: the files before it, its header without checksum and
/// sizes, and what the deflater produced.
spec fn streaming(
    output: Seq<u8>,
    c: Compress,
    parts: Seq<Part>,
    name: Seq<char>,
    header_offset: int,
    data_offset: int,
) -> bool {
    let front = zip::entries(parts, level_made(c));
    let head = zip::local_header(encode_utf8(name), 0, 0, 0);
    &&& output == front + head + deflate::deflater_written(c)
    &&& header_offset == front.len()
    &&& data_offset == front.len() + head.len()
}

impl ExportState {
    /// The stream is as far as the checksum and the count say, and decodes to what was
    /// written to it.
    pub closed spec fn wf(self) -> bool {
        &&& self.scratch@.len() == SCRATCH_LEN
        &&& self.table.wf()
        &&& self.rows_done <= self.total_rows
        &&& self.parts@.len() == self.file_count
        &&& self.file_count <= MAX_PARTS
        &&& self.fmt matches FormatState::Xlsx(layout) ==> layout.wf() && self.compress is Some
        &&& self.compress is None ==> !self.broken
        &&& self.compress matches Some(c) ==> deflate::deflater_ok(c) && self.broken
            == deflate::deflater_failed(c)
        &&& self.compress matches Some(c) ==> !self.broken ==> {
            &&& deflate::deflater_pending(c).len() > 0
            &&& streaming(
                self.output@,
                c,
                self.parts@,
                self.entry_name@,
                self.header_offset as int,
                self.data_offset as int,
            )
            &&& self.central_dir@ == zip::directory(self.parts@, level_made(c))
            &&& self.crc == crc::crc_over(!0u32, deflate::deflater_read(c))
            &&& self.uncomp == deflate::deflater_read(c).len()
        }
    }

    /// The bytes that have been put out.
    pub closed spec fn put_out(self) -> Seq<u8> {
        self.output@
    }

    /// The checksum so far, before its last inversion, and how many bytes it is over.
    pub closed spec fn checked(self) -> (u32, int) {
        (self.crc, self.uncomp as int)
    }

    /// What holds of every export that is under way. What has been put out, and the checksum
    /// of an archive's file, follow from what the view says.
    pub proof fn lemma_wf(&self)
        requires
            self.wf(),
        ensures
            self@.entry is None ==> self.put_out() == self@.content,
            self@.entry matches Some(name) ==> !self@.broken ==> self.put_out() == zip::entries(
                self@.parts,
                self@.level,
            ) + zip::local_header(encode_utf8(name), 0, 0, 0) + deflate::deflater_after(
                self@.level,
                self@.calls,
            ).written,
            self@.entry is Some && !self@.broken ==> self.checked() == (
                crc::crc_over(!0u32, self@.content),
                self@.content.len() as int,
            ),
            0 <= self@.rows_done <= self@.total_rows <= usize::MAX,
            self@.broken == stuck(self@, self@.calls),
            self@.format is Xlsx ==> self@.entry is Some,
    {
    }

    /// How many rows were written.
    pub fn rows_done(&self) -> (r: usize)
        requires
            self.wf(),
        ensures
            r == self@.rows_done,
    {
        self.rows_done
    }

    /// How many rows there are.
    pub fn total_rows(&self) -> (r: usize)
        requires
            self.wf(),
        ensures
            r == self@.total_rows,
    {
        self.total_rows
    }

    /// How many rows a chunk has.
    pub fn chunk_size(&self) -> (r: usize)
        requires
            self.wf(),
        ensures
            r == self@.chunk_size,
    {
        self.chunk_size
    }

    /// Writes to the file, through the deflater where there is one; false if that failed, or
    /// had before.
    fn emit_bytes(&mut self, bytes: &[u8]) -> (ok: bool)
        requires
            old(self).wf(),
        ensures
            final(self).wf(),
            final(self).fmt == old(self).fmt,
            final(self).selectors == old(self).selectors,
            old(self)@.broken ==> !ok,
            ok == !stuck(old(self)@, calls_after(old(self)@, old(self)@.calls, bytes@)),
            ok ==> final(self)@ == (ExportView {
                content: old(self)@.content + bytes@,
                calls: calls_after(old(self)@, old(self)@.calls, bytes@),
                ..old(self)@
            }),
            !ok ==> final(self)@ == broken_off(
                old(self)@,
                calls_after(old(self)@, old(self)@.calls, bytes@),
            ),
    {
        if self.broken {
            return false;
        }
        match &mut self.compress {
            None => {
                self.output.extend_from_slice(bytes);
                true
            },
            Some(c) => {
                let ghost read0 = deflate::deflater_read(*c);
                let ghost written0 = deflate::deflater_written(*c);
                let done = deflate_onto(c, &mut self.scratch, bytes, &mut self.output);
                if !done {
                    self.broken = true;
                    return false;
                }
                let total: u64 = c.total_in();
                let ghost written1 = deflate::deflater_written(*c);
                proof {
                    crc::lemma_crc_concat(!0u32, read0, bytes@);
                    let fresh = written1.skip(written0.len() as int);
                    assert(written0 + fresh =~= written1) by {
                        assert(written0 =~= written1.take(written0.len() as int));
                    }
                    let front = zip::entries(self.parts@, level_made(*c));
                    let head = zip::local_header(encode_utf8(self.entry_name@), 0, 0, 0);
                    assert((front + head + written0) + fresh =~= front + head + (written0 + fresh));
                }
                self.crc = self.table.crc32_update(self.crc, bytes);
                self.uncomp = total;
                true
            },
        }
    }
}

/// What a caller asks of an export; what is not asked for has a default. The font size is a
/// number's text.
pub struct ExportOptions {
    pub format: Option<String>,
    pub sheet_name: Option<String>,
    pub compression: Option<i32>,
    pub font_family: Option<String>,
    pub font_size: Option<String>,
    pub header_bg: Option<u32>,
    pub header_fg: Option<u32>,
    pub row_colors: Option<(u32, u32)>,
    pub detect_types: Option<bool>,
    pub detect_dates: Option<bool>,
    pub sample_rows: Option<i32>,
    pub separator: Option<String>,
    pub separator_hint: Option<bool>,
    pub force_text: Option<bool>,
    pub compress: Option<bool>,
    pub min_chunk: Option<i32>,
}

/// A text that was asked for, or a default.
pub open spec fn text_or(t: Option<String>, default: Seq<char>) -> Seq<char> {
    match t {
        Some(s) => s@,
        None => default,
    }
}

/// The deflate level that is asked for, within 0 and 9.
pub open spec fn level_of(o: ExportOptions) -> u32 {
    match o.compression {
        Some(n) => if n < 0 {
            0
        } else if n > 9 {
            9
        } else {
            n as u32
        },
        None => 6,
    }
}

/// How column types are found.
pub open spec fn type_opts_of(o: ExportOptions) -> TypeOpts {
    TypeOpts {
        detect_types: o.detect_types != Some(false),
        detect_dates: o.detect_dates != Some(false),
        sample_rows: match o.sample_rows {
            Some(n) => if n > 0 {
                n as usize
            } else {
                0
            },
            None => 1000,
        },
    }
}

/// How the workbook looks.
pub open spec fn style_of(o: ExportOptions) -> StyleView {
    StyleView {
        font_family: text_or(o.font_family, "Calibri"@),
        font_size: text_or(o.font_size, "11"@),
        header_bg: o.header_bg,
        header_fg: o.header_fg,
        row_colors: o.row_colors,
    }
}

/// The files of a workbook that come before its sheet.
pub open spec fn xlsx_parts(o: ExportOptions) -> Seq<Part> {
    seq![
        Part { name: "[Content_Types].xml"@, content: encode_utf8(styles::content_types()) },
        Part { name: "_rels/.rels"@, content: encode_utf8(styles::package_rels()) },
        Part {
            name: "xl/workbook.xml"@,
            content: encode_utf8(styles::workbook(text_or(o.sheet_name, "Foglio1"@))),
        },
        Part {
            name: "xl/_rels/workbook.xml.rels"@,
            content: encode_utf8(styles::workbook_rels()),
        },
        Part { name: "xl/styles.xml"@, content: encode_utf8(styles::styles_xml(style_of(o))) },
    ]
}

/// How many columns a sheet has: as many as are selected or headed, within its limit.
pub open spec fn sheet_cols(selected: int, headed: int) -> int {
    let most = if selected > headed {
        selected
    } else {
        headed
    };
    if most < MAX_COLS {
        most
    } else {
        MAX_COLS as int
    }
}

/// A workbook's export with nothing but the heading written.
pub open spec fn xlsx_begun(
    o: ExportOptions,
    head: HeadView,
    selectors: Seq<SelectorView>,
    total: int,
    chunk: int,
    g: Table,
) -> ExportView {
    let ncols = sheet_cols(selectors.len() as int, head.cols);
    let content = encode_utf8(sheet::opening(head, ncols));
    ExportView {
        parts: xlsx_parts(o),
        level: level_of(o),
        entry: Some("xl/worksheets/sheet1.xml"@),
        content,
        calls: deflate::fed(level_of(o), Seq::empty(), content, SCRATCH_LEN as nat),
        broken: false,
        selectors,
        rows_done: 0,
        total_rows: total,
        chunk_size: chunk,
        format: FormatView::Xlsx(
            SheetView {
                aligns: head.aligns,
                types: cells::column_types(g, total, ncols, type_opts_of(o)),
                ncols,
                data_start: head.depth + 1,
                merges: sheet::merges_of(head.cells, ncols),
            },
        ),
    }
}

/// A CSV export with nothing but the headings written.
pub open spec fn csv_begun(
    o: ExportOptions,
    labels: Seq<Seq<char>>,
    selectors: Seq<SelectorView>,
    total: int,
    chunk: int,
) -> ExportView {
    let separator = text_or(o.separator, ";"@);
    let zipped = o.compress == Some(true);
    let content = csv::csv_opening(labels, separator, o.separator_hint == Some(true));
    ExportView {
        parts: Seq::empty(),
        level: if zipped {
            level_of(o)
        } else {
            0
        },
        entry: if zipped {
            Some(
                cell_text::sheet_name_of(text_or(o.sheet_name, "Foglio1"@)) + ".csv"@,
            )
        } else {
            None
        },
        content,
        calls: if zipped {
            deflate::fed(level_of(o), Seq::empty(), content, SCRATCH_LEN as nat)
        } else {
            Seq::empty()
        },
        broken: false,
        selectors,
        rows_done: 0,
        total_rows: total,
        chunk_size: chunk,
        format: FormatView::Csv { separator, force_text: o.force_text == Some(true) },
    }
}

fn text_or_default(t: &Option<String>, default: &str) -> (r: String)
    ensures
        r@ == text_or(*t, default@),
{
    match t {
        Some(s) => s.clone(),
        None => default.to_owned(),
    }
}

fn level_or_default(n: Option<i32>) -> (r: u32)
    ensures
        r <= 9,
        r == (match n {
            Some(n) => if n < 0 {
                0
            } else if n > 9 {
                9
            } else {
                n as u32
            },
            None => 6,
        }),
{
    match n {
        Some(n) => if n < 0 {
            0
        } else if n > 9 {
            9
        } else {
            n as u32
        },
        None => 6,
    }
}

fn asked(b: Option<bool>) -> (r: bool)
    ensures
        r == (b == Some(true)),
{
    match b {
        Some(v) => v,
        None => false,
    }
}

/// A new export whose file is deflated into an archive, behind the files in `output`.
fn zipped_state(
    output: Vec<u8>,
    central_dir: Vec<u8>,
    file_count: u16,
    table: CrcTable,
    entry_name: String,
    level: u32,
    selectors: Vec<Selector>,
    total_rows: usize,
    chunk_size: usize,
    fmt: FormatState,
    Ghost(parts): Ghost<Seq<Part>>,
) -> (r: ExportState)
    requires
        level <= 9,
        table.wf(),
        parts.len() == file_count,
        file_count <= MAX_PARTS,
        output@ == zip::entries(parts, level),
        central_dir@ == zip::directory(parts, level),
        fmt matches FormatState::Xlsx(layout) ==> layout.wf(),
    ensures
        r.wf(),
        r@ == (ExportView {
            parts,
            level,
            entry: Some(entry_name@),
            content: Seq::empty(),
            calls: Seq::empty(),
            broken: false,
            selectors: cells::selector_views(selectors@),
            rows_done: 0,
            total_rows: total_rows as int,
            chunk_size: chunk_size as int,
            format: fmt@,
        }),
{
    let mut output = output;
    let header_offset: usize = output.len();
    write_local_header(&mut output, entry_name.as_str(), 0, 0, 0);
    let data_offset: usize = output.len();
    let c = new_deflater(level);
    proof {
        assert(output@ + deflate::deflater_written(c) =~= output@);
    }
    ExportState {
        output,
        scratch: vec![0u8; SCRATCH_LEN],
        compress: Some(c),
        table,
        crc: !0u32,
        uncomp: 0,
        header_offset,
        data_offset,
        entry_name,
        central_dir,
        file_count,
        broken: false,
        selectors,
        rows_done: 0,
        total_rows,
        chunk_size,
        fmt,
        parts: Ghost(parts),
    }
}

/// Begins a CSV export: what stands in front of the rows is written.
pub fn begin_csv_state(
    options: &ExportOptions,
    labels: &Vec<String>,
    selectors: Vec<Selector>,
    total_rows: usize,
    chunk_size: usize,
) -> (r: Result<ExportState, ExportError>)
    ensures
        ({
            let begun = csv_begun(
                *options,
                header::texts_of(labels@),
                cells::selector_views(selectors@),
                total_rows as int,
                chunk_size as int,
            );
            match r {
                Ok(s) => s.wf() && s@ == begun && !stuck(begun, begun.calls),
                Err(e) => e is Deflate && stuck(begun, begun.calls),
            }
        }),
{
    let separator = text_or_default(&options.separator, ";");
    let force_text = asked(options.force_text);
    let hint = asked(options.separator_hint);
    let preamble = csv_preamble(labels, separator.as_str(), hint);
    let fmt = FormatState::Csv { separator, force_text };
    let mut state = if asked(options.compress) {
        let sheet_name = text_or_default(&options.sheet_name, "Foglio1");
        let mut entry_name = sanitize_sheet_name(sheet_name.as_str());
        entry_name.push_str(".csv");
        let level: u32 = level_or_default(options.compression);
        zipped_state(
            Vec::new(),
            Vec::new(),
            0,
            CrcTable::new(),
            entry_name,
            level,
            selectors,
            total_rows,
            chunk_size,
            fmt,
            Ghost(Seq::empty()),
        )
    } else {
        ExportState {
            output: Vec::new(),
            scratch: vec![0u8; SCRATCH_LEN],
            compress: None,
            table: CrcTable::new(),
            crc: !0u32,
            uncomp: 0,
            header_offset: 0,
            data_offset: 0,
            entry_name: String::new(),
            central_dir: Vec::new(),
            file_count: 0,
            broken: false,
            selectors,
            rows_done: 0,
            total_rows,
            chunk_size,
            fmt,
            parts: Ghost(Seq::empty()),
        }
    };
    assert(state@.content =~= Seq::<u8>::empty());
    proof {
        state.lemma_wf();
        assert(Seq::<u8>::empty() + preamble@ =~= preamble@);
    }
    if !state.emit_bytes(preamble.as_slice()) {
        return Err(ExportError::Deflate);
    }
    Ok(state)
}

/// Puts the files that come before the sheet into an archive; nothing exactly where one
/// could not be deflated.
fn workbook_files(options: &ExportOptions, table: &CrcTable, level: u32) -> (r: Option<
    (Vec<u8>, Vec<u8>),
>)
    requires
        table.wf(),
        level <= 9,
    ensures
        r is Some == zip::packable(xlsx_parts(*options), level),
        r matches Some((output, central_dir)) ==> output@ == zip::entries(
            xlsx_parts(*options),
            level,
        ) && central_dir@ == zip::directory(xlsx_parts(*options), level),
{
    let ghost all = xlsx_parts(*options);
    let style_opts = StyleOpts {
        font_family: text_or_default(&options.font_family, "Calibri"),
        font_size: text_or_default(&options.font_size, "11"),
        header_bg: options.header_bg,
        header_fg: options.header_fg,
        row_colors: options.row_colors,
    };
    let styles = build_styles(&style_opts);
    let sheet_name = text_or_default(&options.sheet_name, "Foglio1");
    let wb = workbook_xml(sheet_name.as_str());
    let mut output: Vec<u8> = Vec::new();
    let mut central_dir: Vec<u8> = Vec::new();
    let ghost p0 = Seq::<Part>::empty();
    if !add_file(
        &mut output,
        &mut central_dir,
        table,
        "[Content_Types].xml",
        content_types_text().as_bytes(),
        level,
        Ghost(p0),
    ) {
        assert(deflate::deflation(all[0].content, level) is None);
        return None;
    }
    let ghost p1 = p0.push(all[0]);
    if !add_file(
        &mut output,
        &mut central_dir,
        table,
        "_rels/.rels",
        package_rels_text().as_bytes(),
        level,
        Ghost(p1),
    ) {
        assert(deflate::deflation(all[1].content, level) is None);
        return None;
    }
    let ghost p2 = p1.push(all[1]);
    if !add_file(
        &mut output,
        &mut central_dir,
        table,
        "xl/workbook.xml",
        wb.as_str().as_bytes(),
        level,
        Ghost(p2),
    ) {
        assert(deflate::deflation(all[2].content, level) is None);
        return None;
    }
    let ghost p3 = p2.push(all[2]);
    if !add_file(
        &mut output,
        &mut central_dir,
        table,
        "xl/_rels/workbook.xml.rels",
        workbook_rels_text().as_bytes(),
        level,
        Ghost(p3),
    ) {
        assert(deflate::deflation(all[3].content, level) is None);
        return None;
    }
    let ghost p4 = p3.push(all[3]);
    if !add_file(
        &mut output,
        &mut central_dir,
        table,
        "xl/styles.xml",
        styles.as_str().as_bytes(),
        level,
        Ghost(p4),
    ) {
        assert(deflate::deflation(all[4].content, level) is None);
        return None;
    }
    assert(p4.push(all[4]) =~= all);
    Some((output, central_dir))
}

/// A heading's tree by its texts.
pub open spec fn tree_view(tree: Option<Vec<HeaderNode>>) -> Option<Seq<HeaderView>> {
    match tree {
        Some(t) => Some(header::views_of(t@)),
        None => None,
    }
}

/// How beginning a workbook's export ends: with the heading written; or because a row that
/// was to be looked at could not be read; or because a fixed file could not be deflated, or
/// the deflater failed on the heading.
pub open spec fn xlsx_result(
    o: ExportOptions,
    begun: ExportView,
    g: Table,
    r: Result<ExportView, ExportError>,
) -> bool {
    let readable = cells::readable(g, 0, cells::sampled(begun.total_rows, type_opts_of(o)));
    let fails = !zip::packable(xlsx_parts(o), level_of(o)) || stuck(begun, begun.calls);
    match r {
        Ok(v) => readable && !fails && v == begun,
        Err(ExportError::Row) => !readable,
        Err(ExportError::Deflate) => readable && fails,
        Err(_) => false,
    }
}

/// Begins a workbook's export: its fixed files and the heading are written. The heading is
/// `tree`, or without one a row of labels.
pub fn begin_xlsx_state<F: Fn(usize) -> Option<Row>>(
    options: &ExportOptions,
    tree: &Option<Vec<HeaderNode>>,
    labels: &Vec<String>,
    selectors: Vec<Selector>,
    total_rows: usize,
    chunk_size: usize,
    get_row: &F,
) -> (r: Result<ExportState, ExportError>)
    requires
        *tree matches Some(t) ==> header::fits(header::views_of(t@)),
        forall|i: usize| i < total_rows ==> call_requires(*get_row, (i,)),
    ensures
        r matches Ok(s) ==> s.wf() && s@.selectors == cells::selector_views(selectors@)
            && s@.total_rows == total_rows && s@.rows_done == 0 && s@.chunk_size == chunk_size,
        r is Ok ==> zip::packable(xlsx_parts(*options), level_of(*options)),
        forall|g: Table| #[trigger]
            cells::reads(*get_row, cells::selector_views(selectors@), g) ==> xlsx_result(
                *options,
                xlsx_begun(
                    *options,
                    sheet::head_of(tree_view(*tree), header::texts_of(labels@)),
                    cells::selector_views(selectors@),
                    total_rows as int,
                    chunk_size as int,
                    g,
                ),
                g,
                match r {
                    Ok(s) => Ok(s@),
                    Err(e) => Err(e),
                },
            ),
{
    let ghost views = cells::selector_views(selectors@);
    let head = lay_out(tree, labels);
    let most: usize = if selectors.len() > head.cols {
        selectors.len()
    } else {
        head.cols
    };
    let ncols: usize = if most < MAX_COLS {
        most
    } else {
        MAX_COLS
    };
    let col_letters = column_names(ncols);
    let opts = read_type_opts(options.detect_types, options.detect_dates, options.sample_rows);
    assert(opts == type_opts_of(*options));
    let col_types = match infer_col_types(get_row, total_rows, &selectors, ncols, opts) {
        Some(types) => types,
        None => {
            return Err(ExportError::Row);
        },
    };
    let merges = head_merges(&head, &col_letters, ncols);
    let opening = opening_text(&head, &col_letters, ncols);
    let level: u32 = level_or_default(options.compression);
    let table = CrcTable::new();
    let (output, central_dir) = match workbook_files(options, &table, level) {
        Some(pair) => pair,
        None => {
            return Err(ExportError::Deflate);
        },
    };
    let data_start: u64 = head.depth as u64 + 1;
    let layout = SheetLayout {
        col_align: head.aligns,
        col_letters,
        ncols,
        data_start,
        col_types,
        merges,
    };
    let mut state = zipped_state(
        output,
        central_dir,
        5,
        table,
        "xl/worksheets/sheet1.xml".to_owned(),
        level,
        selectors,
        total_rows,
        chunk_size,
        FormatState::Xlsx(layout),
        Ghost(xlsx_parts(*options)),
    );
    proof {
        state.lemma_wf();
        assert(Seq::<u8>::empty() + encode_utf8(opening@) =~= encode_utf8(opening@));
    }
    if !state.emit_bytes(opening.as_str().as_bytes()) {
        return Err(ExportError::Deflate);
    }
    proof {
        assert forall|g: Table| #[trigger] cells::reads(*get_row, views, g) implies state@
            == xlsx_begun(
            *options,
            sheet::head_of(tree_view(*tree), header::texts_of(labels@)),
            views,
            total_rows as int,
            chunk_size as int,
            g,
        ) by {}
    }
    Ok(state)
}

/// What a chunk leaves behind: the rows written; or, where a row could not be read, the rows
/// before it, not counted as done; or a broken export.
pub open spec fn chunk_result(
    v: ExportView,
    g: Table,
    d: Dating,
    chunk: int,
    after: ExportView,
    r: Result<(), ExportError>,
) -> bool {
    let to = chunk_end(v, chunk);
    let gap = unreadable(g, v.rows_done, to);
    let fails = chunk_fails(v, g, d, chunk);
    match r {
        Ok(_) => !fails && cells::readable(g, v.rows_done, to) && after == continued(
            v,
            g,
            d,
            chunk,
        ),
        Err(ExportError::Row) => !fails && !cells::readable(g, v.rows_done, to) && after == (
        ExportView { rows_done: v.rows_done, ..advanced(v, g, d, gap) }),
        Err(ExportError::Deflate) => fails && after == broken_off(
            v,
            row_calls(v, g, d, v.rows_done, gap),
        ),
        Err(_) => false,
    }
}

/// Writes the next `chunk` rows, as far as there are any. `row_at` reads a row, and `serial`
/// writes dates.
pub fn continue_export<F: Fn(usize) -> Option<Row>, D: Fn(i64, i64) -> String>(
    state: &mut ExportState,
    row_at: &F,
    serial: &D,
    chunk: usize,
) -> (r: Result<(), ExportError>)
    requires
        old(state).wf(),
        forall|i: usize| i < old(state)@.total_rows ==> call_requires(*row_at, (i,)),
        forall|day: i64, second: i64| call_requires(*serial, (day, second)),
    ensures
        final(state).wf(),
        forall|g: Table, d: Dating|
            #![trigger cells::reads(*row_at, old(state)@.selectors, g), sheet::dates(*serial, d)]
            cells::reads(*row_at, old(state)@.selectors, g) && sheet::dates(*serial, d)
                ==> chunk_result(old(state)@, g, d, chunk as int, final(state)@, r),
{
    let ghost v = state@;
    let from: usize = state.rows_done;
    let to: usize = if chunk < state.total_rows - from {
        from + chunk
    } else {
        state.total_rows
    };
    let ghost end = chunk_end(v, chunk as int);
    let mut i: usize = from;
    proof {
        assert forall|g: Table, d: Dating|
            #![trigger cells::reads(*row_at, v.selectors, g), sheet::dates(*serial, d)]
            cells::reads(*row_at, v.selectors, g) && sheet::dates(*serial, d) implies state@.content
            == v.content + rows_bytes(v.format, g, d, from as int, from as int) by {
            assert(v.content + Seq::<u8>::empty() =~= v.content);
        }
    }
    while i < to
        invariant
            from <= i <= to <= v.total_rows,
            stop(v.format, from as int, i as int) == i,
            from == v.rows_done,
            end == chunk_end(v, chunk as int),
            end == stop(v.format, from as int, to as int),
            v == old(state)@,
            v.total_rows <= usize::MAX,
            state.wf(),
            state@ == (ExportView { content: state@.content, calls: state@.calls, ..v }),
            i > from ==> !v.broken,
            state.fmt == old(state).fmt,
            state.selectors == old(state).selectors,
            forall|k: usize| k < v.total_rows ==> call_requires(*row_at, (k,)),
            forall|day: i64, second: i64| call_requires(*serial, (day, second)),
            forall|g: Table|
                #![trigger cells::reads(*row_at, v.selectors, g)]
                cells::reads(*row_at, v.selectors, g) ==> cells::readable(g, from as int, i as int),
            forall|g: Table, d: Dating|
                #![trigger cells::reads(*row_at, v.selectors, g), sheet::dates(*serial, d)]
                cells::reads(*row_at, v.selectors, g) && sheet::dates(*serial, d) ==> state@.content
                    == v.content + rows_bytes(v.format, g, d, from as int, i as int)
                    && state@.calls == row_calls(v, g, d, from as int, i as int),
        ensures
            i == end,
        decreases to - i,
    {
        if let FormatState::Xlsx(layout) = &state.fmt {
            if layout.data_start > MAX_ROWS || i as u64 > MAX_ROWS - layout.data_start {
                break;
            }
        }
        let row = match row_at(i) {
            Some(row) => row,
            None => {
                proof {
                    assert forall|g: Table, d: Dating|
                        #![trigger cells::reads(*row_at, v.selectors, g), sheet::dates(*serial, d)]
                        cells::reads(*row_at, v.selectors, g) && sheet::dates(
                            *serial,
                            d,
                        ) implies chunk_result(
                        v,
                        g,
                        d,
                        chunk as int,
                        state@,
                        Err::<(), ExportError>(ExportError::Row),
                    ) by {
                        assert(g(i as int) is None);
                        lemma_unreadable(g, from as int, end, i as int);
                        state.lemma_wf();
                    }
                }
                return Err(ExportError::Row);
            },
        };
        let ghost texts = cells::row_texts(row, v.selectors);
        let line = match &state.fmt {
            FormatState::Xlsx(layout) => build_xlsx_row(
                layout,
                &state.selectors,
                &row,
                i,
                serial,
            ),
            FormatState::Csv { separator, force_text } => build_csv_row(
                &state.selectors,
                separator.as_str(),
                *force_text,
                &row,
            ),
        };
        proof {
            assert forall|d: Dating| #[trigger] sheet::dates(*serial, d) implies encode_utf8(line@)
                == row_bytes(v.format, texts, i as int, d) by {}
        }
        let ghost before = state@.content;
        let ghost calls = state@.calls;
        let done = state.emit_bytes(line.as_str().as_bytes());
        if !done {
            proof {
                assert forall|g: Table, d: Dating|
                    #![trigger cells::reads(*row_at, v.selectors, g), sheet::dates(*serial, d)]
                    cells::reads(*row_at, v.selectors, g) && sheet::dates(
                        *serial,
                        d,
                    ) implies chunk_result(
                    v,
                    g,
                    d,
                    chunk as int,
                    state@,
                    Err::<(), ExportError>(ExportError::Deflate),
                ) by {
                    assert(cells::readable(g, from as int, i as int));
                    assert(g(i as int) == Some(texts));
                    lemma_readable_to(g, from as int, i + 1, end);
                    let gap = unreadable(g, from as int, end);
                    assert(row_calls(v, g, d, from as int, i + 1) == calls_after(
                        v,
                        calls,
                        row_bytes(v.format, texts, i as int, d),
                    ));
                    lemma_stuck_stays(v, g, d, from as int, i + 1, gap);
                }
            }
            return Err(ExportError::Deflate);
        }
        proof {
            assert forall|g: Table| #[trigger]
                cells::reads(*row_at, v.selectors, g) implies cells::readable(
                g,
                from as int,
                i + 1,
            ) && g(i as int) == Some(texts) by {
                assert(cells::readable(g, from as int, i as int));
                assert(g(i as int) == Some(texts));
            }
            assert forall|g: Table, d: Dating|
                #![trigger cells::reads(*row_at, v.selectors, g), sheet::dates(*serial, d)]
                cells::reads(*row_at, v.selectors, g) && sheet::dates(
                    *serial,
                    d,
                ) implies state@.content == v.content + rows_bytes(
                v.format,
                g,
                d,
                from as int,
                i + 1,
            ) && state@.calls == row_calls(v, g, d, from as int, i + 1) by {
                let done = rows_bytes(v.format, g, d, from as int, i as int);
                let next = row_bytes(v.format, texts, i as int, d);
                assert(before == v.content + done);
                assert((v.content + done) + next =~= v.content + (done + next));
            }
        }
        i += 1;
    }
    proof {
        state.lemma_wf();
        assert forall|g: Table| #[trigger]
            cells::reads(*row_at, v.selectors, g) implies unreadable(g, from as int, end)
            == end by {
            assert(cells::readable(g, from as int, end));
            lemma_readable_to(g, from as int, end, end);
        }
    }
    state.rows_done = i;
    Ok(())
}

/// Finishes an export: the end of the file is written and, where there is an archive, its
/// directory.
pub fn end_export(state: ExportState) -> (r: Result<Vec<u8>, ExportError>)
    requires
        state.wf(),
    ensures
        match r {
            Ok(out) => !end_fails(state@) && finished(state@, out@),
            Err(e) => e is Deflate && end_fails(state@),
        },
{
    let mut state = state;
    let ghost v = state@;
    let close: Option<String> = match &state.fmt {
        FormatState::Xlsx(layout) => Some(closing_text(layout, state.total_rows)),
        FormatState::Csv { separator, force_text } => None,
    };
    if let Some(text) = &close {
        if !state.emit_bytes(text.as_str().as_bytes()) {
            return Err(ExportError::Deflate);
        }
    }
    proof {
        state.lemma_wf();
        assert(!state.broken ==> state@ == (ExportView {
            content: full_content(v),
            calls: full_calls(v),
            ..v
        }));
    }
    if state.broken {
        return Err(ExportError::Deflate);
    }
    state.close_archive(Ghost(v))
}

impl ExportState {
    /// Ends the deflate stream, puts checksum and sizes into its header, and appends the
    /// directory.
    fn close_archive(self, Ghost(v): Ghost<ExportView>) -> (r: Result<Vec<u8>, ExportError>)
        requires
            self.wf(),
            !self@.broken,
            self@ == (ExportView { content: full_content(v), calls: full_calls(v), ..v }),
        ensures
            match r {
                Ok(out) => !end_fails(v) && finished(v, out@),
                Err(e) => e is Deflate && end_fails(v),
            },
    {
        let mut output = self.output;
        let mut scratch = self.scratch;
        let mut c = match self.compress {
            None => {
                return Ok(output);
            },
            Some(c) => c,
        };
        let ghost level = level_made(c);
        let ghost parts = self.parts@;
        let ghost name = encode_utf8(self.entry_name@);
        let ghost front = zip::entries(parts, level);
        let ghost head = zip::local_header(name, 0, 0, 0);
        let ghost written0 = deflate::deflater_written(c);
        if !finish_onto(&mut c, &mut scratch, &mut output) {
            return Err(ExportError::Deflate);
        }
        let ghost packed = deflate::deflater_written(c);
        let ghost full = full_content(v);
        proof {
            let fresh = packed.skip(written0.len() as int);
            assert(written0 + fresh =~= packed) by {
                assert(written0 =~= packed.take(written0.len() as int));
            }
            assert((front + head + written0) + fresh =~= front + head + packed);
            assert(output@ == front + head + packed);
        }
        assert(inflate::inflation(packed) == (full, false));
        let sealed = seal(
            output,
            self.central_dir,
            self.entry_name.as_str(),
            self.header_offset,
            self.data_offset,
            !self.crc,
            self.uncomp,
            self.file_count,
            Ghost(parts),
            Ghost(level),
            Ghost(full),
            Ghost(packed),
        );
        Ok(sealed)
    }
}

} // verus!
