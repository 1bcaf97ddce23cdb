//! What an export gives: the file that the options ask for, with every row in it.

use crate::cell_text;
use crate::cells;
use crate::cells::Table;
use crate::csv;
use crate::export;
use crate::export::ExportError;
use crate::export::ExportOptions;
use crate::export::ExportView;
use crate::export::FormatView;
use crate::export_args;
use crate::export_args::ExportCall;
use crate::export_args::ExportFormat;
use crate::export_args::FieldsArg;
use crate::export_args::HeaderArg;
use crate::export_args::Refusal;
use crate::export_args::RowsArg;
use crate::export_utils;
use crate::export_utils::Export;
use crate::inflate;
use crate::sheet;
use crate::sheet::Dating;
use crate::sheet::HeadView;
use crate::sheet::SheetView;
use crate::styles;
use crate::text;
use crate::zip;
use crate::zip::Part;
use vstd::prelude::*;
use vstd::utf8::*;

verus! {

/// The lines of the first `n` rows.
pub open spec fn lines_of(g: Table, separator: Seq<char>, force: bool, n: int) -> Seq<char>
    decreases n,
{
    if n <= 0 {
        Seq::empty()
    } else {
        lines_of(g, separator, force, n - 1) + csv::csv_line(g(n - 1)->0, separator, force)
    }
}

/// The first `n` rows of a sheet.
pub open spec fn sheet_rows(s: SheetView, g: Table, d: Dating, n: int) -> Seq<char>
    decreases n,
{
    if n <= 0 {
        Seq::empty()
    } else {
        sheet_rows(s, g, d, n - 1) + sheet::row_xml(s, g(n - 1)->0, n - 1, d)
    }
}

proof fn lemma_lines(g: Table, separator: Seq<char>, force: bool, d: Dating, n: int)
    ensures
        export::rows_bytes(FormatView::Csv { separator, force_text: force }, g, d, 0, n)
            == encode_utf8(lines_of(g, separator, force, n)),
    decreases n,
{
    if n > 0 {
        lemma_lines(g, separator, force, d, n - 1);
        text::lemma_encode_concat(
            lines_of(g, separator, force, n - 1),
            csv::csv_line(g(n - 1)->0, separator, force),
        );
    } else {
        assert(encode_utf8(Seq::<char>::empty()) =~= Seq::<u8>::empty());
    }
}

proof fn lemma_sheet_rows(s: SheetView, g: Table, d: Dating, n: int)
    ensures
        export::rows_bytes(FormatView::Xlsx(s), g, d, 0, n) == encode_utf8(sheet_rows(s, g, d, n)),
    decreases n,
{
    if n > 0 {
        lemma_sheet_rows(s, g, d, n - 1);
        text::lemma_encode_concat(
            sheet_rows(s, g, d, n - 1),
            sheet::row_xml(s, g(n - 1)->0, n - 1, d),
        );
    } else {
        assert(encode_utf8(Seq::<char>::empty()) =~= Seq::<u8>::empty());
    }
}

/// An export of comma-separated values that is not to be compressed is the byte order mark, the
/// line that names the separator where that is asked for, the headings, and a line for every
/// row, in order. The separator is a semicolon where none is asked for.
pub proof fn lemma_csv_file(e: Export, g: Table, d: Dating, out: Seq<u8>)
    requires
        e.options.format is Some,
        e.options.format->0@ == seq!['c', 's', 'v'],
        e.options.compress != Some(true),
        export_utils::sync_result(e, g, d, Ok(out)),
    ensures
        ({
            let separator = match e.options.separator {
                Some(s) => s@,
                None => seq![';'],
            };
            let force = e.options.force_text == Some(true);
            out == csv::csv_opening(
                e.label_texts(),
                separator,
                e.options.separator_hint == Some(true),
            ) + encode_utf8(lines_of(g, separator, force, e.total_rows as int))
        }),
        cells::readable(g, 0, e.total_rows as int),
{
    reveal_strlit("csv");
    reveal_strlit("xlsx");
    reveal_strlit(";");
    assert("csv"@ =~= seq!['c', 's', 'v']);
    assert("xlsx"@.len() == 4);
    assert(";"@ =~= seq![';']);
    let separator = export::text_or(e.options.separator, ";"@);
    let force = e.options.force_text == Some(true);
    lemma_lines(g, separator, force, d, e.total_rows as int);
}

/// The heading of an export.
pub open spec fn head(e: Export) -> HeadView {
    sheet::head_of(export::tree_view(e.tree), e.label_texts())
}

/// How many columns a workbook's sheet has: as many as are selected or headed, but no more than
/// a sheet can have.
pub open spec fn width(e: Export) -> int {
    let wide = if e.selectors@.len() > head(e).cols {
        e.selectors@.len() as int
    } else {
        head(e).cols
    };
    if wide < 16384 {
        wide
    } else {
        16384
    }
}

/// How many rows a workbook's sheet has: all, but no more than a sheet has place for behind the
/// heading.
pub open spec fn rows_placed(e: Export) -> int {
    let place = 1048576 - head(e).depth;
    if e.total_rows <= place {
        e.total_rows as int
    } else if place < 0 {
        0
    } else {
        place
    }
}

/// What a workbook's rows are written by: they follow on the heading.
pub open spec fn layout(e: Export, g: Table) -> SheetView {
    SheetView {
        aligns: head(e).aligns,
        types: cells::column_types(
            g,
            e.total_rows as int,
            width(e),
            export::type_opts_of(e.options),
        ),
        ncols: width(e),
        data_start: head(e).depth + 1,
        merges: sheet::merges_of(head(e).cells, width(e)),
    }
}

/// A workbook's sheet: the heading, the rows in order, and the closing.
pub open spec fn sheet_file(e: Export, g: Table, d: Dating) -> Seq<u8> {
    encode_utf8(
        sheet::opening(head(e), width(e)) + sheet_rows(layout(e, g), g, d, rows_placed(e))
            + sheet::closing(layout(e, g), e.total_rows as int),
    )
}

proof fn lemma_begun(e: Export, g: Table)
    requires
        export_utils::wants_xlsx(e.options),
    ensures
        ({
            let v = e.begun(e.total_rows as int, g);
            &&& v.format == FormatView::Xlsx(layout(e, g))
            &&& v.content == encode_utf8(sheet::opening(head(e), width(e)))
            &&& v.rows_done == 0 && v.total_rows == e.total_rows
            &&& v.entry == Some("xl/worksheets/sheet1.xml"@)
            &&& v.parts == export::xlsx_parts(e.options)
            &&& v.level == export::level_of(e.options)
            &&& export::chunk_end(v, e.total_rows as int) == rows_placed(e)
        }),
{
    assert(e.columns().len() == e.selectors@.len());
    assert(export::sheet_cols(e.columns().len() as int, head(e).cols) == width(e));
}

proof fn lemma_sheet_file(e: Export, g: Table, d: Dating)
    requires
        export_utils::wants_xlsx(e.options),
    ensures
        export::full_content(
            export::continued(e.begun(e.total_rows as int, g), g, d, e.total_rows as int),
        ) == sheet_file(e, g, d),
{
    lemma_begun(e, g);
    let s = layout(e, g);
    let opening = sheet::opening(head(e), width(e));
    let rows = sheet_rows(s, g, d, rows_placed(e));
    lemma_sheet_rows(s, g, d, rows_placed(e));
    text::lemma_encode_concat(opening, rows);
    text::lemma_encode_concat(opening + rows, sheet::closing(s, e.total_rows as int));
}

/// An export of a workbook is an archive of its five fixed files and the sheet. What the sheet is
/// packed to decodes to it.
pub proof fn lemma_workbook_file(e: Export, g: Table, d: Dating, out: Seq<u8>) -> (packed: Seq<u8>)
    requires
        e.options.format is None || e.options.format->0@ == seq!['x', 'l', 's', 'x'],
        export_utils::sync_result(e, g, d, Ok(out)),
    ensures
        inflate::inflation(packed) == (sheet_file(e, g, d), false),
        out == zip::archive(
            export::xlsx_parts(e.options),
            export::level_of(e.options),
            Part { name: "xl/worksheets/sheet1.xml"@, content: sheet_file(e, g, d) },
            packed,
        ),
        cells::readable(g, 0, rows_placed(e)),
{
    reveal_strlit("xlsx");
    assert("xlsx"@ =~= seq!['x', 'l', 's', 'x']);
    lemma_begun(e, g);
    lemma_sheet_file(e, g, d);
    export::packed_file(
        export::continued(e.begun(e.total_rows as int, g), g, d, e.total_rows as int),
    )
}

/// The fixed files of a workbook.
pub proof fn lemma_fixed_files(o: ExportOptions)
    ensures
        ({
            let parts = export::xlsx_parts(o);
            let name = match o.sheet_name {
                Some(s) => s@,
                None => "Foglio1"@,
            };
            &&& parts.len() == 5
            &&& parts[0].name == "[Content_Types].xml"@ && parts[0].content == encode_utf8(
                "<?xml version=\"1.0\" encoding=\"UTF-8\" standalone=\"yes\"?>\n<Types xmlns=\"http://schemas.openxmlformats.org/package/2006/content-types\"><Default Extension=\"rels\" ContentType=\"application/vnd.openxmlformats-package.relationships+xml\"/><Default Extension=\"xml\" ContentType=\"application/xml\"/><Override PartName=\"/xl/workbook.xml\" ContentType=\"application/vnd.openxmlformats-officedocument.spreadsheetml.sheet.main+xml\"/><Override PartName=\"/xl/worksheets/sheet1.xml\" ContentType=\"application/vnd.openxmlformats-officedocument.spreadsheetml.worksheet+xml\"/><Override PartName=\"/xl/styles.xml\" ContentType=\"application/vnd.openxmlformats-officedocument.spreadsheetml.styles+xml\"/></Types>"@,
            )
            &&& parts[1].name == "_rels/.rels"@ && parts[1].content == encode_utf8(
                "<?xml version=\"1.0\" encoding=\"UTF-8\" standalone=\"yes\"?>\n<Relationships xmlns=\"http://schemas.openxmlformats.org/package/2006/relationships\"><Relationship Id=\"rId1\" Type=\"http://schemas.openxmlformats.org/officeDocument/2006/relationships/officeDocument\" Target=\"xl/workbook.xml\"/></Relationships>"@,
            )
            &&& parts[2].name == "xl/workbook.xml"@ && parts[2].content == encode_utf8(
                styles::workbook(name),
            )
            &&& parts[3].name == "xl/_rels/workbook.xml.rels"@ && parts[3].content == encode_utf8(
                "<?xml version=\"1.0\" encoding=\"UTF-8\" standalone=\"yes\"?>\n<Relationships xmlns=\"http://schemas.openxmlformats.org/package/2006/relationships\"><Relationship Id=\"rId1\" Type=\"http://schemas.openxmlformats.org/officeDocument/2006/relationships/worksheet\" Target=\"worksheets/sheet1.xml\"/><Relationship Id=\"rId2\" Type=\"http://schemas.openxmlformats.org/officeDocument/2006/relationships/styles\" Target=\"styles.xml\"/></Relationships>"@,
            )
            &&& parts[4].name == "xl/styles.xml"@ && parts[4].content == encode_utf8(
                styles::styles_xml(export::style_of(o)),
            )
        }),
{
}

/// What is not asked for: level six of compression, types and dates looked for in a thousand
/// rows, Calibri at eleven points. Levels are kept between zero and nine, and asking for no rows
/// to be looked at is asking for all.
pub proof fn lemma_options(o: ExportOptions)
    ensures
        o.compression is None ==> export::level_of(o) == 6,
        o.compression matches Some(n) ==> {
            &&& 0 <= n <= 9 ==> export::level_of(o) == n
            &&& n < 0 ==> export::level_of(o) == 0
            &&& n > 9 ==> export::level_of(o) == 9
        },
        export::type_opts_of(o).detect_types == (match o.detect_types {
            Some(asked) => asked,
            None => true,
        }),
        export::type_opts_of(o).detect_dates == (match o.detect_dates {
            Some(asked) => asked,
            None => true,
        }),
        o.sample_rows is None ==> export::type_opts_of(o).sample_rows == 1000,
        o.sample_rows matches Some(n) ==> export::type_opts_of(o).sample_rows == (if n < 0 {
            0int
        } else {
            n as int
        }),
        ({
            let s = export::style_of(o);
            &&& s.font_family == (match o.font_family {
                Some(f) => f@,
                None => "Calibri"@,
            })
            &&& s.font_size == (match o.font_size {
                Some(f) => f@,
                None => "11"@,
            })
            &&& s.header_bg == o.header_bg && s.header_fg == o.header_fg && s.row_colors
                == o.row_colors
        }),
{
}

/// A compressed export of comma-separated values is an archive of one file, named after the
/// sheet, with the same content that an uncompressed one has.
pub proof fn lemma_csv_zipped(
    o: ExportOptions,
    plain: ExportOptions,
    labels: Seq<Seq<char>>,
    selectors: Seq<cells::SelectorView>,
    total: int,
    chunk: int,
)
    requires
        o.compress == Some(true),
        plain.compress != Some(true),
        plain == (ExportOptions { compress: plain.compress, ..o }),
    ensures
        ({
            let zipped = export::csv_begun(o, labels, selectors, total, chunk);
            let bare = export::csv_begun(plain, labels, selectors, total, chunk);
            let name = match o.sheet_name {
                Some(s) => s@,
                None => "Foglio1"@,
            };
            &&& bare.entry is None
            &&& zipped.entry == Some(cell_text::sheet_name_of(name) + seq!['.', 'c', 's', 'v'])
            &&& zipped.parts.len() == 0 && zipped.level == export::level_of(o)
            &&& zipped.content == bare.content && zipped.format == bare.format
            &&& zipped.rows_done == 0 && zipped.total_rows == total && zipped.chunk_size == chunk
        }),
{
    reveal_strlit(".csv");
    assert(".csv"@ =~= seq!['.', 'c', 's', 'v']);
}

/// A chunk has rows enough for a hundred chunks to do, and no fewer than are asked for; a hundred
/// where nothing is. It has no more than that takes.
pub proof fn lemma_chunk_size(total: int, least: Option<i32>)
    requires
        0 <= total,
    ensures
        ({
            let n = export_utils::chunk_rows(total, least);
            let floor = match least {
                Some(k) => if k < 1 {
                    1int
                } else {
                    k as int
                },
                None => 100,
            };
            &&& n >= 1 && n >= floor
            &&& 100 * n >= total
            &&& n > floor ==> 100 * (n - 1) < total
        }),
{
}

/// A chunk goes from where the export is to as many rows further as it has, but not beyond the
/// last row, nor beyond the rows that a sheet has place for.
pub proof fn lemma_chunk_end(v: export::ExportView, chunk: int)
    requires
        0 <= v.rows_done <= v.total_rows,
        0 <= chunk,
    ensures
        ({
            let to = export::chunk_end(v, chunk);
            &&& v.format is Csv ==> to == (if v.rows_done + chunk <= v.total_rows {
                v.rows_done + chunk
            } else {
                v.total_rows
            })
            &&& v.format matches FormatView::Xlsx(s) ==> {
                &&& v.rows_done <= to <= v.rows_done + chunk && to <= v.total_rows
                &&& to > v.rows_done ==> s.data_start + to - 1 <= 1048576
                &&& to < v.total_rows && to < v.rows_done + chunk ==> s.data_start + to > 1048576
            }
        }),
{
}

/// Exports are numbered from one on, each with the number behind the last; zero is no number.
pub proof fn lemma_numbers_of_exports(id: u32)
    ensures
        export_utils::next_number(id) != 0,
        id < u32::MAX ==> export_utils::next_number(id) == id + 1,
        id == u32::MAX ==> export_utils::next_number(id) == 1,
{
}

/// The formats: `xlsx`, which is meant where nothing is said, and `csv`.
pub proof fn lemma_formats(f: Seq<char>)
    ensures
        export_args::format_of(None) == Some(ExportFormat::Xlsx),
        export_args::format_of(Some(f)) == Some(ExportFormat::Xlsx) <==> f == seq![
            'x',
            'l',
            's',
            'x',
        ],
        export_args::format_of(Some(f)) == Some(ExportFormat::Csv) <==> f == seq!['c', 's', 'v'],
{
    reveal_strlit("xlsx");
    reveal_strlit("csv");
    assert("xlsx"@ =~= seq!['x', 'l', 's', 'x']);
    assert("csv"@ =~= seq!['c', 's', 'v']);
    assert("xlsx"@.len() == 4 && "csv"@.len() == 3);
}

/// Arguments are refused only for what is wrong with them: rows that are no list, fields that
/// are none, an unknown format, or for a workbook a heading that is no tree. An export that runs
/// at once looks at the format first, any other at rows and fields; the heading comes last.
pub proof fn lemma_arguments(
    call: ExportCall,
    format: Option<Seq<char>>,
    rows: RowsArg,
    fields: FieldsArg,
    header: HeaderArg,
)
    ensures
        ({
            let r = export_args::judged(call, format, rows, fields, header);
            let known = export_args::format_of(format);
            let bad_head = known == Some(ExportFormat::Xlsx) && header is Other;
            &&& rows is Rows && fields is Fields && known is Some && !bad_head ==> r == Ok::<
                ExportFormat,
                Refusal,
            >(known->0)
            &&& r is Err && known is None && (call is Sync || rows is Rows && fields is Fields)
                ==> r->Err_0 == Refusal::Format
            &&& !(rows is Rows) && (known is Some || !(call is Sync)) ==> r == Err::<
                ExportFormat,
                Refusal,
            >(Refusal::Rows)
            &&& rows is Rows && fields is Missing && (known is Some || !(call is Sync)) ==> r
                == Err::<ExportFormat, Refusal>(Refusal::Fields)
            &&& rows is Rows && fields is Other && (known is Some || !(call is Sync)) ==> r
                == Err::<ExportFormat, Refusal>(Refusal::FieldsKind)
            &&& rows is Rows && fields is Fields && bad_head ==> r == Err::<ExportFormat, Refusal>(
                Refusal::Header,
            )
            &&& known is None ==> r is Err
        }),
{
}

/// A handle is refused where it is missing, where it has no rows, and where the export that it
/// stands for is over, except to give that up.
pub proof fn lemma_handles(present: bool, has_rows: bool, call: ExportCall, known: bool)
    ensures
        ({
            let r = export_args::handle_judged(present, has_rows, call, known);
            &&& r == Some(Refusal::HandleMissing) <==> !present
            &&& r == Some(Refusal::HandleInvalid) <==> present && !has_rows
            &&& r == Some(Refusal::HandleStale) <==> present && has_rows && !known
                && !(call is Cancel)
            &&& r is None <==> present && has_rows && (known || call is Cancel)
        }),
{
}

/// Messages begin with the class and mostly the call, and say what is wrong.
pub proof fn lemma_messages(call: ExportCall)
    ensures
        ({
            let name = match call {
                ExportCall::Sync => "syncExport"@,
                ExportCall::Begin => "asyncExportBegin"@,
                ExportCall::Continue => "asyncExportContinue"@,
                ExportCall::End => "asyncExportEnd"@,
                ExportCall::Cancel => "asyncExportCancel"@,
            };
            let said = |r: Refusal| export_args::refusal_text(r, call);
            &&& said(Refusal::Rows) == "ExportUtils."@ + name
                + ": rows must be an Array or XMLList"@
            &&& said(Refusal::Fields) == "ExportUtils."@ + name + ": fields must be an Array"@
            &&& said(Refusal::FieldsKind) == "ExportUtils: fields must be an Array"@
            &&& said(Refusal::Header) == "ExportUtils: header must be an XML or null"@
            &&& said(Refusal::Format) == "ExportUtils."@ + name
                + ": options.format must be \"xlsx\" or \"csv\""@
            &&& said(Refusal::HandleMissing) == "ExportUtils."@ + name + ": handle is required"@
            &&& said(Refusal::HandleInvalid) == "ExportUtils: handle is missing or invalid"@
            &&& said(Refusal::HandleStale) == "ExportUtils."@ + name
                + ": handle is no longer valid"@
        }),
{
}

/// An export that runs at once fails for one reason only, and gives a result where there is none:
/// the format is unknown, a row cannot be read, or the deflater fails.
pub proof fn lemma_why_exports_fail(
    e: Export,
    g: Table,
    d: Dating,
    r: Result<Seq<u8>, ExportError>,
)
    requires
        export_utils::sync_result(e, g, d, r),
    ensures
        r == Err::<Seq<u8>, ExportError>(ExportError::Format) <==> export_args::format_of(
            text::opt_text(e.options.format),
        ) is None,
        r != Err::<Seq<u8>, ExportError>(ExportError::Handle),
        r is Ok ==> cells::readable(
            g,
            0,
            export::chunk_end(e.begun(e.total_rows as int, g), e.total_rows as int),
        ),
{
}

proof fn lemma_first_unreadable(g: Table, from: int, to: int)
    requires
        from <= to,
    ensures
        from <= export::unreadable(g, from, to) <= to,
        forall|i: int| from <= i < export::unreadable(g, from, to) ==> #[trigger] g(i) is Some,
        export::unreadable(g, from, to) < to ==> g(export::unreadable(g, from, to)) is None,
    decreases to - from,
{
    if from < to && g(from) is Some {
        lemma_first_unreadable(g, from + 1, to);
    }
}

/// Where a row of a chunk cannot be read, the rows before the first such row are written and
/// counted as not done, so that none is taken for finished.
pub proof fn lemma_row_not_read(
    v: ExportView,
    g: Table,
    d: Dating,
    chunk: int,
    after: ExportView,
) -> (k: int)
    requires
        export::chunk_result(v, g, d, chunk, after, Err(ExportError::Row)),
        v.rows_done <= export::chunk_end(v, chunk),
    ensures
        v.rows_done <= k < export::chunk_end(v, chunk),
        g(k) is None,
        forall|i: int| v.rows_done <= i < k ==> #[trigger] g(i) is Some,
        after.rows_done == v.rows_done,
        after.content == v.content + export::rows_bytes(v.format, g, d, v.rows_done, k),
{
    let to = export::chunk_end(v, chunk);
    lemma_first_unreadable(g, v.rows_done, to);
    export::unreadable(g, v.rows_done, to)
}

/// Beginning a CSV export reads no row; beginning a workbook fails for a row only if some row
/// cannot be read.
pub proof fn lemma_rows_at_begin(
    e: Export,
    chunk: int,
    g: Table,
    r: Result<ExportView, ExportError>,
)
    requires
        export_utils::begin_result(e, chunk, g, r),
        r == Err::<ExportView, ExportError>(ExportError::Row),
    ensures
        export_args::format_of(text::opt_text(e.options.format)) == Some(ExportFormat::Xlsx),
        exists|i: int| 0 <= i < e.total_rows && #[trigger] g(i) is None,
{
    let n = e.sampled();
    assert(n <= e.total_rows);
    let i = choose|i: int| 0 <= i < n && #[trigger] g(i) is None;
    assert(g(i) is None);
}

} // verus!
