//! The fixed parts of a workbook: styles, the workbook part, and the opening of a sheet.

use crate::cell_text;
use crate::cell_text::sanitize_sheet_name;
use crate::cell_text::xml_escape_attr;
use crate::decimal;
use crate::decimal::push_decimal;
use crate::decimal::push_hex;
use crate::text::same_text;
use vstd::prelude::*;

verus! {

/// How a workbook looks. The font size is a number's text; colours are `0xRRGGBB`.
pub struct StyleOpts {
    pub font_family: String,
    pub font_size: String,
    pub header_bg: Option<u32>,
    pub header_fg: Option<u32>,
    pub row_colors: Option<(u32, u32)>,
}

/// A [`StyleOpts`] by its texts.
pub struct StyleView {
    pub font_family: Seq<char>,
    pub font_size: Seq<char>,
    pub header_bg: Option<u32>,
    pub header_fg: Option<u32>,
    pub row_colors: Option<(u32, u32)>,
}

impl View for StyleOpts {
    type V = StyleView;

    open spec fn view(&self) -> StyleView {
        StyleView {
            font_family: self.font_family@,
            font_size: self.font_size@,
            header_bg: self.header_bg,
            header_fg: self.header_fg,
            row_colors: self.row_colors,
        }
    }
}

/// The index of an alignment: left, center, right, or general for anything else.
pub open spec fn align_of(a: Seq<char>) -> int {
    if a == "left"@ {
        1
    } else if a == "center"@ {
        2
    } else if a == "right"@ {
        3
    } else {
        0
    }
}

/// The alignment of an index.
pub open spec fn align_name(k: int) -> Seq<char> {
    if k == 1 {
        "left"@
    } else if k == 2 {
        "center"@
    } else if k == 3 {
        "right"@
    } else {
        Seq::empty()
    }
}

fn align_index(a: &str) -> (r: u32)
    ensures
        r == align_of(a@),
        r < 4,
{
    if same_text(a, "left") {
        1
    } else if same_text(a, "center") {
        2
    } else if same_text(a, "right") {
        3
    } else {
        0
    }
}

/// The style of a heading.
pub open spec fn header_xf(align: Seq<char>) -> int {
    1 + align_of(align)
}

/// The style of a text, a number or an empty cell in an even or odd row.
pub open spec fn data_xf(align: Seq<char>, parity: int) -> int {
    5 + 4 * parity + align_of(align)
}

/// The style of a date in an even or odd row.
pub open spec fn date_xf(align: Seq<char>, parity: int) -> int {
    13 + 4 * parity + align_of(align)
}

/// The style of a heading.
pub fn header_style(align: &str) -> (r: u32)
    ensures
        r == header_xf(align@),
{
    1 + align_index(align)
}

/// The style of a text, a number or an empty cell.
pub fn data_style(align: &str, parity: u32) -> (r: u32)
    requires
        parity <= 1,
    ensures
        r == data_xf(align@, parity as int),
{
    5 + parity * 4 + align_index(align)
}

/// The style of a date.
pub fn date_style(align: &str, parity: u32) -> (r: u32)
    requires
        parity <= 1,
    ensures
        r == date_xf(align@, parity as int),
{
    13 + parity * 4 + align_index(align)
}

/// A fill of one colour.
pub open spec fn solid(color: u32) -> Seq<char> {
    "<fill><patternFill patternType=\"solid\"><fgColor rgb=\"FF"@ + decimal::hex(color as nat, 6)
        + "\"/></patternFill></fill>"@
}

fn solid_fill(color: u32) -> (r: String)
    ensures
        r@ == solid(color),
{
    let mut r = "<fill><patternFill patternType=\"solid\"><fgColor rgb=\"FF".to_owned();
    push_hex(&mut r, color, 6);
    r.push_str("\"/></patternFill></fill>");
    r
}

/// A cell format: number format, font, fill and alignment, with a thin border.
pub open spec fn xf(num_fmt: nat, font: nat, fill: nat, align: Seq<char>) -> Seq<char> {
    "<xf numFmtId=\""@ + decimal::decimal(num_fmt) + "\" fontId=\""@ + decimal::decimal(font)
        + "\" fillId=\""@ + decimal::decimal(fill) + "\" borderId=\"1\" xfId=\"0\""@ + (if num_fmt
        != 0 {
        " applyNumberFormat=\"1\""@
    } else {
        Seq::empty()
    }) + " applyFont=\"1\" applyFill=\"1\" applyBorder=\"1\""@ + (if align.len() == 0 {
        "/>"@
    } else {
        " applyAlignment=\"1\"><alignment horizontal=\""@ + align
            + "\" vertical=\"center\"/></xf>"@
    })
}

/// Writes a cell format. The alignment is one of the four.
fn cell_xf(num_fmt: u32, font: u32, fill: u32, k: u32) -> (r: String)
    requires
        k < 4,
    ensures
        r@ == xf(num_fmt as nat, font as nat, fill as nat, align_name(k as int)),
{
    let align: &str = if k == 1 {
        "left"
    } else if k == 2 {
        "center"
    } else if k == 3 {
        "right"
    } else {
        ""
    };
    proof {
        reveal_strlit("left");
        reveal_strlit("center");
        reveal_strlit("right");
        reveal_strlit("");
        assert(align@ =~= align_name(k as int));
    }
    let mut r = "<xf numFmtId=\"".to_owned();
    push_decimal(&mut r, num_fmt as u64);
    r.push_str("\" fontId=\"");
    push_decimal(&mut r, font as u64);
    r.push_str("\" fillId=\"");
    push_decimal(&mut r, fill as u64);
    r.push_str("\" borderId=\"1\" xfId=\"0\"");
    let ghost before = r@;
    if num_fmt != 0 {
        r.push_str(" applyNumberFormat=\"1\"");
    } else {
        assert(before + Seq::<char>::empty() =~= before);
    }
    r.push_str(" applyFont=\"1\" applyFill=\"1\" applyBorder=\"1\"");
    let ghost body = r@;
    if k == 0 {
        r.push_str("/>");
    } else {
        r.push_str(" applyAlignment=\"1\"><alignment horizontal=\"");
        r.push_str(align);
        r.push_str("\" vertical=\"center\"/></xf>");
        assert(r@ =~= body + (" applyAlignment=\"1\"><alignment horizontal=\""@ + align@
            + "\" vertical=\"center\"/></xf>"@));
    }
    r
}

/// The fill of headings.
pub open spec fn header_fill(opts: StyleView) -> nat {
    if opts.header_bg is Some {
        2
    } else {
        0
    }
}

/// How many fills come before those of the rows.
pub open spec fn first_fills(opts: StyleView) -> nat {
    if opts.header_bg is Some {
        3
    } else {
        2
    }
}

/// The fill of even or odd rows.
pub open spec fn row_fill(opts: StyleView, parity: int) -> nat {
    if opts.row_colors is Some {
        (first_fills(opts) + parity) as nat
    } else {
        0
    }
}

/// The cell formats that styles number, in order: the default one, four for headings, eight
/// for texts and numbers, and eight for dates.
pub open spec fn formats(opts: StyleView) -> Seq<Seq<char>> {
    Seq::new(
        21,
        |s: int|
            if s == 0 {
                "<xf numFmtId=\"0\" fontId=\"0\" fillId=\"0\" borderId=\"0\" xfId=\"0\"/>"@
            } else if s < 5 {
                xf(0, 1, header_fill(opts), align_name(s - 1))
            } else if s < 13 {
                xf(0, 0, row_fill(opts, (s - 5) / 4), align_name((s - 5) % 4))
            } else {
                xf(164, 0, row_fill(opts, (s - 13) / 4), align_name((s - 13) % 4))
            },
    )
}

/// Texts one behind the other.
pub open spec fn joined(list: Seq<Seq<char>>) -> Seq<char>
    decreases list.len(),
{
    if list.len() == 0 {
        Seq::empty()
    } else {
        joined(list.drop_last()) + list.last()
    }
}

/// Every style that a cell is given has the format for it: number format, fill of its kind
/// of row, and alignment.
pub proof fn lemma_styles_formatted(opts: StyleView, align: Seq<char>, parity: int)
    requires
        parity == 0 || parity == 1,
    ensures
        formats(opts).len() == 21,
        0 < header_xf(align) < data_xf(align, parity) < date_xf(align, parity) < 21,
        formats(opts)[header_xf(align)] == xf(0, 1, header_fill(opts), align_name(align_of(align))),
        formats(opts)[data_xf(align, parity)] == xf(
            0,
            0,
            row_fill(opts, parity),
            align_name(align_of(align)),
        ),
        formats(opts)[date_xf(align, parity)] == xf(
            164,
            0,
            row_fill(opts, parity),
            align_name(align_of(align)),
        ),
{
}

/// The fonts: the normal one, and the bold one of headings.
pub open spec fn fonts_xml(opts: StyleView) -> Seq<char> {
    let family = cell_text::sheet_text(opts.font_family, true);
    let size = opts.font_size;
    "<fonts count=\"2\"><font><sz val=\""@ + size + "\"/><name val=\""@ + family
        + "\"/></font><font><b/>"@ + (match opts.header_fg {
        Some(c) => "<color rgb=\"FF"@ + decimal::hex(c as nat, 6) + "\"/>"@,
        None => Seq::empty(),
    }) + "<sz val=\""@ + size + "\"/><name val=\""@ + family + "\"/></font></fonts>"@
}

/// How many fills there are.
pub open spec fn fill_count(opts: StyleView) -> nat {
    first_fills(opts) + (if opts.row_colors is Some {
        2nat
    } else {
        0
    })
}

/// The fills: the two that every workbook has, that of headings, and those of rows.
pub open spec fn fills_xml(opts: StyleView) -> Seq<char> {
    "<fills count=\""@ + decimal::decimal(fill_count(opts)) + "\">"@
        + "<fill><patternFill patternType=\"none\"/></fill><fill><patternFill patternType=\"gray125\"/></fill>"@
        + (match opts.header_bg {
        Some(c) => solid(c),
        None => Seq::empty(),
    }) + (match opts.row_colors {
        Some(pair) => solid(pair.0) + solid(pair.1),
        None => Seq::empty(),
    }) + "</fills>"@
}

/// The styles part.
pub open spec fn styles_xml(opts: StyleView) -> Seq<char> {
    "<?xml version=\"1.0\" encoding=\"UTF-8\" standalone=\"yes\"?>\n<styleSheet xmlns=\"http://schemas.openxmlformats.org/spreadsheetml/2006/main\"><numFmts count=\"1\"><numFmt numFmtId=\"164\" formatCode=\"yyyy-mm-dd hh:mm:ss\"/></numFmts>"@
        + fonts_xml(opts) + fills_xml(opts)
        + "<borders count=\"2\"><border><left/><right/><top/><bottom/><diagonal/></border><border><left style=\"thin\"><color rgb=\"FF000000\"/></left><right style=\"thin\"><color rgb=\"FF000000\"/></right><top style=\"thin\"><color rgb=\"FF000000\"/></top><bottom style=\"thin\"><color rgb=\"FF000000\"/></bottom><diagonal/></border></borders><cellStyleXfs count=\"1\"><xf numFmtId=\"0\" fontId=\"0\" fillId=\"0\" borderId=\"0\"/></cellStyleXfs><cellXfs count=\"21\">"@
        + joined(formats(opts))
        + "</cellXfs><cellStyles count=\"1\"><cellStyle name=\"Normal\" xfId=\"0\" builtinId=\"0\"/></cellStyles></styleSheet>"@
}

fn fonts_text(opts: &StyleOpts) -> (r: String)
    ensures
        r@ == fonts_xml(opts@),
{
    let mut family = String::new();
    xml_escape_attr(opts.font_family.as_str(), &mut family);
    assert(family@ =~= cell_text::sheet_text(opts.font_family@, true));
    let size: &str = opts.font_size.as_str();
    let mut r = "<fonts count=\"2\"><font><sz val=\"".to_owned();
    r.push_str(size);
    r.push_str("\"/><name val=\"");
    r.push_str(family.as_str());
    r.push_str("\"/></font><font><b/>");
    let ghost before = r@;
    match opts.header_fg {
        Some(c) => {
            r.push_str("<color rgb=\"FF");
            push_hex(&mut r, c, 6);
            r.push_str("\"/>");
            assert(r@ =~= before + ("<color rgb=\"FF"@ + decimal::hex(c as nat, 6) + "\"/>"@));
        },
        None => {
            assert(before + Seq::<char>::empty() =~= before);
        },
    }
    r.push_str("<sz val=\"");
    r.push_str(size);
    r.push_str("\"/><name val=\"");
    r.push_str(family.as_str());
    r.push_str("\"/></font></fonts>");
    r
}

fn fills_text(opts: &StyleOpts) -> (r: String)
    ensures
        r@ == fills_xml(opts@),
{
    let mut count: u64 = 2;
    if opts.header_bg.is_some() {
        count = count + 1;
    }
    if opts.row_colors.is_some() {
        count = count + 2;
    }
    let mut r = "<fills count=\"".to_owned();
    push_decimal(&mut r, count);
    r.push_str("\">");
    r.push_str(
        "<fill><patternFill patternType=\"none\"/></fill><fill><patternFill patternType=\"gray125\"/></fill>",
    );
    let ghost before = r@;
    match opts.header_bg {
        Some(c) => r.push_str(solid_fill(c).as_str()),
        None => {
            assert(before + Seq::<char>::empty() =~= before);
        },
    }
    let ghost mid = r@;
    match opts.row_colors {
        Some(pair) => {
            let (c0, c1) = pair;
            r.push_str(solid_fill(c0).as_str());
            r.push_str(solid_fill(c1).as_str());
            assert(r@ =~= mid + (solid(c0) + solid(c1)));
        },
        None => {
            assert(mid + Seq::<char>::empty() =~= mid);
        },
    }
    r.push_str("</fills>");
    r
}

/// Appends the formats of one kind, one for each alignment.
fn push_formats(
    out: &mut String,
    num_fmt: u32,
    font: u32,
    fill: u32,
    Ghost(list): Ghost<Seq<Seq<char>>>,
)
    requires
        old(out)@ == joined(list),
    ensures
        final(out)@ == joined(
            list + Seq::new(
                4,
                |k: int| xf(num_fmt as nat, font as nat, fill as nat, align_name(k)),
            ),
        ),
{
    let ghost four = Seq::new(
        4,
        |k: int| xf(num_fmt as nat, font as nat, fill as nat, align_name(k)),
    );
    let mut k: u32 = 0;
    assert(list + four.take(0) =~= list);
    while k < 4
        invariant
            k <= 4,
            four == Seq::new(
                4,
                |k: int| xf(num_fmt as nat, font as nat, fill as nat, align_name(k)),
            ),
            out@ == joined(list + four.take(k as int)),
        decreases 4 - k,
    {
        out.push_str(cell_xf(num_fmt, font, fill, k).as_str());
        proof {
            assert((list + four.take(k + 1)).drop_last() =~= list + four.take(k as int));
            assert((list + four.take(k + 1)).last() == four[k as int]);
        }
        k += 1;
    }
    assert(four.take(4) =~= four);
}

fn formats_text(opts: &StyleOpts) -> (r: String)
    ensures
        r@ == joined(formats(opts@)),
{
    let header: u32 = if opts.header_bg.is_some() {
        2
    } else {
        0
    };
    let first: u32 = if opts.header_bg.is_some() {
        3
    } else {
        2
    };
    let (row0, row1): (u32, u32) = if opts.row_colors.is_some() {
        (first, first + 1)
    } else {
        (0, 0)
    };
    let mut r =
        "<xf numFmtId=\"0\" fontId=\"0\" fillId=\"0\" borderId=\"0\" xfId=\"0\"/>".to_owned();
    let ghost all = formats(opts@);
    let ghost list = seq![r@];
    proof {
        assert(list.drop_last() =~= Seq::<Seq<char>>::empty());
        assert(Seq::<char>::empty() + r@ =~= r@);
        assert(joined(list.drop_last()) == Seq::<char>::empty());
        assert(r@ == joined(list));
        assert(list =~= all.take(1));
    }
    push_formats(&mut r, 0, 1, header, Ghost(all.take(1)));
    proof {
        let four = Seq::new(4, |k: int| xf(0, 1, header as nat, align_name(k)));
        assert(all.take(1) + four =~= all.take(5));
    }
    push_formats(&mut r, 0, 0, row0, Ghost(all.take(5)));
    proof {
        let four = Seq::new(4, |k: int| xf(0, 0, row0 as nat, align_name(k)));
        assert(all.take(5) + four =~= all.take(9));
    }
    push_formats(&mut r, 0, 0, row1, Ghost(all.take(9)));
    proof {
        let four = Seq::new(4, |k: int| xf(0, 0, row1 as nat, align_name(k)));
        assert(all.take(9) + four =~= all.take(13));
    }
    push_formats(&mut r, 164, 0, row0, Ghost(all.take(13)));
    proof {
        let four = Seq::new(4, |k: int| xf(164, 0, row0 as nat, align_name(k)));
        assert(all.take(13) + four =~= all.take(17));
    }
    push_formats(&mut r, 164, 0, row1, Ghost(all.take(17)));
    proof {
        let four = Seq::new(4, |k: int| xf(164, 0, row1 as nat, align_name(k)));
        assert(all.take(17) + four =~= all);
    }
    r
}

/// The styles part of a workbook.
pub fn build_styles(opts: &StyleOpts) -> (r: String)
    ensures
        r@ == styles_xml(opts@),
{
    let mut r =
        "<?xml version=\"1.0\" encoding=\"UTF-8\" standalone=\"yes\"?>\n<styleSheet xmlns=\"http://schemas.openxmlformats.org/spreadsheetml/2006/main\"><numFmts count=\"1\"><numFmt numFmtId=\"164\" formatCode=\"yyyy-mm-dd hh:mm:ss\"/></numFmts>".to_owned();
    r.push_str(fonts_text(opts).as_str());
    r.push_str(fills_text(opts).as_str());
    r.push_str(
        "<borders count=\"2\"><border><left/><right/><top/><bottom/><diagonal/></border><border><left style=\"thin\"><color rgb=\"FF000000\"/></left><right style=\"thin\"><color rgb=\"FF000000\"/></right><top style=\"thin\"><color rgb=\"FF000000\"/></top><bottom style=\"thin\"><color rgb=\"FF000000\"/></bottom><diagonal/></border></borders><cellStyleXfs count=\"1\"><xf numFmtId=\"0\" fontId=\"0\" fillId=\"0\" borderId=\"0\"/></cellStyleXfs><cellXfs count=\"21\">",
    );
    r.push_str(formats_text(opts).as_str());
    r.push_str(
        "</cellXfs><cellStyles count=\"1\"><cellStyle name=\"Normal\" xfId=\"0\" builtinId=\"0\"/></cellStyles></styleSheet>",
    );
    r
}

/// The content types part.
pub open spec fn content_types() -> Seq<char> {
    "<?xml version=\"1.0\" encoding=\"UTF-8\" standalone=\"yes\"?>\n<Types xmlns=\"http://schemas.openxmlformats.org/package/2006/content-types\"><Default Extension=\"rels\" ContentType=\"application/vnd.openxmlformats-package.relationships+xml\"/><Default Extension=\"xml\" ContentType=\"application/xml\"/><Override PartName=\"/xl/workbook.xml\" ContentType=\"application/vnd.openxmlformats-officedocument.spreadsheetml.sheet.main+xml\"/><Override PartName=\"/xl/worksheets/sheet1.xml\" ContentType=\"application/vnd.openxmlformats-officedocument.spreadsheetml.worksheet+xml\"/><Override PartName=\"/xl/styles.xml\" ContentType=\"application/vnd.openxmlformats-officedocument.spreadsheetml.styles+xml\"/></Types>"@
}

pub(crate) fn content_types_text() -> (r: &'static str)
    ensures
        r@ == content_types(),
{
    "<?xml version=\"1.0\" encoding=\"UTF-8\" standalone=\"yes\"?>\n<Types xmlns=\"http://schemas.openxmlformats.org/package/2006/content-types\"><Default Extension=\"rels\" ContentType=\"application/vnd.openxmlformats-package.relationships+xml\"/><Default Extension=\"xml\" ContentType=\"application/xml\"/><Override PartName=\"/xl/workbook.xml\" ContentType=\"application/vnd.openxmlformats-officedocument.spreadsheetml.sheet.main+xml\"/><Override PartName=\"/xl/worksheets/sheet1.xml\" ContentType=\"application/vnd.openxmlformats-officedocument.spreadsheetml.worksheet+xml\"/><Override PartName=\"/xl/styles.xml\" ContentType=\"application/vnd.openxmlformats-officedocument.spreadsheetml.styles+xml\"/></Types>"
}

/// The package's relationships.
pub open spec fn package_rels() -> Seq<char> {
    "<?xml version=\"1.0\" encoding=\"UTF-8\" standalone=\"yes\"?>\n<Relationships xmlns=\"http://schemas.openxmlformats.org/package/2006/relationships\"><Relationship Id=\"rId1\" Type=\"http://schemas.openxmlformats.org/officeDocument/2006/relationships/officeDocument\" Target=\"xl/workbook.xml\"/></Relationships>"@
}

pub(crate) fn package_rels_text() -> (r: &'static str)
    ensures
        r@ == package_rels(),
{
    "<?xml version=\"1.0\" encoding=\"UTF-8\" standalone=\"yes\"?>\n<Relationships xmlns=\"http://schemas.openxmlformats.org/package/2006/relationships\"><Relationship Id=\"rId1\" Type=\"http://schemas.openxmlformats.org/officeDocument/2006/relationships/officeDocument\" Target=\"xl/workbook.xml\"/></Relationships>"
}

/// The workbook's relationships.
pub open spec fn workbook_rels() -> Seq<char> {
    "<?xml version=\"1.0\" encoding=\"UTF-8\" standalone=\"yes\"?>\n<Relationships xmlns=\"http://schemas.openxmlformats.org/package/2006/relationships\"><Relationship Id=\"rId1\" Type=\"http://schemas.openxmlformats.org/officeDocument/2006/relationships/worksheet\" Target=\"worksheets/sheet1.xml\"/><Relationship Id=\"rId2\" Type=\"http://schemas.openxmlformats.org/officeDocument/2006/relationships/styles\" Target=\"styles.xml\"/></Relationships>"@
}

pub(crate) fn workbook_rels_text() -> (r: &'static str)
    ensures
        r@ == workbook_rels(),
{
    "<?xml version=\"1.0\" encoding=\"UTF-8\" standalone=\"yes\"?>\n<Relationships xmlns=\"http://schemas.openxmlformats.org/package/2006/relationships\"><Relationship Id=\"rId1\" Type=\"http://schemas.openxmlformats.org/officeDocument/2006/relationships/worksheet\" Target=\"worksheets/sheet1.xml\"/><Relationship Id=\"rId2\" Type=\"http://schemas.openxmlformats.org/officeDocument/2006/relationships/styles\" Target=\"styles.xml\"/></Relationships>"
}

/// The workbook part: one sheet, by its name.
pub open spec fn workbook(sheet_name: Seq<char>) -> Seq<char> {
    "<?xml version=\"1.0\" encoding=\"UTF-8\" standalone=\"yes\"?>\n<workbook xmlns=\"http://schemas.openxmlformats.org/spreadsheetml/2006/main\" xmlns:r=\"http://schemas.openxmlformats.org/officeDocument/2006/relationships\"><sheets><sheet name=\""@
        + cell_text::sheet_text(cell_text::sheet_name_of(sheet_name), true)
        + "\" sheetId=\"1\" r:id=\"rId1\"/></sheets></workbook>"@
}

/// The workbook part.
pub fn workbook_xml(sheet_name: &str) -> (r: String)
    ensures
        r@ == workbook(sheet_name@),
{
    let mut r =
        "<?xml version=\"1.0\" encoding=\"UTF-8\" standalone=\"yes\"?>\n<workbook xmlns=\"http://schemas.openxmlformats.org/spreadsheetml/2006/main\" xmlns:r=\"http://schemas.openxmlformats.org/officeDocument/2006/relationships\"><sheets><sheet name=\"".to_owned();
    let name = sanitize_sheet_name(sheet_name);
    xml_escape_attr(name.as_str(), &mut r);
    r.push_str("\" sheetId=\"1\" r:id=\"rId1\"/></sheets></workbook>");
    r
}

/// The view of a sheet whose first rows stay in sight.
pub open spec fn frozen(rows: nat) -> Seq<char> {
    if rows == 0 {
        Seq::empty()
    } else {
        "<sheetViews><sheetView workbookViewId=\"0\"><pane ySplit=\""@ + decimal::decimal(rows)
            + "\" topLeftCell=\"A"@ + decimal::decimal(rows + 1)
            + "\" activePane=\"bottomLeft\" state=\"frozen\"/><selection pane=\"bottomLeft\"/></sheetView></sheetViews>"@
    }
}

/// What a sheet opens with.
pub open spec fn sheet_start(freeze_rows: nat, cols: Seq<char>) -> Seq<char> {
    "<?xml version=\"1.0\" encoding=\"UTF-8\" standalone=\"yes\"?>\n<worksheet xmlns=\"http://schemas.openxmlformats.org/spreadsheetml/2006/main\">"@
        + frozen(freeze_rows) + cols + "<sheetData>"@
}

/// What a sheet opens with.
pub fn sheet_open(freeze_rows: u32, cols: &str) -> (r: String)
    ensures
        r@ == sheet_start(freeze_rows as nat, cols@),
{
    let mut r =
        "<?xml version=\"1.0\" encoding=\"UTF-8\" standalone=\"yes\"?>\n<worksheet xmlns=\"http://schemas.openxmlformats.org/spreadsheetml/2006/main\">".to_owned();
    let ghost before = r@;
    if freeze_rows != 0 {
        r.push_str("<sheetViews><sheetView workbookViewId=\"0\"><pane ySplit=\"");
        push_decimal(&mut r, freeze_rows as u64);
        r.push_str("\" topLeftCell=\"A");
        push_decimal(&mut r, freeze_rows as u64 + 1);
        r.push_str(
            "\" activePane=\"bottomLeft\" state=\"frozen\"/><selection pane=\"bottomLeft\"/></sheetView></sheetViews>",
        );
        assert(r@ =~= before + frozen(freeze_rows as nat));
    } else {
        assert(before + Seq::<char>::empty() =~= before);
    }
    r.push_str(cols);
    r.push_str("<sheetData>");
    r
}

} // verus!
