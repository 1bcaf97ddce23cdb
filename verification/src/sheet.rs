//! A worksheet's text: its heading, its rows, and what stands around them.

use crate::cell_text;
use crate::cell_text::col_letter;
use crate::cell_text::number_repr;
use crate::cell_text::parse_date;
use crate::cell_text::xml_escape;
use crate::cells;
use crate::cells::extract_cell;
use crate::cells::ColType;
use crate::cells::Row;
use crate::cells::Selector;
use crate::decimal;
use crate::decimal::decimal_text;
use crate::decimal::push_decimal;
use crate::header;
use crate::header::collect_cells;
use crate::header::collect_leaves;
use crate::header::measure;
use crate::header::sort_cells;
use crate::header::CellView;
use crate::header::HeaderCell;
use crate::header::HeaderNode;
use crate::header::HeaderView;
use crate::styles;
use crate::styles::data_style;
use crate::styles::date_style;
use crate::styles::header_style;
use crate::text;
use crate::text::chars_of;
use crate::text::trim_white;
use vstd::prelude::*;

verus! {

/// Most rows that a sheet has.
pub const MAX_ROWS: u64 = 1_048_576;

/// Most columns that a sheet has.
pub const MAX_COLS: usize = 16_384;

/// The letters of column `c`, counted from zero.
pub open spec fn col_name(c: int) -> Seq<char> {
    cell_text::letters((c + 1) as nat)
}

/// How dates are written: the text of a spreadsheet day and a second of it.
pub type Dating = spec_fn(int, int) -> Seq<char>;

/// `f` computes `g`.
pub open spec fn dates<D: Fn(i64, i64) -> String>(f: D, g: Dating) -> bool {
    forall|day: i64, second: i64, r: String| #[trigger]
        call_ensures(f, (day, second), r) ==> g(day as int, second as int) == r@
}

/// A heading in its place: the cells in order, how many rows and columns they take, and
/// what they ask of the columns.
pub struct SheetHead {
    pub cells: Vec<HeaderCell>,
    pub depth: u32,
    pub cols: usize,
    pub aligns: Vec<String>,
    pub widths: Vec<Option<String>>,
}

/// A [`SheetHead`] by its texts.
#[verifier::ext_equal]
pub struct HeadView {
    pub cells: Seq<CellView>,
    pub depth: int,
    pub cols: int,
    pub aligns: Seq<Seq<char>>,
    pub widths: Seq<Option<Seq<char>>>,
}

impl View for SheetHead {
    type V = HeadView;

    open spec fn view(&self) -> HeadView {
        HeadView {
            cells: header::cell_views(self.cells@),
            depth: self.depth as int,
            cols: self.cols as int,
            aligns: header::texts_of(self.aligns@),
            widths: header::opt_texts_of(self.widths@),
        }
    }
}

/// The heading of a tree; without one, a row of labels, if there are any.
pub open spec fn head_of(tree: Option<Seq<HeaderView>>, labels: Seq<Seq<char>>) -> HeadView {
    match tree {
        Some(t) => {
            let depth: int = if t.len() == 0 {
                1
            } else {
                header::heights(t) as int
            };
            HeadView {
                cells: header::in_order(header::layout(t, 1, depth, 0)),
                depth,
                cols: header::leaf_spans(t) as int,
                aligns: header::leaf_aligns(t),
                widths: header::leaf_widths(t),
            }
        },
        None => HeadView {
            cells: Seq::new(labels.len(), |i: int| flat_cell(labels[i], i)),
            depth: if labels.len() == 0 {
                0
            } else {
                1
            },
            cols: labels.len() as int,
            aligns: Seq::new(labels.len(), |i: int| Seq::empty()),
            widths: Seq::new(labels.len(), |i: int| None),
        },
    }
}

/// The cell of a label in a row of labels.
pub open spec fn flat_cell(label: Seq<char>, i: int) -> CellView {
    CellView { row: 1, col: i, rowspan: 1, colspan: 1, label, align: Seq::empty() }
}

/// A cell lies within the rows of a heading, and its ends fit in machine integers.
pub open spec fn cell_ok(c: CellView, depth: int) -> bool {
    &&& 1 <= c.row && 1 <= c.rowspan && c.row + c.rowspan - 1 <= depth
    &&& 0 <= c.col && 1 <= c.colspan && c.col + c.colspan <= usize::MAX
}

/// All cells of a heading do.
pub open spec fn cells_ok(cells: Seq<CellView>, depth: int) -> bool {
    forall|k: int| 0 <= k < cells.len() ==> cell_ok(#[trigger] cells[k], depth)
}

/// A heading fits in machine integers.
pub open spec fn head_ok(h: HeadView) -> bool {
    cells_ok(h.cells, h.depth) && h.depth < u32::MAX
}

/// Ordering keeps what holds of every cell.
proof fn lemma_cells_ok(all: Seq<CellView>, depth: int)
    requires
        cells_ok(all, depth),
    ensures
        cells_ok(header::in_order(all), depth),
{
    header::lemma_in_order(all);
    let sorted = header::in_order(all);
    assert forall|k: int| 0 <= k < sorted.len() implies cell_ok(#[trigger] sorted[k], depth) by {
        broadcast use vstd::seq_lib::group_to_multiset_ensures;

        assert(sorted.contains(sorted[k]));
        assert(sorted.to_multiset().count(sorted[k]) > 0);
        assert(all.to_multiset().count(sorted[k]) > 0);
        assert(all.contains(sorted[k]));
        let j = choose|j: int| 0 <= j < all.len() && all[j] == sorted[k];
        assert(cell_ok(all[j], depth));
    }
}

/// Lays out a heading.
pub fn lay_out(tree: &Option<Vec<HeaderNode>>, labels: &Vec<String>) -> (r: SheetHead)
    requires
        *tree matches Some(t) ==> header::fits(header::views_of(t@)),
    ensures
        r@ == head_of(
            match *tree {
                Some(t) => Some(header::views_of(t@)),
                None => None,
            },
            header::texts_of(labels@),
        ),
        head_ok(r@),
{
    match tree {
        Some(t) => {
            let ghost views = header::views_of(t@);
            let (cols, rows): (usize, u32) = match measure(t) {
                Some(pair) => pair,
                None => (0, 0),
            };
            proof {
                header::lemma_views_of(t@);
            }
            let depth: u32 = if t.len() == 0 {
                1
            } else {
                rows
            };
            let mut found: Vec<HeaderCell> = Vec::new();
            proof {
                if views.len() > 0 {
                    assert(header::height(views.last()) >= 1);
                    assert(header::heights(views) >= header::height(views.last()));
                }
            }
            collect_cells(t, 1, depth, 0, &mut found);
            proof {
                let all = header::layout(views, 1, depth as int, 0);
                assert(header::cell_views(found@) =~= all);
                header::lemma_layout_inside(views, 1, depth as int, 0);
                assert forall|k: int| 0 <= k < all.len() implies cell_ok(
                    #[trigger] all[k],
                    depth as int,
                ) by {}
                lemma_cells_ok(all, depth as int);
            }
            let cells = sort_cells(found);
            let mut aligns: Vec<String> = Vec::new();
            let mut widths: Vec<Option<String>> = Vec::new();
            collect_leaves(t, &mut aligns, &mut widths);
            assert(header::texts_of(aligns@) =~= header::leaf_aligns(views));
            assert(header::opt_texts_of(widths@) =~= header::leaf_widths(views));
            SheetHead { cells, depth, cols, aligns, widths }
        },
        None => {
            let n: usize = labels.len();
            let mut cells: Vec<HeaderCell> = Vec::new();
            let mut aligns: Vec<String> = Vec::new();
            let mut widths: Vec<Option<String>> = Vec::new();
            let mut i: usize = 0;
            while i < n
                invariant
                    i <= n == labels@.len(),
                    cells@.len() == i,
                    aligns@.len() == i,
                    widths@.len() == i,
                    forall|k: int|
                        0 <= k < i ==> (#[trigger] cells@[k])@ == flat_cell(labels@[k]@, k),
                    forall|k: int| 0 <= k < i ==> (#[trigger] aligns@[k])@.len() == 0,
                    forall|k: int| 0 <= k < i ==> (#[trigger] widths@[k]) is None,
                decreases n - i,
            {
                let align = String::new();
                assert(align@ =~= Seq::<char>::empty());
                cells.push(
                    HeaderCell {
                        row: 1,
                        col: i,
                        rowspan: 1,
                        colspan: 1,
                        label: labels[i].clone(),
                        align,
                    },
                );
                aligns.push(String::new());
                widths.push(None);
                i += 1;
            }
            let depth: u32 = if n == 0 {
                0
            } else {
                1
            };
            let r = SheetHead { cells, depth, cols: n, aligns, widths };
            proof {
                let want = head_of(None, header::texts_of(labels@));
                assert forall|k: int| 0 <= k < n implies r@.aligns[k] == want.aligns[k] by {
                    assert(aligns@[k]@ =~= Seq::<char>::empty());
                }
                assert(r@.aligns =~= want.aligns);
                assert(r@.widths =~= want.widths);
                assert(r@.cells =~= want.cells);
                assert forall|k: int| 0 <= k < r@.cells.len() implies cell_ok(
                    #[trigger] r@.cells[k],
                    depth as int,
                ) by {}
            }
            r
        },
    }
}

/// The entries of the first `n` columns that have a width.
pub open spec fn col_entries(widths: Seq<Option<Seq<char>>>, n: int) -> Seq<char>
    decreases n,
{
    if n <= 0 {
        Seq::empty()
    } else {
        match widths[n - 1] {
            Some(w) => col_entries(widths, n - 1) + "<col min=\""@ + decimal::decimal(n as nat)
                + "\" max=\""@ + decimal::decimal(n as nat) + "\" width=\""@ + w
                + "\" customWidth=\"1\"/>"@,
            None => col_entries(widths, n - 1),
        }
    }
}

/// The widths of the columns; nothing where none has one.
pub open spec fn cols_xml(widths: Seq<Option<Seq<char>>>) -> Seq<char> {
    if exists|c: int| 0 <= c < widths.len() && (#[trigger] widths[c]) is Some {
        "<cols>"@ + col_entries(widths, widths.len() as int) + "</cols>"@
    } else {
        Seq::empty()
    }
}

/// Writes the widths of the columns.
fn cols_text(widths: &Vec<Option<String>>) -> (r: String)
    ensures
        r@ == cols_xml(header::opt_texts_of(widths@)),
{
    let ghost views = header::opt_texts_of(widths@);
    let mut entries = String::new();
    let mut any = false;
    let mut c: usize = 0;
    while c < widths.len()
        invariant
            c <= widths@.len(),
            views == header::opt_texts_of(widths@),
            any == (exists|k: int| 0 <= k < c && (#[trigger] views[k]) is Some),
            entries@ == col_entries(views, c as int),
        decreases widths@.len() - c,
    {
        assert(views[c as int] == text::opt_text(widths@[c as int]));
        if let Some(w) = &widths[c] {
            let n: u64 = c as u64 + 1;
            entries.push_str("<col min=\"");
            push_decimal(&mut entries, n);
            entries.push_str("\" max=\"");
            push_decimal(&mut entries, n);
            entries.push_str("\" width=\"");
            entries.push_str(w.as_str());
            entries.push_str("\" customWidth=\"1\"/>");
            any = true;
        }
        c += 1;
    }
    if any {
        let mut r = "<cols>".to_owned();
        r.push_str(entries.as_str());
        r.push_str("</cols>");
        r
    } else {
        String::new()
    }
}

/// The range that a cell of more than one row or column is merged to.
pub open spec fn merge_ref(c: CellView, ncols: int) -> Seq<char> {
    let last = if c.col + c.colspan - 1 < ncols - 1 {
        c.col + c.colspan - 1
    } else {
        ncols - 1
    };
    col_name(c.col) + decimal::decimal(c.row as nat) + ":"@ + col_name(last) + decimal::decimal(
        (c.row + c.rowspan - 1) as nat,
    )
}

/// The ranges that cells are merged to.
pub open spec fn merges_of(cells: Seq<CellView>, ncols: int) -> Seq<Seq<char>>
    decreases cells.len(),
{
    if cells.len() == 0 {
        Seq::empty()
    } else {
        let front = merges_of(cells.drop_last(), ncols);
        let c = cells.last();
        if (c.rowspan > 1 || c.colspan > 1) && c.col < ncols {
            front.push(merge_ref(c, ncols))
        } else {
            front
        }
    }
}

/// The names of the first `ncols` columns.
pub open spec fn names_ok(letters: Seq<String>, ncols: int) -> bool {
    &&& letters.len() == ncols
    &&& forall|c: int| 0 <= c < ncols ==> (#[trigger] letters[c])@ == col_name(c)
}

/// The names of columns.
pub(crate) fn column_names(ncols: usize) -> (r: Vec<String>)
    requires
        ncols <= MAX_COLS,
    ensures
        names_ok(r@, ncols as int),
{
    let mut r: Vec<String> = Vec::new();
    let mut c: usize = 0;
    while c < ncols
        invariant
            c <= ncols <= MAX_COLS,
            r@.len() == c,
            forall|k: int| 0 <= k < c ==> (#[trigger] r@[k])@ == col_name(k),
        decreases ncols - c,
    {
        r.push(col_letter(c));
        c += 1;
    }
    r
}

/// The ranges that a heading's cells are merged to.
fn merge_texts(cells: &Vec<HeaderCell>, letters: &Vec<String>, ncols: usize, depth: u32) -> (r: Vec<
    String,
>)
    requires
        cells_ok(header::cell_views(cells@), depth as int),
        names_ok(letters@, ncols as int),
        depth < u32::MAX,
    ensures
        header::texts_of(r@) == merges_of(header::cell_views(cells@), ncols as int),
{
    let ghost views = header::cell_views(cells@);
    let mut r: Vec<String> = Vec::new();
    let mut k: usize = 0;
    assert(header::texts_of(r@) =~= merges_of(views.take(0), ncols as int));
    while k < cells.len()
        invariant
            k <= cells@.len(),
            views == header::cell_views(cells@),
            cells_ok(views, depth as int),
            names_ok(letters@, ncols as int),
            depth < u32::MAX,
            header::texts_of(r@) == merges_of(views.take(k as int), ncols as int),
        decreases cells@.len() - k,
    {
        let cell = &cells[k];
        let ghost before = header::texts_of(r@);
        proof {
            assert(views[k as int] == cell@);
            assert(cell_ok(cell@, depth as int));
            assert(views.take(k + 1).drop_last() =~= views.take(k as int));
            assert(views.take(k + 1).last() == cell@);
        }
        if (cell.rowspan > 1 || cell.colspan > 1) && cell.col < ncols {
            let end: usize = cell.col + (cell.colspan - 1);
            let last: usize = if end < ncols - 1 {
                end
            } else {
                ncols - 1
            };
            let bottom: u32 = cell.row + (cell.rowspan - 1);
            let mut m = letters[cell.col].clone();
            push_decimal(&mut m, cell.row as u64);
            m.push_str(":");
            m.push_str(letters[last].as_str());
            push_decimal(&mut m, bottom as u64);
            assert(m@ == merge_ref(cell@, ncols as int));
            r.push(m);
            assert(header::texts_of(r@) =~= before.push(merge_ref(cell@, ncols as int)));
        }
        k += 1;
    }
    assert(views.take(k as int) =~= views);
    r
}

/// A cell lies over row `r` and column `c`.
pub open spec fn covers(cell: CellView, r: int, c: int) -> bool {
    cell.row <= r < cell.row + cell.rowspan && cell.col <= c < cell.col + cell.colspan
}

/// Which of the cells shows in row `r` and column `c`: the last that lies over it.
pub open spec fn shown(cells: Seq<CellView>, r: int, c: int) -> Option<CellView>
    decreases cells.len(),
{
    if cells.len() == 0 {
        None
    } else if covers(cells.last(), r, c) {
        Some(cells.last())
    } else {
        shown(cells.drop_last(), r, c)
    }
}

/// The cell of a heading's row and column; it has a text where a cell begins.
pub open spec fn head_cell_xml(cells: Seq<CellView>, r: int, c: int) -> Seq<char> {
    let align = match shown(cells, r, c) {
        Some(cell) => cell.align,
        None => Seq::empty(),
    };
    let front = "<c r=\""@ + col_name(c) + decimal::decimal(r as nat) + "\" s=\""@
        + decimal::decimal(styles::header_xf(align) as nat) + "\""@;
    match shown(cells, r, c) {
        Some(cell) => if cell.row == r && cell.col == c {
            front + " t=\"inlineStr\"><is><t xml:space=\"preserve\">"@ + cell_text::sheet_text(
                cell.label,
                false,
            ) + "</t></is></c>"@
        } else {
            front + "/>"@
        },
        None => front + "/>"@,
    }
}

/// The first `n` cells of a heading's row.
pub open spec fn head_cells_xml(cells: Seq<CellView>, r: int, n: int) -> Seq<char>
    decreases n,
{
    if n <= 0 {
        Seq::empty()
    } else {
        head_cells_xml(cells, r, n - 1) + head_cell_xml(cells, r, n - 1)
    }
}

/// A row of a heading.
pub open spec fn head_row_xml(cells: Seq<CellView>, r: int, ncols: int) -> Seq<char> {
    "<row r=\""@ + decimal::decimal(r as nat) + "\">"@ + head_cells_xml(cells, r, ncols)
        + "</row>"@
}

/// The first `n` rows of a heading.
pub open spec fn head_rows_xml(cells: Seq<CellView>, n: int, ncols: int) -> Seq<char>
    decreases n,
{
    if n <= 0 {
        Seq::empty()
    } else {
        head_rows_xml(cells, n - 1, ncols) + head_row_xml(cells, n, ncols)
    }
}

/// Which cell shows in each column of row `r`: its number counted from one, or zero.
fn owners(cells: &Vec<HeaderCell>, r: u32, ncols: usize, depth: u32) -> (owner: Vec<usize>)
    requires
        cells_ok(header::cell_views(cells@), depth as int),
        depth < u32::MAX,
    ensures
        owner@.len() == ncols,
        forall|c: int|
            0 <= c < ncols ==> owned(
                #[trigger] owner@[c],
                header::cell_views(cells@),
                cells@.len() as int,
                r as int,
                c,
            ),
{
    let ghost views = header::cell_views(cells@);
    let mut owner: Vec<usize> = Vec::new();
    while owner.len() < ncols
        invariant
            owner@.len() <= ncols,
            forall|c: int| 0 <= c < owner@.len() ==> #[trigger] owner@[c] == 0,
        decreases ncols - owner@.len(),
    {
        owner.push(0);
    }
    let mut k: usize = 0;
    proof {
        assert forall|c: int| 0 <= c < ncols implies owned(
            #[trigger] owner@[c],
            views,
            0,
            r as int,
            c,
        ) by {
            assert(views.take(0).len() == 0);
        }
    }
    while k < cells.len()
        invariant
            k <= cells@.len(),
            views == header::cell_views(cells@),
            cells_ok(views, depth as int),
            depth < u32::MAX,
            owner@.len() == ncols,
            forall|c: int|
                0 <= c < ncols ==> owned(#[trigger] owner@[c], views, k as int, r as int, c),
        decreases cells@.len() - k,
    {
        let cell = &cells[k];
        let ghost base = owner@;
        proof {
            assert(views[k as int] == cell@);
            assert(cell_ok(cell@, depth as int));
            assert(views.take(k + 1).drop_last() =~= views.take(k as int));
            assert(views.take(k + 1).last() == cell@);
        }
        let over = cell.row <= r && r - cell.row < cell.rowspan;
        let end: usize = if over && cell.col < ncols {
            if cell.col + cell.colspan < ncols {
                cell.col + cell.colspan
            } else {
                ncols
            }
        } else {
            0
        };
        let mark: usize = k + 1;
        let mut c: usize = cell.col;
        while c < end
            invariant
                cell.col <= c,
                end > 0 ==> c <= end,
                end <= ncols,
                owner@.len() == ncols,
                base.len() == ncols,
                forall|j: int|
                    0 <= j < ncols ==> #[trigger] owner@[j] == (if cell.col <= j < c && end > 0 {
                        mark
                    } else {
                        base[j]
                    }),
            decreases end - c,
        {
            owner.set(c, mark);
            c += 1;
        }
        proof {
            assert forall|j: int| 0 <= j < ncols implies owned(
                #[trigger] owner@[j],
                views,
                k + 1,
                r as int,
                j,
            ) by {
                assert(owned(base[j], views, k as int, r as int, j));
                assert(covers(cell@, r as int, j) == (over && cell.col <= j < cell.col
                    + cell.colspan));
            }
        }
        k += 1;
    }
    owner
}

/// `o` tells which of the first `n` cells shows.
spec fn owned(o: usize, cells: Seq<CellView>, n: int, r: int, c: int) -> bool {
    &&& o <= n
    &&& shown(cells.take(n), r, c) == (if o == 0 {
        None
    } else {
        Some(cells[o - 1])
    })
}

/// Writes a row of a heading.
fn head_row_text(
    cells: &Vec<HeaderCell>,
    letters: &Vec<String>,
    r: u32,
    ncols: usize,
    depth: u32,
) -> (out: String)
    requires
        cells_ok(header::cell_views(cells@), depth as int),
        names_ok(letters@, ncols as int),
        depth < u32::MAX,
    ensures
        out@ == head_row_xml(header::cell_views(cells@), r as int, ncols as int),
{
    let ghost views = header::cell_views(cells@);
    let owner = owners(cells, r, ncols, depth);
    let mut out = "<row r=\"".to_owned();
    push_decimal(&mut out, r as u64);
    out.push_str("\">");
    let ghost start = out@;
    let mut c: usize = 0;
    assert(out@ =~= start + head_cells_xml(views, r as int, 0));
    while c < ncols
        invariant
            c <= ncols == owner@.len(),
            views == header::cell_views(cells@),
            names_ok(letters@, ncols as int),
            forall|j: int|
                0 <= j < ncols ==> owned(
                    #[trigger] owner@[j],
                    views,
                    cells@.len() as int,
                    r as int,
                    j,
                ),
            out@ == start + head_cells_xml(views, r as int, c as int),
        decreases ncols - c,
    {
        let o: usize = owner[c];
        proof {
            assert(views.take(cells@.len() as int) =~= views);
            assert(owned(o, views, cells@.len() as int, r as int, c as int));
        }
        let align: &str = if o == 0 {
            ""
        } else {
            cells[o - 1].align.as_str()
        };
        proof {
            reveal_strlit("");
            assert(align@ =~= (match shown(views, r as int, c as int) {
                Some(cell) => cell.align,
                None => Seq::empty(),
            }));
        }
        let mut cell = "<c r=\"".to_owned();
        cell.push_str(letters[c].as_str());
        push_decimal(&mut cell, r as u64);
        cell.push_str("\" s=\"");
        push_decimal(&mut cell, header_style(align) as u64);
        cell.push_str("\"");
        if o != 0 && cells[o - 1].row == r && cells[o - 1].col == c {
            cell.push_str(" t=\"inlineStr\"><is><t xml:space=\"preserve\">");
            xml_escape(cells[o - 1].label.as_str(), &mut cell);
            cell.push_str("</t></is></c>");
        } else {
            cell.push_str("/>");
        }
        assert(cell@ == head_cell_xml(views, r as int, c as int));
        out.push_str(cell.as_str());
        assert(out@ =~= start + head_cells_xml(views, r as int, c + 1));
        c += 1;
    }
    out.push_str("</row>");
    out
}

/// What a sheet's text opens with: the sheet's start and the heading's rows.
pub open spec fn opening(h: HeadView, ncols: int) -> Seq<char> {
    styles::sheet_start(h.depth as nat, cols_xml(h.widths)) + head_rows_xml(h.cells, h.depth, ncols)
}

/// Writes what a sheet's text opens with.
pub(crate) fn opening_text(h: &SheetHead, letters: &Vec<String>, ncols: usize) -> (out: String)
    requires
        head_ok(h@),
        names_ok(letters@, ncols as int),
    ensures
        out@ == opening(h@, ncols as int),
{
    let cols = cols_text(&h.widths);
    let mut out = styles::sheet_open(h.depth, cols.as_str());
    let ghost start = out@;
    let mut r: u32 = 0;
    assert(out@ =~= start + head_rows_xml(h@.cells, 0, ncols as int));
    while r < h.depth
        invariant
            r <= h.depth,
            head_ok(h@),
            names_ok(letters@, ncols as int),
            out@ == start + head_rows_xml(h@.cells, r as int, ncols as int),
        decreases h.depth - r,
    {
        let row = head_row_text(&h.cells, letters, r + 1, ncols, h.depth);
        out.push_str(row.as_str());
        assert(out@ =~= start + head_rows_xml(h@.cells, r + 1, ncols as int));
        r += 1;
    }
    out
}

/// The ranges that a heading's cells are merged to.
pub(crate) fn head_merges(h: &SheetHead, letters: &Vec<String>, ncols: usize) -> (r: Vec<String>)
    requires
        head_ok(h@),
        names_ok(letters@, ncols as int),
    ensures
        header::texts_of(r@) == merges_of(h@.cells, ncols as int),
{
    merge_texts(&h.cells, letters, ncols, h.depth)
}

/// What the rows of a sheet are written by.
#[verifier::ext_equal]
pub struct SheetView {
    pub aligns: Seq<Seq<char>>,
    pub types: Seq<ColType>,
    pub ncols: int,
    pub data_start: int,
    pub merges: Seq<Seq<char>>,
}

/// The alignment of column `c`; none behind those that were given.
pub open spec fn align_at(aligns: Seq<Seq<char>>, c: int) -> Seq<char> {
    if 0 <= c < aligns.len() {
        aligns[c]
    } else {
        Seq::empty()
    }
}

/// The type of column `c`; text behind those that were found.
pub open spec fn type_at(types: Seq<ColType>, c: int) -> ColType {
    if 0 <= c < types.len() {
        types[c]
    } else {
        ColType::Text
    }
}

/// The value that a cell's text has in a column of a type: its style, and the number; a text
/// that does not fit the type has none.
pub open spec fn cell_value(text: Seq<char>, ty: ColType, align: Seq<char>, parity: int, g: Dating) -> Option<
    (int, Seq<char>),
> {
    match ty {
        ColType::Text => None,
        ColType::Number => match cell_text::number_of(text) {
            Some(n) => Some((styles::data_xf(align, parity), n)),
            None => None,
        },
        ColType::Date => match cell_text::date_of(text::white_trimmed(text)) {
            Some(d) => Some((styles::date_xf(align, parity), g(d.0, d.1))),
            None => None,
        },
    }
}

/// What is written of a cell behind its place.
pub open spec fn cell_body(text: Seq<char>, ty: ColType, align: Seq<char>, parity: int, g: Dating) -> Seq<
    char,
> {
    if text.len() == 0 {
        "\" s=\""@ + decimal::decimal(styles::data_xf(Seq::empty(), parity) as nat) + "\"/>"@
    } else {
        match cell_value(text, ty, align, parity, g) {
            Some(v) => "\" s=\""@ + decimal::decimal(v.0 as nat) + "\"><v>"@ + v.1 + "</v></c>"@,
            None => "\" s=\""@ + decimal::decimal(styles::data_xf(align, parity) as nat)
                + "\" t=\"inlineStr\"><is><t xml:space=\"preserve\">"@ + cell_text::sheet_text(
                text,
                false,
            ) + "</t></is></c>"@,
        }
    }
}

/// A cell of a row.
pub open spec fn cell_xml(
    name: Seq<char>,
    r: Seq<char>,
    text: Seq<char>,
    ty: ColType,
    align: Seq<char>,
    parity: int,
    g: Dating,
) -> Seq<char> {
    "<c r=\""@ + name + r + cell_body(text, ty, align, parity, g)
}

/// No text is lost: a cell that has one is written either as the number or date that it is
/// in full, or as the text itself.
pub proof fn lemma_no_text_lost(
    text: Seq<char>,
    ty: ColType,
    align: Seq<char>,
    parity: int,
    g: Dating,
)
    requires
        text.len() > 0,
    ensures
        cell_value(text, ty, align, parity, g) is None ==> cell_body(text, ty, align, parity, g)
            == "\" s=\""@ + decimal::decimal(styles::data_xf(align, parity) as nat)
            + "\" t=\"inlineStr\"><is><t xml:space=\"preserve\">"@ + cell_text::sheet_text(
            text,
            false,
        ) + "</t></is></c>"@,
        cell_value(text, ty, align, parity, g) is Some ==> (ty is Number && cell_text::number_of(
            text,
        ) is Some || ty is Date && cell_text::date_of(text::white_trimmed(text)) is Some),
{
}

/// The first `n` cells of row `i`.
pub open spec fn row_cells_xml(s: SheetView, texts: Seq<Seq<char>>, i: int, n: int, g: Dating) -> Seq<
    char,
>
    decreases n,
{
    if n <= 0 {
        Seq::empty()
    } else {
        row_cells_xml(s, texts, i, n - 1, g) + cell_xml(
            col_name(n - 1),
            decimal::decimal((i + s.data_start) as nat),
            cells::text_at(texts, n - 1),
            type_at(s.types, n - 1),
            align_at(s.aligns, n - 1),
            i % 2,
            g,
        )
    }
}

/// Row `i` of the data.
pub open spec fn row_xml(s: SheetView, texts: Seq<Seq<char>>, i: int, g: Dating) -> Seq<char> {
    "<row r=\""@ + decimal::decimal((i + s.data_start) as nat) + "\">"@ + row_cells_xml(
        s,
        texts,
        i,
        s.ncols,
        g,
    ) + "</row>"@
}

/// Appends a cell. `serial` writes dates.
pub fn write_data_cell<D: Fn(i64, i64) -> String>(
    out: &mut String,
    col_letter: &str,
    r_str: &str,
    buf: &str,
    col_type: ColType,
    align: &str,
    parity: u32,
    serial: &D,
)
    requires
        parity <= 1,
        forall|day: i64, second: i64| call_requires(*serial, (day, second)),
    ensures
        forall|g: Dating| #[trigger]
            dates(*serial, g) ==> final(out)@ == old(out)@ + cell_xml(
                col_letter@,
                r_str@,
                buf@,
                col_type,
                align@,
                parity as int,
                g,
            ),
{
    let ghost start = out@;
    out.push_str("<c r=\"");
    out.push_str(col_letter);
    out.push_str(r_str);
    let ghost front = "<c r=\""@ + col_letter@ + r_str@;
    assert(out@ =~= start + front);
    if chars_of(buf).len() == 0 {
        out.push_str("\" s=\"");
        push_decimal(out, data_style("", parity) as u64);
        out.push_str("\"/>");
        proof {
            reveal_strlit("");
            assert(""@ =~= Seq::<char>::empty());
            assert(out@ =~= start + (front + ("\" s=\""@ + decimal::decimal(
                styles::data_xf(Seq::empty(), parity as int) as nat,
            ) + "\"/>"@)));
        }
        return;
    }
    let value: Option<(u32, String)> = match col_type {
        ColType::Text => None,
        ColType::Number => match number_repr(buf) {
            Some(n) => Some((data_style(align, parity), n)),
            None => None,
        },
        ColType::Date => {
            let t = trim_white(buf);
            match parse_date(t.as_str()) {
                Some((day, second)) => Some((date_style(align, parity), serial(day, second))),
                None => None,
            }
        },
    };
    let ghost shown = match &value {
        Some(v) => Some((v.0 as int, v.1@)),
        None => None,
    };
    proof {
        assert forall|g: Dating| #[trigger] dates(*serial, g) implies shown == cell_value(
            buf@,
            col_type,
            align@,
            parity as int,
            g,
        ) by {}
    }
    match value {
        Some((s, v)) => {
            out.push_str("\" s=\"");
            push_decimal(out, s as u64);
            out.push_str("\"><v>");
            out.push_str(v.as_str());
            out.push_str("</v></c>");
            assert(out@ =~= start + (front + ("\" s=\""@ + decimal::decimal(s as nat) + "\"><v>"@
                + v@ + "</v></c>"@)));
        },
        None => {
            out.push_str("\" s=\"");
            push_decimal(out, data_style(align, parity) as u64);
            out.push_str("\" t=\"inlineStr\"><is><t xml:space=\"preserve\">");
            xml_escape(buf, out);
            out.push_str("</t></is></c>");
            assert(out@ =~= start + (front + ("\" s=\""@ + decimal::decimal(
                styles::data_xf(align@, parity as int) as nat,
            ) + "\" t=\"inlineStr\"><is><t xml:space=\"preserve\">"@ + cell_text::sheet_text(
                buf@,
                false,
            ) + "</t></is></c>"@)));
        },
    }
    proof {
        assert forall|g: Dating| #[trigger] dates(*serial, g) implies out@ == start + cell_xml(
            col_letter@,
            r_str@,
            buf@,
            col_type,
            align@,
            parity as int,
            g,
        ) by {
            assert(cell_xml(col_letter@, r_str@, buf@, col_type, align@, parity as int, g) == front
                + cell_body(buf@, col_type, align@, parity as int, g));
        }
    }
}

/// The rows' side of a sheet.
pub struct SheetLayout {
    pub col_align: Vec<String>,
    pub col_letters: Vec<String>,
    pub ncols: usize,
    pub data_start: u64,
    pub col_types: Vec<ColType>,
    pub merges: Vec<String>,
}

impl SheetLayout {
    /// The columns have their names, and the first row its place.
    pub open spec fn wf(self) -> bool {
        &&& names_ok(self.col_letters@, self.ncols as int)
        &&& self.ncols <= MAX_COLS
        &&& 1 <= self.data_start <= u32::MAX
    }
}

impl View for SheetLayout {
    type V = SheetView;

    open spec fn view(&self) -> SheetView {
        SheetView {
            aligns: header::texts_of(self.col_align@),
            types: self.col_types@,
            ncols: self.ncols as int,
            data_start: self.data_start as int,
            merges: header::texts_of(self.merges@),
        }
    }
}

/// Writes row `i` of the data.
pub fn build_xlsx_row<D: Fn(i64, i64) -> String>(
    layout: &SheetLayout,
    selectors: &Vec<Selector>,
    row: &Row,
    i: usize,
    serial: &D,
) -> (out: String)
    requires
        layout.wf(),
        i + layout.data_start <= u64::MAX,
        forall|day: i64, second: i64| call_requires(*serial, (day, second)),
    ensures
        forall|g: Dating| #[trigger]
            dates(*serial, g) ==> out@ == row_xml(
                layout@,
                cells::row_texts(*row, cells::selector_views(selectors@)),
                i as int,
                g,
            ),
{
    let ghost texts = cells::row_texts(*row, cells::selector_views(selectors@));
    let r_str = decimal_text(i as u64 + layout.data_start);
    let parity: u32 = (i % 2) as u32;
    let mut out = "<row r=\"".to_owned();
    out.push_str(r_str.as_str());
    out.push_str("\">");
    let ghost start = out@;
    let mut buf = String::new();
    let mut c: usize = 0;
    proof {
        assert forall|g: Dating| #[trigger] dates(*serial, g) implies out@ == start + row_cells_xml(
            layout@,
            texts,
            i as int,
            0,
            g,
        ) by {
            assert(start + Seq::<char>::empty() =~= start);
        }
    }
    while c < layout.ncols
        invariant
            c <= layout.ncols,
            layout.wf(),
            texts == cells::row_texts(*row, cells::selector_views(selectors@)),
            r_str@ == decimal::decimal((i + layout.data_start) as nat),
            parity == i % 2,
            forall|day: i64, second: i64| call_requires(*serial, (day, second)),
            forall|g: Dating| #[trigger]
                dates(*serial, g) ==> out@ == start + row_cells_xml(
                    layout@,
                    texts,
                    i as int,
                    c as int,
                    g,
                ),
        decreases layout.ncols - c,
    {
        if c < selectors.len() {
            extract_cell(row, &selectors[c], c, &mut buf);
        } else {
            buf = String::new();
        }
        assert(buf@ =~= cells::text_at(texts, c as int));
        let align: &str = if c < layout.col_align.len() {
            layout.col_align[c].as_str()
        } else {
            ""
        };
        let ty = if c < layout.col_types.len() {
            layout.col_types[c]
        } else {
            ColType::Text
        };
        proof {
            reveal_strlit("");
            assert(align@ =~= align_at(layout@.aligns, c as int));
        }
        let ghost before = out@;
        write_data_cell(
            &mut out,
            layout.col_letters[c].as_str(),
            r_str.as_str(),
            buf.as_str(),
            ty,
            align,
            parity,
            serial,
        );
        proof {
            assert forall|g: Dating| #[trigger] dates(*serial, g) implies out@ == start
                + row_cells_xml(layout@, texts, i as int, c + 1, g) by {
                let cell = cell_xml(
                    col_name(c as int),
                    r_str@,
                    buf@,
                    ty,
                    align@,
                    parity as int,
                    g,
                );
                let done = row_cells_xml(layout@, texts, i as int, c as int, g);
                assert(before == start + done);
                assert(out@ == before + cell);
                assert((start + done) + cell =~= start + (done + cell));
            }
        }
        c += 1;
    }
    let ghost cells_done = out@;
    out.push_str("</row>");
    proof {
        assert forall|g: Dating| #[trigger] dates(*serial, g) implies out@ == row_xml(
            layout@,
            texts,
            i as int,
            g,
        ) by {
            assert(cells_done == start + row_cells_xml(
                layout@,
                texts,
                i as int,
                layout.ncols as int,
                g,
            ));
        }
    }
    out
}

/// The entries of the first `n` merged ranges.
pub open spec fn merge_entries(merges: Seq<Seq<char>>, n: int) -> Seq<char>
    decreases n,
{
    if n <= 0 {
        Seq::empty()
    } else {
        merge_entries(merges, n - 1) + "<mergeCell ref=\""@ + merges[n - 1] + "\"/>"@
    }
}

/// The merged ranges; nothing where there are none.
pub open spec fn merges_xml(merges: Seq<Seq<char>>) -> Seq<char> {
    if merges.len() == 0 {
        Seq::empty()
    } else {
        "<mergeCells count=\""@ + decimal::decimal(merges.len()) + "\">"@ + merge_entries(
            merges,
            merges.len() as int,
        ) + "</mergeCells>"@
    }
}

/// The range over which numbers may be stored as text without a warning: the data. Nothing
/// where there is none.
pub open spec fn ignored_xml(ncols: int, data_start: int, ndata: int) -> Seq<char> {
    if ncols == 0 || ndata == 0 {
        Seq::empty()
    } else {
        let last = if data_start + ndata - 1 < MAX_ROWS {
            data_start + ndata - 1
        } else {
            MAX_ROWS as int
        };
        "<ignoredErrors><ignoredError sqref=\"A"@ + decimal::decimal(data_start as nat) + ":"@
            + col_name(ncols - 1) + decimal::decimal(last as nat)
            + "\" numberStoredAsText=\"1\"/></ignoredErrors>"@
    }
}

/// What a sheet's text ends with.
pub open spec fn closing(s: SheetView, total: int) -> Seq<char> {
    "</sheetData>"@ + merges_xml(s.merges) + ignored_xml(s.ncols, s.data_start, total)
        + "</worksheet>"@
}

fn ignored_errors_xml(layout: &SheetLayout, ndata: usize) -> (r: String)
    requires
        layout.wf(),
    ensures
        r@ == ignored_xml(layout.ncols as int, layout.data_start as int, ndata as int),
{
    if layout.ncols == 0 || ndata == 0 {
        return String::new();
    }
    let more: u64 = ndata as u64 - 1;
    let last: u64 = if layout.data_start <= MAX_ROWS && more < MAX_ROWS - layout.data_start {
        layout.data_start + more
    } else {
        MAX_ROWS
    };
    let mut r = "<ignoredErrors><ignoredError sqref=\"A".to_owned();
    push_decimal(&mut r, layout.data_start);
    r.push_str(":");
    r.push_str(layout.col_letters[layout.ncols - 1].as_str());
    push_decimal(&mut r, last);
    r.push_str("\" numberStoredAsText=\"1\"/></ignoredErrors>");
    r
}

/// Writes what a sheet's text ends with.
pub(crate) fn closing_text(layout: &SheetLayout, total: usize) -> (r: String)
    requires
        layout.wf(),
    ensures
        r@ == closing(layout@, total as int),
{
    let mut r = "</sheetData>".to_owned();
    let ghost start = r@;
    let n: usize = layout.merges.len();
    if n > 0 {
        let mut block = "<mergeCells count=\"".to_owned();
        push_decimal(&mut block, n as u64);
        block.push_str("\">");
        let ghost front = block@;
        let mut k: usize = 0;
        assert(block@ =~= front + merge_entries(layout@.merges, 0));
        while k < n
            invariant
                k <= n == layout.merges@.len(),
                block@ == front + merge_entries(layout@.merges, k as int),
            decreases n - k,
        {
            block.push_str("<mergeCell ref=\"");
            block.push_str(layout.merges[k].as_str());
            block.push_str("\"/>");
            assert(block@ =~= front + merge_entries(layout@.merges, k + 1));
            k += 1;
        }
        block.push_str("</mergeCells>");
        r.push_str(block.as_str());
    } else {
        assert(start + merges_xml(layout@.merges) =~= start);
    }
    assert(r@ == start + merges_xml(layout@.merges));
    r.push_str(ignored_errors_xml(layout, total).as_str());
    r.push_str("</worksheet>");
    r
}

} // verus!
