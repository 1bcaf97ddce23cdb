//! Headings of a sheet: what a tree of headings stands for, and where its cells are.

use crate::cell_text;
use crate::decimal;
use crate::header;
use crate::header::CellView;
use crate::header::HeaderView;
use crate::header::Measuring;
use crate::sheet;
use crate::sheet::HeadView;
use crate::sheet::SheetView;
use crate::styles;
use crate::xml_tree::XmlKind;
use crate::xml_tree::XmlNode;
use vstd::prelude::*;

verus! {

/// How many columns headings span: a column's heading one, a group's as many as those below it,
/// but at least one.
pub proof fn lemma_spans(
    nodes: Seq<HeaderView>,
    label: Seq<char>,
    align: Seq<char>,
    width: Option<Seq<char>>,
)
    ensures
        ({
            let leaf = HeaderView::Leaf { label, align, width };
            let group = HeaderView::Group { label, align, children: nodes };
            let n = header::leaf_spans(nodes);
            &&& header::leaf_spans(Seq::empty()) == 0
            &&& header::leaf_spans(nodes.push(leaf)) == n + 1
            &&& header::leaf_spans(nodes.push(group)) == n + (if n == 0 {
                1
            } else {
                n
            })
            &&& header::heights(Seq::empty()) == 0
            &&& header::heights(seq![leaf]) == 1
            &&& header::heights(seq![group]) == header::heights(nodes) + 1
        }),
        forall|h: HeaderView|
            #![trigger header::heights(nodes.push(h))]
            {
                let all = header::heights(nodes.push(h));
                let one = header::heights(seq![h]);
                &&& all >= header::heights(nodes) && all >= one
                &&& all == header::heights(nodes) || all == one
            },
{
    let leaf = HeaderView::Leaf { label, align, width };
    let group = HeaderView::Group { label, align, children: nodes };
    assert(nodes.push(leaf).drop_last() =~= nodes);
    assert(nodes.push(group).drop_last() =~= nodes);
    assert(seq![leaf].drop_last() =~= Seq::<HeaderView>::empty());
    assert(seq![group].drop_last() =~= Seq::<HeaderView>::empty());
    assert(header::leaf_span(leaf) == 1);
    assert(header::leaf_span(group) == (if header::leaf_spans(nodes) == 0 {
        1
    } else {
        header::leaf_spans(nodes)
    }));
    assert(header::height(leaf) == 1 && header::height(group) == 1 + header::heights(nodes));
    assert(header::heights(Seq::<HeaderView>::empty()) == 0);
    assert(header::heights(seq![leaf]) == 1);
    assert(header::heights(seq![group]) == header::heights(nodes) + 1);
    assert forall|h: HeaderView|
        #![trigger header::heights(nodes.push(h))]
        {
            let all = header::heights(nodes.push(h));
            let one = header::heights(seq![h]);
            &&& all >= header::heights(nodes) && all >= one
            &&& all == header::heights(nodes) || all == one
        } by {
        assert(nodes.push(h).drop_last() =~= nodes);
        assert(seq![h].drop_last() =~= Seq::<HeaderView>::empty());
        assert(header::height(h) >= 1);
        assert(header::heights(seq![h]) == header::height(h));
    }
}

/// Where headings stand: side by side, each from where the one before it ends. A column's
/// heading takes one column and reaches down to the last row; a group's takes one row over all
/// columns of the headings below it, which stand in the next row. Headings are centred where
/// nothing else is asked for.
pub proof fn lemma_places(
    nodes: Seq<HeaderView>,
    children: Seq<HeaderView>,
    label: Seq<char>,
    align: Seq<char>,
    width: Option<Seq<char>>,
    row: int,
    last: int,
    col: int,
)
    ensures
        ({
            let leaf = HeaderView::Leaf { label, align, width };
            let group = HeaderView::Group { label, align, children };
            let front = header::layout(nodes, row, last, col);
            let at = col + header::leaf_spans(nodes);
            let shown = if align.len() == 0 {
                "center"@
            } else {
                align
            };
            &&& header::layout(Seq::empty(), row, last, col).len() == 0
            &&& header::layout(nodes.push(leaf), row, last, col) == front + seq![
                CellView {
                    row,
                    col: at,
                    rowspan: last - row + 1,
                    colspan: 1,
                    label,
                    align: shown,
                },
            ]
            &&& header::layout(nodes.push(group), row, last, col) == front + seq![
                CellView {
                    row,
                    col: at,
                    rowspan: 1,
                    colspan: if header::leaf_spans(children) == 0 {
                        1int
                    } else {
                        header::leaf_spans(children) as int
                    },
                    label,
                    align: shown,
                },
            ] + header::layout(children, row + 1, last, at)
        }),
{
    let leaf = HeaderView::Leaf { label, align, width };
    let group = HeaderView::Group { label, align, children };
    assert(nodes.push(leaf).drop_last() =~= nodes);
    assert(nodes.push(group).drop_last() =~= nodes);
    let front = header::layout(nodes, row, last, col);
    let at = col + header::leaf_spans(nodes);
    let shown = if align.len() == 0 {
        "center"@
    } else {
        align
    };
    assert(header::leaf_span(group) == (if header::leaf_spans(children) == 0 {
        1
    } else {
        header::leaf_spans(children)
    }));
    assert(header::node_cells(leaf, row, last, at) == seq![
        CellView { row, col: at, rowspan: last - row + 1, colspan: 1, label, align: shown },
    ]);
    assert(header::node_cells(group, row, last, at) == seq![
        CellView {
            row,
            col: at,
            rowspan: 1,
            colspan: header::leaf_span(group) as int,
            label,
            align: shown,
        },
    ] + header::layout(children, row + 1, last, at));
    assert(header::layout(nodes.push(group), row, last, col) =~= front + seq![
        CellView {
            row,
            col: at,
            rowspan: 1,
            colspan: if header::leaf_spans(children) == 0 {
                1int
            } else {
                header::leaf_spans(children) as int
            },
            label,
            align: shown,
        },
    ] + header::layout(children, row + 1, last, at));
}

/// The alignments and widths of the columns are those of the columns' headings, in order.
pub proof fn lemma_column_marks(
    nodes: Seq<HeaderView>,
    children: Seq<HeaderView>,
    label: Seq<char>,
    align: Seq<char>,
    width: Option<Seq<char>>,
)
    ensures
        ({
            let leaf = HeaderView::Leaf { label, align, width };
            let group = HeaderView::Group { label, align, children };
            &&& header::leaf_aligns(Seq::empty()).len() == 0
            &&& header::leaf_widths(Seq::empty()).len() == 0
            &&& header::leaf_aligns(nodes.push(leaf)) == header::leaf_aligns(nodes).push(
                if align.len() == 0 {
                    "center"@
                } else {
                    align
                },
            )
            &&& header::leaf_aligns(nodes.push(group)) == header::leaf_aligns(nodes)
                + header::leaf_aligns(children)
            &&& header::leaf_widths(nodes.push(leaf)) == header::leaf_widths(nodes).push(width)
            &&& header::leaf_widths(nodes.push(group)) == header::leaf_widths(nodes)
                + header::leaf_widths(children)
        }),
{
    let leaf = HeaderView::Leaf { label, align, width };
    let group = HeaderView::Group { label, align, children };
    assert(nodes.push(leaf).drop_last() =~= nodes);
    assert(nodes.push(group).drop_last() =~= nodes);
    assert(header::leaf_aligns(nodes.push(leaf)) =~= header::leaf_aligns(nodes).push(
        if align.len() == 0 {
            "center"@
        } else {
            align
        },
    ));
    assert(header::leaf_widths(nodes.push(leaf)) =~= header::leaf_widths(nodes).push(width));
}

/// The value of an attribute: that of the first attribute of the name; nothing where there is
/// none.
pub proof fn lemma_attribute_value(attributes: Seq<XmlNode>, key: Seq<char>)
    ensures
        ({
            let hit = |i: int|
                attributes[i].kind is Attribute && attributes[i].name is Some
                    && attributes[i].name->0@ == key;
            &&& (forall|i: int| 0 <= i < attributes.len() ==> !#[trigger] hit(i))
                ==> header::attribute_value(attributes, key).len() == 0
            &&& forall|i: int|
                0 <= i < attributes.len() && #[trigger] hit(i) && (forall|j: int|
                    0 <= j < i ==> !#[trigger] hit(j)) ==> header::attribute_value(attributes, key)
                    == attributes[i].kind->Attribute_0@
        }),
    decreases attributes.len(),
{
    let hit = |i: int|
        attributes[i].kind is Attribute && attributes[i].name is Some && attributes[i].name->0@
            == key;
    if attributes.len() > 0 {
        let rest = attributes.drop_first();
        let next = |i: int|
            rest[i].kind is Attribute && rest[i].name is Some && rest[i].name->0@ == key;
        lemma_attribute_value(rest, key);
        assert forall|i: int| 0 <= i < rest.len() implies #[trigger] next(i) == hit(i + 1) by {
            assert(rest[i] == attributes[i + 1]);
        }
        if forall|i: int| 0 <= i < attributes.len() ==> !#[trigger] hit(i) {
            assert(!hit(0));
            assert forall|i: int| 0 <= i < rest.len() implies !#[trigger] next(i) by {
                assert(!hit(i + 1));
            }
        }
        assert forall|i: int|
            0 <= i < attributes.len() && #[trigger] hit(i) && (forall|j: int|
                0 <= j < i ==> !#[trigger] hit(j)) implies header::attribute_value(attributes, key)
            == attributes[i].kind->Attribute_0@ by {
            if i > 0 {
                assert(!hit(0));
                assert(next(i - 1));
                assert forall|j: int| 0 <= j < i - 1 implies !#[trigger] next(j) by {
                    assert(!hit(j + 1));
                }
                assert(rest[i - 1] == attributes[i]);
            } else {
                assert(hit(0));
            }
        }
    }
}

/// A `g` is a group of the headings in it, a `c` a column; the label, the alignment and the width
/// are its attributes `t`, `textAlign` and `width`. Anything else is no heading.
pub proof fn lemma_heading_read(node: XmlNode, g: Measuring)
    ensures
        match node.kind {
            XmlKind::Element { children, attributes } => {
                let label = header::attribute_value(attributes@, seq!['t']);
                let align = header::attribute_value(
                    attributes@,
                    seq!['t', 'e', 'x', 't', 'A', 'l', 'i', 'g', 'n'],
                );
                let width = header::attribute_value(attributes@, seq!['w', 'i', 'd', 't', 'h']);
                if node.name is Some && node.name->0@ == seq!['g'] {
                    header::heading_of(node, g) == Some(
                        HeaderView::Group {
                            label,
                            align,
                            children: header::headings_of(children@, g),
                        },
                    )
                } else if node.name is Some && node.name->0@ == seq!['c'] {
                    header::heading_of(node, g) == Some(
                        HeaderView::Leaf {
                            label,
                            align,
                            width: if width.len() == 0 {
                                None
                            } else {
                                g(width)
                            },
                        },
                    )
                } else {
                    header::heading_of(node, g) is None
                }
            },
            _ => header::heading_of(node, g) is None,
        },
{
    reveal_strlit("t");
    reveal_strlit("textAlign");
    reveal_strlit("width");
    reveal_strlit("g");
    reveal_strlit("c");
    assert("t"@ =~= seq!['t']);
    assert("textAlign"@ =~= seq!['t', 'e', 'x', 't', 'A', 'l', 'i', 'g', 'n']);
    assert("width"@ =~= seq!['w', 'i', 'd', 't', 'h']);
    assert("g"@ =~= seq!['g'] && "c"@ =~= seq!['c']);
}

/// The headings among nodes, in order.
pub proof fn lemma_headings_read(nodes: Seq<XmlNode>, node: XmlNode, g: Measuring)
    ensures
        header::headings_of(Seq::empty(), g).len() == 0,
        header::headings_of(nodes.push(node), g) == (match header::heading_of(node, g) {
            Some(h) => header::headings_of(nodes, g).push(h),
            None => header::headings_of(nodes, g),
        }),
{
    assert(nodes.push(node).drop_last() =~= nodes);
}

/// Without a tree of headings the labels are: one row of them, one a column, or no row where
/// there are none. A tree takes as many rows as its tallest heading, and at least one.
pub proof fn lemma_head(tree: Seq<HeaderView>, labels: Seq<Seq<char>>, i: int)
    requires
        0 <= i < labels.len(),
    ensures
        ({
            let h = sheet::head_of(None, labels);
            &&& h.depth == 1 && h.cols == labels.len() && h.cells.len() == labels.len()
            &&& h.cells[i] == (CellView {
                row: 1,
                col: i,
                rowspan: 1,
                colspan: 1,
                label: labels[i],
                align: Seq::empty(),
            })
            &&& h.aligns.len() == labels.len() && h.aligns[i].len() == 0
            &&& h.widths.len() == labels.len() && h.widths[i] is None
        }),
        sheet::head_of(None, Seq::empty()).depth == 0,
        sheet::head_of(None, Seq::empty()).cols == 0,
        ({
            let h = sheet::head_of(Some(tree), labels);
            &&& h.depth == (if tree.len() == 0 {
                1
            } else {
                header::heights(tree) as int
            })
            &&& h.cols == header::leaf_spans(tree)
            &&& h.cells.to_multiset() == header::layout(tree, 1, h.depth, 0).to_multiset()
            &&& h.aligns == header::leaf_aligns(tree) && h.widths == header::leaf_widths(tree)
        }),
{
    let h = sheet::head_of(Some(tree), labels);
    header::lemma_in_order(header::layout(tree, 1, h.depth, 0));
}

/// Headings over more than one row or column are merged, from their first place to their last
/// within the sheet.
pub proof fn lemma_merges(cells: Seq<CellView>, c: CellView, ncols: int)
    ensures
        sheet::merges_of(Seq::empty(), ncols).len() == 0,
        sheet::merges_of(cells.push(c), ncols) == (if (c.rowspan > 1 || c.colspan > 1) && c.col
            < ncols {
            sheet::merges_of(cells, ncols).push(
                cell_text::letters((c.col + 1) as nat) + decimal::decimal(c.row as nat) + seq![':']
                    + cell_text::letters(
                    (if c.col + c.colspan < ncols {
                        c.col + c.colspan
                    } else {
                        ncols
                    }) as nat,
                ) + decimal::decimal((c.row + c.rowspan - 1) as nat),
            )
        } else {
            sheet::merges_of(cells, ncols)
        }),
{
    reveal_strlit(":");
    assert(":"@ =~= seq![':']);
    assert(cells.push(c).drop_last() =~= cells);
}

/// A place of the heading has the text of the cell that begins there, and the style of the
/// cell that lies over it.
pub proof fn lemma_heading_cell(cells: Seq<CellView>, r: int, c: int, k: int)
    requires
        0 <= k < cells.len(),
        cells[k].row <= r < cells[k].row + cells[k].rowspan,
        cells[k].col <= c < cells[k].col + cells[k].colspan,
        forall|j: int|
            k < j < cells.len() ==> !sheet::covers(#[trigger] cells[j], r, c),
    ensures
        sheet::head_cell_xml(cells, r, c) == "<c r=\""@ + cell_text::letters((c + 1) as nat)
            + decimal::decimal(r as nat) + "\" s=\""@ + decimal::decimal(
            styles::header_xf(cells[k].align) as nat,
        ) + "\""@ + (if cells[k].row == r && cells[k].col == c {
            " t=\"inlineStr\"><is><t xml:space=\"preserve\">"@ + cell_text::sheet_text(
                cells[k].label,
                false,
            ) + "</t></is></c>"@
        } else {
            "/>"@
        }),
{
    lemma_shown(cells, r, c, k);
    assert(sheet::head_cell_xml(cells, r, c) =~= "<c r=\""@ + cell_text::letters((c + 1) as nat)
        + decimal::decimal(r as nat) + "\" s=\""@ + decimal::decimal(
        styles::header_xf(cells[k].align) as nat,
    ) + "\""@ + (if cells[k].row == r && cells[k].col == c {
        " t=\"inlineStr\"><is><t xml:space=\"preserve\">"@ + cell_text::sheet_text(
            cells[k].label,
            false,
        ) + "</t></is></c>"@
    } else {
        "/>"@
    }));
}

proof fn lemma_shown(cells: Seq<CellView>, r: int, c: int, k: int)
    requires
        0 <= k < cells.len(),
        cells[k].row <= r < cells[k].row + cells[k].rowspan,
        cells[k].col <= c < cells[k].col + cells[k].colspan,
        forall|j: int| k < j < cells.len() ==> !sheet::covers(#[trigger] cells[j], r, c),
    ensures
        sheet::shown(cells, r, c) == Some(cells[k]),
    decreases cells.len(),
{
    if k < cells.len() - 1 {
        assert(!sheet::covers(cells[cells.len() - 1], r, c));
        let front = cells.drop_last();
        assert forall|j: int| k < j < front.len() implies !sheet::covers(#[trigger] front[j], r, c) by {
            assert(!sheet::covers(cells[j], r, c));
        }
        lemma_shown(front, r, c, k);
    }
}

/// The heading's rows come first and in order, numbered from one, each with a cell for every
/// column; above them stay the widths that columns ask for and the frozen rows.
pub proof fn lemma_heading_rows(h: HeadView, ncols: int, n: int, c: int)
    requires
        0 <= n,
        0 <= c,
    ensures
        sheet::opening(h, ncols)
            == "<?xml version=\"1.0\" encoding=\"UTF-8\" standalone=\"yes\"?>\n<worksheet xmlns=\"http://schemas.openxmlformats.org/spreadsheetml/2006/main\">"@
            + styles::frozen(h.depth as nat) + sheet::cols_xml(h.widths) + "<sheetData>"@
            + sheet::head_rows_xml(h.cells, h.depth, ncols),
        sheet::head_rows_xml(h.cells, 0, ncols).len() == 0,
        sheet::head_rows_xml(h.cells, n + 1, ncols) == sheet::head_rows_xml(h.cells, n, ncols)
            + "<row r=\""@ + decimal::decimal((n + 1) as nat) + "\">"@ + sheet::head_cells_xml(
            h.cells,
            n + 1,
            ncols,
        ) + "</row>"@,
        sheet::head_cells_xml(h.cells, n, 0).len() == 0,
        sheet::head_cells_xml(h.cells, n, c + 1) == sheet::head_cells_xml(h.cells, n, c)
            + sheet::head_cell_xml(h.cells, n, c),
{
    assert(sheet::head_rows_xml(h.cells, n + 1, ncols) =~= sheet::head_rows_xml(h.cells, n, ncols)
        + "<row r=\""@ + decimal::decimal((n + 1) as nat) + "\">"@ + sheet::head_cells_xml(
        h.cells,
        n + 1,
        ncols,
    ) + "</row>"@);
}

/// The heading stays in sight, all of its rows; there is nothing to keep where it has none.
pub proof fn lemma_frozen(rows: nat)
    ensures
        styles::frozen(0).len() == 0,
        rows > 0 ==> styles::frozen(rows)
            == "<sheetViews><sheetView workbookViewId=\"0\"><pane ySplit=\""@ + decimal::decimal(
            rows,
        ) + "\" topLeftCell=\"A"@ + decimal::decimal(rows + 1)
            + "\" activePane=\"bottomLeft\" state=\"frozen\"/><selection pane=\"bottomLeft\"/></sheetView></sheetViews>"@,
{
}

/// Columns that have a width get it, by their number from one; where none has, nothing is said.
pub proof fn lemma_widths(widths: Seq<Option<Seq<char>>>, n: int)
    requires
        0 <= n < widths.len(),
    ensures
        (forall|c: int| 0 <= c < widths.len() ==> (#[trigger] widths[c]) is None)
            ==> sheet::cols_xml(widths).len() == 0,
        widths[n] is Some ==> sheet::cols_xml(widths) == "<cols>"@ + sheet::col_entries(
            widths,
            widths.len() as int,
        ) + "</cols>"@,
        sheet::col_entries(widths, 0).len() == 0,
        sheet::col_entries(widths, n + 1) == sheet::col_entries(widths, n) + (match widths[n] {
            Some(w) => "<col min=\""@ + decimal::decimal((n + 1) as nat) + "\" max=\""@
                + decimal::decimal((n + 1) as nat) + "\" width=\""@ + w
                + "\" customWidth=\"1\"/>"@,
            None => Seq::empty(),
        }),
{
    let t = match widths[n] {
        Some(w) => "<col min=\""@ + decimal::decimal((n + 1) as nat) + "\" max=\""@
            + decimal::decimal((n + 1) as nat) + "\" width=\""@ + w + "\" customWidth=\"1\"/>"@,
        None => Seq::empty(),
    };
    assert(sheet::col_entries(widths, n + 1) =~= sheet::col_entries(widths, n) + t);
}

/// A sheet closes with its merged ranges and the range of its data, over which numbers may stand
/// as texts.
pub proof fn lemma_closing(s: SheetView, total: int, n: int)
    requires
        0 <= n,
    ensures
        sheet::closing(s, total) == "</sheetData>"@ + (if s.merges.len() == 0 {
            Seq::empty()
        } else {
            "<mergeCells count=\""@ + decimal::decimal(s.merges.len()) + "\">"@
                + sheet::merge_entries(s.merges, s.merges.len() as int) + "</mergeCells>"@
        }) + (if s.ncols == 0 || total == 0 {
            Seq::empty()
        } else {
            "<ignoredErrors><ignoredError sqref=\"A"@ + decimal::decimal(s.data_start as nat)
                + ":"@ + cell_text::letters(s.ncols as nat) + decimal::decimal(
                (if s.data_start + total - 1 < 1048576 {
                    s.data_start + total - 1
                } else {
                    1048576
                }) as nat,
            ) + "\" numberStoredAsText=\"1\"/></ignoredErrors>"@
        }) + "</worksheet>"@,
        sheet::merge_entries(s.merges, 0).len() == 0,
        sheet::merge_entries(s.merges, n + 1) == sheet::merge_entries(s.merges, n)
            + "<mergeCell ref=\""@ + s.merges[n] + "\"/>"@,
{
}

/// A cell stands before another: in a row above it, or in the same row further left.
pub open spec fn stands_before(a: CellView, b: CellView) -> bool {
    a.row < b.row || a.row == b.row && a.col < b.col
}

/// Of two cells of a list in an order, the earlier one stands before the other, or neither does
/// and they are in the order of the list.
pub open spec fn arranged(cells: Seq<CellView>, order: Seq<int>) -> bool {
    forall|k: int, l: int|
        0 <= k < l < order.len() ==> {
            let a = #[trigger] order[k];
            let b = #[trigger] order[l];
            stands_before(cells[a], cells[b]) || !stands_before(cells[b], cells[a]) && a < b
        }
}

proof fn lemma_slot(cells: Seq<CellView>, c: CellView)
    ensures
        0 <= header::slot(cells, c) <= cells.len(),
        forall|i: int| 0 <= i < header::slot(cells, c) ==> !stands_before(c, #[trigger] cells[i]),
        header::slot(cells, c) < cells.len() ==> stands_before(c, cells[header::slot(cells, c)]),
    decreases cells.len(),
{
    if cells.len() > 0 && !header::before(c, cells[0]) {
        let rest = cells.drop_first();
        lemma_slot(rest, c);
        let s = header::slot(cells, c);
        assert forall|i: int| 0 <= i < s implies !stands_before(c, #[trigger] cells[i]) by {
            if i > 0 {
                assert(!stands_before(c, rest[i - 1]));
            }
        }
    }
}

/// Sorting cells puts them row by row and in a row from left to right; each is there once, and
/// cells that start in the same place keep their order. The order names the position that each
/// cell had.
pub proof fn lemma_cells_sorted(cells: Seq<CellView>) -> (order: Seq<int>)
    ensures
        header::in_order(cells).len() == cells.len(),
        order.len() == cells.len(),
        order.no_duplicates(),
        forall|k: int|
            0 <= k < order.len() ==> 0 <= #[trigger] order[k] < cells.len() && header::in_order(
                cells,
            )[k] == cells[order[k]],
        arranged(cells, order),
    decreases cells.len(),
{
    if cells.len() == 0 {
        Seq::empty()
    } else {
        let rest = cells.drop_last();
        let c = cells.last();
        let n = rest.len() as int;
        let p = lemma_cells_sorted(rest);
        let front = header::in_order(rest);
        let s = header::slot(front, c);
        lemma_slot(front, c);
        let order = p.insert(s, n);
        let all = header::in_order(cells);
        assert forall|k: int| 0 <= k < order.len() implies 0 <= #[trigger] order[k] < cells.len()
            && all[k] == cells[order[k]] by {
            if k < s {
                assert(order[k] == p[k]);
            } else if k > s {
                assert(order[k] == p[k - 1]);
            }
        }
        assert forall|k: int, l: int| 0 <= k < l < order.len() implies order[k] != order[l]
            && ({
            let a = #[trigger] order[k];
            let b = #[trigger] order[l];
            stands_before(cells[a], cells[b]) || !stands_before(cells[b], cells[a]) && a < b
        }) by {
            if l < s {
                assert(order[k] == p[k] && order[l] == p[l]);
            } else if k > s {
                assert(order[k] == p[k - 1] && order[l] == p[l - 1]);
            } else if l == s {
                assert(order[k] == p[k]);
                assert(!stands_before(c, front[k]));
            } else if k == s {
                assert(order[l] == p[l - 1]);
                assert(stands_before(c, front[s]));
                if l - 1 > s {
                    assert(p[s] != p[l - 1]);
                    assert(front[s] == rest[p[s]]);
                    assert(front[l - 1] == rest[p[l - 1]]);
                }
            } else {
                assert(order[k] == p[k] && order[l] == p[l - 1]);
            }
        }
        order
    }
}

} // verus!
