//! Grouped, multi-row headings: the tree, and where its cells stand.

use crate::text;
use crate::text::same_text;
use crate::xml_tree;
use crate::xml_tree::XmlKind;
use crate::xml_tree::XmlNode;
use vstd::prelude::*;

verus! {

/// A heading: of one column, or of the headings below it. `align` is as it was given;
/// `width` is a number's text.
pub enum HeaderNode {
    Leaf { label: String, align: String, width: Option<String> },
    Group { label: String, align: String, children: Vec<HeaderNode> },
}

/// A [`HeaderNode`] by its texts.
pub enum HeaderView {
    Leaf { label: Seq<char>, align: Seq<char>, width: Option<Seq<char>> },
    Group { label: Seq<char>, align: Seq<char>, children: Seq<HeaderView> },
}

/// A heading by its texts.
pub open spec fn view_of(n: HeaderNode) -> HeaderView
    decreases n,
{
    match n {
        HeaderNode::Leaf { label, align, width } => HeaderView::Leaf {
            label: label@,
            align: align@,
            width: text::opt_text(width),
        },
        HeaderNode::Group { label, align, children } => HeaderView::Group {
            label: label@,
            align: align@,
            children: views_of(children@),
        },
    }
}

/// Headings by their texts.
pub open spec fn views_of(nodes: Seq<HeaderNode>) -> Seq<HeaderView>
    decreases nodes,
{
    if nodes.len() == 0 {
        Seq::empty()
    } else {
        views_of(nodes.drop_last()).push(view_of(nodes.last()))
    }
}

/// There is a view for each heading.
pub proof fn lemma_views_of(nodes: Seq<HeaderNode>)
    ensures
        views_of(nodes).len() == nodes.len(),
        forall|i: int| 0 <= i < nodes.len() ==> views_of(nodes)[i] == view_of(#[trigger] nodes[i]),
        forall|i: int|
            0 <= i <= nodes.len() ==> #[trigger] views_of(nodes.take(i)) == views_of(nodes).take(i),
    decreases nodes.len(),
{
    if nodes.len() > 0 {
        let front = nodes.drop_last();
        lemma_views_of(front);
        assert forall|i: int| 0 <= i < nodes.len() implies views_of(nodes)[i] == view_of(
            #[trigger] nodes[i],
        ) by {
            if i < front.len() {
                assert(front[i] == nodes[i]);
            }
        }
        assert forall|i: int| 0 <= i <= nodes.len() implies #[trigger] views_of(nodes.take(i))
            == views_of(nodes).take(i) by {
            if i < nodes.len() {
                assert(nodes.take(i) =~= front.take(i));
                assert(views_of(nodes).take(i) =~= views_of(front).take(i));
            } else {
                assert(nodes.take(i) =~= nodes);
                assert(views_of(nodes).take(i) =~= views_of(nodes));
            }
        }
    } else {
        assert forall|i: int| 0 <= i <= nodes.len() implies #[trigger] views_of(nodes.take(i))
            == views_of(nodes).take(i) by {
            assert(nodes.take(i) =~= nodes);
            assert(views_of(nodes).take(i) =~= views_of(nodes));
        }
    }
}

/// How widths are read: to the text of a number, or to nothing.
pub type Measuring = spec_fn(Seq<char>) -> Option<Seq<char>>;

/// `f` computes `g`.
pub open spec fn measures<W: Fn(&str) -> Option<String>>(f: W, g: Measuring) -> bool {
    forall|s: &str, r: Option<String>| #[trigger]
        call_ensures(f, (s,), r) ==> g(s@) == text::opt_text(r)
}

/// The value of the first attribute of a local name; empty if there is none.
pub open spec fn attribute_value(attributes: Seq<XmlNode>, key: Seq<char>) -> Seq<char>
    decreases attributes.len(),
{
    if attributes.len() == 0 {
        Seq::empty()
    } else {
        let a = attributes[0];
        if a.kind is Attribute && a.name is Some && a.name->0@ == key {
            a.kind->Attribute_0@
        } else {
            attribute_value(attributes.drop_first(), key)
        }
    }
}

/// The heading that an element stands for, if any: a `g` for a group, a `c` for a column.
pub open spec fn heading_of(node: XmlNode, g: Measuring) -> Option<HeaderView>
    decreases node,
{
    match node.kind {
        XmlKind::Element { children, attributes } => {
            let label = attribute_value(attributes@, "t"@);
            let align = attribute_value(attributes@, "textAlign"@);
            let width = attribute_value(attributes@, "width"@);
            if node.name is None {
                None
            } else if node.name->0@ == "g"@ {
                Some(HeaderView::Group { label, align, children: headings_of(children@, g) })
            } else if node.name->0@ == "c"@ {
                Some(
                    HeaderView::Leaf {
                        label,
                        align,
                        width: if width.len() == 0 {
                            None
                        } else {
                            g(width)
                        },
                    },
                )
            } else {
                None
            }
        },
        _ => None,
    }
}

/// The headings that nodes stand for.
pub open spec fn headings_of(nodes: Seq<XmlNode>, g: Measuring) -> Seq<HeaderView>
    decreases nodes,
{
    if nodes.len() == 0 {
        Seq::empty()
    } else {
        let front = headings_of(nodes.drop_last(), g);
        match heading_of(nodes.last(), g) {
            Some(h) => front.push(h),
            None => front,
        }
    }
}

/// The value of the first attribute of a local name; empty if there is none.
fn header_attr(attributes: &Vec<XmlNode>, key: &str) -> (r: String)
    ensures
        r@ == attribute_value(attributes@, key@),
{
    let mut i: usize = 0;
    assert(attributes@.skip(0) =~= attributes@);
    while i < attributes.len()
        invariant
            i <= attributes@.len(),
            attribute_value(attributes@, key@) == attribute_value(
                attributes@.skip(i as int),
                key@,
            ),
        decreases attributes@.len() - i,
    {
        let a = &attributes[i];
        assert(attributes@.skip(i as int)[0] == *a);
        assert(attributes@.skip(i as int).drop_first() =~= attributes@.skip(i + 1));
        if let XmlKind::Attribute(value) = &a.kind {
            if let Some(name) = &a.name {
                if same_text(name.as_str(), key) {
                    return value.clone();
                }
            }
        }
        i += 1;
    }
    String::new()
}

/// The headings below an element. `width` reads a width.
pub fn parse_header<W: Fn(&str) -> Option<String>>(root: &XmlNode, width: &W) -> (r: Vec<
    HeaderNode,
>)
    requires
        forall|s: &str| call_requires(*width, (s,)),
    ensures
        forall|g: Measuring| #[trigger]
            measures(*width, g) ==> views_of(r@) == headings_of(xml_tree::children_of(*root), g),
    decreases root,
{
    let mut out: Vec<HeaderNode> = Vec::new();
    if let XmlKind::Element { children, attributes } = &root.kind {
        let mut i: usize = 0;
        proof {
            assert forall|g: Measuring| #[trigger] measures(*width, g) implies views_of(out@)
                == headings_of(children@.take(0), g) by {
                assert(children@.take(0).len() == 0);
            }
        }
        while i < children.len()
            invariant
                i <= children@.len(),
                root.kind matches XmlKind::Element { children: c, attributes: a } && c == *children,
                forall|s: &str| call_requires(*width, (s,)),
                forall|g: Measuring| #[trigger]
                    measures(*width, g) ==> views_of(out@) == headings_of(
                        children@.take(i as int),
                        g,
                    ),
            decreases children@.len() - i,
        {
            let child = &children[i];
            let ghost before = out@;
            let ghost mut added: Option<HeaderView> = None;
            proof {
                assert(children@.take(i + 1).drop_last() =~= children@.take(i as int));
                assert(children@.take(i + 1).last() == *child);
            }
            if let XmlKind::Element { children: below, attributes: attrs } = &child.kind {
                if let Some(tag) = &child.name {
                    if same_text(tag.as_str(), "g") {
                        let label = header_attr(attrs, "t");
                        let align = header_attr(attrs, "textAlign");
                        let inner = parse_header(child, width);
                        let h = HeaderNode::Group { label, align, children: inner };
                        proof {
                            added = Some(view_of(h));
                            assert forall|g: Measuring| #[trigger]
                                measures(*width, g) implies heading_of(*child, g) == added by {
                                assert(xml_tree::children_of(*child) == below@);
                            }
                        }
                        out.push(h);
                        assert(out@.drop_last() =~= before);
                    } else if same_text(tag.as_str(), "c") {
                        let label = header_attr(attrs, "t");
                        let align = header_attr(attrs, "textAlign");
                        let w = header_attr(attrs, "width");
                        let wide = if text::chars_of(w.as_str()).len() == 0 {
                            None
                        } else {
                            width(w.as_str())
                        };
                        let h = HeaderNode::Leaf { label, align, width: wide };
                        proof {
                            added = Some(view_of(h));
                            reveal_strlit("g");
                            reveal_strlit("c");
                            assert("g"@[0] != "c"@[0]);
                        }
                        out.push(h);
                        assert(out@.drop_last() =~= before);
                    }
                }
            }
            proof {
                assert forall|g: Measuring| #[trigger] measures(*width, g) implies views_of(out@)
                    == headings_of(children@.take(i + 1), g) by {
                    assert(heading_of(*child, g) == added);
                    assert(views_of(before) == headings_of(children@.take(i as int), g));
                }
            }
            i += 1;
        }
        assert(children@.take(i as int) =~= children@);
    }
    out
}

/// How many columns a heading spans; a group at least one.
pub open spec fn leaf_span(n: HeaderView) -> nat
    decreases n,
{
    match n {
        HeaderView::Leaf { label, align, width } => 1,
        HeaderView::Group { label, align, children } => if leaf_spans(children) == 0 {
            1
        } else {
            leaf_spans(children)
        },
    }
}

/// How many columns headings span.
pub open spec fn leaf_spans(nodes: Seq<HeaderView>) -> nat
    decreases nodes,
{
    if nodes.len() == 0 {
        0
    } else {
        leaf_spans(nodes.drop_last()) + leaf_span(nodes.last())
    }
}

/// How many rows a heading takes with those below it.
pub open spec fn height(n: HeaderView) -> nat
    decreases n,
{
    match n {
        HeaderView::Leaf { label, align, width } => 1,
        HeaderView::Group { label, align, children } => 1 + heights(children),
    }
}

/// How many rows the tallest of headings takes.
pub open spec fn heights(nodes: Seq<HeaderView>) -> nat
    decreases nodes,
{
    if nodes.len() == 0 {
        0
    } else if heights(nodes.drop_last()) >= height(nodes.last()) {
        heights(nodes.drop_last())
    } else {
        height(nodes.last())
    }
}

/// The headings' spans and rows fit in machine integers.
pub open spec fn fits(nodes: Seq<HeaderView>) -> bool {
    leaf_spans(nodes) <= usize::MAX && heights(nodes) < u32::MAX
}

/// Spans grow with the headings.
proof fn lemma_spans_grow(nodes: Seq<HeaderView>, i: int)
    requires
        0 <= i <= nodes.len(),
    ensures
        leaf_spans(nodes.take(i)) <= leaf_spans(nodes),
        heights(nodes.take(i)) <= heights(nodes),
    decreases nodes.len() - i,
{
    if i < nodes.len() {
        lemma_spans_grow(nodes, i + 1);
        assert(nodes.take(i + 1).drop_last() =~= nodes.take(i));
    } else {
        assert(nodes.take(i) =~= nodes);
    }
}

/// How many columns a heading spans, if that fits.
fn count_leaves(n: &HeaderNode) -> (r: Option<usize>)
    ensures
        match r {
            Some(k) => k == leaf_span(view_of(*n)),
            None => leaf_span(view_of(*n)) > usize::MAX,
        },
    decreases n,
{
    match n {
        HeaderNode::Leaf { label, align, width } => Some(1),
        HeaderNode::Group { label, align, children } => {
            let mut sum: usize = 0;
            let mut i: usize = 0;
            proof {
                lemma_views_of(children@);
            }
            while i < children.len()
                invariant
                    i <= children@.len(),
                    *n matches HeaderNode::Group { label: l, align: a, children: c } && c
                        == *children,
                    views_of(children@).len() == children@.len(),
                    forall|k: int|
                        0 <= k < children@.len() ==> views_of(children@)[k] == view_of(
                            #[trigger] children@[k],
                        ),
                    sum == leaf_spans(views_of(children@).take(i as int)),
                decreases children@.len() - i,
            {
                let ghost views = views_of(children@);
                proof {
                    assert(views.take(i + 1).drop_last() =~= views.take(i as int));
                    assert(views.take(i + 1).last() == view_of(children@[i as int]));
                    lemma_spans_grow(views, i + 1);
                }
                match count_leaves(&children[i]) {
                    Some(k) => match sum.checked_add(k) {
                        Some(s) => {
                            sum = s;
                        },
                        None => {
                            return None;
                        },
                    },
                    None => {
                        return None;
                    },
                }
                i += 1;
            }
            assert(views_of(children@).take(i as int) =~= views_of(children@));
            if sum == 0 {
                Some(1)
            } else {
                Some(sum)
            }
        },
    }
}

/// How many rows a heading takes with those below it, if that fits.
fn count_rows(n: &HeaderNode) -> (r: Option<u32>)
    ensures
        match r {
            Some(k) => k == height(view_of(*n)),
            None => height(view_of(*n)) > u32::MAX,
        },
    decreases n,
{
    match n {
        HeaderNode::Leaf { label, align, width } => Some(1),
        HeaderNode::Group { label, align, children } => {
            let mut most: u32 = 0;
            let mut i: usize = 0;
            proof {
                lemma_views_of(children@);
            }
            while i < children.len()
                invariant
                    i <= children@.len(),
                    *n matches HeaderNode::Group { label: l, align: a, children: c } && c
                        == *children,
                    views_of(children@).len() == children@.len(),
                    forall|k: int|
                        0 <= k < children@.len() ==> views_of(children@)[k] == view_of(
                            #[trigger] children@[k],
                        ),
                    most == heights(views_of(children@).take(i as int)),
                decreases children@.len() - i,
            {
                let ghost views = views_of(children@);
                proof {
                    assert(views.take(i + 1).drop_last() =~= views.take(i as int));
                    assert(views.take(i + 1).last() == view_of(children@[i as int]));
                    lemma_spans_grow(views, i + 1);
                }
                match count_rows(&children[i]) {
                    Some(k) => {
                        if k > most {
                            most = k;
                        }
                    },
                    None => {
                        return None;
                    },
                }
                i += 1;
            }
            assert(views_of(children@).take(i as int) =~= views_of(children@));
            most.checked_add(1)
        },
    }
}

/// Columns and rows of headings, if those fit.
pub fn measure(nodes: &Vec<HeaderNode>) -> (r: Option<(usize, u32)>)
    ensures
        match r {
            Some((cols, rows)) => fits(views_of(nodes@)) && cols == leaf_spans(views_of(nodes@))
                && rows == heights(views_of(nodes@)),
            None => !fits(views_of(nodes@)),
        },
{
    let ghost views = views_of(nodes@);
    let mut cols: usize = 0;
    let mut rows: u32 = 0;
    let mut i: usize = 0;
    proof {
        lemma_views_of(nodes@);
    }
    while i < nodes.len()
        invariant
            i <= nodes@.len(),
            views == views_of(nodes@),
            views.len() == nodes@.len(),
            forall|k: int|
                0 <= k < nodes@.len() ==> views[k] == view_of(#[trigger] nodes@[k]),
            cols == leaf_spans(views.take(i as int)),
            rows == heights(views.take(i as int)),
        decreases nodes@.len() - i,
    {
        proof {
            assert(views.take(i + 1).drop_last() =~= views.take(i as int));
            assert(views.take(i + 1).last() == view_of(nodes@[i as int]));
            lemma_spans_grow(views, i + 1);
        }
        match (count_leaves(&nodes[i]), count_rows(&nodes[i])) {
            (Some(k), Some(h)) => {
                match cols.checked_add(k) {
                    Some(s) => {
                        cols = s;
                    },
                    None => {
                        return None;
                    },
                }
                if h > rows {
                    rows = h;
                }
            },
            _ => {
                return None;
            },
        }
        i += 1;
    }
    assert(views.take(i as int) =~= views);
    if rows == u32::MAX {
        return None;
    }
    Some((cols, rows))
}

/// How many columns a heading spans.
pub fn leaf_count(n: &HeaderNode) -> (r: usize)
    requires
        leaf_span(view_of(*n)) <= usize::MAX,
    ensures
        r == leaf_span(view_of(*n)),
{
    match count_leaves(n) {
        Some(k) => k,
        None => 0,
    }
}

/// How many rows a heading takes with those below it.
pub fn node_depth(n: &HeaderNode) -> (r: u32)
    requires
        height(view_of(*n)) <= u32::MAX,
    ensures
        r == height(view_of(*n)),
{
    match count_rows(n) {
        Some(k) => k,
        None => 0,
    }
}

/// Headings are centred where nothing else is asked for.
pub open spec fn heading_align(raw: Seq<char>) -> Seq<char> {
    if raw.len() == 0 {
        "center"@
    } else {
        raw
    }
}

fn header_align(raw: &str) -> (r: String)
    ensures
        r@ == heading_align(raw@),
{
    if text::chars_of(raw).len() == 0 {
        "center".to_owned()
    } else {
        raw.to_owned()
    }
}

/// A heading's cell: rows count from one, columns from zero.
pub struct HeaderCell {
    pub row: u32,
    pub col: usize,
    pub rowspan: u32,
    pub colspan: usize,
    pub label: String,
    pub align: String,
}

/// A [`HeaderCell`] by its texts.
pub struct CellView {
    pub row: int,
    pub col: int,
    pub rowspan: int,
    pub colspan: int,
    pub label: Seq<char>,
    pub align: Seq<char>,
}

impl View for HeaderCell {
    type V = CellView;

    open spec fn view(&self) -> CellView {
        CellView {
            row: self.row as int,
            col: self.col as int,
            rowspan: self.rowspan as int,
            colspan: self.colspan as int,
            label: self.label@,
            align: self.align@,
        }
    }
}

/// Cells by their texts.
pub open spec fn cell_views(cells: Seq<HeaderCell>) -> Seq<CellView> {
    Seq::new(cells.len(), |i: int| cells[i]@)
}

/// The cells of a heading in row `depth`, with those below it. A column's heading reaches
/// down to row `total`.
pub open spec fn node_cells(n: HeaderView, depth: int, total: int, col: int) -> Seq<CellView>
    decreases n,
{
    match n {
        HeaderView::Leaf { label, align, width } => seq![
            CellView {
                row: depth,
                col,
                rowspan: total - depth + 1,
                colspan: 1,
                label,
                align: heading_align(align),
            },
        ],
        HeaderView::Group { label, align, children } => seq![
            CellView {
                row: depth,
                col,
                rowspan: 1,
                colspan: leaf_span(n) as int,
                label,
                align: heading_align(align),
            },
        ] + layout(children, depth + 1, total, col),
    }
}

/// The cells of headings side by side from column `col0` on, parents first.
pub open spec fn layout(nodes: Seq<HeaderView>, depth: int, total: int, col0: int) -> Seq<CellView>
    decreases nodes,
{
    if nodes.len() == 0 {
        Seq::empty()
    } else {
        let front = nodes.drop_last();
        layout(front, depth, total, col0) + node_cells(
            nodes.last(),
            depth,
            total,
            col0 + leaf_spans(front),
        )
    }
}

/// The alignments of the columns, in order.
pub open spec fn leaf_aligns(nodes: Seq<HeaderView>) -> Seq<Seq<char>>
    decreases nodes,
{
    if nodes.len() == 0 {
        Seq::empty()
    } else {
        leaf_aligns(nodes.drop_last()) + (match nodes.last() {
            HeaderView::Leaf { label, align, width } => seq![heading_align(align)],
            HeaderView::Group { label, align, children } => leaf_aligns(children),
        })
    }
}

/// The widths of the columns, in order.
pub open spec fn leaf_widths(nodes: Seq<HeaderView>) -> Seq<Option<Seq<char>>>
    decreases nodes,
{
    if nodes.len() == 0 {
        Seq::empty()
    } else {
        leaf_widths(nodes.drop_last()) + (match nodes.last() {
            HeaderView::Leaf { label, align, width } => seq![width],
            HeaderView::Group { label, align, children } => leaf_widths(children),
        })
    }
}

/// Every cell lies within the rows and columns of the headings.
pub proof fn lemma_layout_inside(nodes: Seq<HeaderView>, depth: int, total: int, col0: int)
    requires
        depth + heights(nodes) - 1 <= total,
        col0 >= 0,
    ensures
        forall|k: int|
            0 <= k < layout(nodes, depth, total, col0).len() ==> {
                let c = #[trigger] layout(nodes, depth, total, col0)[k];
                &&& depth <= c.row && 1 <= c.rowspan && c.row + c.rowspan - 1 <= total
                &&& col0 <= c.col && 1 <= c.colspan && c.col + c.colspan <= col0 + leaf_spans(nodes)
            },
    decreases nodes,
{
    if nodes.len() > 0 {
        let front = nodes.drop_last();
        let last = nodes.last();
        let at = col0 + leaf_spans(front);
        assert(heights(front) <= heights(nodes) && height(last) <= heights(nodes));
        lemma_layout_inside(front, depth, total, col0);
        assert(height(last) >= 1 && leaf_span(last) >= 1);
        if let HeaderView::Group { label, align, children } = last {
            assert(height(last) == 1 + heights(children));
            assert(leaf_span(last) >= leaf_spans(children));
            lemma_layout_inside(children, depth + 1, total, at);
        }
        let a = layout(front, depth, total, col0);
        let b = node_cells(last, depth, total, at);
        assert forall|k: int| 0 <= k < layout(nodes, depth, total, col0).len() implies {
            let c = #[trigger] layout(nodes, depth, total, col0)[k];
            &&& depth <= c.row && 1 <= c.rowspan && c.row + c.rowspan - 1 <= total
            &&& col0 <= c.col && 1 <= c.colspan && c.col + c.colspan <= col0 + leaf_spans(nodes)
        } by {
            if k < a.len() {
                assert(layout(nodes, depth, total, col0)[k] == a[k]);
            } else {
                assert(layout(nodes, depth, total, col0)[k] == b[k - a.len()]);
                if let HeaderView::Group { label, align, children } = last {
                    if k - a.len() >= 1 {
                        assert(b[k - a.len()] == layout(children, depth + 1, total, at)[k - a.len()
                            - 1]);
                    }
                }
            }
        }
    }
}

/// A cell takes the place in row `r` and column `c`.
pub open spec fn covers(x: CellView, r: int, c: int) -> bool {
    x.row <= r < x.row + x.rowspan && x.col <= c < x.col + x.colspan
}

/// How many cells take a place.
pub open spec fn cover_count(cells: Seq<CellView>, r: int, c: int) -> nat
    decreases cells.len(),
{
    if cells.len() == 0 {
        0
    } else {
        cover_count(cells.drop_last(), r, c) + (if covers(cells.last(), r, c) {
            1nat
        } else {
            0
        })
    }
}

/// Every group has headings below it.
pub open spec fn no_empty_group(nodes: Seq<HeaderView>) -> bool
    decreases nodes,
{
    nodes.len() > 0 ==> no_empty_group(nodes.drop_last()) && (match nodes.last() {
        HeaderView::Leaf { label, align, width } => true,
        HeaderView::Group { label, align, children } => children.len() > 0 && no_empty_group(
            children,
        ),
    })
}

proof fn lemma_cover_one(x: CellView, r: int, c: int)
    ensures
        cover_count(seq![x], r, c) == (if covers(x, r, c) {
            1nat
        } else {
            0
        }),
{
    assert(seq![x].drop_last() =~= Seq::<CellView>::empty());
    assert(cover_count(Seq::<CellView>::empty(), r, c) == 0);
}

proof fn lemma_cover_concat(a: Seq<CellView>, b: Seq<CellView>, r: int, c: int)
    ensures
        cover_count(a + b, r, c) == cover_count(a, r, c) + cover_count(b, r, c),
    decreases b.len(),
{
    if b.len() == 0 {
        assert(a + b =~= a);
    } else {
        assert((a + b).drop_last() =~= a + b.drop_last());
        assert((a + b).last() == b.last());
        lemma_cover_concat(a, b.drop_last(), r, c);
    }
}

/// Headings tile their rectangle: of the rows from `depth` down to `total` and the columns
/// that the headings span, every place is taken by exactly one cell, and no other place is
/// taken. Groups without headings below them leave holes, and are left out.
pub proof fn lemma_layout_tiles(
    nodes: Seq<HeaderView>,
    depth: int,
    total: int,
    col0: int,
    r: int,
    c: int,
)
    requires
        no_empty_group(nodes),
        depth + heights(nodes) - 1 <= total,
    ensures
        cover_count(layout(nodes, depth, total, col0), r, c) == (if depth <= r <= total && col0 <= c
            < col0 + leaf_spans(nodes) {
            1nat
        } else {
            0
        }),
    decreases nodes,
{
    if nodes.len() > 0 {
        let front = nodes.drop_last();
        let last = nodes.last();
        let at = col0 + leaf_spans(front);
        let cells = node_cells(last, depth, total, at);
        assert(heights(front) <= heights(nodes) && height(last) <= heights(nodes));
        lemma_layout_tiles(front, depth, total, col0, r, c);
        lemma_cover_concat(layout(front, depth, total, col0), cells, r, c);
        match last {
            HeaderView::Leaf { label, align, width } => {
                assert(cells =~= seq![cells[0]]);
                lemma_cover_one(cells[0], r, c);
            },
            HeaderView::Group { label, align, children } => {
                assert(height(last) == 1 + heights(children));
                assert(leaf_span(children.last()) >= 1);
                assert(leaf_spans(children) >= 1);
                assert(height(children.last()) >= 1);
                assert(heights(children) >= 1);
                lemma_layout_tiles(children, depth + 1, total, at, r, c);
                let own = seq![cells[0]];
                assert(cells =~= own + layout(children, depth + 1, total, at));
                lemma_cover_concat(own, layout(children, depth + 1, total, at), r, c);
                lemma_cover_one(cells[0], r, c);
            },
        }
    }
}

/// Appends the cells of headings side by side, parents first.
pub fn collect_cells(
    nodes: &Vec<HeaderNode>,
    depth: u32,
    total: u32,
    col0: usize,
    out: &mut Vec<HeaderCell>,
)
    requires
        depth + heights(views_of(nodes@)) <= total + 1,
        total < u32::MAX,
        col0 + leaf_spans(views_of(nodes@)) <= usize::MAX,
    ensures
        cell_views(final(out)@) == cell_views(old(out)@) + layout(
            views_of(nodes@),
            depth as int,
            total as int,
            col0 as int,
        ),
    decreases nodes,
{
    let ghost views = views_of(nodes@);
    let ghost start = cell_views(out@);
    let mut col: usize = col0;
    let mut i: usize = 0;
    proof {
        lemma_views_of(nodes@);
        assert(cell_views(out@) =~= start + layout(
            views.take(0),
            depth as int,
            total as int,
            col0 as int,
        ));
    }
    while i < nodes.len()
        invariant
            i <= nodes@.len(),
            views == views_of(nodes@),
            views.len() == nodes@.len(),
            forall|k: int|
                0 <= k < nodes@.len() ==> views[k] == view_of(#[trigger] nodes@[k]),
            depth + heights(views) <= total + 1,
            total < u32::MAX,
            col0 + leaf_spans(views) <= usize::MAX,
            col == col0 + leaf_spans(views.take(i as int)),
            cell_views(out@) == start + layout(
                views.take(i as int),
                depth as int,
                total as int,
                col0 as int,
            ),
        decreases nodes@.len() - i,
    {
        let ghost view = view_of(nodes@[i as int]);
        let ghost before = out@;
        proof {
            assert(views.take(i + 1).drop_last() =~= views.take(i as int));
            assert(views.take(i + 1).last() == view);
            lemma_spans_grow(views, i + 1);
            assert(1 <= height(view) <= heights(views.take(i + 1)));
        }
        let span: usize = leaf_count(&nodes[i]);
        match &nodes[i] {
            HeaderNode::Leaf { label, align, width } => {
                let cell = HeaderCell {
                    row: depth,
                    col,
                    rowspan: total - depth + 1,
                    colspan: 1,
                    label: label.clone(),
                    align: header_align(align.as_str()),
                };
                out.push(cell);
                proof {
                    assert(cell_views(out@) =~= cell_views(before) + node_cells(
                        view,
                        depth as int,
                        total as int,
                        col as int,
                    ));
                }
            },
            HeaderNode::Group { label, align, children } => {
                let cell = HeaderCell {
                    row: depth,
                    col,
                    rowspan: 1,
                    colspan: span,
                    label: label.clone(),
                    align: header_align(align.as_str()),
                };
                let ghost shown = cell@;
                out.push(cell);
                let ghost mid = out@;
                proof {
                    assert(cell_views(mid) =~= cell_views(before) + seq![shown]);
                    assert(height(view) == 1 + heights(views_of(children@)));
                    assert(leaf_span(view) >= leaf_spans(views_of(children@)));
                }
                collect_cells(children, depth + 1, total, col, out);
                proof {
                    assert(node_cells(view, depth as int, total as int, col as int) =~= seq![shown]
                        + layout(views_of(children@), depth + 1, total as int, col as int));
                    assert(cell_views(out@) =~= cell_views(before) + node_cells(
                        view,
                        depth as int,
                        total as int,
                        col as int,
                    ));
                }
            },
        }
        proof {
            assert(cell_views(out@) =~= start + layout(
                views.take(i + 1),
                depth as int,
                total as int,
                col0 as int,
            ));
        }
        col = col + span;
        i += 1;
    }
    assert(views.take(i as int) =~= views);
}

/// Texts by their characters.
pub open spec fn texts_of(list: Seq<String>) -> Seq<Seq<char>> {
    Seq::new(list.len(), |i: int| list[i]@)
}

/// Texts by their characters, where there are any.
pub open spec fn opt_texts_of(list: Seq<Option<String>>) -> Seq<Option<Seq<char>>> {
    Seq::new(list.len(), |i: int| text::opt_text(list[i]))
}

/// Appends the alignments and widths of the columns, in order.
pub fn collect_leaves(
    nodes: &Vec<HeaderNode>,
    aligns: &mut Vec<String>,
    widths: &mut Vec<Option<String>>,
)
    ensures
        texts_of(final(aligns)@) == texts_of(old(aligns)@) + leaf_aligns(views_of(nodes@)),
        opt_texts_of(final(widths)@) == opt_texts_of(old(widths)@) + leaf_widths(views_of(nodes@)),
    decreases nodes,
{
    let ghost views = views_of(nodes@);
    let ghost a0 = texts_of(aligns@);
    let ghost w0 = opt_texts_of(widths@);
    let mut i: usize = 0;
    proof {
        lemma_views_of(nodes@);
        assert(texts_of(aligns@) =~= a0 + leaf_aligns(views.take(0)));
        assert(opt_texts_of(widths@) =~= w0 + leaf_widths(views.take(0)));
    }
    while i < nodes.len()
        invariant
            i <= nodes@.len(),
            views == views_of(nodes@),
            views.len() == nodes@.len(),
            forall|k: int|
                0 <= k < nodes@.len() ==> views[k] == view_of(#[trigger] nodes@[k]),
            texts_of(aligns@) == a0 + leaf_aligns(views.take(i as int)),
            opt_texts_of(widths@) == w0 + leaf_widths(views.take(i as int)),
        decreases nodes@.len() - i,
    {
        let ghost a1 = texts_of(aligns@);
        let ghost w1 = opt_texts_of(widths@);
        proof {
            assert(views.take(i + 1).drop_last() =~= views.take(i as int));
            assert(views.take(i + 1).last() == view_of(nodes@[i as int]));
        }
        match &nodes[i] {
            HeaderNode::Leaf { label, align, width } => {
                aligns.push(header_align(align.as_str()));
                widths.push(
                    match width {
                        Some(w) => Some(w.clone()),
                        None => None,
                    },
                );
                assert(texts_of(aligns@) =~= a1 + seq![heading_align(align@)]);
                assert(opt_texts_of(widths@) =~= w1 + seq![text::opt_text(*width)]);
            },
            HeaderNode::Group { label, align, children } => {
                collect_leaves(children, aligns, widths);
            },
        }
        proof {
            assert(texts_of(aligns@) =~= a0 + leaf_aligns(views.take(i + 1)));
            assert(opt_texts_of(widths@) =~= w0 + leaf_widths(views.take(i + 1)));
        }
        i += 1;
    }
    assert(views.take(i as int) =~= views);
}

/// One cell comes before another: in an upper row, or further left in the same.
pub open spec fn before(a: CellView, b: CellView) -> bool {
    a.row < b.row || a.row == b.row && a.col < b.col
}

/// Where a cell goes among cells in order: in front of the first that it comes before.
pub open spec fn slot(cells: Seq<CellView>, c: CellView) -> int
    decreases cells.len(),
{
    if cells.len() == 0 || before(c, cells[0]) {
        0
    } else {
        1 + slot(cells.drop_first(), c)
    }
}

/// Cells in order, each behind those that it does not come before.
pub open spec fn in_order(cells: Seq<CellView>) -> Seq<CellView>
    decreases cells.len(),
{
    if cells.len() == 0 {
        Seq::empty()
    } else {
        let front = in_order(cells.drop_last());
        front.insert(slot(front, cells.last()), cells.last())
    }
}

proof fn lemma_slot(cells: Seq<CellView>, c: CellView)
    ensures
        0 <= slot(cells, c) <= cells.len(),
        forall|k: int| 0 <= k < slot(cells, c) ==> !before(c, #[trigger] cells[k]),
        slot(cells, c) < cells.len() ==> before(c, cells[slot(cells, c)]),
    decreases cells.len(),
{
    if cells.len() > 0 && !before(c, cells[0]) {
        lemma_slot(cells.drop_first(), c);
        assert forall|k: int| 0 <= k < slot(cells, c) implies !before(c, #[trigger] cells[k]) by {
            if k > 0 {
                assert(cells[k] == cells.drop_first()[k - 1]);
            }
        }
    }
}

/// Ordering cells keeps them all, and no later one comes before an earlier one.
pub proof fn lemma_in_order(cells: Seq<CellView>)
    ensures
        in_order(cells).to_multiset() == cells.to_multiset(),
        in_order(cells).len() == cells.len(),
        forall|i: int, j: int|
            0 <= i < j < in_order(cells).len() ==> !before(
                #[trigger] in_order(cells)[j],
                #[trigger] in_order(cells)[i],
            ),
    decreases cells.len(),
{
    broadcast use vstd::seq_lib::group_to_multiset_ensures;

    if cells.len() > 0 {
        let rest = cells.drop_last();
        let last = cells.last();
        let front = in_order(rest);
        lemma_in_order(rest);
        lemma_slot(front, last);
        let at = slot(front, last);
        let all = in_order(cells);
        assert(cells =~= rest.push(last));
        assert(all.to_multiset() =~= front.to_multiset().insert(last)) by {
            vstd::seq_lib::to_multiset_insert(front, at, last);
        }
        assert forall|i: int, j: int| 0 <= i < j < all.len() implies !before(
            #[trigger] all[j],
            #[trigger] all[i],
        ) by {
            if j < at {
                assert(all[i] == front[i] && all[j] == front[j]);
            } else if j == at {
                assert(all[i] == front[i] && all[j] == last);
            } else if i > at {
                assert(all[i] == front[i - 1] && all[j] == front[j - 1]);
            } else if i == at {
                assert(all[i] == last && all[j] == front[j - 1]);
                if j - 1 > at {
                    assert(!before(front[j - 1], front[at]));
                }
            } else {
                assert(all[i] == front[i] && all[j] == front[j - 1]);
            }
        }
    }
}

/// Puts cells in order.
pub fn sort_cells(cells: Vec<HeaderCell>) -> (r: Vec<HeaderCell>)
    ensures
        cell_views(r@) == in_order(cell_views(cells@)),
{
    let ghost all = cell_views(cells@);
    let mut rest = cells;
    let mut out: Vec<HeaderCell> = Vec::new();
    // Taken from the back, the cells are turned round first.
    let mut turned: Vec<HeaderCell> = Vec::new();
    let ghost n = rest@.len();
    while rest.len() > 0
        invariant
            rest@.len() + turned@.len() == n,
            all.len() == n,
            forall|k: int| 0 <= k < rest@.len() ==> (#[trigger] rest@[k])@ == all[k],
            forall|k: int| 0 <= k < turned@.len() ==> (#[trigger] turned@[k])@ == all[n - 1 - k],
        decreases rest@.len(),
    {
        if let Some(c) = rest.pop() {
            turned.push(c);
        }
    }
    assert(cell_views(out@) =~= in_order(all.take(0)));
    while turned.len() > 0
        invariant
            turned@.len() + out@.len() == n,
            all.len() == n,
            forall|k: int| 0 <= k < turned@.len() ==> (#[trigger] turned@[k])@ == all[n - 1 - k],
            cell_views(out@) == in_order(all.take(out@.len() as int)),
        decreases turned@.len(),
    {
        let ghost k = out@.len() as int;
        let ghost front = cell_views(out@);
        if let Some(c) = turned.pop() {
            assert(c@ == all[k]);
            let mut at: usize = 0;
            assert(front.skip(0) =~= front);
            while at < out.len() && !(c.row < out[at].row || c.row == out[at].row && c.col
                < out[at].col)
                invariant
                    at <= out@.len(),
                    front == cell_views(out@),
                    slot(front, c@) == at + slot(front.skip(at as int), c@),
                decreases out@.len() - at,
            {
                assert(front.skip(at as int)[0] == out@[at as int]@);
                assert(front.skip(at as int).drop_first() =~= front.skip(at + 1));
                at += 1;
            }
            proof {
                if at < out@.len() {
                    assert(front.skip(at as int)[0] == out@[at as int]@);
                }
                assert(slot(front, c@) == at);
                assert(all.take(k + 1).drop_last() =~= all.take(k));
                assert(all.take(k + 1).last() == c@);
            }
            let ghost shown = c@;
            out.insert(at, c);
            assert(cell_views(out@) =~= front.insert(at as int, shown));
        }
    }
    assert(all.take(out@.len() as int) =~= all);
    out
}

} // verus!
