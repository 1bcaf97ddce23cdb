//! Cells of rows: which text a column takes from a row, and which type a column has.

use crate::cell_text;
use crate::cell_text::is_date;
use crate::cell_text::number_repr;
use crate::multiname::Multiname;
use crate::multiname::MultinameView;
use crate::node::E4XNodeReadOnly;
use crate::queries;
use crate::text;
use crate::text::chars_of;
use crate::text::text_of;
use crate::text::trim_white;
use crate::xml_tree;
use crate::xml_tree::XmlNode;
use std::rc::Rc;
use vstd::prelude::*;

verus! {

/// A column's selector as the caller names it.
pub enum OwnedSelector {
    /// No field: always an empty cell.
    Empty,
    /// The row's own simple content.
    Node,
    /// The child elements, or the property, of this name.
    Child(String),
    /// The attributes, or the property, of this name.
    Attr(String),
}

/// An [`OwnedSelector`] by its text.
pub enum OwnedSelectorView {
    Empty,
    Node,
    Child(Seq<char>),
    Attr(Seq<char>),
}

impl View for OwnedSelector {
    type V = OwnedSelectorView;

    open spec fn view(&self) -> OwnedSelectorView {
        match *self {
            OwnedSelector::Empty => OwnedSelectorView::Empty,
            OwnedSelector::Node => OwnedSelectorView::Node,
            OwnedSelector::Child(s) => OwnedSelectorView::Child(s@),
            OwnedSelector::Attr(s) => OwnedSelectorView::Attr(s@),
        }
    }
}

/// What a field's text selects: nothing in it the row itself, a name behind `@` attributes,
/// any other name child elements.
pub open spec fn field_selector(field: Seq<char>) -> OwnedSelectorView {
    if field.len() == 0 {
        OwnedSelectorView::Node
    } else if field[0] == '@' {
        OwnedSelectorView::Attr(field.drop_first())
    } else {
        OwnedSelectorView::Child(field)
    }
}

/// What a field selects; without a text, nothing.
pub open spec fn opt_selector(field: Option<Seq<char>>) -> OwnedSelectorView {
    match field {
        Some(f) => field_selector(f),
        None => OwnedSelectorView::Empty,
    }
}

/// The column heading that a field stands for: its text, without the `@` in front.
pub open spec fn field_label(field: Option<Seq<char>>) -> Seq<char> {
    match field {
        Some(f) => if f.len() > 0 && f[0] == '@' {
            f.drop_first()
        } else {
            f
        },
        None => Seq::empty(),
    }
}

impl OwnedSelector {
    /// What a field's text selects.
    pub fn from_str(s: &str) -> (r: Self)
        ensures
            r@ == field_selector(s@),
    {
        let chars = chars_of(s);
        let n: usize = chars.len();
        if n == 0 {
            OwnedSelector::Node
        } else if chars[0] == '@' {
            let name = text_of(&chars, 1, n);
            assert(name@ =~= s@.drop_first());
            OwnedSelector::Attr(name)
        } else {
            OwnedSelector::Child(s.to_owned())
        }
    }
}

/// What fields select; a field without a text selects nothing.
pub fn parse_owned_selectors(fields: &Vec<Option<String>>) -> (r: Vec<OwnedSelector>)
    ensures
        r@.len() == fields@.len(),
        forall|j: int|
            0 <= j < r@.len() ==> (#[trigger] r@[j])@ == opt_selector(text::opt_text(fields@[j])),
{
    let mut out: Vec<OwnedSelector> = Vec::new();
    let mut j: usize = 0;
    while j < fields.len()
        invariant
            j <= fields@.len(),
            out@.len() == j,
            forall|k: int|
                0 <= k < j ==> (#[trigger] out@[k])@ == opt_selector(text::opt_text(fields@[k])),
        decreases fields@.len() - j,
    {
        let selector = match &fields[j] {
            Some(f) => OwnedSelector::from_str(f.as_str()),
            None => OwnedSelector::Empty,
        };
        out.push(selector);
        j += 1;
    }
    out
}

/// The column headings that fields stand for.
pub fn parse_field_labels(fields: &Vec<Option<String>>) -> (r: Vec<String>)
    ensures
        r@.len() == fields@.len(),
        forall|j: int|
            0 <= j < r@.len() ==> (#[trigger] r@[j])@ == field_label(text::opt_text(fields@[j])),
{
    let mut out: Vec<String> = Vec::new();
    let mut j: usize = 0;
    while j < fields.len()
        invariant
            j <= fields@.len(),
            out@.len() == j,
            forall|k: int|
                0 <= k < j ==> (#[trigger] out@[k])@ == field_label(text::opt_text(fields@[k])),
        decreases fields@.len() - j,
    {
        let label = match &fields[j] {
            Some(f) => match OwnedSelector::from_str(f.as_str()) {
                OwnedSelector::Attr(name) => name,
                _ => f.clone(),
            },
            None => String::new(),
        };
        out.push(label);
        j += 1;
    }
    out
}

/// A column's selector with its name resolved.
pub enum Selector {
    Empty,
    Node,
    Child(Multiname),
    Attr(Multiname),
}

/// A [`Selector`] by its texts.
pub enum SelectorView {
    Empty,
    Node,
    Child(MultinameView),
    Attr(MultinameView),
}

impl View for Selector {
    type V = SelectorView;

    open spec fn view(&self) -> SelectorView {
        match *self {
            Selector::Empty => SelectorView::Empty,
            Selector::Node => SelectorView::Node,
            Selector::Child(n) => SelectorView::Child(n@),
            Selector::Attr(n) => SelectorView::Attr(n@),
        }
    }
}

/// Selectors by their texts.
pub open spec fn selector_views(list: Seq<Selector>) -> Seq<SelectorView> {
    Seq::new(list.len(), |j: int| list[j]@)
}

/// How names are resolved: a name, asked for as an attribute or not, or nothing where it
/// cannot be.
pub type Resolving = spec_fn(Seq<char>, bool) -> Option<MultinameView>;

/// `f` computes `g`.
pub open spec fn resolves<F: Fn(&str, bool) -> Option<Multiname>>(f: F, g: Resolving) -> bool {
    forall|s: &str, attr: bool, r: Option<Multiname>| #[trigger]
        call_ensures(f, (s, attr), r) ==> g(s@, attr) == (match r {
            Some(m) => Some(m@),
            None => None,
        })
}

/// A selector with its name resolved.
pub open spec fn resolved(owned: OwnedSelectorView, g: Resolving) -> Option<SelectorView> {
    match owned {
        OwnedSelectorView::Empty => Some(SelectorView::Empty),
        OwnedSelectorView::Node => Some(SelectorView::Node),
        OwnedSelectorView::Child(name) => match g(name, false) {
            Some(m) => Some(SelectorView::Child(m)),
            None => None,
        },
        OwnedSelectorView::Attr(name) => match g(name, true) {
            Some(m) => Some(SelectorView::Attr(m)),
            None => None,
        },
    }
}

/// Resolves a selector's name.
pub fn owned_to_selector<F: Fn(&str, bool) -> Option<Multiname>>(
    owned: &OwnedSelector,
    resolve: &F,
) -> (r: Option<Selector>)
    requires
        forall|s: &str, attr: bool| call_requires(*resolve, (s, attr)),
    ensures
        forall|g: Resolving| #[trigger]
            resolves(*resolve, g) ==> (match r {
                Some(s) => Some(s@),
                None => None,
            }) == resolved(owned@, g),
{
    match owned {
        OwnedSelector::Empty => Some(Selector::Empty),
        OwnedSelector::Node => Some(Selector::Node),
        OwnedSelector::Child(name) => match resolve(name.as_str(), false) {
            Some(m) => Some(Selector::Child(m)),
            None => None,
        },
        OwnedSelector::Attr(name) => match resolve(name.as_str(), true) {
            Some(m) => Some(Selector::Attr(m)),
            None => None,
        },
    }
}

/// Resolves the names of selectors; nothing if one cannot be.
pub fn rebuild_selectors<F: Fn(&str, bool) -> Option<Multiname>>(
    owned: &Vec<OwnedSelector>,
    resolve: &F,
) -> (r: Option<Vec<Selector>>)
    requires
        forall|s: &str, attr: bool| call_requires(*resolve, (s, attr)),
    ensures
        forall|g: Resolving| #[trigger]
            resolves(*resolve, g) ==> (match r {
                Some(list) => list@.len() == owned@.len() && (forall|j: int|
                    0 <= j < list@.len() ==> Some((#[trigger] list@[j])@) == resolved(
                        owned@[j]@,
                        g,
                    )),
                None => exists|j: int|
                    0 <= j < owned@.len() && resolved((#[trigger] owned@[j])@, g) is None,
            }),
{
    let mut out: Vec<Selector> = Vec::new();
    let mut j: usize = 0;
    while j < owned.len()
        invariant
            j <= owned@.len(),
            out@.len() == j,
            forall|s: &str, attr: bool| call_requires(*resolve, (s, attr)),
            forall|g: Resolving, k: int|
                #![trigger resolves(*resolve, g), out@[k]]
                resolves(*resolve, g) && 0 <= k < j ==> Some(out@[k]@) == resolved(owned@[k]@, g),
        decreases owned@.len() - j,
    {
        match owned_to_selector(&owned[j], resolve) {
            Some(s) => out.push(s),
            None => {
                return None;
            },
        }
        j += 1;
    }
    Some(out)
}

/// A row: a stored node, a tree, or an object by the text that each column takes from it,
/// where it has one.
pub enum Row {
    ReadOnly(E4XNodeReadOnly),
    Xml(Rc<XmlNode>),
    Object(Vec<Option<String>>),
}

/// The text that column `c` takes from a row.
pub open spec fn row_text(row: Row, selector: SelectorView, c: int) -> Seq<char> {
    match selector {
        SelectorView::Empty => Seq::empty(),
        SelectorView::Node => match row {
            Row::ReadOnly(node) => queries::string_value(node@.nodes(), node@.index),
            Row::Xml(node) => xml_tree::simple_text(*node),
            Row::Object(texts) => object_text(texts@, c),
        },
        SelectorView::Attr(want) => match row {
            Row::ReadOnly(node) => queries::joined_text(
                node@.nodes(),
                queries::matching_attrs(node@.nodes(), node@.index, want),
            ),
            Row::Xml(node) => xml_tree::lines(
                xml_tree::selected(xml_tree::attributes_of(*node), want, false),
            ),
            Row::Object(texts) => object_text(texts@, c),
        },
        SelectorView::Child(want) => match row {
            Row::ReadOnly(node) => queries::joined_text(
                node@.nodes(),
                queries::matching_children(node@.nodes(), node@.index, want),
            ),
            Row::Xml(node) => xml_tree::lines(
                xml_tree::selected(xml_tree::children_of(*node), want, true),
            ),
            Row::Object(texts) => object_text(texts@, c),
        },
    }
}

/// The text that an object has for column `c`.
pub open spec fn object_text(texts: Seq<Option<String>>, c: int) -> Seq<char> {
    if 0 <= c < texts.len() && texts[c] is Some {
        texts[c]->0@
    } else {
        Seq::empty()
    }
}

/// The texts that the columns take from a row.
pub open spec fn row_texts(row: Row, selectors: Seq<SelectorView>) -> Seq<Seq<char>> {
    Seq::new(selectors.len(), |c: int| row_text(row, selectors[c], c))
}

/// The text of column `c`; empty behind the last column.
pub open spec fn text_at(texts: Seq<Seq<char>>, c: int) -> Seq<char> {
    if 0 <= c < texts.len() {
        texts[c]
    } else {
        Seq::empty()
    }
}

/// Takes the text of column `c` from a row.
pub fn extract_cell(row: &Row, selector: &Selector, c: usize, buf: &mut String)
    ensures
        final(buf)@ == row_text(*row, selector@, c as int),
{
    let mut out = String::new();
    match row {
        Row::ReadOnly(node) => match selector {
            Selector::Empty => {},
            Selector::Node => node.append_text(&mut out),
            Selector::Attr(name) => node.append_attrs_text(name, &mut out),
            Selector::Child(name) => node.append_children_text(name, &mut out),
        },
        Row::Xml(node) => match selector {
            Selector::Empty => {},
            Selector::Node => node.append_simple_text(&mut out),
            Selector::Attr(name) => node.append_attrs_text(name, &mut out),
            Selector::Child(name) => node.append_children_text(name, &mut out),
        },
        Row::Object(texts) => match selector {
            Selector::Empty => {},
            _ => {
                if c < texts.len() {
                    if let Some(t) = &texts[c] {
                        out.push_str(t.as_str());
                    }
                }
            },
        },
    }
    assert(out@ =~= row_text(*row, selector@, c as int));
    *buf = out;
}

/// The type of a column.
#[derive(Clone, Copy, PartialEq, Eq, Structural)]
pub enum ColType {
    Text,
    Number,
    Date,
}

/// How column types are found.
#[derive(Clone, Copy)]
pub struct TypeOpts {
    pub detect_types: bool,
    pub detect_dates: bool,
    pub sample_rows: usize,
}

/// The settings for column types as a caller gives them, each one or none.
pub fn read_type_opts(
    detect_types: Option<bool>,
    detect_dates: Option<bool>,
    sample_rows: Option<i32>,
) -> (r: TypeOpts)
    ensures
        r.detect_types == (match detect_types {
            Some(b) => b,
            None => true,
        }),
        r.detect_dates == (match detect_dates {
            Some(b) => b,
            None => true,
        }),
        r.sample_rows == (match sample_rows {
            Some(n) => if n > 0 {
                n as int
            } else {
                0
            },
            None => 1000,
        }),
{
    TypeOpts {
        detect_types: match detect_types {
            Some(b) => b,
            None => true,
        },
        detect_dates: match detect_dates {
            Some(b) => b,
            None => true,
        },
        sample_rows: match sample_rows {
            Some(n) => if n > 0 {
                n as usize
            } else {
                0
            },
            None => 1000,
        },
    }
}

/// The rows of an export: for each its column texts, or nothing where it cannot be read.
pub type Table = spec_fn(int) -> Option<Seq<Seq<char>>>;

/// `f` reads the rows of `g`, seen through `selectors`.
pub open spec fn reads<F: Fn(usize) -> Option<Row>>(
    f: F,
    selectors: Seq<SelectorView>,
    g: Table,
) -> bool {
    forall|i: usize, r: Option<Row>| #[trigger]
        call_ensures(f, (i,), r) ==> g(i as int) == (match r {
            Some(row) => Some(row_texts(row, selectors)),
            None => None,
        })
}

/// What a cell's text is taken for.
pub enum CellKind {
    Empty,
    Date,
    Number,
    Other,
}

/// What a text is taken for.
pub open spec fn kind_of(text: Seq<char>, detect_dates: bool) -> CellKind {
    let t = text::white_trimmed(text);
    if t.len() == 0 {
        CellKind::Empty
    } else if detect_dates && cell_text::date_of(t) is Some {
        CellKind::Date
    } else if cell_text::number_of(t) is Some {
        CellKind::Number
    } else {
        CellKind::Other
    }
}

/// What the cell of row `i` and column `c` is taken for.
pub open spec fn kind_at(g: Table, i: int, c: int, detect_dates: bool) -> CellKind {
    kind_of(text_at(g(i)->0, c), detect_dates)
}

/// A cell of the first `n` rows of column `c` has a text.
pub open spec fn some_text(g: Table, n: int, c: int, detect_dates: bool) -> bool {
    exists|i: int| 0 <= i < n && !(#[trigger] kind_at(g, i, c, detect_dates) is Empty)
}

/// All texts among the first `n` rows of column `c` are dates.
pub open spec fn all_dates(g: Table, n: int, c: int, detect_dates: bool) -> bool {
    forall|i: int|
        0 <= i < n ==> (#[trigger] kind_at(g, i, c, detect_dates) is Empty || kind_at(
            g,
            i,
            c,
            detect_dates,
        ) is Date)
}

/// All texts among the first `n` rows of column `c` are numbers.
pub open spec fn all_numbers(g: Table, n: int, c: int, detect_dates: bool) -> bool {
    forall|i: int|
        0 <= i < n ==> (#[trigger] kind_at(g, i, c, detect_dates) is Empty || kind_at(
            g,
            i,
            c,
            detect_dates,
        ) is Number)
}

/// The type of column `c` by its first `n` rows.
pub open spec fn column_type(g: Table, n: int, c: int, detect_dates: bool) -> ColType {
    if !some_text(g, n, c, detect_dates) {
        ColType::Text
    } else if all_dates(g, n, c, detect_dates) {
        ColType::Date
    } else if all_numbers(g, n, c, detect_dates) {
        ColType::Number
    } else {
        ColType::Text
    }
}

/// How many rows are looked at.
pub open spec fn sampled(nrows: int, opts: TypeOpts) -> int {
    if !opts.detect_types {
        0
    } else if opts.sample_rows == 0 || opts.sample_rows >= nrows {
        nrows
    } else {
        opts.sample_rows as int
    }
}

/// The types of the columns of a table.
pub open spec fn column_types(g: Table, nrows: int, ncols: int, opts: TypeOpts) -> Seq<ColType> {
    Seq::new(
        ncols as nat,
        |c: int| column_type(g, sampled(nrows, opts), c, opts.detect_dates),
    )
}

/// The rows from `from` up to `to` can be read.
pub open spec fn readable(g: Table, from: int, to: int) -> bool {
    forall|i: int| from <= i < to ==> #[trigger] g(i) is Some
}

/// A date column holds nothing but dates among the texts that were looked at, and a number
/// column nothing but numbers. Where dates are not looked for, there are no date columns.
pub proof fn lemma_column_pure(g: Table, n: int, c: int, detect_dates: bool, i: int)
    requires
        0 <= i < n,
    ensures
        column_type(g, n, c, detect_dates) is Date ==> (kind_at(g, i, c, detect_dates) is Empty
            || kind_at(g, i, c, detect_dates) is Date),
        column_type(g, n, c, detect_dates) is Number ==> (kind_at(g, i, c, detect_dates) is Empty
            || kind_at(g, i, c, detect_dates) is Number),
        !detect_dates ==> !(column_type(g, n, c, detect_dates) is Date),
{
    if !detect_dates && some_text(g, n, c, detect_dates) {
        let k = choose|k: int|
            0 <= k < n && !(#[trigger] kind_at(g, k, c, detect_dates) is Empty);
        assert(!(kind_at(g, k, c, detect_dates) is Date));
    }
}

proof fn lemma_one_more(g: Table, n: int, c: int, detect_dates: bool)
    requires
        0 <= n,
    ensures
        some_text(g, n + 1, c, detect_dates) == (some_text(g, n, c, detect_dates) || !(kind_at(
            g,
            n,
            c,
            detect_dates,
        ) is Empty)),
        all_dates(g, n + 1, c, detect_dates) == (all_dates(g, n, c, detect_dates) && (kind_at(
            g,
            n,
            c,
            detect_dates,
        ) is Empty || kind_at(g, n, c, detect_dates) is Date)),
        all_numbers(g, n + 1, c, detect_dates) == (all_numbers(g, n, c, detect_dates) && (kind_at(
            g,
            n,
            c,
            detect_dates,
        ) is Empty || kind_at(g, n, c, detect_dates) is Number)),
{
    if some_text(g, n, c, detect_dates) {
        let k = choose|k: int|
            0 <= k < n && !(#[trigger] kind_at(g, k, c, detect_dates) is Empty);
        assert(0 <= k < n + 1 && !(kind_at(g, k, c, detect_dates) is Empty));
    }
    if some_text(g, n + 1, c, detect_dates) {
        let k = choose|k: int|
            0 <= k < n + 1 && !(#[trigger] kind_at(g, k, c, detect_dates) is Empty);
        assert(k < n || k == n);
    }
    assert(kind_at(g, n, c, detect_dates) == kind_at(g, n, c, detect_dates));
    if all_dates(g, n + 1, c, detect_dates) {
        assert forall|i: int| 0 <= i < n implies (#[trigger] kind_at(g, i, c, detect_dates) is Empty
            || kind_at(g, i, c, detect_dates) is Date) by {}
    }
}

/// What is known of a column so far.
struct ColumnSeen {
    some: bool,
    dates: bool,
    numbers: bool,
}

/// Looks at one more cell.
fn look(seen: &mut ColumnSeen, cell: &str, detect_dates: bool)
    ensures
        final(seen).some == (old(seen).some || !(kind_of(cell@, detect_dates) is Empty)),
        final(seen).dates == (old(seen).dates && (kind_of(cell@, detect_dates) is Empty || kind_of(
            cell@,
            detect_dates,
        ) is Date)),
        final(seen).numbers == (old(seen).numbers && (kind_of(cell@, detect_dates) is Empty
            || kind_of(cell@, detect_dates) is Number)),
{
    let t = trim_white(cell);
    if chars_of(t.as_str()).len() == 0 {
        return;
    }
    seen.some = true;
    if detect_dates && is_date(t.as_str()) {
        seen.numbers = false;
    } else if number_repr(t.as_str()).is_some() {
        seen.dates = false;
    } else {
        seen.dates = false;
        seen.numbers = false;
    }
}

/// Finds the type of each column from the first rows: a date or number column has nothing
/// but dates or numbers among the texts that were looked at. Nothing if one of the rows
/// cannot be read.
pub fn infer_col_types<F: Fn(usize) -> Option<Row>>(
    get_row: &F,
    nrows: usize,
    selectors: &Vec<Selector>,
    ncols: usize,
    opts: TypeOpts,
) -> (r: Option<Vec<ColType>>)
    requires
        forall|i: usize| i < nrows ==> call_requires(*get_row, (i,)),
    ensures
        forall|g: Table| #[trigger]
            reads(*get_row, selector_views(selectors@), g) ==> (match r {
                Some(types) => readable(g, 0, sampled(nrows as int, opts)) && types@
                    == column_types(g, nrows as int, ncols as int, opts),
                None => !readable(g, 0, sampled(nrows as int, opts)),
            }),
{
    let ghost views = selector_views(selectors@);
    let n: usize = if !opts.detect_types {
        0
    } else if opts.sample_rows == 0 || opts.sample_rows >= nrows {
        nrows
    } else {
        opts.sample_rows
    };
    let detect_dates = opts.detect_dates;
    let mut seen: Vec<ColumnSeen> = Vec::new();
    while seen.len() < ncols
        invariant
            seen@.len() <= ncols,
            forall|c: int|
                0 <= c < seen@.len() ==> !(#[trigger] seen@[c]).some && seen@[c].dates
                    && seen@[c].numbers,
        decreases ncols - seen@.len(),
    {
        seen.push(ColumnSeen { some: false, dates: true, numbers: true });
    }
    let mut buf = String::new();
    let mut i: usize = 0;
    while i < n
        invariant
            i <= n <= nrows,
            n == sampled(nrows as int, opts),
            detect_dates == opts.detect_dates,
            views == selector_views(selectors@),
            seen@.len() == ncols,
            forall|i: usize| i < nrows ==> call_requires(*get_row, (i,)),
            forall|g: Table| #[trigger] reads(*get_row, views, g) ==> readable(g, 0, i as int),
            forall|g: Table, c: int|
                #![trigger reads(*get_row, views, g), seen@[c]]
                reads(*get_row, views, g) && 0 <= c < ncols ==> known(
                    seen@[c],
                    g,
                    i as int,
                    c,
                    detect_dates,
                ),
        decreases n - i,
    {
        let row = match get_row(i) {
            Some(row) => row,
            None => {
                assert forall|g: Table| #[trigger] reads(*get_row, views, g) implies !readable(
                    g,
                    0,
                    n as int,
                ) by {
                    assert(g(i as int) is None);
                }
                return None;
            },
        };
        let ghost texts = row_texts(row, views);
        proof {
            assert forall|g: Table| #[trigger] reads(*get_row, views, g) implies g(i as int)
                == Some(texts) by {}
        }
        let mut c: usize = 0;
        while c < ncols
            invariant
                c <= ncols == seen@.len(),
                detect_dates == opts.detect_dates,
                views == selector_views(selectors@),
                texts == row_texts(row, views),
                forall|g: Table| #[trigger]
                    reads(*get_row, views, g) ==> g(i as int) == Some(texts),
                forall|g: Table, k: int|
                    #![trigger reads(*get_row, views, g), seen@[k]]
                    reads(*get_row, views, g) && 0 <= k < c ==> known(
                        seen@[k],
                        g,
                        i + 1,
                        k,
                        detect_dates,
                    ),
                forall|g: Table, k: int|
                    #![trigger reads(*get_row, views, g), seen@[k]]
                    reads(*get_row, views, g) && c <= k < ncols ==> known(
                        seen@[k],
                        g,
                        i as int,
                        k,
                        detect_dates,
                    ),
            decreases ncols - c,
        {
            if c < selectors.len() {
                extract_cell(&row, &selectors[c], c, &mut buf);
            } else {
                buf = String::new();
            }
            assert(buf@ =~= text_at(texts, c as int));
            let mut s = ColumnSeen {
                some: seen[c].some,
                dates: seen[c].dates,
                numbers: seen[c].numbers,
            };
            let ghost before = s;
            look(&mut s, buf.as_str(), detect_dates);
            proof {
                assert forall|g: Table| #[trigger] reads(*get_row, views, g) implies known(
                    s,
                    g,
                    i + 1,
                    c as int,
                    detect_dates,
                ) by {
                    assert(known(seen@[c as int], g, i as int, c as int, detect_dates));
                    lemma_one_more(g, i as int, c as int, detect_dates);
                    assert(kind_at(g, i as int, c as int, detect_dates) == kind_of(
                        buf@,
                        detect_dates,
                    ));
                }
            }
            seen.set(c, s);
            c += 1;
        }
        proof {
            assert forall|g: Table| #[trigger] reads(*get_row, views, g) implies readable(
                g,
                0,
                i + 1,
            ) by {
                assert(readable(g, 0, i as int));
                assert(g(i as int) is Some);
            }
        }
        i += 1;
    }
    let mut types: Vec<ColType> = Vec::new();
    let mut c: usize = 0;
    while c < ncols
        invariant
            c <= ncols == seen@.len(),
            n == sampled(nrows as int, opts),
            detect_dates == opts.detect_dates,
            types@.len() == c,
            forall|g: Table, k: int|
                #![trigger reads(*get_row, views, g), seen@[k]]
                reads(*get_row, views, g) && 0 <= k < ncols ==> known(
                    seen@[k],
                    g,
                    n as int,
                    k,
                    detect_dates,
                ),
            forall|g: Table, k: int|
                #![trigger reads(*get_row, views, g), types@[k]]
                reads(*get_row, views, g) && 0 <= k < c ==> types@[k] == column_type(
                    g,
                    n as int,
                    k,
                    detect_dates,
                ),
        decreases ncols - c,
    {
        let t = if !seen[c].some {
            ColType::Text
        } else if seen[c].dates {
            ColType::Date
        } else if seen[c].numbers {
            ColType::Number
        } else {
            ColType::Text
        };
        proof {
            assert forall|g: Table| #[trigger] reads(*get_row, views, g) implies t == column_type(
                g,
                n as int,
                c as int,
                detect_dates,
            ) by {
                assert(known(seen@[c as int], g, n as int, c as int, detect_dates));
            }
        }
        types.push(t);
        c += 1;
    }
    proof {
        assert forall|g: Table| #[trigger] reads(*get_row, views, g) implies types@ == column_types(
            g,
            nrows as int,
            ncols as int,
            opts,
        ) by {
            assert(types@ =~= column_types(g, nrows as int, ncols as int, opts));
        }
    }
    Some(types)
}

/// What is known of a column is true of its first `n` rows.
spec fn known(seen: ColumnSeen, g: Table, n: int, c: int, detect_dates: bool) -> bool {
    &&& seen.some == some_text(g, n, c, detect_dates)
    &&& seen.dates == all_dates(g, n, c, detect_dates)
    &&& seen.numbers == all_numbers(g, n, c, detect_dates)
}

} // verus!
