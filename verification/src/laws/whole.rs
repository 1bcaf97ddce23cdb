//! Whole operations, by what goes in and what comes out.

use crate::builder;
use crate::builder::Draft;
use crate::builder::Entry;
use crate::cell_text;
use crate::cells;
use crate::cells::Resolving;
use crate::cells::TypeOpts;
use crate::doc;
use crate::doc::Doc;
use crate::doc::NodeView;
use crate::events::AttrView;
use crate::events::EventView;
use crate::events::ParseSettings;
use crate::laws::dates::Stamp;
use crate::laws::dates;
use crate::laws::numbers::Numeral;
use crate::laws::numbers;
use crate::laws::row_sets::Naming;
use crate::laws::row_sets;
use crate::laws::search;
use crate::laws::sort_order;
use crate::laws::white_space;
use crate::multiname::Multiname;
use crate::node::E4XNodeReadOnly;
use crate::node::Handle;
use crate::parse;
use crate::parse::Unescaping;
use crate::sort_keyed;
use crate::sort_keyed::FieldText;
use crate::sort_keyed::KeyView;
use crate::sort_keyed::Numbering;
use crate::sort_keyed::SortField;
use crate::sort_rows;
use crate::sort_rows::Sorting;
use crate::store::E4XStoreReadOnly;
use crate::str_arena;
use crate::text;
use crate::tree;
use crate::tree::ParseState;
use crate::xml_object;
use crate::xml_reader;
use vstd::prelude::*;
use vstd::utf8::*;

verus! {

proof fn lemma_few_strings(log: Seq<Entry>)
    requires
        log.len() <= 2048,
        forall|i: int|
            0 <= i < log.len() ==> encode_utf8((#[trigger] log[i]).text).len() <= 0xffff_ffff,
    ensures
        builder::pool_of(log) matches Some(p) && p.fill.len() <= log.len() && forall|h: u64|
            #[trigger] p.index.dom().contains(h) ==> p.index[h] < 0x8000_0000,
    decreases log.len(),
{
    if log.len() > 0 {
        assert forall|i: int| 0 <= i < log.drop_last().len() implies encode_utf8(
            (#[trigger] log.drop_last()[i]).text,
        ).len() <= 0xffff_ffff by {
            assert(log[i] == log.drop_last()[i]);
        }
        lemma_few_strings(log.drop_last());
        let p = builder::pool_of(log.drop_last())->0;
        let e = log.last();
        assert(e == log[log.len() - 1]);
        let bytes = encode_utf8(e.text);
        let q = str_arena::pool_intern(p, bytes);
        assert(builder::takes(p, e));
        assert forall|h: u64| #[trigger] q.index.dom().contains(h) implies q.index[h]
            < 0x8000_0000 by {
            if p.index.dom().contains(h) {
                assert(p.index[h] < 0x8000_0000);
            }
        }
    }
}

/// A document of up to 536870911 nodes fits if it has no more than 2048 strings, each of a
/// length that fits in 32 bits.
pub proof fn lemma_fits(d: Draft)
    requires
        d.nodes.len() <= 0x1fff_ffff,
        d.log.len() <= 2048,
        forall|i: int|
            0 <= i < d.log.len() ==> encode_utf8((#[trigger] d.log[i]).text).len() <= 0xffff_ffff,
    ensures
        builder::fits(d),
{
    lemma_few_strings(d.log);
}

/// Nodes without comments, or without processing instructions.
pub open spec fn free_of(nodes: Seq<NodeView>, comments: bool, instructions: bool) -> bool {
    forall|i: int|
        0 <= i < nodes.len() ==> !(comments && (#[trigger] nodes[i]).kind is Comment) && !(
        instructions && nodes[i].kind is ProcessingInstruction)
}

proof fn lemma_attrs_free(d: Draft, id: int, attrs: Seq<AttrView>, set: ParseSettings)
    requires
        free_of(d.nodes, set.ignore_comments, set.ignore_pi),
    ensures
        free_of(
            tree::draft_attrs(d, id, attrs).nodes,
            set.ignore_comments,
            set.ignore_pi,
        ),
    decreases attrs.len(),
{
    if attrs.len() > 0 {
        lemma_attrs_free(d, id, attrs.drop_last(), set);
    }
}

proof fn lemma_step_free(st: ParseState, ev: EventView, set: ParseSettings)
    requires
        free_of(st.draft.nodes, set.ignore_comments, set.ignore_pi),
    ensures
        free_of(tree::step(st, ev, set).draft.nodes, set.ignore_comments, set.ignore_pi),
{
    let f = tree::flushed(st);
    assert(free_of(f.draft.nodes, set.ignore_comments, set.ignore_pi));
    match ev {
        EventView::Start(e) | EventView::Empty(e) => {
            let head = tree::draft_head(f.draft, tree::parent_of(f.open), e);
            assert(free_of(head.nodes, set.ignore_comments, set.ignore_pi));
            lemma_attrs_free(head, f.draft.nodes.len() as int, e.attrs, set);
        },
        _ => {},
    }
}

proof fn lemma_run_free(st: ParseState, evs: Seq<EventView>, set: ParseSettings)
    requires
        free_of(st.draft.nodes, set.ignore_comments, set.ignore_pi),
    ensures
        free_of(tree::run(st, evs, set).draft.nodes, set.ignore_comments, set.ignore_pi),
    decreases evs.len(),
{
    if evs.len() > 0 {
        lemma_step_free(st, evs[0], set);
        if !(evs[0] is Eof || evs[0] is Malformed) {
            lemma_run_free(tree::step(st, evs[0], set), evs.drop_first(), set);
        }
    }
}

/// A document parsed with white space ignored has no text that is empty or begins or ends with
/// a tab, a line feed, a carriage return or a space. With comments ignored it has no comment,
/// with processing instructions ignored no processing instruction.
pub proof fn lemma_parse<U: Fn(&[u8]) -> Option<String>>(
    source: &str,
    ignore_white: bool,
    ignore_comments: bool,
    ignore_pi: bool,
    unescape: &U,
    g: Unescaping,
    r: Option<E4XStoreReadOnly>,
    i: int,
)
    requires
        call_ensures(
            E4XStoreReadOnly::parse::<U>,
            (source, ignore_white, ignore_comments, ignore_pi, unescape),
            r,
        ),
        parse::computes(*unescape, g),
        r is Some,
        0 <= i < r->0.doc().nodes.len(),
    ensures
        ({
            let v = r->0.doc().nodes[i];
            &&& ignore_white && (v.kind is Text || v.kind is Element) && v.value is Some
                ==> white_space::tight(v.value->0)
            &&& ignore_comments ==> !(v.kind is Comment)
            &&& ignore_pi ==> !(v.kind is ProcessingInstruction)
        }),
{
    let set = ParseSettings { ignore_white, ignore_comments, ignore_pi };
    let evs = parse::decoded_all(xml_reader::source_events(source@), g);
    let args = (source, ignore_white, ignore_comments, ignore_pi, unescape);
    assert(parse::computes(*args.4, g));
    assert(r->0.doc().nodes == parse::parsed(source@, set, g).draft.nodes);
    lemma_run_free(tree::start_state(), evs, set);
    if ignore_white {
        white_space::lemma_no_white_space_kept(source@, set, g, i);
    }
}

/// A source of which every text is without white space around it and that has no comment and
/// no processing instruction parses to the same document under all settings.
pub proof fn lemma_parse_settings<U: Fn(&[u8]) -> Option<String>>(
    source: &str,
    one: ParseSettings,
    other: ParseSettings,
    unescape: &U,
    g: Unescaping,
    r: Option<E4XStoreReadOnly>,
    s: Option<E4XStoreReadOnly>,
)
    requires
        call_ensures(
            E4XStoreReadOnly::parse::<U>,
            (source, one.ignore_white, one.ignore_comments, one.ignore_pi, unescape),
            r,
        ),
        call_ensures(
            E4XStoreReadOnly::parse::<U>,
            (source, other.ignore_white, other.ignore_comments, other.ignore_pi, unescape),
            s,
        ),
        parse::computes(*unescape, g),
        ({
            let evs = parse::decoded_all(xml_reader::source_events(source@), g);
            forall|i: int|
                0 <= i < evs.len() ==> (#[trigger] evs[i] matches EventView::Text(t)
                    ==> white_space::tight(t)) && !(evs[i] is Comment) && !(evs[i] is Pi)
        }),
    ensures
        r is Some <==> s is Some,
        r is Some ==> r->0.doc() == s->0.doc(),
{
    let evs = parse::decoded_all(xml_reader::source_events(source@), g);
    let st = tree::start_state();
    let x = (source, one.ignore_white, one.ignore_comments, one.ignore_pi, unescape);
    let y = (source, other.ignore_white, other.ignore_comments, other.ignore_pi, unescape);
    assert(parse::computes(*x.4, g));
    assert(parse::computes(*y.4, g));
    assert forall|i: int| 0 <= i < evs.len() implies !(#[trigger] evs[i] is Comment) by {}
    assert forall|i: int| 0 <= i < evs.len() implies !(#[trigger] evs[i] is Pi) by {}
    white_space::lemma_tight_texts_kept(st, evs, one);
    white_space::lemma_tight_texts_kept(st, evs, other);
    let a = ParseSettings { ignore_white: true, ..one };
    let b = ParseSettings { ignore_white: true, ..other };
    white_space::lemma_nothing_to_ignore(st, evs, a, b);
    let c = ParseSettings { ignore_white: false, ..one };
    let d = ParseSettings { ignore_white: false, ..other };
    white_space::lemma_nothing_to_ignore(st, evs, c, d);
    assert(one == a || one == c);
    assert(other == b || other == d);
    let p = parse::parsed(source@, one, g);
    let q = parse::parsed(source@, other, g);
    assert(p == q);
}

/// A table on the wire, read as a whole, gives back each cell in its row and column: an element
/// of the column's name with the text that the cell's bytes decode to, and none where the cell
/// is absent or empty.
pub proof fn lemma_from_binary(
    bytes: &[u8],
    store: Option<E4XStoreReadOnly>,
    version: u8,
    n: Naming,
    rows: Seq<Seq<Option<Seq<u8>>>>,
    more: Seq<u8>,
    r: int,
    c: int,
)
    requires
        call_ensures(E4XStoreReadOnly::from_binary, (bytes,), store),
        store is Some,
        row_sets::table_ok(n, rows),
        bytes@ == row_sets::header_bytes(version, n) + row_sets::rows_bytes(rows) + (seq![0u8]
            + more),
        bytes@.len() <= usize::MAX,
        0 <= r < rows.len(),
        0 <= c < n.cols.len(),
    ensures
        ({
            let nodes = store->0.doc().nodes;
            let at = 3 + r * (1 + n.cols.len());
            let v = nodes[at + 1 + c];
            &&& nodes.len() == 3 + rows.len() * (1 + n.cols.len())
            &&& nodes[at].parent == Some(2int) && nodes[at].name == Some(text::utf8_lossy(n.row))
            &&& v.kind is Element && v.parent == Some(at) && v.name == Some(
                text::utf8_lossy(n.cols[c]),
            )
            &&& v.value == (match rows[r][c] {
                Some(b) => if b.len() > 0 {
                    Some(text::utf8_lossy(b))
                } else {
                    None
                },
                None => None,
            })
        }),
{
    row_sets::lemma_cell_read(version, n, rows, more, r, c);
}

/// The text of a plain number is written as that number; any other text is no number.
pub proof fn lemma_number(s: &str, r: Option<String>) -> (x: Numeral)
    requires
        call_ensures(cell_text::number_repr, (s,), r),
    ensures
        r matches Some(t) ==> x.plain() && x.text() == s@ && t@ == x.written(),
{
    match r {
        Some(t) => {
            let x = numbers::lemma_number_only(s@);
            numbers::lemma_number_read(x);
            x
        },
        None => arbitrary(),
    }
}

/// The text of a plain number is taken for one.
pub proof fn lemma_number_taken(x: Numeral, s: &str, r: Option<String>)
    requires
        x.plain(),
        s@ == x.text(),
        call_ensures(cell_text::number_repr, (s,), r),
    ensures
        r is Some && r->0@ == x.written(),
{
    numbers::lemma_number_read(x);
}

/// A timestamp is read as its spreadsheet day and the second of that day, and is known for a
/// timestamp; days that spreadsheets do not count are not.
pub proof fn lemma_date(x: Stamp, s: &str, r: Option<(i64, i64)>, known: bool)
    requires
        x.in_range(),
        s@ == x.text(),
        call_ensures(cell_text::parse_date, (s,), r),
        call_ensures(cell_text::is_date, (s,), known),
    ensures
        known == (x.days() >= 1),
        r is Some <==> x.days() >= 1,
        r matches Some(v) ==> v.0 == x.days() && v.1 == x.seconds(),
{
    dates::lemma_date_read(x);
}

/// What is known for a timestamp is written as one.
pub proof fn lemma_date_known(s: &str, known: bool) -> (x: Stamp)
    requires
        call_ensures(cell_text::is_date, (s,), known),
        known,
    ensures
        x.in_range(),
        x.text() == s@,
        x.days() >= 1,
{
    dates::lemma_date_only(s@)
}

/// What is not said about the search for types: types and dates are looked for, in the first
/// thousand rows. A number of rows below nought is none.
pub proof fn lemma_type_opts(
    types: Option<bool>,
    dates_too: Option<bool>,
    rows: Option<i32>,
    r: TypeOpts,
)
    requires
        call_ensures(cells::read_type_opts, (types, dates_too, rows), r),
    ensures
        types is None ==> r.detect_types,
        types matches Some(b) ==> r.detect_types == b,
        dates_too is None ==> r.detect_dates,
        dates_too matches Some(b) ==> r.detect_dates == b,
        rows is None ==> r.sample_rows == 1000,
        rows matches Some(n) ==> n >= 0 ==> r.sample_rows == n,
        rows matches Some(n) ==> n < 0 ==> r.sample_rows == 0,
{
}

/// The text of a field: nothing for the row itself, `@` and a name for an attribute, any other
/// text for a child.
pub proof fn lemma_field(field: &str, r: FieldText)
    requires
        call_ensures(sort_keyed::read_field, (field,), r),
    ensures
        r is Own <==> field@.len() == 0,
        r matches FieldText::Attr(name) ==> field@ == seq!['@'] + name@,
        r is Child <==> field@.len() > 0 && field@[0] != '@',
{
    if field@.len() > 0 && field@[0] == '@' {
        assert(field@ =~= seq!['@'] + field@.drop_first());
    }
}

/// Rows in a sorted order: of two, the first column in which their keys differ puts the earlier
/// one first, and rows whose keys do not differ stand as they stood before.
pub open spec fn sorted(
    order: Seq<u32>,
    keys: Seq<Seq<KeyView>>,
    descending: Seq<bool>,
) -> bool {
    forall|k: int, l: int|
        0 <= k < l < order.len() ==> {
            let a = keys[(#[trigger] order[k]) as int];
            let b = keys[(#[trigger] order[l]) as int];
            ||| sort_order::row_first(a, b, descending)
            ||| (forall|i: int| 0 <= i < descending.len() ==> #[trigger] a[i] == b[i]) && order[k]
                < order[l]
        }
}

proof fn lemma_is_sorted(order: Seq<u32>, keys: Seq<Seq<KeyView>>, descending: Seq<bool>)
    requires
        sort_keyed::sorted_by_keys(order, keys, descending),
    ensures
        sorted(order, keys, descending),
{
    assert forall|k: int, l: int| 0 <= k < l < order.len() implies {
        let a = keys[(#[trigger] order[k]) as int];
        let b = keys[(#[trigger] order[l]) as int];
        ||| sort_order::row_first(a, b, descending)
        ||| (forall|i: int| 0 <= i < descending.len() ==> #[trigger] a[i] == b[i]) && order[k]
            < order[l]
    } by {
        sort_order::lemma_sorted_rows(order, keys, descending, k, l);
    }
}

/// Sorting more than one row gives every position once, sorted by the rows' keys. It is refused
/// exactly if some row is no node or the columns are not described in full.
pub proof fn lemma_sort<N: Fn(&str) -> Option<i64>>(
    items: &Vec<Option<E4XNodeReadOnly>>,
    fields: &Vec<SortField>,
    kinds: &Vec<i32>,
    descending: &Vec<bool>,
    number: &N,
    g: Numbering,
    r: Option<Vec<u32>>,
)
    requires
        call_ensures(
            sort_keyed::sort_keyed::<N>,
            (items, fields, kinds, descending, number),
            r,
        ),
        1 < items@.len() <= u32::MAX,
        sort_keyed::numbers(*number, g),
    ensures
        r is None <==> fields@.len() == 0 || fields@.len() != kinds@.len() || fields@.len()
            != descending@.len() || exists|i: int|
            0 <= i < items@.len() && #[trigger] items@[i] is None,
        r matches Some(order) ==> {
            &&& order@.len() == items@.len()
            &&& order@.no_duplicates()
            &&& forall|x: int| 0 <= x < items@.len() ==> order@.contains(#[trigger] (x as u32))
            &&& sorted(
                order@,
                sort_keyed::all_keys(items@, sort_keyed::field_views(fields@), kinds@, g),
                descending@,
            )
        },
{
    let args = (items, fields, kinds, descending, number);
    assert(sort_keyed::numbers(*args.4, g));
    if r is Some {
        let keys = sort_keyed::all_keys(items@, sort_keyed::field_views(fields@), kinds@, g);
        sort_order::lemma_sorted_all(r->0@, keys, descending@);
        lemma_is_sorted(r->0@, keys, descending@);
    } else if fields@.len() != 0 && fields@.len() == kinds@.len() && fields@.len()
        == descending@.len() {
        assert(!sort_keyed::all_nodes(items@));
    }
}

/// One row or none is sorted as it stands, whatever the columns.
pub proof fn lemma_sort_few<N: Fn(&str) -> Option<i64>>(
    items: &Vec<Option<E4XNodeReadOnly>>,
    fields: &Vec<SortField>,
    kinds: &Vec<i32>,
    descending: &Vec<bool>,
    number: &N,
    r: Option<Vec<u32>>,
)
    requires
        call_ensures(
            sort_keyed::sort_keyed::<N>,
            (items, fields, kinds, descending, number),
            r,
        ),
        items@.len() <= 1,
    ensures
        items@.len() == 0 ==> r is Some && r->0@.len() == 0,
        items@.len() == 1 ==> (r is Some <==> items@[0] is Some),
        items@.len() == 1 && r is Some ==> r->0@ == seq![0u32],
{
    if items@.len() == 1 && r is Some {
        assert(r->0@ =~= seq![0u32]);
    }
}

/// Sorting rows loses none and doubles none: the rows come out in some order of their
/// positions, sorted by their keys. Where nothing is sorted they come out as they went in.
pub proof fn lemma_sort_rows<
    T,
    F: Fn(&str, bool) -> Option<Multiname>,
    N: Fn(&str) -> Option<i64>,
>(
    items: Vec<T>,
    nodes: &Vec<Option<E4XNodeReadOnly>>,
    fields: &Vec<String>,
    kinds: &Vec<i32>,
    descending: &Vec<bool>,
    resolve: &F,
    number: &N,
    w: Resolving,
    g: Numbering,
    r: (Vec<T>, Sorting),
) -> (order: Seq<u32>)
    requires
        call_ensures(
            sort_rows::sort_rows::<T, F, N>,
            (items, nodes, fields, kinds, descending, resolve, number),
            r,
        ),
        nodes@.len() == items@.len(),
        items@.len() <= u32::MAX,
        cells::resolves(*resolve, w),
        sort_keyed::numbers(*number, g),
    ensures
        r.0@.len() == items@.len(),
        items@.len() <= 1 || !(r.1 is Sorted) ==> r.0@ == items@,
        items@.len() > 1 && r.1 is Sorted ==> {
            &&& order.len() == items@.len()
            &&& order.no_duplicates()
            &&& forall|k: int|
                0 <= k < order.len() ==> 0 <= order[k] < items@.len() && #[trigger] r.0@[k]
                    == items@[order[k] as int]
            &&& sorted(
                order,
                sort_keyed::all_keys(nodes@, sort_rows::fields_of(fields@, w), kinds@, g),
                descending@,
            )
        },
{
    let args = (items, nodes, fields, kinds, descending, resolve, number);
    assert(cells::resolves(*args.5, w));
    assert(sort_keyed::numbers(*args.6, g));
    if items@.len() > 1 && r.1 is Sorted {
        let order = choose|order: Seq<u32>|
            {
                &&& r.0@ == #[trigger] sort_rows::permuted(items@, order)
                &&& forall|w: Resolving, g: Numbering|
                    #![trigger cells::resolves(*resolve, w), sort_keyed::numbers(*number, g)]
                    cells::resolves(*resolve, w) && sort_keyed::numbers(*number, g)
                        ==> sort_keyed::sorted_by_keys(
                        order,
                        sort_keyed::all_keys(nodes@, sort_rows::fields_of(fields@, w), kinds@, g),
                        descending@,
                    )
            };
        let keys = sort_keyed::all_keys(nodes@, sort_rows::fields_of(fields@, w), kinds@, g);
        assert(sort_keyed::sorted_by_keys(order, keys, descending@));
        sort_order::lemma_sorted_all(order, keys, descending@);
        lemma_is_sorted(order, keys, descending@);
        order
    } else {
        Seq::empty()
    }
}

/// When rows are sorted: where the columns are described in full, every field can be resolved
/// and every row is a node. A field that cannot be resolved is told apart from the rest.
pub proof fn lemma_sorting<
    T,
    F: Fn(&str, bool) -> Option<Multiname>,
    N: Fn(&str) -> Option<i64>,
>(
    items: Vec<T>,
    nodes: &Vec<Option<E4XNodeReadOnly>>,
    fields: &Vec<String>,
    kinds: &Vec<i32>,
    descending: &Vec<bool>,
    resolve: &F,
    number: &N,
    w: Resolving,
    r: (Vec<T>, Sorting),
)
    requires
        call_ensures(
            sort_rows::sort_rows::<T, F, N>,
            (items, nodes, fields, kinds, descending, resolve, number),
            r,
        ),
        nodes@.len() == items@.len(),
        1 < items@.len() <= u32::MAX,
        cells::resolves(*resolve, w),
    ensures
        ({
            let full = fields@.len() > 0 && fields@.len() == kinds@.len() && fields@.len()
                == descending@.len();
            let lost = exists|j: int|
                0 <= j < fields@.len() && sort_rows::field_of((#[trigger] fields@[j])@, w) is None;
            let gaps = exists|i: int| 0 <= i < nodes@.len() && #[trigger] nodes@[i] is None;
            &&& r.1 is Sorted <==> full && !lost && !gaps
            &&& r.1 is Unresolved <==> full && lost
            &&& r.1 is Unsorted <==> !full || !lost && gaps
        }),
{
    let args = (items, nodes, fields, kinds, descending, resolve, number);
    assert(cells::resolves(*args.5, w));
    assert(sort_keyed::all_nodes(nodes@) <==> !exists|i: int|
        0 <= i < nodes@.len() && #[trigger] nodes@[i] is None);
    assert(sort_rows::all_resolved(fields@, w) <==> !exists|j: int|
        0 <= j < fields@.len() && sort_rows::field_of((#[trigger] fields@[j])@, w) is None);
}

/// The roots of a document are the nodes without a parent, in document order.
pub proof fn lemma_roots(store: &E4XStoreReadOnly, r: &[u32])
    requires
        call_ensures(E4XStoreReadOnly::roots, (store,), r),
    ensures
        forall|j: u32| #[trigger]
            r@.contains(j) <==> j < store.doc().nodes.len() && store.doc().nodes[j as int].parent
                is None,
        forall|k: int, l: int| 0 <= k < l < r@.len() ==> r@[k] < r@[l],
{
    let nodes = store.doc().nodes;
    let ks = doc::kids(nodes, None, false, 0);
    lemma_roots_from(nodes, 0);
    let got = doc::as_links(ks);
    assert forall|k: int| 0 <= k < ks.len() implies 0 <= #[trigger] ks[k] < nodes.len() by {
        assert(ks.contains(ks[k]));
    }
    assert forall|j: u32| #[trigger] got.contains(j) <==> j < nodes.len() && nodes[j as int].parent
        is None by {
        if got.contains(j) {
            let k = choose|k: int| 0 <= k < got.len() && got[k] == j;
            assert(ks.contains(ks[k]));
        }
        if j < nodes.len() && nodes[j as int].parent is None {
            assert(doc::node_ok(nodes, j as int));
            assert(ks.contains(j as int));
            let k = choose|k: int| 0 <= k < ks.len() && ks[k] == j as int;
            assert(got[k] == j);
        }
    }
}

proof fn lemma_roots_from(nodes: Seq<NodeView>, from: int)
    requires
        0 <= from,
    ensures
        forall|j: int| #[trigger]
            doc::kids(nodes, None, false, from).contains(j) <==> from <= j < nodes.len()
                && nodes[j].parent is None && !(nodes[j].kind is Attribute),
        search::ascending(doc::kids(nodes, None, false, from)),
    decreases nodes.len() - from,
{
    let all = doc::kids(nodes, None, false, from);
    if from < nodes.len() {
        lemma_roots_from(nodes, from + 1);
        let rest = doc::kids(nodes, None, false, from + 1);
        if doc::is_kid(nodes[from], None, false) {
            assert(all =~= seq![from] + rest);
            assert forall|j: int| #[trigger] all.contains(j) <==> from <= j < nodes.len()
                && nodes[j].parent is None && !(nodes[j].kind is Attribute) by {
                if all.contains(j) && j != from {
                    let k = choose|k: int| 0 <= k < all.len() && all[k] == j;
                    assert(rest[k - 1] == j);
                    assert(rest.contains(j));
                }
                if j == from {
                    assert(all[0] == j);
                }
                if rest.contains(j) {
                    let k = choose|k: int| 0 <= k < rest.len() && rest[k] == j;
                    assert(all[k + 1] == j);
                }
            }
            assert forall|k: int, l: int| 0 <= k < l < all.len() implies all[k] < all[l] by {
                assert(rest.contains(rest[l - 1]));
                if k > 0 {
                    assert(rest[k - 1] < rest[l - 1]);
                }
            }
        }
    }
}

/// An object that points at the first root of a document points at the first of its nodes that
/// have no parent, and at nothing where there is none.
pub proof fn lemma_first_root(h: Option<Handle>, d: Doc)
    requires
        doc::nodes_ok(d.nodes),
        xml_object::is_first_root(h, d),
    ensures
        h is None <==> d.nodes.len() == 0,
        h matches Some(n) ==> n.store.doc() == d && n.index < d.nodes.len()
            && d.nodes[n.index as int].parent is None && forall|j: int|
            0 <= j < n.index ==> (#[trigger] d.nodes[j]).parent is Some,
{
    let ks = doc::kids(d.nodes, None, false, 0);
    lemma_roots_from(d.nodes, 0);
    if ks.len() > 0 {
        assert(ks.contains(ks[0]));
        assert forall|j: int| 0 <= j < ks[0] implies (#[trigger] d.nodes[j]).parent is Some by {
            assert(doc::node_ok(d.nodes, j));
            if d.nodes[j].parent is None {
                assert(ks.contains(j));
                let k = choose|k: int| 0 <= k < ks.len() && ks[k] == j;
                if k > 0 {
                    assert(ks[0] < ks[k]);
                }
            }
        }
    } else if d.nodes.len() > 0 {
        assert(doc::node_ok(d.nodes, 0));
        assert(d.nodes[0].parent is None);
        assert(ks.contains(0));
    }
}

} // verus!
