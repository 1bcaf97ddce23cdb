//! The order that rows are sorted in.

use crate::node::E4XNodeReadOnly;
use crate::queries;
use crate::sort_keyed;
use crate::sort_keyed::FieldView;
use crate::sort_keyed::KeyView;
use crate::sort_keyed::Numbering;
use crate::sort_rows;
use crate::text;
use vstd::prelude::*;
use vstd::utf8::*;

verus! {

/// Lexicographic order: up to some place the two agree, and there the first ends and the other
/// goes on, or the first has the smaller byte.
pub open spec fn comes_first(a: Seq<u8>, b: Seq<u8>) -> bool {
    exists|n: int| agree_to(a, b, n) && #[trigger] smaller_at(a, b, n)
}

/// Two sequences have the same first `n` bytes.
pub open spec fn agree_to(a: Seq<u8>, b: Seq<u8>, n: int) -> bool {
    &&& 0 <= n <= a.len() && n <= b.len()
    &&& forall|i: int| 0 <= i < n ==> a[i] == b[i]
}

/// At place `n` the first has ended, or has the smaller byte.
pub open spec fn smaller_at(a: Seq<u8>, b: Seq<u8>, n: int) -> bool {
    0 <= n < b.len() && (n == a.len() || n < a.len() && a[n] < b[n])
}

/// Texts are ordered by their bytes, lexicographically.
pub proof fn lemma_bytes_order(a: Seq<u8>, b: Seq<u8>)
    ensures
        sort_keyed::bytes_rank(a, b) is Less <==> comes_first(a, b),
        sort_keyed::bytes_rank(a, b) is Equal <==> a == b,
        sort_keyed::bytes_rank(a, b) is Greater <==> comes_first(b, a),
    decreases a.len(),
{
    if a.len() > 0 && b.len() > 0 && a[0] == b[0] {
        let x = a.drop_first();
        let y = b.drop_first();
        lemma_bytes_order(x, y);
        lemma_same_head(a, b);
        lemma_same_head(b, a);
        if x == y {
            assert(a =~= seq![a[0]] + x);
            assert(b =~= seq![b[0]] + y);
        }
    } else if a.len() > 0 && b.len() > 0 {
        if a[0] < b[0] {
            assert(agree_to(a, b, 0) && smaller_at(a, b, 0));
        } else {
            assert(agree_to(b, a, 0) && smaller_at(b, a, 0));
        }
        lemma_heads_differ(a, b);
        lemma_heads_differ(b, a);
    } else if a.len() > 0 {
        assert(agree_to(b, a, 0) && smaller_at(b, a, 0));
    } else if b.len() > 0 {
        assert(agree_to(a, b, 0) && smaller_at(a, b, 0));
    } else {
        assert(a =~= b);
    }
}

proof fn lemma_same_head(a: Seq<u8>, b: Seq<u8>)
    requires
        a.len() > 0,
        b.len() > 0,
        a[0] == b[0],
    ensures
        comes_first(a, b) == comes_first(a.drop_first(), b.drop_first()),
{
    let x = a.drop_first();
    let y = b.drop_first();
    if comes_first(a, b) {
        let n = choose|n: int| agree_to(a, b, n) && #[trigger] smaller_at(a, b, n);
        assert(n > 0);
        assert forall|i: int| 0 <= i < n - 1 implies x[i] == y[i] by {
            assert(a[i + 1] == b[i + 1]);
        }
        assert(agree_to(x, y, n - 1) && smaller_at(x, y, n - 1));
    }
    if comes_first(x, y) {
        let n = choose|n: int| agree_to(x, y, n) && #[trigger] smaller_at(x, y, n);
        assert forall|i: int| 0 <= i < n + 1 implies a[i] == b[i] by {
            if i > 0 {
                assert(x[i - 1] == y[i - 1]);
            }
        }
        assert(agree_to(a, b, n + 1) && smaller_at(a, b, n + 1));
    }
}

proof fn lemma_heads_differ(a: Seq<u8>, b: Seq<u8>)
    requires
        a.len() > 0,
        b.len() > 0,
        a[0] != b[0],
    ensures
        comes_first(a, b) == (a[0] < b[0]),
{
    if comes_first(a, b) {
        let n = choose|n: int| agree_to(a, b, n) && #[trigger] smaller_at(a, b, n);
        assert(n == 0);
    }
    if a[0] < b[0] {
        assert(agree_to(a, b, 0) && smaller_at(a, b, 0));
    }
}

/// A text that another begins with comes before it; the empty text comes first of all.
pub proof fn lemma_beginning_first(a: Seq<char>, b: Seq<char>, kind: i32, g: Numbering)
    requires
        b.len() > 0,
        kind != 1,
        kind != 2,
    ensures
        sort_keyed::key_rank(
            sort_keyed::key_of(a, kind, g),
            sort_keyed::key_of(a + b, kind, g),
        ) is Less,
        sort_keyed::key_rank(
            sort_keyed::key_of(a + b, kind, g),
            sort_keyed::key_of(a, kind, g),
        ) is Greater,
{
    let x = encode_utf8(a);
    let y = encode_utf8(a + b);
    text::lemma_encode_concat(a, b);
    assert(encode_utf8(b).len() > 0) by {
        encode_utf8_first_scalar(b);
    }
    lemma_bytes_order(x, y);
    lemma_bytes_order(y, x);
    assert(agree_to(x, y, x.len() as int) && smaller_at(x, y, x.len() as int));
}

/// A key comes before another: texts in lexicographic order and before numbers, numbers by
/// their value, and what is no number last.
pub open spec fn key_first(a: KeyView, b: KeyView) -> bool {
    match (a, b) {
        (KeyView::Str(x), KeyView::Str(y)) => comes_first(x, y),
        (KeyView::Str(_), KeyView::Num(_)) => true,
        (KeyView::Num(_), KeyView::Str(_)) => false,
        (KeyView::Num(x), KeyView::Num(y)) => match (x, y) {
            (Some(m), Some(n)) => m < n,
            (Some(_), None) => true,
            (None, _) => false,
        },
    }
}

/// One key comes before the other, or they are the same key.
pub proof fn lemma_key_order(a: KeyView, b: KeyView)
    ensures
        sort_keyed::key_rank(a, b) is Less <==> key_first(a, b),
        sort_keyed::key_rank(a, b) is Greater <==> key_first(b, a),
        sort_keyed::key_rank(a, b) is Equal <==> a == b,
{
    if let KeyView::Str(x) = a {
        if let KeyView::Str(y) = b {
            lemma_bytes_order(x, y);
        }
    }
}

proof fn lemma_row_order(a: Seq<KeyView>, b: Seq<KeyView>, descending: Seq<bool>, j: int)
    requires
        0 <= j <= descending.len(),
        forall|i: int| 0 <= i < j ==> #[trigger] a[i] == b[i],
    ensures
        sort_keyed::row_rank(a, b, descending, j) is Less <==> row_first(a, b, descending),
        sort_keyed::row_rank(a, b, descending, j) is Equal <==> forall|i: int|
            0 <= i < descending.len() ==> #[trigger] a[i] == b[i],
    decreases descending.len() - j,
{
    if j < descending.len() {
        lemma_key_order(a[j], b[j]);
        if a[j] == b[j] {
            lemma_row_order(a, b, descending, j + 1);
        } else {
            if sort_keyed::row_rank(a, b, descending, j) is Less {
                assert(decided_at(a, b, descending, j));
            }
            if row_first(a, b, descending) {
                let k = choose|k: int| #[trigger] decided_at(a, b, descending, k);
                if k < j {
                    assert(a[k] == b[k]);
                    lemma_key_order(a[k], b[k]);
                } else if k > j {
                    assert(a[j] == b[j]);
                }
                assert(k == j);
            }
        }
    } else if row_first(a, b, descending) {
        let k = choose|k: int| #[trigger] decided_at(a, b, descending, k);
        assert(a[k] == b[k]);
        lemma_key_order(a[k], b[k]);
    }
}

/// Two rows agree in the columns before `j`, and there the first comes first; in a column that
/// goes down, the other does.
pub open spec fn decided_at(
    a: Seq<KeyView>,
    b: Seq<KeyView>,
    descending: Seq<bool>,
    j: int,
) -> bool {
    &&& 0 <= j < descending.len()
    &&& forall|i: int| 0 <= i < j ==> #[trigger] a[i] == b[i]
    &&& if descending[j] {
        key_first(b[j], a[j])
    } else {
        key_first(a[j], b[j])
    }
}

/// Some column puts the first row before the other.
pub open spec fn row_first(a: Seq<KeyView>, b: Seq<KeyView>, descending: Seq<bool>) -> bool {
    exists|j: int| #[trigger] decided_at(a, b, descending, j)
}

/// Of two rows in a sorted order, the first column in which they differ puts the earlier one
/// first; rows that do not differ stand as they stood before.
pub proof fn lemma_sorted_rows(
    order: Seq<u32>,
    rows: Seq<Seq<KeyView>>,
    descending: Seq<bool>,
    k: int,
    l: int,
)
    requires
        sort_keyed::sorted_by_keys(order, rows, descending),
        0 <= k < l < order.len(),
    ensures
        ({
            let a = rows[order[k] as int];
            let b = rows[order[l] as int];
            ||| row_first(a, b, descending)
            ||| (forall|i: int| 0 <= i < descending.len() ==> #[trigger] a[i] == b[i]) && order[k]
                < order[l]
        }),
{
    let a = rows[order[k] as int];
    let b = rows[order[l] as int];
    assert(sort_keyed::row_before(rows, descending, order[k] as int, order[l] as int));
    lemma_row_order(a, b, descending, 0);
}

/// A sorted order is a rearrangement: every row is in it, once.
pub proof fn lemma_sorted_all(order: Seq<u32>, rows: Seq<Seq<KeyView>>, descending: Seq<bool>)
    requires
        rows.len() <= u32::MAX,
        sort_keyed::sorted_by_keys(order, rows, descending),
    ensures
        order.len() == rows.len(),
        forall|x: int| 0 <= x < rows.len() ==> order.contains(#[trigger] (x as u32)),
        order.no_duplicates(),
{
    assert forall|k: int, l: int| 0 <= k < l < order.len() implies order[k] != order[l] by {
        lemma_sorted_rows(order, rows, descending, k, l);
        if order[k] == order[l] {
            let a = rows[order[k] as int];
            let j = choose|j: int| #[trigger] decided_at(a, a, descending, j);
            lemma_key_order(a[j], a[j]);
        }
    }
}

/// The keys of rows: in a column of kind one the number that the text reads as, in one of kind
/// two the text in lower case, in any other the text itself. The text is that of the row, of
/// its attributes or of its child elements of a name.
pub proof fn lemma_keys_read(
    items: Seq<Option<E4XNodeReadOnly>>,
    fields: Seq<FieldView>,
    kinds: Seq<i32>,
    g: Numbering,
    i: int,
    j: int,
)
    requires
        0 <= i < items.len(),
        0 <= j < fields.len(),
    ensures
        ({
            let h = items[i]->0@;
            let t = match fields[j] {
                FieldView::Own => queries::string_value(h.nodes(), h.index),
                FieldView::Attr(n) => queries::joined_text(
                    h.nodes(),
                    queries::matching_attrs(h.nodes(), h.index, n),
                ),
                FieldView::Child(n) => queries::joined_text(
                    h.nodes(),
                    queries::matching_children(h.nodes(), h.index, n),
                ),
            };
            let key = sort_keyed::all_keys(items, fields, kinds, g)[i][j];
            &&& kinds[j] == 1 ==> key == KeyView::Num(g(text::white_trimmed(t)))
            &&& kinds[j] == 2 ==> key == KeyView::Str(encode_utf8(sort_keyed::lowercase(t)))
            &&& kinds[j] != 1 && kinds[j] != 2 ==> key == KeyView::Str(encode_utf8(t))
        }),
{
}

/// The text of a field selects the row itself where it is empty, an attribute where it begins
/// with `@`, and a child element otherwise; the name is the rest of the text.
pub proof fn lemma_field_selects(name: Seq<char>, g: crate::cells::Resolving)
    ensures
        sort_rows::field_of(Seq::empty(), g) == Some(FieldView::Own),
        sort_rows::field_of(seq!['@'] + name, g) == (match g(name, true) {
            Some(m) => Some(FieldView::Attr(m)),
            None => None,
        }),
        name.len() > 0 && name[0] != '@' ==> sort_rows::field_of(name, g) == (match g(name, false) {
            Some(m) => Some(FieldView::Child(m)),
            None => None,
        }),
{
    assert((seq!['@'] + name).drop_first() =~= name);
}

/// Rows put in an order: the row at each place is the one that the order names there, and no
/// row is lost or doubled.
pub proof fn lemma_rows_permuted<T>(items: Seq<T>, order: Seq<u32>)
    requires
        items.len() <= u32::MAX,
        sort_keyed::each_once(order, items.len()),
    ensures
        sort_rows::permuted(items, order).len() == items.len(),
        forall|k: int|
            0 <= k < items.len() ==> #[trigger] sort_rows::permuted(items, order)[k]
                == items[order[k] as int],
        order.no_duplicates(),
{
}

} // verus!
