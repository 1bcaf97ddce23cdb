//! Sorting rows in place by columns that texts describe.

use crate::cells;
use crate::cells::Resolving;
use crate::multiname::Multiname;
use crate::node::E4XNodeReadOnly;
use crate::sort_keyed;
use crate::sort_keyed::read_field;
use crate::sort_keyed::sort_keyed;
use crate::sort_keyed::FieldText;
use crate::sort_keyed::FieldView;
use crate::sort_keyed::Numbering;
use crate::sort_keyed::SortField;
use vstd::prelude::*;

verus! {

/// What the text of a field selects, with its name resolved: empty for the node itself, a
/// name behind `@` for an attribute, otherwise a child's name.
pub open spec fn field_of(text: Seq<char>, g: Resolving) -> Option<FieldView> {
    if text.len() == 0 {
        Some(FieldView::Own)
    } else if text[0] == '@' {
        match g(text.drop_first(), true) {
            Some(m) => Some(FieldView::Attr(m)),
            None => None,
        }
    } else {
        match g(text, false) {
            Some(m) => Some(FieldView::Child(m)),
            None => None,
        }
    }
}

/// Every field can be resolved.
pub open spec fn all_resolved(fields: Seq<String>, g: Resolving) -> bool {
    forall|j: int| 0 <= j < fields.len() ==> field_of((#[trigger] fields[j])@, g) is Some
}

/// What the fields select.
pub open spec fn fields_of(fields: Seq<String>, g: Resolving) -> Seq<FieldView> {
    Seq::new(fields.len(), |j: int| field_of(fields[j]@, g)->0)
}

/// Resolves the text of a field; nothing if its name cannot be.
pub fn resolve_field<F: Fn(&str, bool) -> Option<Multiname>>(field: &str, resolve: &F) -> (r: Option<
    SortField,
>)
    requires
        forall|s: &str, attr: bool| call_requires(*resolve, (s, attr)),
    ensures
        forall|g: Resolving| #[trigger]
            cells::resolves(*resolve, g) ==> (match r {
                Some(f) => Some(f@),
                None => None,
            }) == field_of(field@, g),
{
    match read_field(field) {
        FieldText::Own => Some(SortField::Own),
        FieldText::Attr(name) => match resolve(name.as_str(), true) {
            Some(m) => Some(SortField::Attr(m)),
            None => None,
        },
        FieldText::Child => match resolve(field, false) {
            Some(m) => Some(SortField::Child(m)),
            None => None,
        },
    }
}

/// Resolves the texts of fields; nothing if one cannot be.
pub fn resolve_fields<F: Fn(&str, bool) -> Option<Multiname>>(
    fields: &Vec<String>,
    resolve: &F,
) -> (r: Option<Vec<SortField>>)
    requires
        forall|s: &str, attr: bool| call_requires(*resolve, (s, attr)),
    ensures
        r matches Some(list) ==> list@.len() == fields@.len(),
        forall|g: Resolving| #[trigger]
            cells::resolves(*resolve, g) ==> (match r {
                Some(list) => all_resolved(fields@, g) && sort_keyed::field_views(list@)
                    == fields_of(fields@, g),
                None => !all_resolved(fields@, g),
            }),
{
    let mut out: Vec<SortField> = Vec::new();
    let mut j: usize = 0;
    while j < fields.len()
        invariant
            j <= fields@.len(),
            out@.len() == j,
            forall|s: &str, attr: bool| call_requires(*resolve, (s, attr)),
            forall|g: Resolving, k: int|
                #![trigger cells::resolves(*resolve, g), out@[k]]
                cells::resolves(*resolve, g) && 0 <= k < j ==> Some(out@[k]@) == field_of(
                    fields@[k]@,
                    g,
                ),
        decreases fields@.len() - j,
    {
        match resolve_field(fields[j].as_str(), resolve) {
            Some(f) => out.push(f),
            None => {
                return None;
            },
        }
        j += 1;
    }
    proof {
        assert forall|g: Resolving| #[trigger] cells::resolves(*resolve, g) implies all_resolved(
            fields@,
            g,
        ) && sort_keyed::field_views(out@) == fields_of(fields@, g) by {
            assert forall|k: int| 0 <= k < fields@.len() implies field_of(
                (#[trigger] fields@[k])@,
                g,
            ) == Some(out@[k]@) by {}
            assert(sort_keyed::field_views(out@) =~= fields_of(fields@, g));
        }
    }
    Some(out)
}

/// Rows put in an order: at each place the row from the position that the order has there.
pub open spec fn permuted<T>(items: Seq<T>, order: Seq<u32>) -> Seq<T> {
    Seq::new(order.len(), |k: int| items[order[k] as int])
}

/// Puts rows in an order.
pub fn permute<T>(items: Vec<T>, order: &Vec<u32>) -> (r: Vec<T>)
    requires
        sort_keyed::each_once(order@, items@.len()),
    ensures
        r@ == permuted(items@, order@),
{
    let ghost all = items@;
    let n: usize = items.len();
    let mut items = items;
    let mut slots: Vec<Option<T>> = Vec::new();
    let mut back: Vec<Option<T>> = Vec::new();
    while items.len() > 0
        invariant
            items@.len() + back@.len() == all.len(),
            items@ == all.take(items@.len() as int),
            forall|k: int|
                0 <= k < back@.len() ==> #[trigger] back@[k] == Some(all[all.len() - 1 - k]),
        decreases items@.len(),
    {
        let last = items.pop();
        back.push(last);
        assert(items@ =~= all.take(items@.len() as int));
    }
    while back.len() > 0
        invariant
            slots@.len() + back@.len() == all.len(),
            forall|k: int|
                0 <= k < back@.len() ==> #[trigger] back@[k] == Some(all[all.len() - 1 - k]),
            forall|k: int| 0 <= k < slots@.len() ==> #[trigger] slots@[k] == Some(all[k]),
        decreases back@.len(),
    {
        if let Some(slot) = back.pop() {
            slots.push(slot);
        }
    }
    let mut out: Vec<T> = Vec::new();
    let mut k: usize = 0;
    while k < n
        invariant
            k <= n == all.len(),
            slots@.len() == n,
            out@.len() == k,
            sort_keyed::each_once(order@, all.len()),
            forall|p: int|
                0 <= p < n && !order@.take(k as int).contains(p as u32) ==> #[trigger] slots@[p]
                    == Some(all[p]),
            forall|j: int| 0 <= j < k ==> #[trigger] out@[j] == all[order@[j] as int],
        decreases n - k,
    {
        let p: usize = order[k] as usize;
        proof {
            if order@.take(k as int).contains(order@[k as int]) {
                let j = choose|j: int|
                    0 <= j < k && order@.take(k as int)[j] == order@[k as int];
                assert(order@[j] == order@[k as int]);
            }
            assert(slots@[p as int] == Some(all[p as int]));
        }
        let slot = slots[p].take();
        if let Some(x) = slot {
            out.push(x);
        }
        proof {
            let now = order@.take(k + 1);
            assert(now[k as int] == order@[k as int]);
            assert forall|q: int| 0 <= q < n && !now.contains(q as u32) implies #[trigger] slots@[q]
                == Some(all[q]) by {
                assert(q != p);
                if order@.take(k as int).contains(q as u32) {
                    let j = choose|j: int| 0 <= j < k && order@.take(k as int)[j] == q as u32;
                    assert(now[j] == q as u32);
                }
            }
        }
        k += 1;
    }
    assert(out@ =~= permuted(all, order@));
    out
}

/// What came of sorting rows.
#[derive(Clone, Copy, PartialEq, Eq, Structural, Debug)]
pub enum Sorting {
    /// The rows are sorted.
    Sorted,
    /// Nothing was sorted: some row is no node, or the columns are not described in full.
    Unsorted,
    /// The name of a field could not be resolved.
    Unresolved,
}

/// The columns are described in full, and there is one.
pub open spec fn described(fields: Seq<String>, kinds: Seq<i32>, descending: Seq<bool>) -> bool {
    fields.len() == kinds.len() && kinds.len() == descending.len() && fields.len() > 0
}

/// Sorts rows by the columns that `fields`, `kinds` and `descending` describe. `nodes` are the
/// rows as nodes, where they are. Rows with equal keys keep their order; where nothing is
/// sorted, all rows do.
pub fn sort_rows<T, F: Fn(&str, bool) -> Option<Multiname>, N: Fn(&str) -> Option<i64>>(
    items: Vec<T>,
    nodes: &Vec<Option<E4XNodeReadOnly>>,
    fields: &Vec<String>,
    kinds: &Vec<i32>,
    descending: &Vec<bool>,
    resolve: &F,
    number: &N,
) -> (r: (Vec<T>, Sorting))
    requires
        nodes@.len() == items@.len(),
        items@.len() <= u32::MAX,
        forall|s: &str, attr: bool| call_requires(*resolve, (s, attr)),
        forall|x: &str| call_requires(*number, (x,)),
    ensures
        r.1 != Sorting::Sorted || items@.len() <= 1 ==> r.0@ == items@,
        items@.len() <= 1 ==> r.1 == (if sort_keyed::all_nodes(nodes@) {
            Sorting::Sorted
        } else {
            Sorting::Unsorted
        }),
        items@.len() > 1 && !described(fields@, kinds@, descending@) ==> r.1 == Sorting::Unsorted,
        forall|w: Resolving| #[trigger]
            cells::resolves(*resolve, w) && items@.len() > 1 && described(
                fields@,
                kinds@,
                descending@,
            ) ==> r.1 == (if !all_resolved(fields@, w) {
                Sorting::Unresolved
            } else if sort_keyed::all_nodes(nodes@) {
                Sorting::Sorted
            } else {
                Sorting::Unsorted
            }),
        items@.len() > 1 && r.1 == Sorting::Sorted ==> exists|order: Seq<u32>|
            {
                &&& r.0@ == #[trigger] permuted(items@, order)
                &&& forall|w: Resolving, g: Numbering|
                    #![trigger cells::resolves(*resolve, w), sort_keyed::numbers(*number, g)]
                    cells::resolves(*resolve, w) && sort_keyed::numbers(*number, g)
                        ==> sort_keyed::sorted_by_keys(
                        order,
                        sort_keyed::all_keys(nodes@, fields_of(fields@, w), kinds@, g),
                        descending@,
                    )
            },
{
    let n: usize = items.len();
    if n > 1 && (fields.len() != kinds.len() || kinds.len() != descending.len() || fields.len()
        == 0) {
        return (items, Sorting::Unsorted);
    }
    if n <= 1 {
        let none: Vec<SortField> = Vec::new();
        return match sort_keyed(nodes, &none, kinds, descending, number) {
            Some(_) => (items, Sorting::Sorted),
            None => (items, Sorting::Unsorted),
        };
    }
    let columns = match resolve_fields(fields, resolve) {
        Some(list) => list,
        None => {
            return (items, Sorting::Unresolved);
        },
    };
    match sort_keyed(nodes, &columns, kinds, descending, number) {
        Some(order) => {
            let ghost before = items@;
            let out = permute(items, &order);
            proof {
                assert(out@ == permuted(before, order@));
            }
            (out, Sorting::Sorted)
        },
        None => (items, Sorting::Unsorted),
    }
}

} // verus!
