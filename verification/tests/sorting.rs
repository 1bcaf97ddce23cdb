use e4x_read_only::sort_keyed::read_field;
use e4x_read_only::sort_keyed::sort_keyed;
use e4x_read_only::sort_keyed::FieldText;
use e4x_read_only::sort_keyed::Rank;
use e4x_read_only::sort_keyed::SortField;
use e4x_read_only::sort_keyed::SortKey;
use e4x_read_only::sort_rows::permute;
use e4x_read_only::sort_rows::resolve_fields;
use e4x_read_only::sort_rows::sort_rows;
use e4x_read_only::sort_rows::Sorting;
use e4x_read_only::E4XNodeReadOnly;
use e4x_read_only::E4XStoreReadOnly;
use e4x_read_only::Multiname;
use std::rc::Rc;

fn unescape(raw: &[u8]) -> Option<String> {
    let text = std::str::from_utf8(raw).ok()?;
    quick_xml::escape::unescape(text).ok().map(|t| t.into_owned())
}

fn rows(src: &str) -> Vec<Option<E4XNodeReadOnly>> {
    let store = Rc::new(E4XStoreReadOnly::parse(src, true, true, true, &unescape).unwrap());
    let at = store.roots()[0];
    let mut out = Vec::new();
    E4XNodeReadOnly::new(store, at).all_children(&mut out);
    out.into_iter().map(Some).collect()
}

fn local(name: &str) -> Multiname {
    Multiname {
        any_name: false,
        local: Some(name.to_string()),
        any_namespace: true,
        namespaces: Vec::new(),
        attribute: false,
        explicit_namespace: false,
    }
}

// An integer that orders as the number does.
fn number(s: &str) -> Option<i64> {
    let v: f64 = s.parse().ok()?;
    if v.is_nan() {
        return None;
    }
    let bits = (v + 0.0).to_bits() as i64;
    Some(bits ^ (((bits >> 63) as u64) >> 1) as i64)
}

const DATA: &str = r#"<t><r id="3"><n>10</n><s>beta</s></r><r id="1"><n>9</n><s>Alpha</s></r><r id="2"><n>10</n><s>alpha</s></r><r id="4"><n>x</n><s>gamma</s></r></t>"#;

#[test]
fn texts_sort_by_their_bytes() {
    let order = sort_keyed(
        &rows(DATA),
        &vec![SortField::Child(local("s"))],
        &vec![0],
        &vec![false],
        &number,
    );
    assert_eq!(order, Some(vec![1, 2, 0, 3]));
}

#[test]
fn lower_case_columns_ignore_case_and_keep_ties_in_order() {
    let order = sort_keyed(
        &rows(DATA),
        &vec![SortField::Child(local("s"))],
        &vec![2],
        &vec![false],
        &number,
    );
    // "Alpha" and "alpha" tie and stay in their order.
    assert_eq!(order, Some(vec![1, 2, 0, 3]));
    let down = sort_keyed(
        &rows(DATA),
        &vec![SortField::Child(local("s"))],
        &vec![2],
        &vec![true],
        &number,
    );
    assert_eq!(down, Some(vec![3, 0, 1, 2]));
}

#[test]
fn numbers_sort_by_value_and_what_is_none_comes_last() {
    let up = sort_keyed(
        &rows(DATA),
        &vec![SortField::Child(local("n"))],
        &vec![1],
        &vec![false],
        &number,
    );
    assert_eq!(up, Some(vec![1, 0, 2, 3]));
    let down = sort_keyed(
        &rows(DATA),
        &vec![SortField::Child(local("n"))],
        &vec![1],
        &vec![true],
        &number,
    );
    assert_eq!(down, Some(vec![3, 0, 2, 1]));
}

#[test]
fn later_columns_break_ties() {
    let order = sort_keyed(
        &rows(DATA),
        &vec![
            SortField::Child(local("n")),
            SortField::Attr(Multiname {
                attribute: true,
                ..local("id")
            }),
        ],
        &vec![1, 1],
        &vec![false, false],
        &number,
    );
    assert_eq!(order, Some(vec![1, 2, 0, 3]));
}

#[test]
fn the_row_itself_may_be_the_key() {
    let items = rows("<t><v>b</v><v>a</v><v>c</v></t>");
    let order = sort_keyed(&items, &vec![SortField::Own], &vec![0], &vec![false], &number);
    assert_eq!(order, Some(vec![1, 0, 2]));
}

#[test]
fn nothing_is_sorted_without_a_description_or_a_node() {
    let mut items = rows(DATA);
    assert_eq!(
        sort_keyed(&items, &vec![SortField::Own], &vec![0, 0], &vec![false], &number),
        None
    );
    assert_eq!(sort_keyed(&items, &vec![], &vec![], &vec![], &number), None);
    items[1] = None;
    assert_eq!(
        sort_keyed(&items, &vec![SortField::Own], &vec![0], &vec![false], &number),
        None
    );
    let one = vec![None];
    assert_eq!(sort_keyed(&one, &vec![], &vec![], &vec![], &number), None);
    assert_eq!(
        sort_keyed(&one, &vec![SortField::Own], &vec![0], &vec![false], &number),
        None
    );
    let mut node = rows(DATA);
    node.truncate(1);
    assert_eq!(sort_keyed(&node, &vec![], &vec![], &vec![], &number), Some(vec![0]));
    assert_eq!(sort_keyed(&vec![], &vec![], &vec![], &vec![], &number), Some(vec![]));
}

#[test]
fn fields_read_as_selectors() {
    assert!(matches!(read_field(""), FieldText::Own));
    assert!(matches!(read_field("@a"), FieldText::Attr(n) if n == "a"));
    assert!(matches!(read_field("a"), FieldText::Child));
}

#[test]
fn keys_compare_by_kind() {
    let a = SortKey::from_text("A", 2, &number);
    let b = SortKey::from_text("a", 0, &number);
    assert!(a.rank(&b) == Rank::Equal);
    let n = SortKey::from_text(" 2.5 ", 1, &number);
    let m = SortKey::from_text("-3", 1, &number);
    assert!(n.rank(&m) == Rank::Greater);
    assert!(b.rank(&n) == Rank::Less);
    assert!(n.rank(&b) == Rank::Greater);
    let none = SortKey::from_text("none", 1, &number);
    assert!(none.rank(&n) == Rank::Greater);
    assert!(none.rank(&none) == Rank::Equal);
}

fn resolve(name: &str, attribute: bool) -> Option<Multiname> {
    if name == "?" {
        None
    } else {
        Some(Multiname::public(name, attribute))
    }
}

fn texts(list: &[&str]) -> Vec<String> {
    list.iter().map(|s| s.to_string()).collect()
}

#[test]
fn fields_resolve_together() {
    let list = resolve_fields(&texts(&["", "@id", "s"]), &resolve).unwrap();
    assert_eq!(list.len(), 3);
    assert!(matches!(&list[0], SortField::Own));
    assert!(matches!(&list[1], SortField::Attr(m) if m.attribute && m.local.as_deref() == Some("id")));
    assert!(matches!(&list[2], SortField::Child(m) if !m.attribute && m.local.as_deref() == Some("s")));
    assert!(resolve_fields(&texts(&["s", "@?"]), &resolve).is_none());
    assert!(resolve_fields(&texts(&["?"]), &resolve).is_none());
    assert!(resolve_fields(&texts(&[]), &resolve).unwrap().is_empty());
}

#[test]
fn rows_are_put_in_an_order() {
    assert_eq!(permute(vec!["a", "b", "c"], &vec![2, 0, 1]), vec!["c", "a", "b"]);
    assert_eq!(permute(Vec::<u8>::new(), &vec![]), Vec::<u8>::new());
}

#[test]
fn rows_are_sorted_in_place() {
    let nodes = rows(DATA);
    let (sorted, outcome) = sort_rows(
        vec!["w", "x", "y", "z"],
        &nodes,
        &texts(&["n", "@id"]),
        &vec![1, 1],
        &vec![true, false],
        &resolve,
        &number,
    );
    assert_eq!(outcome, Sorting::Sorted);
    assert_eq!(sorted, vec!["z", "y", "w", "x"]);
}

#[test]
fn rows_that_are_not_sorted_stay_as_they_are() {
    let items = vec!["w", "x", "y", "z"];
    let mut nodes = rows(DATA);
    let (same, outcome) = sort_rows(
        items.clone(),
        &nodes,
        &texts(&["s"]),
        &vec![],
        &vec![false],
        &resolve,
        &number,
    );
    assert_eq!((same, outcome), (items.clone(), Sorting::Unsorted));
    let (same, outcome) = sort_rows(
        items.clone(),
        &nodes,
        &texts(&["s", "?"]),
        &vec![0, 0],
        &vec![false, false],
        &resolve,
        &number,
    );
    assert_eq!((same, outcome), (items.clone(), Sorting::Unresolved));
    nodes[3] = None;
    let (same, outcome) = sort_rows(
        items.clone(),
        &nodes,
        &texts(&["s"]),
        &vec![0],
        &vec![false],
        &resolve,
        &number,
    );
    assert_eq!((same, outcome), (items, Sorting::Unsorted));
}

#[test]
fn one_row_is_sorted_whatever_the_columns_are() {
    let mut nodes = rows(DATA);
    nodes.truncate(1);
    let (same, outcome) = sort_rows(
        vec![7],
        &nodes,
        &texts(&["?"]),
        &vec![],
        &vec![],
        &resolve,
        &number,
    );
    assert_eq!((same, outcome), (vec![7], Sorting::Sorted));
    let (same, outcome) = sort_rows(
        Vec::<u8>::new(),
        &vec![],
        &texts(&[]),
        &vec![],
        &vec![],
        &resolve,
        &number,
    );
    assert_eq!((same, outcome), (vec![], Sorting::Sorted));
    let (same, outcome) = sort_rows(
        vec![7],
        &vec![None],
        &texts(&[]),
        &vec![],
        &vec![],
        &resolve,
        &number,
    );
    assert_eq!((same, outcome), (vec![7], Sorting::Unsorted));
}
