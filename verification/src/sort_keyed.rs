//! Sorting nodes by keys read from them.

use crate::multiname::Multiname;
use crate::multiname::MultinameView;
use crate::node::E4XNodeReadOnly;
use crate::node::Handle;
use crate::order::sort_positions;
use crate::order::PositionOrder;
use crate::queries;
use crate::text;
use crate::text::trim_white;
use vstd::prelude::*;
use vstd::utf8::*;

verus! {

/// The kind of column whose texts are compared as numbers.
pub const KIND_NUMERIC: i32 = 1;

/// The kind of column whose texts are compared in lower case.
pub const KIND_LOWERCASE: i32 = 2;

/// What `str::to_lowercase` makes of a text.
pub uninterp spec fn lowercase(s: Seq<char>) -> Seq<char>;

/// `str::to_lowercase`: the text in lower case, as Unicode defines it.
#[verifier::external_body]
fn to_lowercase(s: &str) -> (r: String)
    ensures
        r@ == lowercase(s@),
{
    s.to_lowercase()
}

/// How two keys compare.
#[derive(Clone, Copy, PartialEq, Eq, Structural)]
pub enum Rank {
    Less,
    Equal,
    Greater,
}

/// The comparison the other way round.
pub open spec fn flipped(r: Rank) -> Rank {
    match r {
        Rank::Less => Rank::Greater,
        Rank::Equal => Rank::Equal,
        Rank::Greater => Rank::Less,
    }
}

fn flip(r: Rank) -> (f: Rank)
    ensures
        f == flipped(r),
{
    match r {
        Rank::Less => Rank::Greater,
        Rank::Equal => Rank::Equal,
        Rank::Greater => Rank::Less,
    }
}

/// A sort key: a text, or a number by an integer that orders as the number does, with
/// nothing for what is no number.
pub enum SortKey {
    Str(String),
    Num(Option<i64>),
}

/// A [`SortKey`] by its value; a text by its UTF-8 bytes, which it is ordered by.
pub enum KeyView {
    Str(Seq<u8>),
    Num(Option<i64>),
}

impl View for SortKey {
    type V = KeyView;

    open spec fn view(&self) -> KeyView {
        match *self {
            SortKey::Str(s) => KeyView::Str(encode_utf8(s@)),
            SortKey::Num(n) => KeyView::Num(n),
        }
    }
}

/// Lexicographic comparison of bytes.
pub open spec fn bytes_rank(a: Seq<u8>, b: Seq<u8>) -> Rank
    decreases a.len(),
{
    if a.len() == 0 {
        if b.len() == 0 {
            Rank::Equal
        } else {
            Rank::Less
        }
    } else if b.len() == 0 {
        Rank::Greater
    } else if a[0] < b[0] {
        Rank::Less
    } else if a[0] > b[0] {
        Rank::Greater
    } else {
        bytes_rank(a.drop_first(), b.drop_first())
    }
}

/// Comparison of numbers; what is no number comes last.
pub open spec fn number_rank(a: Option<i64>, b: Option<i64>) -> Rank {
    match a {
        None => match b {
            None => Rank::Equal,
            Some(_) => Rank::Greater,
        },
        Some(x) => match b {
            None => Rank::Less,
            Some(y) => if x < y {
                Rank::Less
            } else if x > y {
                Rank::Greater
            } else {
                Rank::Equal
            },
        },
    }
}

/// Comparison of keys; texts come before numbers.
pub open spec fn key_rank(a: KeyView, b: KeyView) -> Rank {
    match a {
        KeyView::Str(x) => match b {
            KeyView::Str(y) => bytes_rank(x, y),
            KeyView::Num(_) => Rank::Less,
        },
        KeyView::Num(x) => match b {
            KeyView::Str(_) => Rank::Greater,
            KeyView::Num(y) => number_rank(x, y),
        },
    }
}

/// One column's comparison in its direction.
pub open spec fn column_rank(a: KeyView, b: KeyView, descending: bool) -> Rank {
    if descending {
        flipped(key_rank(a, b))
    } else {
        key_rank(a, b)
    }
}

/// Comparison of rows by their columns from `j` on: the first that differ decide.
pub open spec fn row_rank(a: Seq<KeyView>, b: Seq<KeyView>, descending: Seq<bool>, j: int) -> Rank
    decreases descending.len() - j,
{
    if j < 0 || j >= descending.len() {
        Rank::Equal
    } else {
        let r = column_rank(a[j], b[j], descending[j]);
        if r is Equal {
            row_rank(a, b, descending, j + 1)
        } else {
            r
        }
    }
}

/// Two comparisons in a row, in one direction, give the third.
pub open spec fn chained(ab: Rank, bc: Rank) -> Rank {
    if ab is Equal {
        bc
    } else {
        ab
    }
}

/// The comparisons of three things fit together.
pub open spec fn coherent(ab: Rank, bc: Rank, ac: Rank) -> bool {
    &&& !(ab is Greater) && !(bc is Greater) ==> ac == chained(ab, bc)
    &&& !(ab is Less) && !(bc is Less) ==> ac == chained(ab, bc)
}

proof fn lemma_bytes_flip(a: Seq<u8>, b: Seq<u8>)
    ensures
        bytes_rank(b, a) == flipped(bytes_rank(a, b)),
    decreases a.len(),
{
    if a.len() > 0 && b.len() > 0 {
        lemma_bytes_flip(a.drop_first(), b.drop_first());
    }
}

proof fn lemma_bytes_coherent(a: Seq<u8>, b: Seq<u8>, c: Seq<u8>)
    ensures
        coherent(bytes_rank(a, b), bytes_rank(b, c), bytes_rank(a, c)),
    decreases a.len(),
{
    if a.len() > 0 && b.len() > 0 && c.len() > 0 {
        lemma_bytes_coherent(a.drop_first(), b.drop_first(), c.drop_first());
    }
}

proof fn lemma_column_flip(a: KeyView, b: KeyView, descending: bool)
    ensures
        column_rank(b, a, descending) == flipped(column_rank(a, b, descending)),
{
    if let KeyView::Str(x) = a {
        if let KeyView::Str(y) = b {
            lemma_bytes_flip(x, y);
        }
    }
}

proof fn lemma_column_coherent(a: KeyView, b: KeyView, c: KeyView, descending: bool)
    ensures
        coherent(
            column_rank(a, b, descending),
            column_rank(b, c, descending),
            column_rank(a, c, descending),
        ),
{
    if let KeyView::Str(x) = a {
        if let KeyView::Str(y) = b {
            if let KeyView::Str(z) = c {
                lemma_bytes_coherent(x, y, z);
            }
        }
    }
}

proof fn lemma_row_flip(a: Seq<KeyView>, b: Seq<KeyView>, descending: Seq<bool>, j: int)
    ensures
        row_rank(b, a, descending, j) == flipped(row_rank(a, b, descending, j)),
    decreases descending.len() - j,
{
    if 0 <= j < descending.len() {
        lemma_column_flip(a[j], b[j], descending[j]);
        lemma_row_flip(a, b, descending, j + 1);
    }
}

proof fn lemma_row_coherent(
    a: Seq<KeyView>,
    b: Seq<KeyView>,
    c: Seq<KeyView>,
    descending: Seq<bool>,
    j: int,
)
    ensures
        coherent(
            row_rank(a, b, descending, j),
            row_rank(b, c, descending, j),
            row_rank(a, c, descending, j),
        ),
    decreases descending.len() - j,
{
    if 0 <= j < descending.len() {
        lemma_column_coherent(a[j], b[j], c[j], descending[j]);
        lemma_row_coherent(a, b, c, descending, j + 1);
    }
}

/// Compares two texts by their bytes.
fn compare_bytes(a: &[u8], b: &[u8]) -> (r: Rank)
    ensures
        r == bytes_rank(a@, b@),
{
    let n: usize = a.len();
    let m: usize = b.len();
    let mut i: usize = 0;
    proof {
        assert(a@.skip(0) =~= a@);
        assert(b@.skip(0) =~= b@);
    }
    while i < n && i < m
        invariant
            i <= n == a@.len(),
            i <= m == b@.len(),
            bytes_rank(a@, b@) == bytes_rank(a@.skip(i as int), b@.skip(i as int)),
        decreases n - i,
    {
        if a[i] < b[i] {
            return Rank::Less;
        }
        if a[i] > b[i] {
            return Rank::Greater;
        }
        proof {
            assert(a@.skip(i as int).drop_first() =~= a@.skip(i + 1));
            assert(b@.skip(i as int).drop_first() =~= b@.skip(i + 1));
        }
        i += 1;
    }
    if i < n {
        Rank::Greater
    } else if i < m {
        Rank::Less
    } else {
        Rank::Equal
    }
}

impl SortKey {
    /// The key of a text in a column of a kind. `number` gives the integer that orders as
    /// the number which a text reads as does.
    pub fn from_text<N: Fn(&str) -> Option<i64>>(text: &str, kind: i32, number: &N) -> (r: Self)
        requires
            forall|x: &str| call_requires(*number, (x,)),
        ensures
            forall|g: Numbering| #[trigger] numbers(*number, g) ==> r@ == key_of(text@, kind, g),
    {
        if kind == KIND_NUMERIC {
            let trimmed = trim_white(text);
            SortKey::Num(number(trimmed.as_str()))
        } else if kind == KIND_LOWERCASE {
            SortKey::Str(to_lowercase(text))
        } else {
            SortKey::Str(text.to_owned())
        }
    }

    /// Compares two keys.
    pub fn rank(&self, other: &SortKey) -> (r: Rank)
        ensures
            r == key_rank(self@, other@),
    {
        match (self, other) {
            (SortKey::Str(a), SortKey::Str(b)) => compare_bytes(
                a.as_str().as_bytes(),
                b.as_str().as_bytes(),
            ),
            (SortKey::Num(a), SortKey::Num(b)) => match (a, b) {
                (None, None) => Rank::Equal,
                (None, Some(_)) => Rank::Greater,
                (Some(_), None) => Rank::Less,
                (Some(x), Some(y)) => if *x < *y {
                    Rank::Less
                } else if *x > *y {
                    Rank::Greater
                } else {
                    Rank::Equal
                },
            },
            (SortKey::Str(_), SortKey::Num(_)) => Rank::Less,
            (SortKey::Num(_), SortKey::Str(_)) => Rank::Greater,
        }
    }
}

/// How texts are read as numbers: to an integer that orders as the number does, or to
/// nothing where the text is no number.
pub type Numbering = spec_fn(Seq<char>) -> Option<i64>;

/// `f` computes `g`.
pub open spec fn numbers<N: Fn(&str) -> Option<i64>>(f: N, g: Numbering) -> bool {
    forall|s: &str, r: Option<i64>| #[trigger] call_ensures(f, (s,), r) ==> g(s@) == r
}

/// The key of a text in a column of a kind.
pub open spec fn key_of(text: Seq<char>, kind: i32, g: Numbering) -> KeyView {
    if kind == KIND_NUMERIC {
        KeyView::Num(g(text::white_trimmed(text)))
    } else if kind == KIND_LOWERCASE {
        KeyView::Str(encode_utf8(lowercase(text)))
    } else {
        KeyView::Str(encode_utf8(text))
    }
}

/// Where a column's key is read: from the node itself, its attributes or its children.
pub enum SortField {
    Own,
    Attr(Multiname),
    Child(Multiname),
}

/// A [`SortField`] by its texts.
pub enum FieldView {
    Own,
    Attr(MultinameView),
    Child(MultinameView),
}

impl View for SortField {
    type V = FieldView;

    open spec fn view(&self) -> FieldView {
        match *self {
            SortField::Own => FieldView::Own,
            SortField::Attr(n) => FieldView::Attr(n@),
            SortField::Child(n) => FieldView::Child(n@),
        }
    }
}

/// What the text of a field selects.
pub enum FieldText {
    Own,
    /// The attribute of this name.
    Attr(String),
    /// The child of the name that the whole text is.
    Child,
}

/// Reads the text of a field: empty for the node itself, a name behind `@` for an
/// attribute, otherwise a child's name.
pub fn read_field(field: &str) -> (r: FieldText)
    ensures
        field@.len() == 0 ==> r is Own,
        field@.len() > 0 && field@[0] == '@' ==> (r matches FieldText::Attr(name) && name@
            == field@.drop_first()),
        field@.len() > 0 && field@[0] != '@' ==> r is Child,
{
    let chars = text::chars_of(field);
    let n: usize = chars.len();
    if n == 0 {
        return FieldText::Own;
    }
    if chars[0] == '@' {
        let name = text::text_of(&chars, 1, n);
        assert(name@ =~= field@.drop_first());
        return FieldText::Attr(name);
    }
    FieldText::Child
}

/// The text that a field reads from a node.
pub open spec fn field_text(h: Handle, f: FieldView) -> Seq<char> {
    match f {
        FieldView::Own => queries::string_value(h.nodes(), h.index),
        FieldView::Attr(n) => queries::joined_text(
            h.nodes(),
            queries::matching_attrs(h.nodes(), h.index, n),
        ),
        FieldView::Child(n) => queries::joined_text(
            h.nodes(),
            queries::matching_children(h.nodes(), h.index, n),
        ),
    }
}

/// The fields of a list by their texts.
pub open spec fn field_views(fields: Seq<SortField>) -> Seq<FieldView> {
    Seq::new(fields.len(), |i: int| fields[i]@)
}

/// The keys of a node, a column each.
pub open spec fn row_keys(
    h: Handle,
    fields: Seq<FieldView>,
    kinds: Seq<i32>,
    g: Numbering,
) -> Seq<KeyView> {
    Seq::new(fields.len(), |j: int| key_of(field_text(h, fields[j]), kinds[j], g))
}

/// The keys of a matrix row.
pub open spec fn key_views(keys: Seq<SortKey>) -> Seq<KeyView> {
    Seq::new(keys.len(), |j: int| keys[j]@)
}

/// Row `a` comes before row `b`: by the columns, and where they do not decide, by the
/// position it had.
pub open spec fn row_before(rows: Seq<Seq<KeyView>>, descending: Seq<bool>, a: int, b: int) -> bool {
    match row_rank(rows[a], rows[b], descending, 0) {
        Rank::Less => true,
        Rank::Greater => false,
        Rank::Equal => a < b,
    }
}

/// The rows and the direction of each column.
pub struct KeyMatrix {
    rows: Vec<Vec<SortKey>>,
    descending: Vec<bool>,
}

impl KeyMatrix {
    pub closed spec fn rows(self) -> Seq<Seq<KeyView>> {
        Seq::new(self.rows@.len(), |i: int| key_views(self.rows@[i]@))
    }

    pub closed spec fn descending(self) -> Seq<bool> {
        self.descending@
    }

    #[verifier::type_invariant]
    spec fn inv(self) -> bool {
        forall|i: int|
            0 <= i < self.rows@.len() ==> (#[trigger] self.rows@[i])@.len()
                == self.descending@.len()
    }

    /// A matrix of rows of equal length.
    pub fn new(rows: Vec<Vec<SortKey>>, descending: Vec<bool>) -> (r: Self)
        requires
            forall|i: int|
                0 <= i < rows@.len() ==> (#[trigger] rows@[i])@.len() == descending@.len(),
        ensures
            r.rows() == Seq::new(rows@.len(), |i: int| key_views(rows@[i]@)),
            r.descending() == descending@,
    {
        KeyMatrix { rows, descending }
    }
}

impl PositionOrder for KeyMatrix {
    open spec fn count(&self) -> nat {
        self.rows().len()
    }

    open spec fn before(&self, a: int, b: int) -> bool {
        row_before(self.rows(), self.descending(), a, b)
    }

    proof fn lemma_total(&self, a: int, b: int) {
        lemma_row_flip(self.rows()[a], self.rows()[b], self.descending(), 0);
    }

    proof fn lemma_transitive(&self, a: int, b: int, c: int) {
        lemma_row_coherent(
            self.rows()[a],
            self.rows()[b],
            self.rows()[c],
            self.descending(),
            0,
        );
    }

    fn is_before(&self, a: u32, b: u32) -> (r: bool) {
        proof {
            use_type_invariant(self);
        }
        let x = &self.rows[a as usize];
        let y = &self.rows[b as usize];
        let ghost xs = self.rows()[a as int];
        let ghost ys = self.rows()[b as int];
        let mut j: usize = 0;
        while j < self.descending.len()
            invariant
                j <= self.descending@.len(),
                x@.len() == self.descending@.len(),
                y@.len() == self.descending@.len(),
                xs == key_views(x@),
                ys == key_views(y@),
                xs == self.rows()[a as int],
                ys == self.rows()[b as int],
                row_rank(xs, ys, self.descending@, 0) == row_rank(
                    xs,
                    ys,
                    self.descending@,
                    j as int,
                ),
            decreases self.descending@.len() - j,
        {
            let r: Rank = x[j].rank(&y[j]);
            let d: Rank = if self.descending[j] {
                flip(r)
            } else {
                r
            };
            assert(d == column_rank(xs[j as int], ys[j as int], self.descending@[j as int]));
            if d == Rank::Less {
                return true;
            }
            if d == Rank::Greater {
                return false;
            }
            j += 1;
        }
        a < b
    }
}

/// Reads the text that a field selects from a node.
fn read_text(node: &E4XNodeReadOnly, field: &SortField) -> (r: String)
    ensures
        r@ == field_text(node@, field@),
{
    let mut buf = String::new();
    match field {
        SortField::Own => node.append_text(&mut buf),
        SortField::Attr(name) => node.append_attrs_text(name, &mut buf),
        SortField::Child(name) => node.append_children_text(name, &mut buf),
    }
    assert(Seq::<char>::empty() + field_text(node@, field@) =~= field_text(node@, field@));
    buf
}

/// Reads the keys of one node.
fn read_keys<N: Fn(&str) -> Option<i64>>(
    node: &E4XNodeReadOnly,
    fields: &Vec<SortField>,
    kinds: &Vec<i32>,
    number: &N,
) -> (r: Vec<SortKey>)
    requires
        fields@.len() == kinds@.len(),
        forall|x: &str| call_requires(*number, (x,)),
    ensures
        r@.len() == fields@.len(),
        forall|g: Numbering| #[trigger]
            numbers(*number, g) ==> key_views(r@) == row_keys(
                node@,
                field_views(fields@),
                kinds@,
                g,
            ),
{
    let mut out: Vec<SortKey> = Vec::new();
    let mut j: usize = 0;
    while j < fields.len()
        invariant
            j <= fields@.len(),
            fields@.len() == kinds@.len(),
            forall|x: &str| call_requires(*number, (x,)),
            out@.len() == j,
            forall|g: Numbering| #[trigger]
                numbers(*number, g) ==> forall|k: int|
                    0 <= k < j ==> (#[trigger] out@[k])@ == key_of(
                        field_text(node@, fields@[k]@),
                        kinds@[k],
                        g,
                    ),
        decreases fields@.len() - j,
    {
        let text = read_text(node, &fields[j]);
        out.push(SortKey::from_text(text.as_str(), kinds[j], number));
        j += 1;
    }
    assert forall|g: Numbering| #[trigger] numbers(*number, g) implies key_views(out@)
        == row_keys(node@, field_views(fields@), kinds@, g) by {
        assert(key_views(out@) =~= row_keys(node@, field_views(fields@), kinds@, g));
    }
    out
}

/// Rows that are all nodes.
pub open spec fn all_nodes(items: Seq<Option<E4XNodeReadOnly>>) -> bool {
    forall|i: int| 0 <= i < items.len() ==> #[trigger] items[i] is Some
}

/// The keys of all rows.
pub open spec fn all_keys(
    items: Seq<Option<E4XNodeReadOnly>>,
    fields: Seq<FieldView>,
    kinds: Seq<i32>,
    g: Numbering,
) -> Seq<Seq<KeyView>> {
    Seq::new(items.len(), |i: int| row_keys(items[i]->0@, fields, kinds, g))
}

/// `order` holds each position below `n` once.
pub open spec fn each_once(order: Seq<u32>, n: nat) -> bool {
    &&& order.len() == n
    &&& forall|k: int| 0 <= k < order.len() ==> 0 <= #[trigger] order[k] < n
    &&& forall|k: int, l: int|
        0 <= k < l < order.len() ==> #[trigger] order[k] != #[trigger] order[l]
}

/// `order` holds each position once, sorted by the rows' keys.
pub open spec fn sorted_by_keys(
    order: Seq<u32>,
    rows: Seq<Seq<KeyView>>,
    descending: Seq<bool>,
) -> bool {
    &&& order.len() == rows.len()
    &&& forall|k: int| 0 <= k < order.len() ==> 0 <= #[trigger] order[k] < rows.len()
    &&& forall|x: int| 0 <= x < rows.len() ==> order.contains(#[trigger] (x as u32))
    &&& forall|k: int, l: int|
        0 <= k < l < order.len() ==> row_before(
            rows,
            descending,
            #[trigger] order[k] as int,
            #[trigger] order[l] as int,
        )
}

/// Rows whose keys are equal keep their order.
pub proof fn lemma_sort_stable(
    order: Seq<u32>,
    rows: Seq<Seq<KeyView>>,
    descending: Seq<bool>,
    k: int,
    l: int,
)
    requires
        sorted_by_keys(order, rows, descending),
        0 <= k < l < order.len(),
        row_rank(rows[order[k] as int], rows[order[l] as int], descending, 0) is Equal,
    ensures
        order[k] < order[l],
{
    assert(row_before(rows, descending, order[k] as int, order[l] as int));
}

proof fn lemma_before_strict(rows: Seq<Seq<KeyView>>, descending: Seq<bool>, a: int, b: int)
    requires
        row_before(rows, descending, a, b),
    ensures
        a != b,
        !row_before(rows, descending, b, a),
{
    lemma_row_flip(rows[a], rows[b], descending, 0);
    if a == b {
        lemma_row_flip(rows[a], rows[a], descending, 0);
    }
}

/// Two orders that agree before `k` do not have the first one's row at `k` before the
/// other's.
proof fn lemma_not_later(
    s: Seq<u32>,
    t: Seq<u32>,
    rows: Seq<Seq<KeyView>>,
    descending: Seq<bool>,
    k: int,
)
    requires
        rows.len() <= u32::MAX,
        sorted_by_keys(s, rows, descending),
        sorted_by_keys(t, rows, descending),
        0 <= k < rows.len(),
        forall|j: int| 0 <= j < k ==> s[j] == t[j],
    ensures
        !row_before(rows, descending, s[k] as int, t[k] as int),
{
    let x = s[k];
    assert(t.contains((x as int) as u32));
    let l = choose|l: int| 0 <= l < t.len() && t[l] == x;
    if l < k {
        assert(s[l] == t[l]);
        assert(row_before(rows, descending, s[l] as int, s[k] as int));
        lemma_before_strict(rows, descending, s[l] as int, s[k] as int);
    } else if l == k {
        if row_before(rows, descending, s[k] as int, t[k] as int) {
            lemma_before_strict(rows, descending, s[k] as int, t[k] as int);
        }
    } else {
        assert(row_before(rows, descending, t[k] as int, t[l] as int));
        lemma_before_strict(rows, descending, t[k] as int, t[l] as int);
    }
}

proof fn lemma_same_at(
    s: Seq<u32>,
    t: Seq<u32>,
    rows: Seq<Seq<KeyView>>,
    descending: Seq<bool>,
    k: int,
)
    requires
        rows.len() <= u32::MAX,
        sorted_by_keys(s, rows, descending),
        sorted_by_keys(t, rows, descending),
        0 <= k < rows.len(),
    ensures
        s[k] == t[k],
    decreases k,
{
    assert forall|j: int| 0 <= j < k implies s[j] == t[j] by {
        lemma_same_at(s, t, rows, descending, j);
    }
    lemma_not_later(s, t, rows, descending, k);
    lemma_not_later(t, s, rows, descending, k);
    lemma_row_flip(rows[s[k] as int], rows[t[k] as int], descending, 0);
}

/// The keys leave one order only.
pub proof fn lemma_sort_unique(
    s: Seq<u32>,
    t: Seq<u32>,
    rows: Seq<Seq<KeyView>>,
    descending: Seq<bool>,
)
    requires
        rows.len() <= u32::MAX,
        sorted_by_keys(s, rows, descending),
        sorted_by_keys(t, rows, descending),
    ensures
        s == t,
{
    assert forall|k: int| 0 <= k < rows.len() implies s[k] == t[k] by {
        lemma_same_at(s, t, rows, descending, k);
    }
    assert(s =~= t);
}

/// Sorts rows by columns of keys: gives, for each place, the position of the row that
/// belongs there. Rows with equal keys keep their order.
///
/// `None` means that nothing was sorted: some row is no node, or there are rows to order and
/// the columns are not described in full. Up to one row, the columns do not matter.
pub fn sort_keyed<N: Fn(&str) -> Option<i64>>(
    items: &Vec<Option<E4XNodeReadOnly>>,
    fields: &Vec<SortField>,
    kinds: &Vec<i32>,
    descending: &Vec<bool>,
    number: &N,
) -> (r: Option<Vec<u32>>)
    requires
        items@.len() <= u32::MAX,
        forall|x: &str| call_requires(*number, (x,)),
    ensures
        items@.len() <= 1 ==> (r is Some <==> all_nodes(items@)),
        items@.len() <= 1 && r is Some ==> r->0@ == Seq::new(items@.len(), |i: int| 0u32),
        items@.len() > 1 ==> (r is Some <==> all_nodes(items@) && fields@.len() == kinds@.len()
            && kinds@.len() == descending@.len() && fields@.len() > 0),
        r is Some ==> each_once(r->0@, items@.len()),
        items@.len() > 1 && r is Some ==> forall|g: Numbering| #[trigger]
            numbers(*number, g) ==> sorted_by_keys(
                r->0@,
                all_keys(items@, field_views(fields@), kinds@, g),
                descending@,
            ),
{
    let n: usize = items.len();
    if n == 0 {
        let out: Vec<u32> = Vec::new();
        assert(out@ =~= Seq::new(items@.len(), |i: int| 0u32));
        return Some(out);
    }
    if n == 1 {
        if items[0].is_none() {
            assert(!all_nodes(items@)) by {
                assert(items@[0] is None);
            }
            return None;
        }
        let mut out: Vec<u32> = Vec::new();
        out.push(0);
        assert(out@ =~= Seq::new(items@.len(), |i: int| 0u32));
        return Some(out);
    }
    if fields.len() != kinds.len() || kinds.len() != descending.len() || fields.len() == 0 {
        return None;
    }
    let mut rows: Vec<Vec<SortKey>> = Vec::new();
    let mut i: usize = 0;
    while i < n
        invariant
            i <= n == items@.len(),
            n > 1,
            fields@.len() == kinds@.len(),
            kinds@.len() == descending@.len(),
            forall|x: &str| call_requires(*number, (x,)),
            rows@.len() == i,
            forall|k: int| 0 <= k < i ==> #[trigger] items@[k] is Some,
            forall|k: int| 0 <= k < i ==> (#[trigger] rows@[k])@.len() == descending@.len(),
            forall|g: Numbering| #[trigger]
                numbers(*number, g) ==> forall|k: int|
                    0 <= k < i ==> key_views((#[trigger] rows@[k])@) == row_keys(
                        items@[k]->0@,
                        field_views(fields@),
                        kinds@,
                        g,
                    ),
        decreases n - i,
    {
        match &items[i] {
            Some(node) => {
                rows.push(read_keys(node, fields, kinds, number));
            },
            None => {
                return None;
            },
        }
        i += 1;
    }
    let matrix = KeyMatrix::new(rows, copy_flags(descending));
    assert(matrix.rows().len() == n);
    let order = sort_positions(&matrix, n as u32);
    assert forall|k: int, l: int| 0 <= k < l < order@.len() implies #[trigger] order@[k]
        != #[trigger] order@[l] by {
        assert(matrix.before(order@[k] as int, order@[l] as int));
        lemma_before_strict(
            matrix.rows(),
            matrix.descending(),
            order@[k] as int,
            order@[l] as int,
        );
    }
    assert forall|g: Numbering| #[trigger] numbers(*number, g) implies sorted_by_keys(
        order@,
        all_keys(items@, field_views(fields@), kinds@, g),
        descending@,
    ) by {
        assert(matrix.rows() =~= all_keys(items@, field_views(fields@), kinds@, g));
        assert forall|k: int, l: int| 0 <= k < l < order@.len() implies row_before(
            matrix.rows(),
            descending@,
            #[trigger] order@[k] as int,
            #[trigger] order@[l] as int,
        ) by {
            assert(matrix.before(order@[k] as int, order@[l] as int));
        }
    }
    Some(order)
}

fn copy_flags(flags: &Vec<bool>) -> (r: Vec<bool>)
    ensures
        r@ == flags@,
{
    let mut r: Vec<bool> = Vec::new();
    r.extend_from_slice(flags.as_slice());
    assert(r@ =~= flags@);
    r
}

} // verus!
