//! Comma-separated values: how cells and lines are written.

use crate::csv;
use vstd::prelude::*;
use vstd::utf8::*;

verus! {

/// A separator stands somewhere in a text.
pub open spec fn divided(value: Seq<char>, separator: Seq<char>) -> bool {
    separator.len() > 0 && exists|i: int|
        0 <= i && i + separator.len() <= value.len() && #[trigger] value.subrange(
            i,
            i + separator.len(),
        ) == separator
}

/// A cell is written as its text; in quotes, with its quotes doubled, if there is a quote, a
/// line end or the separator in it. Where texts are forced it is a quoted formula of the text.
pub proof fn lemma_cell(value: Seq<char>, separator: Seq<char>)
    ensures
        value.contains('"') || value.contains('\u{a}') || value.contains('\u{d}') || divided(
            value,
            separator,
        ) ==> csv::csv_cell(value, separator, false) == seq!['"'] + csv::doubled(value) + seq!['"'],
        !value.contains('"') && !value.contains('\u{a}') && !value.contains('\u{d}') && !divided(
            value,
            separator,
        ) ==> csv::csv_cell(value, separator, false) == value,
        csv::csv_cell(value, separator, true) == seq!['"'] + csv::doubled(
            seq!['=', '"'] + csv::doubled(value) + seq!['"'],
        ) + seq!['"'],
{
    if csv::occurs(separator, value) {
        let i = choose|i: int| #[trigger] csv::stands_at(separator, value, i);
        assert(value.subrange(i, i + separator.len()) == separator);
    }
    if divided(value, separator) {
        let i = choose|i: int|
            0 <= i && i + separator.len() <= value.len() && #[trigger] value.subrange(
                i,
                i + separator.len(),
            ) == separator;
        assert(csv::stands_at(separator, value, i));
    }
}

/// Doubling quotes goes character by character and leaves all others as they are.
pub proof fn lemma_doubling(a: Seq<char>, c: char, b: Seq<char>)
    ensures
        csv::doubled(a + seq![c] + b) == csv::doubled(a) + (if c == '"' {
            seq!['"', '"']
        } else {
            seq![c]
        }) + csv::doubled(b),
        csv::doubled(Seq::empty()).len() == 0,
{
    lemma_doubled_concat(a + seq![c], b);
    assert((a + seq![c]).drop_last() =~= a);
    assert(csv::doubled(a + seq![c]) =~= csv::doubled(a) + (if c == '"' {
        seq!['"', '"']
    } else {
        seq![c]
    }));
}

proof fn lemma_doubled_concat(a: Seq<char>, b: Seq<char>)
    ensures
        csv::doubled(a + b) == csv::doubled(a) + csv::doubled(b),
    decreases b.len(),
{
    if b.len() == 0 {
        assert(a + b =~= a);
        assert(csv::doubled(a) + csv::doubled(b) =~= csv::doubled(a));
    } else {
        lemma_doubled_concat(a, b.drop_last());
        assert((a + b).drop_last() =~= a + b.drop_last());
        assert(csv::doubled(a + b) =~= csv::doubled(a) + csv::doubled(b));
    }
}

/// Cells with separators between them.
pub open spec fn joined(cells: Seq<Seq<char>>, separator: Seq<char>) -> Seq<char>
    decreases cells.len(),
{
    if cells.len() == 0 {
        Seq::empty()
    } else if cells.len() == 1 {
        cells[0]
    } else {
        joined(cells.drop_last(), separator) + separator + cells.last()
    }
}

proof fn lemma_cells(texts: Seq<Seq<char>>, separator: Seq<char>, force: bool, n: int)
    requires
        0 <= n <= texts.len(),
    ensures
        csv::csv_cells(texts, separator, force, n) == joined(
            Seq::new(n as nat, |i: int| csv::csv_cell(texts[i], separator, force)),
            separator,
        ),
    decreases n,
{
    let all = Seq::new(n as nat, |i: int| csv::csv_cell(texts[i], separator, force));
    if n > 1 {
        lemma_cells(texts, separator, force, n - 1);
        assert(all.drop_last() =~= Seq::new(
            (n - 1) as nat,
            |i: int| csv::csv_cell(texts[i], separator, force),
        ));
    }
}

/// A line has a cell for each text, in order, with the separator between them, and ends with a
/// carriage return and a line feed.
pub proof fn lemma_line(texts: Seq<Seq<char>>, separator: Seq<char>, force: bool)
    ensures
        csv::csv_line(texts, separator, force) == joined(
            Seq::new(texts.len(), |i: int| csv::csv_cell(texts[i], separator, force)),
            separator,
        ) + seq!['\u{d}', '\u{a}'],
{
    reveal_strlit("\r\n");
    assert("\r\n"@ =~= seq!['\u{d}', '\u{a}']);
    lemma_cells(texts, separator, force, texts.len() as int);
}

/// A file opens with the byte order mark of UTF-8, then a line that names the separator where
/// that is asked for, then the headings, which are never forced to be texts.
pub proof fn lemma_opening(labels: Seq<Seq<char>>, separator: Seq<char>)
    ensures
        csv::csv_opening(labels, separator, false) == seq![239u8, 187u8, 191u8] + encode_utf8(
            csv::csv_line(labels, separator, false),
        ),
        csv::csv_opening(labels, separator, true) == seq![239u8, 187u8, 191u8] + encode_utf8(
            seq!['s', 'e', 'p', '='] + separator + seq!['\u{d}', '\u{a}'],
        ) + encode_utf8(csv::csv_line(labels, separator, false)),
{
    reveal_strlit("sep=");
    reveal_strlit("\r\n");
    assert("sep="@ =~= seq!['s', 'e', 'p', '=']);
    assert("\r\n"@ =~= seq!['\u{d}', '\u{a}']);
    assert(csv::csv_opening(labels, separator, false) =~= seq![239u8, 187u8, 191u8] + encode_utf8(
        csv::csv_line(labels, separator, false),
    ));
}

} // verus!
