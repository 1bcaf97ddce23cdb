//! Comma-separated values: cells, lines, and what stands in front of them.

use crate::cells;
use crate::cells::extract_cell;
use crate::cells::Row;
use crate::cells::Selector;
use crate::header;
use crate::text::chars_of;
use vstd::prelude::*;
use vstd::utf8::*;

verus! {

/// A text with its quotes doubled.
pub open spec fn doubled(s: Seq<char>) -> Seq<char>
    decreases s.len(),
{
    if s.len() == 0 {
        Seq::empty()
    } else if s.last() == '"' {
        doubled(s.drop_last()) + seq!['"', '"']
    } else {
        doubled(s.drop_last()).push(s.last())
    }
}

/// A text in quotes.
pub open spec fn quoted(s: Seq<char>) -> Seq<char> {
    seq!['"'] + doubled(s) + seq!['"']
}

/// A formula that has a text as its value.
pub open spec fn text_formula(s: Seq<char>) -> Seq<char> {
    seq!['=', '"'] + doubled(s) + seq!['"']
}

/// A text stands at `i` in another.
pub open spec fn stands_at(part: Seq<char>, s: Seq<char>, i: int) -> bool {
    0 <= i && i + part.len() <= s.len() && s.subrange(i, i + part.len()) == part
}

/// A text stands somewhere in another.
pub open spec fn occurs(part: Seq<char>, s: Seq<char>) -> bool {
    exists|i: int| #[trigger] stands_at(part, s, i)
}

/// A cell that could not be told from what is around it without quotes.
pub open spec fn ambiguous(value: Seq<char>, separator: Seq<char>) -> bool {
    ||| value.contains('"')
    ||| value.contains('\n')
    ||| value.contains('\r')
    ||| separator.len() > 0 && occurs(separator, value)
}

/// A cell: the text, in quotes where it needs them; with `force_text`, a formula that has
/// the text as its value.
pub open spec fn csv_cell(value: Seq<char>, separator: Seq<char>, force_text: bool) -> Seq<char> {
    if force_text {
        quoted(text_formula(value))
    } else if ambiguous(value, separator) {
        quoted(value)
    } else {
        value
    }
}

/// The first `n` cells of a line, with separators between them.
pub open spec fn csv_cells(texts: Seq<Seq<char>>, separator: Seq<char>, force_text: bool, n: int) -> Seq<
    char,
>
    decreases n,
{
    if n <= 0 {
        Seq::empty()
    } else if n == 1 {
        csv_cell(texts[0], separator, force_text)
    } else {
        csv_cells(texts, separator, force_text, n - 1) + separator + csv_cell(
            texts[n - 1],
            separator,
            force_text,
        )
    }
}

/// A line.
pub open spec fn csv_line(texts: Seq<Seq<char>>, separator: Seq<char>, force_text: bool) -> Seq<
    char,
> {
    csv_cells(texts, separator, force_text, texts.len() as int) + "\r\n"@
}

/// What stands in front of the rows: the byte order mark, a line that names the separator
/// where that is asked for, and the headings.
pub open spec fn csv_opening(labels: Seq<Seq<char>>, separator: Seq<char>, hint: bool) -> Seq<u8> {
    seq![0xEFu8, 0xBBu8, 0xBFu8] + (if hint {
        encode_utf8("sep="@ + separator + "\r\n"@)
    } else {
        Seq::empty()
    }) + encode_utf8(csv_line(labels, separator, false))
}

/// What a reader makes of the inside of a quoted cell: of two quotes one.
pub open spec fn undoubled(s: Seq<char>) -> Seq<char>
    decreases s.len(),
{
    if s.len() == 0 {
        Seq::empty()
    } else if s.len() >= 2 && s.last() == '"' && s[s.len() - 2] == '"' {
        undoubled(s.drop_last().drop_last()).push('"')
    } else {
        undoubled(s.drop_last()).push(s.last())
    }
}

/// What a reader makes of a cell.
pub open spec fn csv_value(cell: Seq<char>) -> Seq<char> {
    if cell.len() >= 2 && cell[0] == '"' && cell.last() == '"' {
        undoubled(cell.subrange(1, cell.len() - 1))
    } else {
        cell
    }
}

proof fn lemma_undoubled(s: Seq<char>)
    ensures
        undoubled(doubled(s)) == s,
    decreases s.len(),
{
    if s.len() > 0 {
        let front = s.drop_last();
        lemma_undoubled(front);
        let d = doubled(s);
        if s.last() == '"' {
            assert(d.drop_last().drop_last() =~= doubled(front));
        } else {
            assert(d.drop_last() =~= doubled(front));
        }
        assert(undoubled(d) =~= s);
    }
}

/// Reading a cell gives the text that was written, or the formula that has it as its value;
/// and the formula's own quotes are undone in the same way.
pub proof fn lemma_csv_round_trip(value: Seq<char>, separator: Seq<char>, force_text: bool)
    ensures
        csv_value(csv_cell(value, separator, force_text)) == (if force_text {
            text_formula(value)
        } else {
            value
        }),
        undoubled(text_formula(value).subrange(2, text_formula(value).len() - 1)) == value,
{
    lemma_undoubled(value);
    let f = text_formula(value);
    assert(f.subrange(2, f.len() - 1) =~= doubled(value));
    if force_text {
        lemma_undoubled(f);
        let q = quoted(f);
        assert(q.subrange(1, q.len() - 1) =~= doubled(f));
    } else if ambiguous(value, separator) {
        let q = quoted(value);
        assert(q.subrange(1, q.len() - 1) =~= doubled(value));
    } else if value.len() > 0 && value[0] == '"' {
        assert(value.contains('"'));
    }
}

/// A cell without quotes around it holds no quote, no line end and no separator, so that it
/// ends where the writer ended it.
pub proof fn lemma_bare_cell(value: Seq<char>, separator: Seq<char>)
    ensures
        csv_cell(value, separator, false) == value || csv_cell(value, separator, false) == quoted(
            value,
        ),
        csv_cell(value, separator, false) == value ==> !value.contains('"') && !value.contains('\n')
            && !value.contains('\r') && !(separator.len() > 0 && occurs(separator, value)),
{
    if ambiguous(value, separator) {
        lemma_doubled_longer(value);
        assert(quoted(value).len() > value.len());
    }
}

proof fn lemma_doubled_longer(s: Seq<char>)
    ensures
        doubled(s).len() >= s.len(),
    decreases s.len(),
{
    if s.len() > 0 {
        lemma_doubled_longer(s.drop_last());
    }
}

/// Whether a text stands somewhere in another.
fn occurs_in(part: &Vec<char>, s: &Vec<char>) -> (r: bool)
    ensures
        r == occurs(part@, s@),
{
    let n: usize = s.len();
    let m: usize = part.len();
    if m > n {
        proof {
            if occurs(part@, s@) {
                let i = choose|i: int| stands_at(part@, s@, i);
                assert(stands_at(part@, s@, i));
            }
        }
        return false;
    }
    let mut i: usize = 0;
    while i <= n - m
        invariant
            i <= n - m + 1,
            m <= n,
            n == s@.len(),
            m == part@.len(),
            forall|k: int| 0 <= k < i ==> !#[trigger] stands_at(part@, s@, k),
        decreases n - m + 1 - i,
    {
        let mut k: usize = 0;
        while k < m && s[i + k] == part[k]
            invariant
                k <= m,
                i + m <= n,
                n == s@.len(),
                m == part@.len(),
                forall|j: int| 0 <= j < k ==> #[trigger] part@[j] == s@[i + j],
            decreases m - k,
        {
            k += 1;
        }
        if k == m {
            assert(s@.subrange(i as int, i + m) =~= part@);
            assert(stands_at(part@, s@, i as int));
            return true;
        }
        proof {
            if stands_at(part@, s@, i as int) {
                assert(s@.subrange(i as int, i + m)[k as int] == part@[k as int]);
            }
        }
        if i == n - m {
            proof {
                assert forall|k: int| !#[trigger] stands_at(part@, s@, k) by {}
            }
            return false;
        }
        i += 1;
    }
    false
}

/// Whether a cell needs quotes.
fn needs_quote(value: &Vec<char>, separator: &Vec<char>) -> (r: bool)
    ensures
        r == ambiguous(value@, separator@),
{
    let mut i: usize = 0;
    while i < value.len()
        invariant
            i <= value@.len(),
            forall|k: int|
                0 <= k < i ==> #[trigger] value@[k] != '"' && value@[k] != '\n' && value@[k] != '\r',
        decreases value@.len() - i,
    {
        if value[i] == '"' || value[i] == '\n' || value[i] == '\r' {
            assert(value@.contains(value@[i as int]));
            return true;
        }
        i += 1;
    }
    separator.len() > 0 && occurs_in(separator, value)
}

/// Appends a cell.
pub fn csv_write_cell(value: &str, separator: &str, force_text: bool, line: &mut String)
    ensures
        final(line)@ == old(line)@ + csv_cell(value@, separator@, force_text),
{
    let ghost start = line@;
    let chars = chars_of(value);
    if force_text {
        line.push('"');
        line.push('=');
        line.push('"');
        line.push('"');
        let ghost lead = seq!['=', '"'];
        proof {
            assert(lead.drop_last() =~= seq!['=']);
            assert(seq!['='].drop_last() =~= Seq::<char>::empty());
            assert(doubled(Seq::<char>::empty()) =~= Seq::<char>::empty());
            assert(seq!['='].last() == '=');
            assert(doubled(seq!['=']) =~= seq!['=']);
            assert(doubled(lead) =~= seq!['=', '"', '"']);
            assert(lead + doubled(chars@.take(0)) =~= lead);
            assert(line@ =~= start + seq!['"'] + doubled(lead + doubled(chars@.take(0))));
        }
        let mut i: usize = 0;
        while i < chars.len()
            invariant
                i <= chars@.len(),
                lead == seq!['=', '"'],
                line@ == start + seq!['"'] + doubled(lead + doubled(chars@.take(i as int))),
            decreases chars@.len() - i,
        {
            let c = chars[i];
            let ghost before = line@;
            let ghost done = lead + doubled(chars@.take(i as int));
            if c == '"' {
                line.push('"');
                line.push('"');
                line.push('"');
                line.push('"');
            } else {
                line.push(c);
            }
            proof {
                assert(chars@.take(i + 1).drop_last() =~= chars@.take(i as int));
                assert(chars@.take(i + 1).last() == c);
                let next = lead + doubled(chars@.take(i + 1));
                if c == '"' {
                    assert(next =~= done.push('"').push('"'));
                    assert(next.drop_last() =~= done.push('"'));
                    assert(done.push('"').drop_last() =~= done);
                    assert(doubled(done.push('"')) =~= doubled(done) + seq!['"', '"']);
                    assert(next.last() == '"');
                    assert(doubled(next) =~= doubled(done) + seq!['"', '"', '"', '"']);
                } else {
                    assert(next =~= done.push(c));
                    assert(next.drop_last() =~= done);
                }
                assert(line@ =~= start + seq!['"'] + doubled(next));
            }
            i += 1;
        }
        line.push('"');
        line.push('"');
        line.push('"');
        proof {
            assert(chars@.take(i as int) =~= value@);
            let done = lead + doubled(value@);
            let whole = text_formula(value@);
            assert(whole.drop_last() =~= done);
            assert(line@ =~= start + quoted(whole));
        }
        return;
    }
    let sep = chars_of(separator);
    if !needs_quote(&chars, &sep) {
        line.push_str(value);
        return;
    }
    line.push('"');
    let mut i: usize = 0;
    assert(line@ =~= start + seq!['"'] + doubled(chars@.take(0)));
    while i < chars.len()
        invariant
            i <= chars@.len(),
            line@ == start + seq!['"'] + doubled(chars@.take(i as int)),
        decreases chars@.len() - i,
    {
        let c = chars[i];
        if c == '"' {
            line.push('"');
            line.push('"');
        } else {
            line.push(c);
        }
        proof {
            assert(chars@.take(i + 1).drop_last() =~= chars@.take(i as int));
            assert(line@ =~= start + seq!['"'] + doubled(chars@.take(i + 1)));
        }
        i += 1;
    }
    line.push('"');
    assert(chars@.take(i as int) =~= value@);
    assert(line@ =~= start + quoted(value@));
}

/// Writes a line of texts.
pub(crate) fn csv_text_line(texts: &Vec<String>, separator: &str, force_text: bool) -> (r: String)
    ensures
        r@ == csv_line(header::texts_of(texts@), separator@, force_text),
{
    let ghost views = header::texts_of(texts@);
    let mut line = String::new();
    let mut i: usize = 0;
    while i < texts.len()
        invariant
            i <= texts@.len(),
            views == header::texts_of(texts@),
            line@ == csv_cells(views, separator@, force_text, i as int),
        decreases texts@.len() - i,
    {
        if i > 0 {
            line.push_str(separator);
        }
        csv_write_cell(texts[i].as_str(), separator, force_text, &mut line);
        assert(line@ =~= csv_cells(views, separator@, force_text, i + 1));
        i += 1;
    }
    line.push_str("\r\n");
    line
}

/// Writes a row.
pub fn build_csv_row(selectors: &Vec<Selector>, separator: &str, force_text: bool, row: &Row) -> (r:
    String)
    ensures
        r@ == csv_line(
            cells::row_texts(*row, cells::selector_views(selectors@)),
            separator@,
            force_text,
        ),
{
    let ghost texts = cells::row_texts(*row, cells::selector_views(selectors@));
    let mut line = String::new();
    let mut buf = String::new();
    let mut i: usize = 0;
    while i < selectors.len()
        invariant
            i <= selectors@.len(),
            texts == cells::row_texts(*row, cells::selector_views(selectors@)),
            line@ == csv_cells(texts, separator@, force_text, i as int),
        decreases selectors@.len() - i,
    {
        if i > 0 {
            line.push_str(separator);
        }
        extract_cell(row, &selectors[i], i, &mut buf);
        assert(buf@ == texts[i as int]);
        csv_write_cell(buf.as_str(), separator, force_text, &mut line);
        assert(line@ =~= csv_cells(texts, separator@, force_text, i + 1));
        i += 1;
    }
    line.push_str("\r\n");
    line
}

/// Writes what stands in front of the rows.
pub(crate) fn csv_preamble(labels: &Vec<String>, separator: &str, hint: bool) -> (r: Vec<u8>)
    ensures
        r@ == csv_opening(header::texts_of(labels@), separator@, hint),
{
    let mut r: Vec<u8> = Vec::new();
    r.push(0xEF);
    r.push(0xBB);
    r.push(0xBF);
    assert(r@ =~= seq![0xEFu8, 0xBBu8, 0xBFu8]);
    let ghost mark = r@;
    if hint {
        let mut line = "sep=".to_owned();
        line.push_str(separator);
        line.push_str("\r\n");
        r.extend_from_slice(line.as_str().as_bytes());
    } else {
        assert(mark + Seq::<u8>::empty() =~= mark);
    }
    let heads = csv_text_line(labels, separator, false);
    r.extend_from_slice(heads.as_str().as_bytes());
    r
}

} // verus!
