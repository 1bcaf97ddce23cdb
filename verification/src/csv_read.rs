//! How a line of comma-separated values is read, and that reading undoes writing.

use crate::csv;
use vstd::prelude::*;

verus! {

/// What stands behind an opening quote: the value, of two quotes one, and what follows the
/// closing quote.
pub open spec fn unquoted(s: Seq<char>) -> (Seq<char>, Seq<char>)
    decreases s.len(),
{
    if s.len() == 0 {
        (Seq::empty(), Seq::empty())
    } else if s[0] != '"' {
        let (v, rest) = unquoted(s.drop_first());
        (seq![s[0]] + v, rest)
    } else if s.len() > 1 && s[1] == '"' {
        let (v, rest) = unquoted(s.skip(2));
        (seq!['"'] + v, rest)
    } else {
        (Seq::empty(), s.drop_first())
    }
}

/// A value without quotes, up to the separator, and what follows.
pub open spec fn bare(s: Seq<char>, separator: char) -> (Seq<char>, Seq<char>)
    decreases s.len(),
{
    if s.len() == 0 || s[0] == separator {
        (Seq::empty(), s)
    } else {
        let (v, rest) = bare(s.drop_first(), separator);
        (seq![s[0]] + v, rest)
    }
}

/// The first value of a line, and what follows it.
pub open spec fn first_value(s: Seq<char>, separator: char) -> (Seq<char>, Seq<char>) {
    if s.len() > 0 && s[0] == '"' {
        unquoted(s.drop_first())
    } else {
        bare(s, separator)
    }
}

/// The values of a line, without its line end.
pub open spec fn line_values(s: Seq<char>, separator: char) -> Seq<Seq<char>>
    decreases s.len(),
{
    let (v, rest) = first_value(s, separator);
    if 0 < rest.len() <= s.len() && rest[0] == separator {
        seq![v] + line_values(rest.drop_first(), separator)
    } else {
        seq![v]
    }
}

/// Doubling quotes from the front.
proof fn lemma_doubled_front(v: Seq<char>)
    requires
        v.len() > 0,
    ensures
        csv::doubled(v) == (if v[0] == '"' {
            seq!['"', '"']
        } else {
            seq![v[0]]
        }) + csv::doubled(v.drop_first()),
    decreases v.len(),
{
    let first = if v[0] == '"' {
        seq!['"', '"']
    } else {
        seq![v[0]]
    };
    if v.len() == 1 {
        assert(v.drop_last() =~= Seq::<char>::empty());
        assert(v.drop_first() =~= Seq::<char>::empty());
        assert(csv::doubled(v) =~= first + csv::doubled(v.drop_first()));
    } else {
        lemma_doubled_front(v.drop_last());
        assert(v.drop_last().drop_first() =~= v.drop_first().drop_last());
        assert(v.drop_first().last() == v.last());
        assert(csv::doubled(v) =~= first + csv::doubled(v.drop_first()));
    }
}

proof fn lemma_unquoted(v: Seq<char>, rest: Seq<char>)
    requires
        rest.len() == 0 || rest[0] != '"',
    ensures
        unquoted(csv::doubled(v) + seq!['"'] + rest) == (v, rest),
    decreases v.len(),
{
    let s = csv::doubled(v) + seq!['"'] + rest;
    if v.len() == 0 {
        assert(s.drop_first() =~= rest);
        assert(s[0] == '"');
        if s.len() > 1 {
            assert(s[1] == rest[0]);
        }
    } else {
        let tail = v.drop_first();
        lemma_unquoted(tail, rest);
        lemma_doubled_front(v);
        let inner = csv::doubled(tail) + seq!['"'] + rest;
        if v[0] == '"' {
            assert(s.skip(2) =~= inner);
        } else {
            assert(s.drop_first() =~= inner);
        }
        assert(seq![v[0]] + tail =~= v);
    }
}

proof fn lemma_bare(v: Seq<char>, rest: Seq<char>, separator: char)
    requires
        !v.contains(separator),
        rest.len() == 0 || rest[0] == separator,
    ensures
        bare(v + rest, separator) == (v, rest),
    decreases v.len(),
{
    if v.len() == 0 {
        assert(v + rest =~= rest);
    } else {
        let tail = v.drop_first();
        assert(v[0] != separator) by {
            assert(v.contains(v[0]));
        }
        assert(!tail.contains(separator)) by {
            if tail.contains(separator) {
                let k = choose|k: int| 0 <= k < tail.len() && tail[k] == separator;
                assert(v[k + 1] == separator);
            }
        }
        lemma_bare(tail, rest, separator);
        assert((v + rest).drop_first() =~= tail + rest);
        assert(seq![v[0]] + tail =~= v);
    }
}

/// The first value of a line that begins with a cell is the cell's text.
proof fn lemma_first_value(value: Seq<char>, rest: Seq<char>, separator: char)
    requires
        separator != '"',
        rest.len() == 0 || rest[0] == separator,
    ensures
        first_value(csv::csv_cell(value, seq![separator], false) + rest, separator) == (value, rest),
{
    let cell = csv::csv_cell(value, seq![separator], false);
    let s = cell + rest;
    if csv::ambiguous(value, seq![separator]) {
        assert(s.drop_first() =~= csv::doubled(value) + seq!['"'] + rest);
        lemma_unquoted(value, rest);
    } else {
        assert(!value.contains(separator)) by {
            if value.contains(separator) {
                let k = choose|k: int| 0 <= k < value.len() && value[k] == separator;
                assert(value.subrange(k, k + 1) =~= seq![separator]);
                assert(csv::stands_at(seq![separator], value, k));
            }
        }
        if s.len() > 0 && s[0] == '"' {
            if value.len() > 0 {
                assert(value.contains(value[0]));
            }
        }
        lemma_bare(value, rest, separator);
    }
}

/// A line from the front: the first cell, and the others behind a separator.
proof fn lemma_cells_front(texts: Seq<Seq<char>>, separator: Seq<char>, n: int)
    requires
        1 < n <= texts.len(),
    ensures
        csv::csv_cells(texts, separator, false, n) == csv::csv_cell(texts[0], separator, false)
            + separator + csv::csv_cells(texts.drop_first(), separator, false, n - 1),
    decreases n,
{
    let first = csv::csv_cell(texts[0], separator, false);
    let last = csv::csv_cell(texts[n - 1], separator, false);
    let rest = texts.drop_first();
    assert(rest[n - 2] == texts[n - 1]);
    if n == 2 {
        assert(csv::csv_cells(texts, separator, false, 1) == first);
        assert(csv::csv_cells(rest, separator, false, 1) == last);
    } else {
        lemma_cells_front(texts, separator, n - 1);
        let mid = csv::csv_cells(rest, separator, false, n - 2);
        assert(csv::csv_cells(rest, separator, false, n - 1) == mid + separator + last);
        assert((first + separator + mid) + separator + last =~= first + separator + (mid + separator
            + last));
    }
}

/// Reading a line gives back the texts that were written to it, whatever they hold, for a
/// separator of one character that is not a quote. (A line end in a text stands in quotes.)
pub proof fn lemma_line_round_trip(texts: Seq<Seq<char>>, separator: char)
    requires
        texts.len() > 0,
        separator != '"',
    ensures
        line_values(
            csv::csv_cells(texts, seq![separator], false, texts.len() as int),
            separator,
        ) == texts,
    decreases texts.len(),
{
    let n = texts.len() as int;
    let sep = seq![separator];
    let s = csv::csv_cells(texts, sep, false, n);
    let first = csv::csv_cell(texts[0], sep, false);
    if n == 1 {
        lemma_first_value(texts[0], Seq::empty(), separator);
        assert(first + Seq::<char>::empty() =~= first);
        assert(line_values(s, separator) =~= texts);
    } else {
        lemma_cells_front(texts, sep, n);
        let others = csv::csv_cells(texts.drop_first(), sep, false, n - 1);
        let rest = sep + others;
        assert(s =~= first + rest);
        lemma_first_value(texts[0], rest, separator);
        lemma_line_round_trip(texts.drop_first(), separator);
        assert(rest.drop_first() =~= others);
        assert(seq![texts[0]] + texts.drop_first() =~= texts);
    }
}

} // verus!
