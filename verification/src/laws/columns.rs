//! Columns of a sheet: which type each has, and what its cells are called and look like.

use crate::cell_text;
use crate::cells;
use crate::cells::ColType;
use crate::cells::Table;
use crate::cells::TypeOpts;
use crate::decimal;
use crate::laws::dates;
use crate::laws::numbers;
use crate::laws::white_space;
use crate::sheet;
use crate::sheet::Dating;
use crate::sheet::SheetView;
use crate::styles;
use crate::styles::StyleView;
use crate::text;
use vstd::prelude::*;

verus! {

/// The text of a cell in the first rows of a table.
pub open spec fn text_in(g: Table, i: int, c: int) -> Seq<char> {
    cells::text_at(g(i)->0, c)
}

/// A text with more than white space in it.
pub open spec fn filled(t: Seq<char>) -> bool {
    !numbers::spaces(t)
}

proof fn lemma_trim(t: Seq<char>)
    ensures
        filled(t) == (text::white_trimmed(t).len() > 0),
        text::white_trimmed(text::white_trimmed(t)) == text::white_trimmed(t),
{
    let drop = |c: char| text::white(c);
    let r = white_space::lemma_trimmed_is(t, drop);
    let s = text::white_trimmed(t);
    assert(s == t.subrange(r.0, r.1));
    if r.0 < r.1 {
        assert(!drop(t[r.0]));
        assert(!numbers::space(t[r.0]));
        assert(s[0] == t[r.0] && s.last() == t[r.1 - 1]);
        assert(!drop(s[0]) && !drop(s.last()));
    } else {
        assert forall|i: int| 0 <= i < t.len() implies numbers::space(#[trigger] t[i]) by {
            assert(drop(t[i]));
        }
    }
}

/// A timestamp is no number.
proof fn lemma_kinds_apart(t: Seq<char>)
    ensures
        cell_text::date_of(text::white_trimmed(t)) is Some ==> cell_text::number_of(t) is None,
{
    let s = text::white_trimmed(t);
    if cell_text::date_of(s) is Some && cell_text::number_of(t) is Some {
        lemma_trim(t);
        assert(cell_text::number_of(s) is Some);
        let x = numbers::lemma_number_only(s);
        let d = dates::lemma_date_only(s);
        assert(s.len() == 19);
        assert(s[13] == ':');
        assert(s[0] == dates::figure(d.year / 100 / 10));
        assert(s.last() == dates::figure(d.second % 10));
        assert(x.pre.len() == 0) by {
            if x.pre.len() > 0 {
                assert(s[0] == x.pre[0]);
                assert(numbers::space(x.pre[0]));
            }
        }
        assert(x.post.len() == 0) by {
            if x.post.len() > 0 {
                assert(s.last() == x.post.last());
                assert(numbers::space(x.post[x.post.len() - 1]));
            }
        }
        let a = numbers::maybe(x.sign).len() as int;
        let w = x.whole.len() as int;
        let p = numbers::maybe(x.point).len() as int;
        assert(s =~= x.bare());
        if 13 < a {
        } else if 13 < a + w {
            assert(s[13] == x.whole[13 - a]);
            assert(48 <= x.whole[13 - a] as int <= 57);
        } else if 13 < a + w + p {
            assert(s[13] == x.point->0);
        } else {
            assert(s[13] == x.frac[13 - a - w - p]);
            assert(48 <= x.frac[13 - a - w - p] as int <= 57);
        }
    }
}

proof fn lemma_kind(t: Seq<char>, dates: bool)
    ensures
        cells::kind_of(t, dates) is Empty <==> !filled(t),
        cells::kind_of(t, dates) is Date <==> filled(t) && dates && cell_text::date_of(
            text::white_trimmed(t),
        ) is Some,
        cells::kind_of(t, dates) is Number <==> filled(t) && cell_text::number_of(t) is Some,
{
    lemma_trim(t);
    lemma_kinds_apart(t);
}

/// A column is one of dates if dates are looked for, some cell looked at is filled, and every
/// filled one is a timestamp; of numbers if some is filled and every filled one is a plain
/// number; otherwise of texts.
pub proof fn lemma_column_type(g: Table, n: int, c: int, dates: bool)
    ensures
        ({
            let some = exists|i: int| 0 <= i < n && filled(#[trigger] text_in(g, i, c));
            let ty = cells::column_type(g, n, c, dates);
            &&& ty is Date <==> dates && some && forall|i: int|
                0 <= i < n && filled(#[trigger] text_in(g, i, c)) ==> cell_text::date_of(
                    text::white_trimmed(text_in(g, i, c)),
                ) is Some
            &&& ty is Number <==> some && forall|i: int|
                0 <= i < n && filled(#[trigger] text_in(g, i, c)) ==> cell_text::number_of(
                    text_in(g, i, c),
                ) is Some
            &&& ty is Text || ty is Date || ty is Number
        }),
{
    assert forall|i: int| true implies {
        &&& #[trigger] cells::kind_at(g, i, c, dates) is Empty <==> !filled(text_in(g, i, c))
        &&& cells::kind_at(g, i, c, dates) is Date <==> filled(text_in(g, i, c)) && dates
            && cell_text::date_of(text::white_trimmed(text_in(g, i, c))) is Some
        &&& cells::kind_at(g, i, c, dates) is Number <==> filled(text_in(g, i, c))
            && cell_text::number_of(text_in(g, i, c)) is Some
    } by {
        lemma_kind(text_in(g, i, c), dates);
    }
    assert forall|i: int|
        cell_text::date_of(text::white_trimmed(#[trigger] text_in(g, i, c))) is Some implies
        cell_text::number_of(text_in(g, i, c)) is None by {
        lemma_kinds_apart(text_in(g, i, c));
    }
    if cells::some_text(g, n, c, dates) {
        let k = choose|k: int| 0 <= k < n && !(#[trigger] cells::kind_at(g, k, c, dates) is Empty);
        assert(filled(text_in(g, k, c)));
    }
    if exists|i: int| 0 <= i < n && filled(#[trigger] text_in(g, i, c)) {
        let k = choose|i: int| 0 <= i < n && filled(#[trigger] text_in(g, i, c));
        assert(!(cells::kind_at(g, k, c, dates) is Empty));
        let ty = cells::column_type(g, n, c, dates);
        if forall|i: int|
            0 <= i < n && filled(#[trigger] text_in(g, i, c)) ==> cell_text::number_of(
                text_in(g, i, c),
            ) is Some {
            assert(cells::kind_at(g, k, c, dates) is Number);
            assert(cells::all_numbers(g, n, c, dates));
        }
        if cells::all_numbers(g, n, c, dates) {
            assert forall|i: int| 0 <= i < n && filled(
                #[trigger] text_in(g, i, c),
            ) implies cell_text::number_of(text_in(g, i, c)) is Some by {
                assert(cells::kind_at(g, i, c, dates) is Number);
            }
        }
        if cells::all_dates(g, n, c, dates) {
            assert forall|i: int| 0 <= i < n && filled(
                #[trigger] text_in(g, i, c),
            ) implies cell_text::date_of(text::white_trimmed(text_in(g, i, c))) is Some by {
                assert(cells::kind_at(g, i, c, dates) is Date);
            }
            assert(cells::kind_at(g, k, c, dates) is Date);
        }
    }
}

/// How many rows are looked at: none where types are not looked for, all where no number is
/// asked for or there are no more, otherwise as many as asked for.
pub proof fn lemma_types_looked_for(g: Table, rows: int, cols: int, o: TypeOpts, c: int)
    requires
        0 <= rows,
        0 <= c < cols,
    ensures
        ({
            let types = cells::column_types(g, rows, cols, o);
            &&& types.len() == cols
            &&& !o.detect_types ==> types[c] is Text
            &&& o.detect_types && o.sample_rows == 0 ==> types[c] == cells::column_type(
                g,
                rows,
                c,
                o.detect_dates,
            )
            &&& o.detect_types && o.sample_rows > 0 ==> types[c] == cells::column_type(
                g,
                if rows < o.sample_rows {
                    rows
                } else {
                    o.sample_rows as int
                },
                c,
                o.detect_dates,
            )
        }),
{
    if !o.detect_types {
        assert(!cells::some_text(g, 0, c, o.detect_dates));
    }
}

/// The cells of a data row are called by the letters of their columns and the number of the
/// row, which follows on the heading, and come in order. Each is written by the type and the
/// alignment of its column.
pub proof fn lemma_row_cells(s: SheetView, texts: Seq<Seq<char>>, i: int, n: int, g: Dating)
    requires
        0 <= n,
    ensures
        sheet::row_cells_xml(s, texts, i, 0, g) == Seq::<char>::empty(),
        sheet::row_cells_xml(s, texts, i, n + 1, g) == sheet::row_cells_xml(s, texts, i, n, g)
            + sheet::cell_xml(
            cell_text::letters((n + 1) as nat),
            decimal::decimal((s.data_start + i) as nat),
            if n < texts.len() {
                texts[n]
            } else {
                Seq::empty()
            },
            if n < s.types.len() {
                s.types[n]
            } else {
                ColType::Text
            },
            if n < s.aligns.len() {
                s.aligns[n]
            } else {
                Seq::empty()
            },
            i % 2,
            g,
        ),
        sheet::row_xml(s, texts, i, g) == "<row r=\""@ + decimal::decimal((s.data_start + i) as nat)
            + "\">"@ + sheet::row_cells_xml(s, texts, i, s.ncols, g) + "</row>"@,
{
}

/// The letters of columns: `A` to `Z`, then two letters from `AA` on, and so forth. Each has
/// letters of its own.
pub proof fn lemma_column_letters(n: nat)
    ensures
        n < 26 ==> cell_text::letters(n + 1) == seq![(65 + n) as char],
        cell_text::letters(26 * (n + 1) + 1) == cell_text::letters(n + 1).push('A'),
        n % 26 != 0 ==> cell_text::letters(n + 1).drop_last() == cell_text::letters(n).drop_last()
            && cell_text::letters(n + 1).last() as int == cell_text::letters(n).last() as int + 1,
        cell_text::letters_value(cell_text::letters(n)) == n,
        forall|k: int|
            0 <= k < cell_text::letters(n).len() ==> 'A' <= #[trigger] cell_text::letters(n)[k]
                <= 'Z',
{
    cell_text::lemma_letters_round_trip(n);
    lemma_letters_upper(n);
    if n < 26 {
        assert(cell_text::letters(0) =~= Seq::<char>::empty());
        assert(n / 26 == 0 && n % 26 == n);
        assert(cell_text::letters(n + 1) =~= seq![(65 + n) as char]);
    }
    let m = 26 * (n + 1) + 1;
    assert((m - 1) / 26 == n + 1 && (m - 1) % 26 == 0);
    if n > 0 && n % 26 != 0 {
        assert((n - 1) / 26 == n / 26);
        assert(cell_text::letters(n + 1).drop_last() =~= cell_text::letters((n / 26) as nat));
        assert(cell_text::letters(n).drop_last() =~= cell_text::letters((n / 26) as nat));
    }
}

proof fn lemma_letters_upper(n: nat)
    ensures
        forall|k: int|
            0 <= k < cell_text::letters(n).len() ==> 'A' <= #[trigger] cell_text::letters(n)[k]
                <= 'Z',
    decreases n,
{
    if n > 0 {
        let high = ((n - 1) / 26) as nat;
        lemma_letters_upper(high);
        assert forall|k: int| 0 <= k < cell_text::letters(n).len() implies 'A'
            <= #[trigger] cell_text::letters(n)[k] <= 'Z' by {
            if k < cell_text::letters(high).len() {
                assert(cell_text::letters(n)[k] == cell_text::letters(high)[k]);
            }
        }
    }
}

/// Numbers are written in decimal digits, and read as the number; none but zero begins with a
/// zero.
pub proof fn lemma_decimals(n: nat, d: nat)
    requires
        d < 10,
    ensures
        numbers::digits(decimal::decimal(n)),
        decimal::decimal_value(decimal::decimal(n)) == n,
        n > 0 ==> decimal::decimal(n)[0] != '0',
        decimal::decimal(10 * n + d) == (if n == 0 {
            seq![(48 + d) as char]
        } else {
            decimal::decimal(n).push((48 + d) as char)
        }),
    decreases n,
{
    decimal::lemma_decimal_round_trip(n);
    if n >= 10 {
        lemma_decimals(n / 10, d);
        assert forall|i: int| 0 <= i < decimal::decimal(n).len() implies 48
            <= (#[trigger] decimal::decimal(n)[i]) as int <= 57 by {
            if i < decimal::decimal(n / 10).len() {
                assert(decimal::decimal(n)[i] == decimal::decimal(n / 10)[i]);
                assert(48 <= decimal::decimal(n / 10)[i] as int <= 57);
            }
        }
        assert(decimal::decimal(n)[0] == decimal::decimal(n / 10)[0]);
    }
    assert((10 * n + d) / 10 == n && (10 * n + d) % 10 == d);
    if n == 0 {
        assert(decimal::decimal(d) =~= seq![(48 + d) as char]);
    }
}

/// A colour's hexadecimal digits stand for it.
pub open spec fn hex_value(s: Seq<char>) -> int
    decreases s.len(),
{
    if s.len() == 0 {
        0
    } else {
        let c = s.last() as int;
        16 * hex_value(s.drop_last()) + (if c >= 65 {
            c - 55
        } else {
            c - 48
        })
    }
}

proof fn lemma_hex(n: nat, k: nat)
    requires
        n < vstd::arithmetic::power::pow(16, k),
    ensures
        hex_value(decimal::hex(n, k)) == n,
        decimal::hex(n, k).len() == k,
    decreases k,
{
    if k == 0 {
        vstd::arithmetic::power::lemma_pow0(16);
    } else {
        reveal(vstd::arithmetic::power::pow);
        let p = vstd::arithmetic::power::pow(16, (k - 1) as nat);
        assert(vstd::arithmetic::power::pow(16, k) == 16 * p);
        assert(n / 16 < p);
        lemma_hex(n / 16, (k - 1) as nat);
        assert(decimal::hex(n, k).drop_last() =~= decimal::hex(n / 16, (k - 1) as nat));
    }
}

/// A fill of a colour has the colour's six hexadecimal digits.
pub proof fn lemma_fill_colour(color: u32)
    requires
        color <= 0xff_ffff,
    ensures
        exists|digits: Seq<char>|
            digits.len() == 6 && hex_value(digits) == color && styles::solid(color)
                == "<fill><patternFill patternType=\"solid\"><fgColor rgb=\"FF"@ + #[trigger] (digits
                + "\"/></patternFill></fill>"@),
{
    reveal(vstd::arithmetic::power::pow);
    reveal_with_fuel(vstd::arithmetic::power::pow, 8);
    assert(vstd::arithmetic::power::pow(16, 6) == 0x100_0000);
    lemma_hex(color as nat, 6);
    let d = decimal::hex(color as nat, 6);
    assert(styles::solid(color)
        =~= "<fill><patternFill patternType=\"solid\"><fgColor rgb=\"FF"@ + (d
        + "\"/></patternFill></fill>"@));
}

/// The fills of a workbook: two that every workbook has, that of headings where one is asked
/// for, and those of even and odd rows.
pub open spec fn fill_list(o: StyleView) -> Seq<Seq<char>> {
    seq![
        "<fill><patternFill patternType=\"none\"/></fill>"@,
        "<fill><patternFill patternType=\"gray125\"/></fill>"@,
    ] + (match o.header_bg {
        Some(c) => seq![styles::solid(c)],
        None => Seq::empty(),
    }) + (match o.row_colors {
        Some(pair) => seq![styles::solid(pair.0), styles::solid(pair.1)],
        None => Seq::empty(),
    })
}

/// A cell's format: a number format, a font, a fill and an alignment.
pub open spec fn format_text(
    number: Seq<char>,
    font: Seq<char>,
    fill: int,
    align: Seq<char>,
) -> Seq<char> {
    "<xf numFmtId=\""@ + number + "\" fontId=\""@ + font + "\" fillId=\""@ + decimal::decimal(
        fill as nat,
    ) + "\" borderId=\"1\" xfId=\"0\""@ + (if number == "0"@ {
        Seq::empty()
    } else {
        " applyNumberFormat=\"1\""@
    }) + " applyFont=\"1\" applyFill=\"1\" applyBorder=\"1\""@ + (if align.len() == 0 {
        "/>"@
    } else {
        " applyAlignment=\"1\"><alignment horizontal=\""@ + align + "\" vertical=\"center\"/></xf>"@
    })
}

/// The alignments that a cell can be given; any other counts as none.
pub open spec fn proper_align(align: Seq<char>) -> Seq<char> {
    if align == "left"@ || align == "center"@ || align == "right"@ {
        align
    } else {
        Seq::empty()
    }
}

/// The format of a style: a heading's has the bold font and the fill of headings, a text's or
/// number's the fill of its row, a date's the format of dates besides; each has the alignment
/// that was asked for.
pub proof fn lemma_formats(o: StyleView, align: Seq<char>, parity: int)
    requires
        parity == 0 || parity == 1,
    ensures
        ({
            let all = styles::formats(o);
            let fill = if o.row_colors is None {
                0
            } else {
                fill_list(o).len() - 2 + parity
            };
            let head = if o.header_bg is None {
                0int
            } else {
                2
            };
            &&& all.len() == 21
            &&& 0 < styles::header_xf(align) < 21 && all[styles::header_xf(align)] == format_text(
                "0"@,
                "1"@,
                head,
                proper_align(align),
            )
            &&& 0 < styles::data_xf(align, parity) < 21 && all[styles::data_xf(align, parity)]
                == format_text("0"@, "0"@, fill, proper_align(align))
            &&& 0 < styles::date_xf(align, parity) < 21 && all[styles::date_xf(align, parity)]
                == format_text("164"@, "0"@, fill, proper_align(align))
            &&& o.header_bg matches Some(c) ==> fill_list(o)[head] == styles::solid(c)
            &&& o.row_colors matches Some(pair) ==> fill_list(o)[fill] == styles::solid(
                if parity == 0 {
                    pair.0
                } else {
                    pair.1
                },
            )
        }),
{
    reveal_strlit("left");
    reveal_strlit("center");
    reveal_strlit("right");
    reveal_strlit("0");
    reveal_strlit("1");
    reveal_strlit("164");
    styles::lemma_styles_formatted(o, align, parity);
    assert("left"@.len() == 4 && "center"@.len() == 6 && "right"@.len() == 5);
    assert(styles::align_name(styles::align_of(align)) == proper_align(align));
    assert(decimal::decimal(0) =~= "0"@);
    assert(decimal::decimal(1) =~= "1"@);
    reveal_with_fuel(decimal::decimal, 4);
    assert(decimal::decimal(164) =~= "164"@);
    assert("164"@.len() == 3 && "0"@.len() == 1);
}

/// The styles part lists the fills and the formats in the order in which they are numbered,
/// with their numbers, and has the format of dates.
pub proof fn lemma_styles_part(o: StyleView)
    ensures
        styles::fills_xml(o) == "<fills count=\""@ + decimal::decimal(fill_list(o).len())
            + "\">"@ + styles::joined(fill_list(o)) + "</fills>"@,
        styles::styles_xml(o)
            == "<?xml version=\"1.0\" encoding=\"UTF-8\" standalone=\"yes\"?>\n<styleSheet xmlns=\"http://schemas.openxmlformats.org/spreadsheetml/2006/main\"><numFmts count=\"1\"><numFmt numFmtId=\"164\" formatCode=\"yyyy-mm-dd hh:mm:ss\"/></numFmts>"@
            + ("<fonts count=\"2\"><font><sz val=\""@ + o.font_size + "\"/><name val=\""@
            + cell_text::sheet_text(o.font_family, true) + "\"/></font><font><b/>"@ + (
        match o.header_fg {
            Some(c) => "<color rgb=\"FF"@ + decimal::hex(c as nat, 6) + "\"/>"@,
            None => Seq::empty(),
        }) + "<sz val=\""@ + o.font_size + "\"/><name val=\""@ + cell_text::sheet_text(
            o.font_family,
            true,
        ) + "\"/></font></fonts>"@) + styles::fills_xml(o)
            + "<borders count=\"2\"><border><left/><right/><top/><bottom/><diagonal/></border><border><left style=\"thin\"><color rgb=\"FF000000\"/></left><right style=\"thin\"><color rgb=\"FF000000\"/></right><top style=\"thin\"><color rgb=\"FF000000\"/></top><bottom style=\"thin\"><color rgb=\"FF000000\"/></bottom><diagonal/></border></borders><cellStyleXfs count=\"1\"><xf numFmtId=\"0\" fontId=\"0\" fillId=\"0\" borderId=\"0\"/></cellStyleXfs><cellXfs count=\"21\">"@
            + styles::joined(styles::formats(o))
            + "</cellXfs><cellStyles count=\"1\"><cellStyle name=\"Normal\" xfId=\"0\" builtinId=\"0\"/></cellStyles></styleSheet>"@,
        forall|list: Seq<Seq<char>>, t: Seq<char>| #[trigger]
            styles::joined(list.push(t)) == styles::joined(list) + t,
{
    assert forall|list: Seq<Seq<char>>, t: Seq<char>| #[trigger]
        styles::joined(list.push(t)) == styles::joined(list) + t by {
        assert(list.push(t).drop_last() =~= list);
    }
    let none = Seq::<Seq<char>>::empty();
    let a = "<fill><patternFill patternType=\"none\"/></fill>"@;
    let b = "<fill><patternFill patternType=\"gray125\"/></fill>"@;
    lemma_two_fills();
    let two = none.push(a).push(b);
    assert(styles::joined(none) =~= Seq::<char>::empty());
    assert(styles::joined(two) =~= a + b) by {
        assert(styles::joined(none.push(a)) == styles::joined(none) + a);
    }
    let three = match o.header_bg {
        Some(c) => two.push(styles::solid(c)),
        None => two,
    };
    let all = match o.row_colors {
        Some(pair) => three.push(styles::solid(pair.0)).push(styles::solid(pair.1)),
        None => three,
    };
    assert(all =~= fill_list(o));
    assert(fill_list(o).len() == styles::fill_count(o));
    if let Some(pair) = o.row_colors {
        assert(styles::joined(three.push(styles::solid(pair.0))) == styles::joined(three)
            + styles::solid(pair.0));
    }
    assert(styles::fills_xml(o) =~= "<fills count=\""@ + decimal::decimal(fill_list(o).len())
        + "\">"@ + styles::joined(fill_list(o)) + "</fills>"@);
}

proof fn lemma_two_fills()
    ensures
        "<fill><patternFill patternType=\"none\"/></fill><fill><patternFill patternType=\"gray125\"/></fill>"@
            == "<fill><patternFill patternType=\"none\"/></fill>"@
            + "<fill><patternFill patternType=\"gray125\"/></fill>"@,
{
    reveal_strlit(
        "<fill><patternFill patternType=\"none\"/></fill><fill><patternFill patternType=\"gray125\"/></fill>",
    );
    reveal_strlit("<fill><patternFill patternType=\"none\"/></fill>");
    reveal_strlit("<fill><patternFill patternType=\"gray125\"/></fill>");
    assert("<fill><patternFill patternType=\"none\"/></fill><fill><patternFill patternType=\"gray125\"/></fill>"@
        =~= "<fill><patternFill patternType=\"none\"/></fill>"@
        + "<fill><patternFill patternType=\"gray125\"/></fill>"@);
}

} // verus!
