//! Which texts are timestamps, and that a sheet holds the moments that they are.

use crate::cell_text;
use crate::cells::ColType;
use crate::decimal;
use crate::laws::numbers;
use crate::sheet;
use crate::sheet::Dating;
use crate::styles;
use crate::text;
use vstd::prelude::*;
use vstd::utf8::*;

verus! {

/// A moment: a day of the calendar and a time.
pub struct Stamp {
    pub year: int,
    pub month: int,
    pub day: int,
    pub hour: int,
    pub minute: int,
    pub second: int,
}

/// A decimal digit.
pub open spec fn figure(n: int) -> char {
    (48 + n) as char
}

/// Two digits.
pub open spec fn two(n: int) -> Seq<char> {
    seq![figure(n / 10), figure(n % 10)]
}

impl Stamp {
    /// `YYYY-MM-DD HH:MM:SS`.
    pub open spec fn text(self) -> Seq<char> {
        two(self.year / 100) + two(self.year % 100) + seq!['-'] + two(self.month) + seq!['-'] + two(
            self.day,
        ) + seq![' '] + two(self.hour) + seq![':'] + two(self.minute) + seq![':'] + two(self.second)
    }

    /// Every part is in its range.
    pub open spec fn in_range(self) -> bool {
        &&& 0 <= self.year <= 9999 && 1 <= self.month <= 12 && 1 <= self.day <= 31
        &&& 0 <= self.hour <= 23 && 0 <= self.minute <= 59 && 0 <= self.second <= 59
    }

    /// Days from 1899-12-30, which is day zero of a spreadsheet.
    pub open spec fn days(self) -> int {
        cell_text::civil_days(self.year, self.month, self.day) - cell_text::civil_days(1899, 12, 30)
    }

    /// Seconds from midnight.
    pub open spec fn seconds(self) -> int {
        (self.hour * 60 + self.minute) * 60 + self.second
    }
}

/// The bytes of a text of small characters.
spec fn plain_bytes(s: Seq<char>) -> Seq<u8> {
    Seq::new(s.len(), |i: int| s[i] as u8)
}

proof fn lemma_plain(s: Seq<char>)
    requires
        is_ascii_chars(s),
    ensures
        encode_utf8(s) == plain_bytes(s),
{
    is_ascii_chars_encode_utf8(s);
    assert(encode_utf8(s) =~= plain_bytes(s));
}

proof fn lemma_stamp_bytes(x: Stamp)
    requires
        x.in_range(),
    ensures
        ({
            let b = encode_utf8(x.text());
            &&& b.len() == 19
            &&& b[4] == 45 && b[7] == 45 && b[10] == 32 && b[13] == 58 && b[16] == 58
            &&& b[0] == 48 + x.year / 100 / 10 && b[1] == 48 + x.year / 100 % 10
            &&& b[2] == 48 + x.year % 100 / 10 && b[3] == 48 + x.year % 100 % 10
            &&& b[5] == 48 + x.month / 10 && b[6] == 48 + x.month % 10
            &&& b[8] == 48 + x.day / 10 && b[9] == 48 + x.day % 10
            &&& b[11] == 48 + x.hour / 10 && b[12] == 48 + x.hour % 10
            &&& b[14] == 48 + x.minute / 10 && b[15] == 48 + x.minute % 10
            &&& b[17] == 48 + x.second / 10 && b[18] == 48 + x.second % 10
        }),
{
    let s = x.text();
    assert(s.len() == 19);
    assert(is_ascii_chars(s)) by {
        assert forall|i: int| 0 <= i < s.len() implies '\0' <= #[trigger] s[i] <= '\u{7f}' by {}
    }
    lemma_plain(s);
}

proof fn lemma_numbers_at(b: Seq<u8>)
    ensures
        cell_text::number_at(b, 0, 4) == 1000 * (b[0] - 48) + 100 * (b[1] - 48) + 10 * (b[2] - 48)
            + (b[3] - 48),
        cell_text::number_at(b, 5, 7) == 10 * (b[5] - 48) + (b[6] - 48),
        cell_text::number_at(b, 8, 10) == 10 * (b[8] - 48) + (b[9] - 48),
        cell_text::number_at(b, 11, 13) == 10 * (b[11] - 48) + (b[12] - 48),
        cell_text::number_at(b, 14, 16) == 10 * (b[14] - 48) + (b[15] - 48),
        cell_text::number_at(b, 17, 19) == 10 * (b[17] - 48) + (b[18] - 48),
{
    reveal_with_fuel(cell_text::number_at, 5);
}

/// A timestamp is read as its spreadsheet day and the second of that day, if the day is one
/// that spreadsheets count.
pub proof fn lemma_date_read(x: Stamp)
    requires
        x.in_range(),
    ensures
        cell_text::date_of(x.text()) == (if x.days() >= 1 {
            Some((x.days(), x.seconds()))
        } else {
            None
        }),
{
    lemma_stamp_bytes(x);
    let b = encode_utf8(x.text());
    lemma_numbers_at(b);
    assert(cell_text::number_at(b, 0, 4) == x.year);
    assert(cell_text::number_at(b, 5, 7) == x.month);
    assert(cell_text::number_at(b, 8, 10) == x.day);
    assert(cell_text::number_at(b, 11, 13) == x.hour);
    assert(cell_text::number_at(b, 14, 16) == x.minute);
    assert(cell_text::number_at(b, 17, 19) == x.second);
    assert(cell_text::date_layout(b));
    assert(cell_text::civil_days(1899, 12, 30) == -25569);
}

/// The bytes of a timestamp are those of the moment that they are read as.
proof fn lemma_stamp_of(b: Seq<u8>, x: Stamp)
    requires
        x.in_range(),
        cell_text::date_layout(b),
        x.year == 1000 * (b[0] - 48) + 100 * (b[1] - 48) + 10 * (b[2] - 48) + (b[3] - 48),
        x.month == 10 * (b[5] - 48) + (b[6] - 48),
        x.day == 10 * (b[8] - 48) + (b[9] - 48),
        x.hour == 10 * (b[11] - 48) + (b[12] - 48),
        x.minute == 10 * (b[14] - 48) + (b[15] - 48),
        x.second == 10 * (b[17] - 48) + (b[18] - 48),
    ensures
        encode_utf8(x.text()) == b,
{
    lemma_stamp_bytes(x);
    assert(cell_text::digit_byte(b[0]) && cell_text::digit_byte(b[1]) && cell_text::digit_byte(b[2])
        && cell_text::digit_byte(b[3]) && cell_text::digit_byte(b[5]) && cell_text::digit_byte(b[6])
        && cell_text::digit_byte(b[8]) && cell_text::digit_byte(b[9]));
    assert(cell_text::digit_byte(b[11]) && cell_text::digit_byte(b[12]) && cell_text::digit_byte(
        b[14],
    ) && cell_text::digit_byte(b[15]) && cell_text::digit_byte(b[17]) && cell_text::digit_byte(
        b[18],
    ));
    let c = encode_utf8(x.text());
    assert(c[0] == b[0] && c[1] == b[1] && c[2] == b[2] && c[3] == b[3]);
    assert(c[5] == b[5] && c[6] == b[6] && c[8] == b[8] && c[9] == b[9]);
    assert(c[11] == b[11] && c[12] == b[12] && c[14] == b[14] && c[15] == b[15]);
    assert(c[17] == b[17] && c[18] == b[18]);
    assert(c =~= b);
}

/// No other text is read as a timestamp.
pub proof fn lemma_date_only(s: Seq<char>) -> (x: Stamp)
    requires
        cell_text::date_of(s) is Some,
    ensures
        x.in_range(),
        x.text() == s,
        x.days() >= 1,
{
    let b = encode_utf8(s);
    lemma_numbers_at(b);
    let x = Stamp {
        year: cell_text::number_at(b, 0, 4),
        month: cell_text::number_at(b, 5, 7),
        day: cell_text::number_at(b, 8, 10),
        hour: cell_text::number_at(b, 11, 13),
        minute: cell_text::number_at(b, 14, 16),
        second: cell_text::number_at(b, 17, 19),
    };
    assert(cell_text::digit_byte(b[0]) && cell_text::digit_byte(b[1]) && cell_text::digit_byte(b[2])
        && cell_text::digit_byte(b[3]) && cell_text::digit_byte(b[5]) && cell_text::digit_byte(b[6])
        && cell_text::digit_byte(b[8]) && cell_text::digit_byte(b[9]) && cell_text::digit_byte(
        b[11],
    ) && cell_text::digit_byte(b[12]) && cell_text::digit_byte(b[14]) && cell_text::digit_byte(
        b[15],
    ) && cell_text::digit_byte(b[17]) && cell_text::digit_byte(b[18]));
    assert(x.in_range());
    lemma_stamp_of(b, x);
    text::lemma_encode_injective(x.text(), s);
    lemma_date_read(x);
    x
}

/// A date column: a cell whose text is a timestamp, white space around it or not, holds the
/// moment, with the style of dates.
pub proof fn lemma_date_cell(
    name: Seq<char>,
    row: Seq<char>,
    pre: Seq<char>,
    x: Stamp,
    post: Seq<char>,
    align: Seq<char>,
    parity: int,
    g: Dating,
)
    requires
        x.in_range(),
        x.days() >= 1,
        numbers::spaces(pre),
        numbers::spaces(post),
    ensures
        sheet::cell_xml(name, row, pre + x.text() + post, ColType::Date, align, parity, g)
            == "<c r=\""@ + name + row + "\" s=\""@ + decimal::decimal(
            styles::date_xf(align, parity) as nat,
        ) + "\"><v>"@ + g(x.days(), x.seconds()) + "</v></c>"@,
{
    let t = x.text();
    assert(t.len() == 19);
    assert(t[0] == figure(x.year / 100 / 10));
    assert(t.last() == figure(x.second % 10));
    numbers::lemma_spaces_around(pre, t, post);
    lemma_date_read(x);
    let v = g(x.days(), x.seconds());
    assert(sheet::cell_xml(name, row, pre + t + post, ColType::Date, align, parity, g)
        =~= "<c r=\""@ + name + row + "\" s=\""@ + decimal::decimal(
        styles::date_xf(align, parity) as nat,
    ) + "\"><v>"@ + v + "</v></c>"@);
}

/// A month's first day is the number of days of the month before it later than that month's,
/// so that the count is that of the Gregorian calendar: every fourth year has a day more, but
/// of full centuries only every fourth.
pub proof fn lemma_calendar(y: int, m: int)
    requires
        1 <= m <= 12,
    ensures
        ({
            let next = if m < 12 {
                cell_text::civil_days(y, m + 1, 1)
            } else {
                cell_text::civil_days(y + 1, 1, 1)
            };
            let length = next - cell_text::civil_days(y, m, 1);
            &&& m == 1 || m == 3 || m == 5 || m == 7 || m == 8 || m == 10 || m == 12 ==> length
                == 31
            &&& m == 4 || m == 6 || m == 9 || m == 11 ==> length == 30
            &&& m == 2 && y % 4 != 0 ==> length == 28
            &&& m == 2 && y % 4 == 0 && y % 100 != 0 ==> length == 29
            &&& m == 2 && y % 100 == 0 && y % 400 != 0 ==> length == 28
            &&& m == 2 && y % 400 == 0 ==> length == 29
        }),
        forall|d: int| #[trigger]
            cell_text::civil_days(y, m, d) == cell_text::civil_days(y, m, 1) + d - 1,
        cell_text::civil_days(1970, 1, 1) == 0,
{
    let last = cell_text::month_length(y, m);
    assert(y % 100 == 0 ==> y % 4 == 0) by {
        if y % 100 == 0 {
            assert(y == 4 * (25 * (y / 100)));
        }
    }
    assert(y % 400 == 0 ==> y % 100 == 0) by {
        if y % 400 == 0 {
            assert(y == 100 * (4 * (y / 400)));
        }
    }
    cell_text::lemma_civil_successor(y, m, last);
}

} // verus!
