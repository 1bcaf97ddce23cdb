//! Cell texts: which are numbers, which are dates, and how texts are escaped.

use crate::serialize;
use crate::text;
use crate::text::chars_of;
use crate::text::text_of;
use crate::text::trim_white;
use vstd::prelude::*;
use vstd::utf8::*;

verus! {

/// Most significant digits a number may have and still be exact in a spreadsheet.
pub const MAX_DIGITS: usize = 15;

/// An ASCII digit.
pub open spec fn is_digit(c: char) -> bool {
    '0' <= c <= '9'
}

/// Only digits.
pub open spec fn all_digits(s: Seq<char>) -> bool {
    forall|i: int| 0 <= i < s.len() ==> is_digit(#[trigger] s[i])
}

/// A decimal separator.
pub open spec fn is_point(c: char) -> bool {
    c == '.' || c == ','
}

/// Whether a text begins with a sign.
pub open spec fn signed(t: Seq<char>) -> bool {
    t.len() > 0 && (t[0] == '+' || t[0] == '-')
}

/// A text without its sign.
pub open spec fn unsigned(t: Seq<char>) -> Seq<char> {
    if signed(t) {
        t.drop_first()
    } else {
        t
    }
}

/// Where the first decimal separator stands, or the length.
pub open spec fn point_at(s: Seq<char>) -> int
    decreases s.len(),
{
    if s.len() == 0 || is_point(s[0]) {
        0
    } else {
        1 + point_at(s.drop_first())
    }
}

/// The digits before the separator.
pub open spec fn whole_part(body: Seq<char>) -> Seq<char> {
    body.take(point_at(body))
}

/// The digits behind the separator.
pub open spec fn fraction(body: Seq<char>) -> Seq<char> {
    if point_at(body) < body.len() {
        body.skip(point_at(body) + 1)
    } else {
        Seq::empty()
    }
}

/// Digits from the first that is not zero on.
pub open spec fn significant(digits: Seq<char>) -> Seq<char>
    decreases digits.len(),
{
    if digits.len() > 0 && digits[0] == '0' {
        significant(digits.drop_first())
    } else {
        digits
    }
}

/// A plain number: digits with at most one separator and digits behind it, no leading
/// zeros, and few enough significant digits to be exact.
pub open spec fn plain_number(body: Seq<char>) -> bool {
    let whole = whole_part(body);
    let frac = fraction(body);
    &&& all_digits(whole)
    &&& all_digits(frac)
    &&& if point_at(body) < body.len() {
        frac.len() > 0
    } else {
        whole.len() > 0
    }
    &&& !(whole.len() > 1 && whole[0] == '0')
    &&& significant(whole + frac).len() <= MAX_DIGITS
}

/// A number with a point as its separator and at least one digit before it.
pub open spec fn invariant_number(t: Seq<char>) -> Seq<char> {
    let body = unsigned(t);
    let whole = whole_part(body);
    (if t.len() > 0 && t[0] == '-' {
        "-"@
    } else {
        Seq::empty()
    }) + (if whole.len() == 0 {
        "0"@
    } else {
        whole
    }) + (if point_at(body) < body.len() {
        "."@ + fraction(body)
    } else {
        Seq::empty()
    })
}

/// The number that a text is, if it is a plain one.
pub open spec fn number_of(s: Seq<char>) -> Option<Seq<char>> {
    let t = text::white_trimmed(s);
    if plain_number(unsigned(t)) {
        Some(invariant_number(t))
    } else {
        None
    }
}

/// The first separator: nothing before it is one.
proof fn lemma_point_at(s: Seq<char>)
    ensures
        0 <= point_at(s) <= s.len(),
        point_at(s) < s.len() ==> is_point(s[point_at(s)]),
        forall|i: int| 0 <= i < point_at(s) ==> !is_point(#[trigger] s[i]),
    decreases s.len(),
{
    if s.len() > 0 && !is_point(s[0]) {
        lemma_point_at(s.drop_first());
        assert forall|i: int| 0 <= i < point_at(s) implies !is_point(#[trigger] s[i]) by {
            if i > 0 {
                assert(s[i] == s.drop_first()[i - 1]);
            }
        }
    }
}

/// Reads a plain number, given with a point or a comma, and gives it with a point.
pub fn number_repr(s: &str) -> (r: Option<String>)
    ensures
        text::opt_text(r) == number_of(s@),
{
    let t = trim_white(s);
    let chars = chars_of(t.as_str());
    let n: usize = chars.len();
    let minus: bool = n > 0 && chars[0] == '-';
    let start: usize = if n > 0 && (chars[0] == '+' || chars[0] == '-') {
        1
    } else {
        0
    };
    let ghost body = unsigned(t@);
    assert(body =~= chars@.skip(start as int));
    let mut at: usize = start;
    proof {
        assert(body.skip(0) =~= body);
    }
    while at < n && chars[at] != '.' && chars[at] != ','
        invariant
            start <= at <= n == chars@.len(),
            body == chars@.skip(start as int),
            point_at(body) == at - start + point_at(body.skip(at - start)),
        decreases n - at,
    {
        proof {
            assert(body.skip(at - start)[0] == chars@[at as int]);
            assert(body.skip(at - start).drop_first() =~= body.skip(at - start + 1));
        }
        at += 1;
    }
    proof {
        lemma_point_at(body);
        if at < n {
            assert(body.skip(at - start)[0] == chars@[at as int]);
        }
        assert(point_at(body) == at - start);
    }
    let whole = text_of(&chars, start, at);
    let frac: String = if at < n {
        text_of(&chars, at + 1, n)
    } else {
        String::new()
    };
    assert(whole@ =~= whole_part(body));
    assert(frac@ =~= fraction(body));
    let int_len: usize = at - start;
    let frac_len: usize = if at < n {
        n - at - 1
    } else {
        0
    };
    if !digits_only(whole.as_str()) || !digits_only(frac.as_str()) {
        return None;
    }
    if at < n {
        if frac_len == 0 {
            return None;
        }
    } else if int_len == 0 {
        return None;
    }
    if int_len > 1 && chars[start] == '0' {
        assert(whole_part(body)[0] == chars@[start as int]);
        return None;
    }
    let mut digits = whole.clone();
    digits.push_str(frac.as_str());
    if significant_len(digits.as_str()) > MAX_DIGITS {
        return None;
    }
    proof {
        if int_len > 1 {
            assert(whole_part(body)[0] == chars@[start as int]);
        }
    }
    let mut out = String::new();
    if minus {
        out.push_str("-");
    }
    if int_len == 0 {
        out.push_str("0");
    } else {
        out.push_str(whole.as_str());
    }
    if at < n {
        out.push_str(".");
        out.push_str(frac.as_str());
    }
    assert(out@ =~= invariant_number(t@));
    Some(out)
}

/// How many digits are significant.
fn significant_len(s: &str) -> (r: usize)
    ensures
        r == significant(s@).len(),
{
    let chars = chars_of(s);
    let n: usize = chars.len();
    let mut i: usize = 0;
    assert(s@.skip(0) =~= s@);
    while i < n && chars[i] == '0'
        invariant
            i <= n == chars@.len(),
            chars@ == s@,
            significant(s@) == significant(s@.skip(i as int)),
        decreases n - i,
    {
        assert(s@.skip(i as int)[0] == '0');
        assert(s@.skip(i as int).drop_first() =~= s@.skip(i + 1));
        i += 1;
    }
    assert(i < n ==> s@.skip(i as int)[0] != '0');
    n - i
}

fn digits_only(s: &str) -> (r: bool)
    ensures
        r == all_digits(s@),
{
    let chars = chars_of(s);
    let mut i: usize = 0;
    while i < chars.len()
        invariant
            i <= chars@.len(),
            chars@ == s@,
            forall|k: int| 0 <= k < i ==> is_digit(#[trigger] s@[k]),
        decreases chars@.len() - i,
    {
        if !('0' <= chars[i] && chars[i] <= '9') {
            assert(!is_digit(s@[i as int]));
            return false;
        }
        i += 1;
    }
    true
}

/// Days from 1970-01-01 to a day of the proleptic Gregorian calendar, with years that
/// begin in March: the days of whole years with their leap days, those of the months
/// before, and those of the month.
pub open spec fn civil_days(y: int, m: int, d: int) -> int {
    let year = if m <= 2 {
        y - 1
    } else {
        y
    };
    let month = if m > 2 {
        m - 3
    } else {
        m + 9
    };
    365 * year + year / 4 - year / 100 + year / 400 + month_days(month) + d - 1 - 719468
}

/// Days before a month, months counted from March.
pub open spec fn month_days(month: int) -> int {
    (153 * month + 2) / 5
}

/// A leap year.
pub open spec fn leap(y: int) -> bool {
    y % 4 == 0 && (y % 100 != 0 || y % 400 == 0)
}

/// How many days a month has.
pub open spec fn month_length(y: int, m: int) -> int {
    if m == 2 {
        if leap(y) {
            29
        } else {
            28
        }
    } else if m == 4 || m == 6 || m == 9 || m == 11 {
        30
    } else {
        31
    }
}

/// Days from 1970-01-01 in the proleptic Gregorian calendar.
pub fn days_from_civil(y: i64, m: i64, d: i64) -> (r: i64)
    requires
        -25_250_000_000_000_000 <= y <= 25_250_000_000_000_000,
        1 <= m <= 12,
        i64::MIN + 1_000_000 <= d <= i64::MAX - 1_000_000,
        i64::MIN + 1_000_000 <= civil_days(y as int, m as int, d as int) <= i64::MAX - 1_000_000,
    ensures
        r == civil_days(y as int, m as int, d as int),
{
    let year: i64 = if m <= 2 {
        y - 1
    } else {
        y
    };
    let era: i64 = if year >= 0 {
        year / 400
    } else {
        -((399 - year) / 400)
    };
    let yoe: i64 = year - era * 400;
    let month: i64 = if m > 2 {
        m - 3
    } else {
        m + 9
    };
    let doy: i64 = (153 * month + 2) / 5 + d - 1;
    assert(0 <= yoe < 400);
    let doe: i64 = yoe * 365 + yoe / 4 - yoe / 100 + doy;
    era * 146097 + doe - 719468
}

/// The first day of the count is the first of January 1970.
pub proof fn lemma_civil_origin()
    ensures
        civil_days(1970, 1, 1) == 0,
{
}

/// The day behind the last of a month is the first of the next; within a month the count
/// goes by one. So the count is that of the calendar.
pub proof fn lemma_civil_successor(y: int, m: int, d: int)
    requires
        1 <= m <= 12,
        1 <= d <= month_length(y, m),
    ensures
        d < month_length(y, m) ==> civil_days(y, m, d + 1) == civil_days(y, m, d) + 1,
        d == month_length(y, m) && m < 12 ==> civil_days(y, m + 1, 1) == civil_days(y, m, d) + 1,
        d == month_length(y, m) && m == 12 ==> civil_days(y + 1, 1, 1) == civil_days(y, m, d) + 1,
{
    assert(month_days(0) == 0 && month_days(1) == 31 && month_days(2) == 61 && month_days(3) == 92
        && month_days(4) == 122 && month_days(5) == 153 && month_days(6) == 184 && month_days(7)
        == 214 && month_days(8) == 245 && month_days(9) == 275 && month_days(10) == 306
        && month_days(11) == 337);
    lemma_year_days(y);
}

/// Whole quarters, centuries and quadricentennials pass where they divide the year.
proof fn lemma_year_steps(y: int)
    ensures
        y / 4 - (y - 1) / 4 == (if y % 4 == 0 {
            1int
        } else {
            0
        }),
        y / 100 - (y - 1) / 100 == (if y % 100 == 0 {
            1int
        } else {
            0
        }),
        y / 400 - (y - 1) / 400 == (if y % 400 == 0 {
            1int
        } else {
            0
        }),
{
}

/// What divides by a hundred divides by four.
proof fn lemma_century(y: int)
    ensures
        y % 100 == 0 ==> y % 4 == 0,
        y % 400 == 0 ==> y % 100 == 0,
{
    let c = y / 100;
    let q = y / 400;
    if y % 100 == 0 {
        assert(y == 4 * (25 * c));
    }
    if y % 400 == 0 {
        assert(y == 100 * (4 * q));
    }
}

/// A year has a leap day at the end of its February, which closes the March year before.
proof fn lemma_year_days(y: int)
    ensures
        (365 * y + y / 4 - y / 100 + y / 400) - (365 * (y - 1) + (y - 1) / 4 - (y - 1) / 100 + (y
            - 1) / 400) == 365 + (if leap(y) {
            1int
        } else {
            0
        }),
{
    lemma_year_steps(y);
    lemma_century(y);
}

/// An ASCII digit's byte.
pub open spec fn digit_byte(b: u8) -> bool {
    48 <= b <= 57
}

/// Digits from `lo` up to `hi`.
pub open spec fn digits_at(b: Seq<u8>, lo: int, hi: int) -> bool {
    forall|i: int| lo <= i < hi ==> digit_byte(#[trigger] b[i])
}

/// The number that the digits from `lo` up to `hi` stand for.
pub open spec fn number_at(b: Seq<u8>, lo: int, hi: int) -> int
    decreases hi - lo,
{
    if lo >= hi {
        0
    } else {
        10 * number_at(b, lo, hi - 1) + (b[hi - 1] - 48)
    }
}

/// The layout `YYYY-MM-DD HH:MM:SS`.
pub open spec fn date_layout(b: Seq<u8>) -> bool {
    &&& b.len() == 19
    &&& b[4] == 45 && b[7] == 45 && b[10] == 32 && b[13] == 58 && b[16] == 58
    &&& digits_at(b, 0, 4) && digits_at(b, 5, 7) && digits_at(b, 8, 10)
    &&& digits_at(b, 11, 13) && digits_at(b, 14, 16) && digits_at(b, 17, 19)
}

/// The ranges of month, day and time.
pub open spec fn date_ranges(b: Seq<u8>) -> bool {
    &&& 1 <= number_at(b, 5, 7) <= 12
    &&& 1 <= number_at(b, 8, 10) <= 31
    &&& number_at(b, 11, 13) <= 23
    &&& number_at(b, 14, 16) <= 59
    &&& number_at(b, 17, 19) <= 59
}

/// The spreadsheet day of a timestamp, which counts from 1899-12-30.
pub open spec fn serial_day(b: Seq<u8>) -> int {
    civil_days(number_at(b, 0, 4), number_at(b, 5, 7), number_at(b, 8, 10)) + 25569
}

/// The second of the day.
pub open spec fn day_second(b: Seq<u8>) -> int {
    number_at(b, 11, 13) * 3600 + number_at(b, 14, 16) * 60 + number_at(b, 17, 19)
}

/// The spreadsheet day and the second of the day that a text stands for, if it is a
/// timestamp of a day that spreadsheets can count.
pub open spec fn date_of(s: Seq<char>) -> Option<(int, int)> {
    let b = encode_utf8(s);
    if date_layout(b) && date_ranges(b) && serial_day(b) >= 1 {
        Some((serial_day(b), day_second(b)))
    } else {
        None
    }
}

/// Reads the digits from `lo` up to `hi`.
fn read_digits(b: &[u8], lo: usize, hi: usize) -> (r: Option<i64>)
    requires
        lo <= hi <= b@.len(),
        hi - lo <= 4,
    ensures
        match r {
            Some(v) => digits_at(b@, lo as int, hi as int) && v == number_at(
                b@,
                lo as int,
                hi as int,
            ) && 0 <= v < 10000,
            None => !digits_at(b@, lo as int, hi as int),
        },
{
    let mut n: i64 = 0;
    let mut i: usize = lo;
    while i < hi
        invariant
            lo <= i <= hi <= b@.len(),
            hi - lo <= 4,
            digits_at(b@, lo as int, i as int),
            n == number_at(b@, lo as int, i as int),
            0 <= n,
            i - lo == 0 ==> n == 0,
            i - lo == 1 ==> n < 10,
            i - lo == 2 ==> n < 100,
            i - lo == 3 ==> n < 1000,
            i - lo == 4 ==> n < 10000,
        decreases hi - i,
    {
        let c: u8 = b[i];
        if c < 48 || c > 57 {
            return None;
        }
        n = n * 10 + (c - 48) as i64;
        i += 1;
    }
    Some(n)
}

/// Reads a timestamp: the spreadsheet day, and the second of the day.
pub fn parse_date(s: &str) -> (r: Option<(i64, i64)>)
    ensures
        match r {
            Some(v) => date_of(s@) == Some((v.0 as int, v.1 as int)),
            None => date_of(s@) is None,
        },
{
    let b = s.as_bytes();
    if b.len() != 19 {
        return None;
    }
    if b[4] != 45 || b[7] != 45 || b[10] != 32 || b[13] != 58 || b[16] != 58 {
        return None;
    }
    let (year, month, day) = match (read_digits(b, 0, 4), read_digits(b, 5, 7), read_digits(b, 8, 10)) {
        (Some(y), Some(m), Some(d)) => (y, m, d),
        _ => {
            return None;
        },
    };
    let (hh, mm, ss) = match (read_digits(b, 11, 13), read_digits(b, 14, 16), read_digits(b, 17, 19)) {
        (Some(h), Some(m), Some(s)) => (h, m, s),
        _ => {
            return None;
        },
    };
    if month < 1 || month > 12 || day < 1 || day > 31 || hh > 23 || mm > 59 || ss > 59 {
        return None;
    }
    let days: i64 = days_from_civil(year, month, day) + 25569;
    if days < 1 {
        return None;
    }
    Some((days, hh * 3600 + mm * 60 + ss))
}

/// Whether a text is a timestamp.
pub fn is_date(s: &str) -> (r: bool)
    ensures
        r == (date_of(s@) is Some),
{
    match parse_date(s) {
        Some(_) => true,
        None => false,
    }
}

/// Characters that no sheet name may have.
pub open spec fn banned(c: char) -> bool {
    c == '\\' || c == '/' || c == '*' || c == '?' || c == ':' || c == '[' || c == ']'
}

/// A text without banned characters.
pub open spec fn unbanned(s: Seq<char>) -> Seq<char>
    decreases s.len(),
{
    if s.len() == 0 {
        Seq::empty()
    } else if banned(s.last()) {
        unbanned(s.drop_last())
    } else {
        unbanned(s.drop_last()).push(s.last())
    }
}

/// A usable sheet name: without banned characters and white space around it, not empty,
/// and at most 31 characters long.
pub open spec fn sheet_name_of(s: Seq<char>) -> Seq<char> {
    let t = text::white_trimmed(unbanned(s));
    if t.len() == 0 {
        "Foglio1"@
    } else if t.len() > 31 {
        t.take(31)
    } else {
        t
    }
}

/// Makes a usable sheet name.
pub fn sanitize_sheet_name(name: &str) -> (r: String)
    ensures
        r@ == sheet_name_of(name@),
{
    let chars = chars_of(name);
    let mut kept = String::new();
    let mut i: usize = 0;
    assert(chars@.take(0) =~= Seq::<char>::empty());
    while i < chars.len()
        invariant
            i <= chars@.len(),
            kept@ == unbanned(chars@.take(i as int)),
        decreases chars@.len() - i,
    {
        let c = chars[i];
        assert(chars@.take(i + 1).drop_last() =~= chars@.take(i as int));
        assert(chars@.take(i + 1).last() == c);
        if !(c == '\\' || c == '/' || c == '*' || c == '?' || c == ':' || c == '[' || c == ']') {
            kept.push(c);
        }
        i += 1;
    }
    assert(chars@.take(i as int) =~= name@);
    let trimmed = trim_white(kept.as_str());
    let t = chars_of(trimmed.as_str());
    if t.len() == 0 {
        return "Foglio1".to_string();
    }
    if t.len() > 31 {
        let r = text_of(&t, 0, 31);
        assert(r@ =~= trimmed@.take(31));
        return r;
    }
    trimmed
}

/// One character of a worksheet text: markup escaped, control characters that XML does
/// not have left out. In an attribute the quote is escaped too.
pub open spec fn sheet_char(c: char, attribute: bool) -> Seq<char> {
    if c == '&' {
        "&amp;"@
    } else if c == '<' {
        "&lt;"@
    } else if c == '>' {
        "&gt;"@
    } else if c == '"' && attribute {
        "&quot;"@
    } else if c == '\t' || c == '\n' || c == '\r' || c >= ' ' {
        seq![c]
    } else {
        Seq::empty()
    }
}

/// A worksheet text.
pub open spec fn sheet_text(s: Seq<char>, attribute: bool) -> Seq<char>
    decreases s.len(),
{
    if s.len() == 0 {
        Seq::empty()
    } else {
        sheet_text(s.drop_last(), attribute) + sheet_char(s.last(), attribute)
    }
}

fn push_sheet_text(s: &str, attribute: bool, out: &mut String)
    ensures
        final(out)@ == old(out)@ + sheet_text(s@, attribute),
{
    let ghost start = out@;
    proof {
        assert(s@.take(0) =~= Seq::<char>::empty());
        assert(out@ =~= start + sheet_text(s@.take(0), attribute));
    }
    for c in it: s.chars()
        invariant
            it.seq() == s@,
            out@ == start + sheet_text(s@.take(it.index() as int), attribute),
    {
        let ghost k = it.index() as int;
        let ghost before = out@;
        if c == '&' {
            out.push_str("&amp;");
        } else if c == '<' {
            out.push_str("&lt;");
        } else if c == '>' {
            out.push_str("&gt;");
        } else if c == '"' && attribute {
            out.push_str("&quot;");
        } else if c == '\t' || c == '\n' || c == '\r' || c >= ' ' {
            out.push(c);
        }
        proof {
            assert(s@.take(k + 1).drop_last() =~= s@.take(k));
            assert(s@.take(k + 1).last() == c);
            assert(out@ =~= before + sheet_char(c, attribute));
            assert(out@ =~= start + sheet_text(s@.take(k + 1), attribute));
        }
    }
    assert(s@.take(s@.len() as int) =~= s@);
}

/// Appends a text as element content.
pub fn xml_escape(s: &str, out: &mut String)
    ensures
        final(out)@ == old(out)@ + sheet_text(s@, false),
{
    push_sheet_text(s, false, out);
}

/// Appends a text as attribute content.
pub fn xml_escape_attr(s: &str, out: &mut String)
    ensures
        final(out)@ == old(out)@ + sheet_text(s@, true),
{
    push_sheet_text(s, true, out);
}

/// What is written of a text holds no markup and no character that XML does not have.
pub proof fn lemma_sheet_text_plain(s: Seq<char>, attribute: bool)
    ensures
        forall|k: int|
            0 <= k < sheet_text(s, attribute).len() ==> {
                let c = #[trigger] sheet_text(s, attribute)[k];
                &&& c != '<' && c != '>'
                &&& attribute ==> c != '"'
                &&& c >= ' ' || c == '\t' || c == '\n' || c == '\r'
            },
    decreases s.len(),
{
    reveal_strlit("&amp;");
    reveal_strlit("&lt;");
    reveal_strlit("&gt;");
    reveal_strlit("&quot;");
    if s.len() > 0 {
        lemma_sheet_text_plain(s.drop_last(), attribute);
        let front = sheet_text(s.drop_last(), attribute);
        let back = sheet_char(s.last(), attribute);
        assert forall|k: int| 0 <= k < sheet_text(s, attribute).len() implies {
            let c = #[trigger] sheet_text(s, attribute)[k];
            &&& c != '<' && c != '>'
            &&& attribute ==> c != '"'
            &&& c >= ' ' || c == '\t' || c == '\n' || c == '\r'
        } by {
            if k < front.len() {
                assert(sheet_text(s, attribute)[k] == front[k]);
            } else {
                assert(sheet_text(s, attribute)[k] == back[k - front.len()]);
            }
        }
    }
}

/// The letters of the `n`-th column, counted from one.
pub open spec fn letters(n: nat) -> Seq<char>
    decreases n,
{
    if n == 0 {
        Seq::empty()
    } else {
        letters(((n - 1) / 26) as nat).push((65 + (n - 1) % 26) as char)
    }
}

/// The column that letters stand for, counted from one.
pub open spec fn letters_value(s: Seq<char>) -> nat
    decreases s.len(),
{
    if s.len() == 0 {
        0
    } else {
        26 * letters_value(s.drop_last()) + (s.last() as nat - 64) as nat
    }
}

/// Each column has letters of its own: reading them gives the column.
pub proof fn lemma_letters_round_trip(n: nat)
    ensures
        letters_value(letters(n)) == n,
    decreases n,
{
    if n > 0 {
        let high = ((n - 1) / 26) as nat;
        lemma_letters_round_trip(high);
        assert(letters(n).drop_last() =~= letters(high));
    }
}

fn push_letters(out: &mut String, n: usize)
    ensures
        final(out)@ == old(out)@ + letters(n as nat),
    decreases n,
{
    let ghost start = out@;
    if n > 0 {
        push_letters(out, (n - 1) / 26);
        let d: u8 = ((n - 1) % 26) as u8;
        out.push((65u8 + d) as char);
    }
    assert(out@ =~= start + letters(n as nat));
}

/// The letters of a column, counted from zero.
pub fn col_letter(col: usize) -> (r: String)
    requires
        col < usize::MAX,
    ensures
        r@ == letters((col + 1) as nat),
{
    let mut r = String::new();
    push_letters(&mut r, col + 1);
    assert(Seq::<char>::empty() + letters((col + 1) as nat) =~= letters((col + 1) as nat));
    r
}

/// A character that XML has.
pub open spec fn lawful_char(c: char) -> bool {
    c == '\t' || c == '\n' || c == '\r' || c >= ' '
}

/// A text without the characters that XML does not have.
pub open spec fn lawful(s: Seq<char>) -> Seq<char>
    decreases s.len(),
{
    if s.len() == 0 {
        Seq::empty()
    } else if lawful_char(s.last()) {
        lawful(s.drop_last()).push(s.last())
    } else {
        lawful(s.drop_last())
    }
}

proof fn lemma_sheet_text_escaped(s: Seq<char>, attribute: bool)
    ensures
        sheet_text(s, attribute) == serialize::escaped(lawful(s), attribute),
    decreases s.len(),
{
    if s.len() > 0 {
        lemma_sheet_text_escaped(s.drop_last(), attribute);
        if lawful_char(s.last()) {
            assert(lawful(s).drop_last() =~= lawful(s.drop_last()));
        } else {
            assert(sheet_text(s, attribute) =~= sheet_text(s.drop_last(), attribute));
        }
    }
}

/// Reading a worksheet text back gives the text, but for the characters that XML does not
/// have.
pub proof fn lemma_sheet_text_round_trip(s: Seq<char>, attribute: bool)
    ensures
        serialize::resolved(sheet_text(s, attribute)) == lawful(s),
{
    lemma_sheet_text_escaped(s, attribute);
    serialize::lemma_escape_round_trip(lawful(s), attribute);
}

/// What is left of a text when its ends are trimmed was in the text.
proof fn lemma_trimmed_within(s: Seq<char>, drop: spec_fn(char) -> bool)
    ensures
        text::trimmed(s, drop).len() <= s.len(),
        forall|c: char| #[trigger] text::trimmed(s, drop).contains(c) ==> s.contains(c),
{
    lemma_trimmed_start_within(s, drop);
    lemma_trimmed_end_within(text::trimmed_start(s, drop), drop);
}

proof fn lemma_trimmed_start_within(s: Seq<char>, drop: spec_fn(char) -> bool)
    ensures
        text::trimmed_start(s, drop).len() <= s.len(),
        forall|c: char| #[trigger] text::trimmed_start(s, drop).contains(c) ==> s.contains(c),
    decreases s.len(),
{
    if s.len() > 0 && drop(s[0]) {
        lemma_trimmed_start_within(s.drop_first(), drop);
        assert forall|c: char| #[trigger]
            text::trimmed_start(s, drop).contains(c) implies s.contains(c) by {
            assert(s.drop_first().contains(c));
            let k = choose|k: int| 0 <= k < s.drop_first().len() && s.drop_first()[k] == c;
            assert(s[k + 1] == c);
        }
    }
}

proof fn lemma_trimmed_end_within(s: Seq<char>, drop: spec_fn(char) -> bool)
    ensures
        text::trimmed_end(s, drop).len() <= s.len(),
        forall|c: char| #[trigger] text::trimmed_end(s, drop).contains(c) ==> s.contains(c),
    decreases s.len(),
{
    if s.len() > 0 && drop(s.last()) {
        lemma_trimmed_end_within(s.drop_last(), drop);
        assert forall|c: char| #[trigger]
            text::trimmed_end(s, drop).contains(c) implies s.contains(c) by {
            assert(s.drop_last().contains(c));
            let k = choose|k: int| 0 <= k < s.drop_last().len() && s.drop_last()[k] == c;
            assert(s[k] == c);
        }
    }
}

proof fn lemma_unbanned(s: Seq<char>)
    ensures
        forall|c: char| #[trigger] unbanned(s).contains(c) ==> !banned(c),
    decreases s.len(),
{
    if s.len() > 0 {
        lemma_unbanned(s.drop_last());
        assert forall|c: char| #[trigger] unbanned(s).contains(c) implies !banned(c) by {
            let k = choose|k: int| 0 <= k < unbanned(s).len() && unbanned(s)[k] == c;
            if k < unbanned(s.drop_last()).len() {
                assert(unbanned(s.drop_last())[k] == c);
                assert(unbanned(s.drop_last()).contains(c));
            }
        }
    }
}

/// Every sheet name is one that a spreadsheet takes: not empty, at most 31 characters long,
/// and without banned characters.
pub proof fn lemma_sheet_name_usable(s: Seq<char>)
    ensures
        0 < sheet_name_of(s).len() <= 31,
        forall|k: int| 0 <= k < sheet_name_of(s).len() ==> !banned(#[trigger] sheet_name_of(s)[k]),
{
    reveal_strlit("Foglio1");
    let drop = |c: char| text::white(c);
    let t = text::white_trimmed(unbanned(s));
    lemma_trimmed_within(unbanned(s), drop);
    lemma_unbanned(s);
    assert forall|k: int| 0 <= k < sheet_name_of(s).len() implies !banned(
        #[trigger] sheet_name_of(s)[k],
    ) by {
        if t.len() > 0 {
            assert(sheet_name_of(s)[k] == t[k]);
            assert(t.contains(t[k]));
        }
    }
}

proof fn lemma_untrimmed(s: Seq<char>)
    requires
        s.len() > 0,
        !text::white(s[0]),
        !text::white(s.last()),
    ensures
        text::white_trimmed(s) == s,
{
}

proof fn lemma_point_found(s: Seq<char>, p: int)
    requires
        0 <= p <= s.len(),
        forall|i: int| 0 <= i < p ==> !is_point(#[trigger] s[i]),
        p < s.len() ==> is_point(s[p]),
    ensures
        point_at(s) == p,
    decreases p,
{
    if p > 0 {
        assert(!is_point(s[0]));
        assert forall|i: int| 0 <= i < p - 1 implies !is_point(#[trigger] s.drop_first()[i]) by {
            assert(s.drop_first()[i] == s[i + 1]);
        }
        lemma_point_found(s.drop_first(), p - 1);
    }
}

/// A number that was read is in its final form: reading it again gives it unchanged.
pub proof fn lemma_number_stable(s: Seq<char>)
    requires
        number_of(s) is Some,
    ensures
        number_of(number_of(s)->0) == number_of(s),
{
    reveal_strlit("-");
    reveal_strlit("0");
    reveal_strlit(".");
    let t = text::white_trimmed(s);
    let body = unsigned(t);
    lemma_point_at(body);
    let whole = whole_part(body);
    let frac = fraction(body);
    let minus = t.len() > 0 && t[0] == '-';
    let pointed = point_at(body) < body.len();
    let n = invariant_number(t);
    let int_text = if whole.len() == 0 {
        "0"@
    } else {
        whole
    };
    let tail = if pointed {
        "."@ + frac
    } else {
        Seq::empty()
    };
    let body2 = int_text + tail;
    assert(all_digits(int_text));
    assert(int_text.len() > 0 && is_digit(int_text[0]));
    assert(is_digit(n.last())) by {
        if pointed {
            assert(n.last() == frac.last());
            assert(is_digit(frac[frac.len() - 1]));
        } else {
            assert(n.last() == int_text.last());
            assert(is_digit(int_text[int_text.len() - 1]));
        }
    }
    assert(n[0] == '-' || is_digit(n[0])) by {
        if !minus {
            assert(n[0] == int_text[0]);
        }
    }
    lemma_untrimmed(n);
    assert(unsigned(n) =~= body2) by {
        if !minus {
            assert(n[0] == int_text[0]);
        }
    }
    lemma_point_found(body2, int_text.len() as int);
    assert(whole_part(body2) =~= int_text);
    assert(fraction(body2) =~= frac);
    assert(significant(int_text + frac) == significant(whole + frac)) by {
        if whole.len() == 0 {
            assert((int_text + frac).drop_first() =~= frac);
            assert(whole + frac =~= frac);
        }
    }
    assert(invariant_number(n) =~= n);
}

} // verus!
