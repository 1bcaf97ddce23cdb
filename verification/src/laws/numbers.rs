//! Which texts are numbers, and that a sheet holds the numbers that they are.

use crate::cell_text;
use crate::cells::ColType;
use crate::decimal;
use crate::laws::white_space;
use crate::sheet;
use crate::sheet::Dating;
use crate::styles;
use crate::text;
use vstd::prelude::*;

verus! {

/// Unicode white space, by its code points.
pub open spec fn space(c: char) -> bool {
    let n = c as int;
    ||| 9 <= n <= 13
    ||| n == 32
    ||| n == 133
    ||| n == 160
    ||| n == 5760
    ||| 8192 <= n <= 8202
    ||| n == 8232
    ||| n == 8233
    ||| n == 8239
    ||| n == 8287
    ||| n == 12288
}

/// Nothing but white space.
pub open spec fn spaces(s: Seq<char>) -> bool {
    forall|i: int| 0 <= i < s.len() ==> space(#[trigger] s[i])
}

/// Nothing but decimal digits.
pub open spec fn digits(s: Seq<char>) -> bool {
    forall|i: int| 0 <= i < s.len() ==> 48 <= (#[trigger] s[i]) as int <= 57
}

/// A number in a text: white space around it, a sign, digits, and a point or comma with digits
/// behind it.
pub struct Numeral {
    pub pre: Seq<char>,
    pub sign: Option<char>,
    pub whole: Seq<char>,
    pub point: Option<char>,
    pub frac: Seq<char>,
    pub post: Seq<char>,
}

/// One character, or none.
pub open spec fn maybe(c: Option<char>) -> Seq<char> {
    match c {
        Some(x) => seq![x],
        None => Seq::empty(),
    }
}

impl Numeral {
    /// The text without what stands around it.
    pub open spec fn bare(self) -> Seq<char> {
        maybe(self.sign) + self.whole + maybe(self.point) + self.frac
    }

    /// The text.
    pub open spec fn text(self) -> Seq<char> {
        self.pre + self.bare() + self.post
    }

    /// A plain number: it has digits, behind a point too, no zeros in front, and at most fifteen
    /// digits from the first that is not zero on.
    pub open spec fn plain(self) -> bool {
        let all = self.whole + self.frac;
        &&& spaces(self.pre) && spaces(self.post)
        &&& self.sign is None || self.sign == Some('+') || self.sign == Some('-')
        &&& self.point is None || self.point == Some('.') || self.point == Some(',')
        &&& digits(self.whole) && digits(self.frac)
        &&& if self.point is Some {
            self.frac.len() > 0
        } else {
            self.frac.len() == 0 && self.whole.len() > 0
        }
        &&& !(self.whole.len() > 1 && self.whole[0] == '0')
        &&& forall|i: int| 0 <= i < all.len() - 15 ==> #[trigger] all[i] == '0'
    }

    /// The number as a sheet holds it: the same sign and digits, with a point, and a zero before
    /// it where there is no digit.
    pub open spec fn written(self) -> Seq<char> {
        (if self.sign == Some('-') {
            seq!['-']
        } else {
            Seq::empty()
        }) + (if self.whole.len() == 0 {
            seq!['0']
        } else {
            self.whole
        }) + (if self.point is Some {
            seq!['.'] + self.frac
        } else {
            Seq::empty()
        })
    }
}

proof fn lemma_significant(s: Seq<char>)
    ensures
        cell_text::significant(s).len() <= 15 <==> forall|i: int|
            0 <= i < s.len() - 15 ==> #[trigger] s[i] == '0',
        cell_text::significant(s).len() <= s.len(),
    decreases s.len(),
{
    if s.len() > 0 && s[0] == '0' {
        let r = s.drop_first();
        lemma_significant(r);
        if forall|i: int| 0 <= i < s.len() - 15 ==> #[trigger] s[i] == '0' {
            assert forall|i: int| 0 <= i < r.len() - 15 implies #[trigger] r[i] == '0' by {
                assert(s[i + 1] == '0');
            }
        }
        if forall|i: int| 0 <= i < r.len() - 15 ==> #[trigger] r[i] == '0' {
            assert forall|i: int| 0 <= i < s.len() - 15 implies #[trigger] s[i] == '0' by {
                if i > 0 {
                    assert(r[i - 1] == '0');
                }
            }
        }
    } else if s.len() > 15 {
        assert(s[0] != '0');
    }
}

proof fn lemma_digits(s: Seq<char>)
    ensures
        digits(s) == cell_text::all_digits(s),
{
    if digits(s) {
        assert forall|i: int| 0 <= i < s.len() implies cell_text::is_digit(#[trigger] s[i]) by {
            assert(48 <= s[i] as int <= 57);
        }
    }
    if cell_text::all_digits(s) {
        assert forall|i: int| 0 <= i < s.len() implies 48 <= (#[trigger] s[i]) as int <= 57 by {
            assert(cell_text::is_digit(s[i]));
        }
    }
}

proof fn lemma_point(s: Seq<char>, k: int)
    requires
        0 <= k <= s.len(),
        forall|i: int| 0 <= i < k ==> #[trigger] s[i] != '.' && s[i] != ',',
        k < s.len() ==> s[k] == '.' || s[k] == ',',
    ensures
        cell_text::point_at(s) == k,
    decreases k,
{
    if k > 0 {
        assert(s[0] != '.' && s[0] != ',');
        assert forall|i: int| 0 <= i < k - 1 implies #[trigger] s.drop_first()[i] != '.'
            && s.drop_first()[i] != ',' by {
            assert(s[i + 1] != '.');
        }
        lemma_point(s.drop_first(), k - 1);
    }
}

proof fn lemma_spaces(s: Seq<char>)
    ensures
        spaces(s) == forall|i: int| 0 <= i < s.len() ==> text::white(#[trigger] s[i]),
{
    if spaces(s) {
        assert forall|i: int| 0 <= i < s.len() implies text::white(#[trigger] s[i]) by {
            assert(space(s[i]));
        }
    }
    if forall|i: int| 0 <= i < s.len() ==> text::white(#[trigger] s[i]) {
        assert forall|i: int| 0 <= i < s.len() implies space(#[trigger] s[i]) by {
            assert(text::white(s[i]));
        }
    }
}

/// White space around a text makes no difference to it trimmed, and a text with none around it
/// stays as it is.
pub proof fn lemma_spaces_around(pre: Seq<char>, t: Seq<char>, post: Seq<char>)
    requires
        spaces(pre),
        spaces(post),
        t.len() > 0,
        !space(t[0]),
        !space(t.last()),
    ensures
        text::white_trimmed(pre + t + post) == t,
        text::white_trimmed(t) == t,
{
    let drop = |c: char| text::white(c);
    lemma_spaces(pre);
    lemma_spaces(post);
    assert(pre + t + post =~= pre + (t + post));
    assert forall|i: int| 0 <= i < pre.len() implies drop(#[trigger] pre[i]) by {}
    assert forall|i: int| 0 <= i < post.len() implies drop(#[trigger] post[i]) by {}
    white_space::lemma_start(pre, t + post, drop);
    assert(!text::white(t[0]) && !text::white(t.last()));
    assert((t + post)[0] == t[0]);
    assert(text::trimmed_start(t + post, drop) == t + post);
    white_space::lemma_end(t, post, drop);
}

/// A text that is a plain number is read as that number.
pub proof fn lemma_number_read(x: Numeral)
    requires
        x.plain(),
    ensures
        cell_text::number_of(x.text()) == Some(x.written()),
{
    reveal_strlit("-");
    reveal_strlit("0");
    reveal_strlit(".");
    assert("-"@ =~= seq!['-'] && "0"@ =~= seq!['0'] && "."@ =~= seq!['.']);
    let t = x.bare();
    lemma_digits(x.whole);
    lemma_digits(x.frac);
    let signs = maybe(x.sign);
    let body = x.whole + maybe(x.point) + x.frac;
    assert(t =~= signs + body);
    assert(body.len() > 0);
    assert(!space(body.last())) by {
        if x.frac.len() > 0 {
            assert(body.last() == x.frac.last());
            assert(48 <= x.frac[x.frac.len() - 1] as int <= 57);
        } else {
            assert(body.last() == x.whole.last());
            assert(48 <= x.whole[x.whole.len() - 1] as int <= 57);
        }
    }
    assert(body[0] != '+' && body[0] != '-' && !space(body[0])) by {
        if x.whole.len() > 0 {
            assert(body[0] == x.whole[0]);
            assert(48 <= x.whole[0] as int <= 57);
        } else {
            assert(body[0] == x.point->0);
        }
    }
    assert(t.last() == body.last());
    assert(t[0] == (if x.sign is Some {
        x.sign->0
    } else {
        body[0]
    }));
    lemma_spaces_around(x.pre, t, x.post);
    assert(cell_text::unsigned(t) =~= body);
    let k = x.whole.len() as int;
    assert forall|i: int| 0 <= i < k implies #[trigger] body[i] != '.' && body[i] != ',' by {
        assert(body[i] == x.whole[i]);
        assert(48 <= x.whole[i] as int <= 57);
    }
    if x.point is Some {
        assert(body[k] == x.point->0);
    } else {
        assert(k == body.len());
    }
    lemma_point(body, k);
    assert(cell_text::whole_part(body) =~= x.whole);
    assert(cell_text::fraction(body) =~= x.frac);
    lemma_significant(x.whole + x.frac);
    assert(cell_text::plain_number(body));
    assert(cell_text::invariant_number(t) =~= x.written());
}

/// No other text is read as a number.
pub proof fn lemma_number_only(s: Seq<char>) -> (x: Numeral)
    requires
        cell_text::number_of(s) is Some,
    ensures
        x.plain(),
        x.text() == s,
{
    let drop = |c: char| text::white(c);
    let r = white_space::lemma_trimmed_is(s, drop);
    let t = s.subrange(r.0, r.1);
    assert(t == text::white_trimmed(s));
    let body = cell_text::unsigned(t);
    let k = cell_text::point_at(body);
    lemma_point_is(body);
    let x = Numeral {
        pre: s.take(r.0),
        sign: if cell_text::signed(t) {
            Some(t[0])
        } else {
            None
        },
        whole: cell_text::whole_part(body),
        point: if k < body.len() {
            Some(body[k])
        } else {
            None
        },
        frac: cell_text::fraction(body),
        post: s.skip(r.1),
    };
    lemma_digits(x.whole);
    lemma_digits(x.frac);
    lemma_significant(x.whole + x.frac);
    assert(spaces(x.pre)) by {
        assert forall|i: int| 0 <= i < x.pre.len() implies space(#[trigger] x.pre[i]) by {
            assert(drop(s[i]));
        }
    }
    assert(spaces(x.post)) by {
        assert forall|i: int| 0 <= i < x.post.len() implies space(#[trigger] x.post[i]) by {
            assert(drop(s[i + r.1]));
        }
    }
    assert(body =~= x.whole + maybe(x.point) + x.frac);
    assert(t =~= maybe(x.sign) + body);
    assert(x.bare() =~= t);
    assert(x.text() =~= s);
    x
}

proof fn lemma_point_is(s: Seq<char>)
    ensures
        0 <= cell_text::point_at(s) <= s.len(),
        cell_text::point_at(s) < s.len() ==> s[cell_text::point_at(s)] == '.'
            || s[cell_text::point_at(s)] == ',',
    decreases s.len(),
{
    if s.len() > 0 && !cell_text::is_point(s[0]) {
        lemma_point_is(s.drop_first());
    }
}

/// A number column: a cell whose text is a plain number holds that number, with its sign and
/// its digits.
pub proof fn lemma_number_cell(
    name: Seq<char>,
    row: Seq<char>,
    x: Numeral,
    align: Seq<char>,
    parity: int,
    g: Dating,
)
    requires
        x.plain(),
    ensures
        sheet::cell_xml(name, row, x.text(), ColType::Number, align, parity, g) == "<c r=\""@ + name
            + row + "\" s=\""@ + decimal::decimal(styles::data_xf(align, parity) as nat)
            + "\"><v>"@ + x.written() + "</v></c>"@,
{
    lemma_number_read(x);
    assert(x.bare().len() > 0);
    let value = x.written();
    assert(sheet::cell_xml(name, row, x.text(), ColType::Number, align, parity, g) =~= "<c r=\""@
        + name + row + "\" s=\""@ + decimal::decimal(styles::data_xf(align, parity) as nat)
        + "\"><v>"@ + value + "</v></c>"@);
}

/// A text that is no plain number is written as the text that it is, and so is every text of a
/// text column. An empty one has a style and nothing else.
pub proof fn lemma_text_cell(
    name: Seq<char>,
    row: Seq<char>,
    t: Seq<char>,
    ty: ColType,
    align: Seq<char>,
    parity: int,
    g: Dating,
)
    requires
        ty is Text || ty is Number && forall|x: Numeral| #[trigger] x.plain() ==> x.text() != t,
    ensures
        t.len() > 0 ==> sheet::cell_xml(name, row, t, ty, align, parity, g) == "<c r=\""@ + name
            + row + "\" s=\""@ + decimal::decimal(styles::data_xf(align, parity) as nat)
            + "\" t=\"inlineStr\"><is><t xml:space=\"preserve\">"@ + cell_text::sheet_text(t, false)
            + "</t></is></c>"@,
        t.len() == 0 ==> sheet::cell_xml(name, row, t, ty, align, parity, g) == "<c r=\""@ + name
            + row + "\" s=\""@ + decimal::decimal(styles::data_xf(Seq::empty(), parity) as nat)
            + "\"/>"@,
{
    if cell_text::number_of(t) is Some {
        let x = lemma_number_only(t);
        assert(ty is Text);
    }
    let s = decimal::decimal(styles::data_xf(align, parity) as nat);
    if t.len() > 0 {
        assert(sheet::cell_xml(name, row, t, ty, align, parity, g) =~= "<c r=\""@ + name + row
            + "\" s=\""@ + s + "\" t=\"inlineStr\"><is><t xml:space=\"preserve\">"@
            + cell_text::sheet_text(t, false) + "</t></is></c>"@);
    } else {
        assert(sheet::cell_xml(name, row, t, ty, align, parity, g) =~= "<c r=\""@ + name + row
            + "\" s=\""@ + decimal::decimal(styles::data_xf(Seq::empty(), parity) as nat)
            + "\"/>"@);
    }
}

} // verus!
