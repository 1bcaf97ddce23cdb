//! Texts as a workbook and a document hold them: escaped, and read back.

use crate::cell_text;
use crate::laws::numbers;
use crate::serialize;
use crate::styles;
use crate::text;
use vstd::prelude::*;

verus! {

/// A character as escaped content has it.
pub open spec fn reference(c: char, attribute: bool) -> Seq<char> {
    if c == '&' {
        seq!['&', 'a', 'm', 'p', ';']
    } else if c == '<' {
        seq!['&', 'l', 't', ';']
    } else if c == '>' {
        seq!['&', 'g', 't', ';']
    } else if c == '"' && attribute {
        seq!['&', 'q', 'u', 'o', 't', ';']
    } else {
        seq![c]
    }
}

/// Escaping goes character by character: the four that markup is made of become references,
/// the quote in attributes only, and every other character stays. Reading the result gives the
/// text.
pub proof fn lemma_escaping(a: Seq<char>, c: char, b: Seq<char>, attribute: bool)
    ensures
        serialize::escaped(a + seq![c] + b, attribute) == serialize::escaped(a, attribute)
            + reference(c, attribute) + serialize::escaped(b, attribute),
        serialize::resolved(serialize::escaped(a, attribute)) == a,
{
    reveal_strlit("&amp;");
    reveal_strlit("&lt;");
    reveal_strlit("&gt;");
    reveal_strlit("&quot;");
    serialize::lemma_escape_round_trip(a, attribute);
    lemma_escaped_concat(a + seq![c], b, attribute);
    assert((a + seq![c]).drop_last() =~= a);
    assert(serialize::escaped_char(c, attribute) =~= reference(c, attribute));
}

proof fn lemma_escaped_concat(a: Seq<char>, b: Seq<char>, attribute: bool)
    ensures
        serialize::escaped(a + b, attribute) == serialize::escaped(a, attribute)
            + serialize::escaped(b, attribute),
    decreases b.len(),
{
    if b.len() == 0 {
        assert(a + b =~= a);
        assert(serialize::escaped(a, attribute) + serialize::escaped(b, attribute)
            =~= serialize::escaped(a, attribute));
    } else {
        lemma_escaped_concat(a, b.drop_last(), attribute);
        assert((a + b).drop_last() =~= a + b.drop_last());
        assert(serialize::escaped(a + b, attribute) =~= serialize::escaped(a, attribute)
            + serialize::escaped(b, attribute));
    }
}

/// A character that XML cannot hold: a control character other than tab, line feed and
/// carriage return.
pub open spec fn control(c: char) -> bool {
    (c as int) < 32 && c as int != 9 && c as int != 10 && c as int != 13
}

/// A worksheet text goes character by character: control characters are left out, and the
/// others are escaped. A text without control characters reads back as it was.
pub proof fn lemma_sheet_text(a: Seq<char>, c: char, b: Seq<char>, attribute: bool)
    ensures
        cell_text::sheet_text(a + seq![c] + b, attribute) == cell_text::sheet_text(a, attribute) + (
        if control(c) {
            Seq::empty()
        } else {
            reference(c, attribute)
        }) + cell_text::sheet_text(b, attribute),
        (forall|i: int| 0 <= i < a.len() ==> !control(#[trigger] a[i])) ==> serialize::resolved(
            cell_text::sheet_text(a, attribute),
        ) == a,
{
    reveal_strlit("&amp;");
    reveal_strlit("&lt;");
    reveal_strlit("&gt;");
    reveal_strlit("&quot;");
    lemma_sheet_concat(a + seq![c], b, attribute);
    assert((a + seq![c]).drop_last() =~= a);
    assert(cell_text::sheet_char(c, attribute) =~= (if control(c) {
        Seq::empty()
    } else {
        reference(c, attribute)
    }));
    if forall|i: int| 0 <= i < a.len() ==> !control(#[trigger] a[i]) {
        lemma_all_lawful(a);
        cell_text::lemma_sheet_text_round_trip(a, attribute);
    }
}

proof fn lemma_all_lawful(a: Seq<char>)
    requires
        forall|i: int| 0 <= i < a.len() ==> !control(#[trigger] a[i]),
    ensures
        cell_text::lawful(a) == a,
    decreases a.len(),
{
    if a.len() > 0 {
        assert(!control(a[a.len() - 1]));
        assert forall|i: int| 0 <= i < a.drop_last().len() implies !control(
            #[trigger] a.drop_last()[i],
        ) by {
            assert(!control(a[i]));
        }
        lemma_all_lawful(a.drop_last());
        assert(a.drop_last().push(a.last()) =~= a);
    }
}

proof fn lemma_sheet_concat(a: Seq<char>, b: Seq<char>, attribute: bool)
    ensures
        cell_text::sheet_text(a + b, attribute) == cell_text::sheet_text(a, attribute)
            + cell_text::sheet_text(b, attribute),
    decreases b.len(),
{
    if b.len() == 0 {
        assert(a + b =~= a);
        assert(cell_text::sheet_text(a, attribute) + cell_text::sheet_text(b, attribute)
            =~= cell_text::sheet_text(a, attribute));
    } else {
        lemma_sheet_concat(a, b.drop_last(), attribute);
        assert((a + b).drop_last() =~= a + b.drop_last());
        assert(cell_text::sheet_text(a + b, attribute) =~= cell_text::sheet_text(a, attribute)
            + cell_text::sheet_text(b, attribute));
    }
}

/// A character that no sheet name may have.
pub open spec fn refused(c: char) -> bool {
    c == '\\' || c == '/' || c == '*' || c == '?' || c == ':' || c == '[' || c == ']'
}

/// Without such characters.
pub open spec fn accepted(s: Seq<char>) -> bool {
    forall|i: int| 0 <= i < s.len() ==> !refused(#[trigger] s[i])
}

proof fn lemma_unbanned_concat(a: Seq<char>, b: Seq<char>)
    ensures
        cell_text::unbanned(a + b) == cell_text::unbanned(a) + cell_text::unbanned(b),
    decreases b.len(),
{
    if b.len() == 0 {
        assert(a + b =~= a);
        assert(cell_text::unbanned(a) + cell_text::unbanned(b) =~= cell_text::unbanned(a));
    } else {
        lemma_unbanned_concat(a, b.drop_last());
        assert((a + b).drop_last() =~= a + b.drop_last());
        assert(cell_text::unbanned(a + b) =~= cell_text::unbanned(a) + cell_text::unbanned(b));
    }
}

proof fn lemma_accepted(s: Seq<char>)
    requires
        accepted(s),
    ensures
        cell_text::unbanned(s) == s,
    decreases s.len(),
{
    if s.len() > 0 {
        assert(!refused(s[s.len() - 1]));
        assert forall|i: int| 0 <= i < s.drop_last().len() implies !refused(
            #[trigger] s.drop_last()[i],
        ) by {
            assert(!refused(s[i]));
        }
        lemma_accepted(s.drop_last());
        assert(s.drop_last().push(s.last()) =~= s);
    }
}

/// Sheet names: a refused character might as well not be there, and neither might white space
/// around the name; of the rest the first 31 characters are kept, all of them in order; where
/// nothing is left the name is `Foglio1`.
pub proof fn lemma_sheet_names(a: Seq<char>, c: char, b: Seq<char>, pre: Seq<char>, post: Seq<char>)
    requires
        refused(c),
        numbers::spaces(pre),
        numbers::spaces(post),
    ensures
        cell_text::sheet_name_of(a + seq![c] + b) == cell_text::sheet_name_of(a + b),
        cell_text::sheet_name_of(pre) == "Foglio1"@,
        accepted(a) && a.len() > 0 && !numbers::space(a[0]) && !numbers::space(a.last())
            ==> cell_text::sheet_name_of(pre + a + post) == (if a.len() > 31 {
            a.take(31)
        } else {
            a
        }),
        accepted(cell_text::sheet_name_of(a)),
        0 < cell_text::sheet_name_of(a).len() <= 31,
{
    lemma_unbanned_concat(a, b);
    lemma_unbanned_concat(a + seq![c], b);
    assert((a + seq![c]).drop_last() =~= a);
    assert(cell_text::unbanned(a + seq![c]) == cell_text::unbanned(a));
    assert(accepted(pre)) by {
        assert forall|i: int| 0 <= i < pre.len() implies !refused(#[trigger] pre[i]) by {
            assert(numbers::space(pre[i]));
        }
    }
    assert(accepted(post)) by {
        assert forall|i: int| 0 <= i < post.len() implies !refused(#[trigger] post[i]) by {
            assert(numbers::space(post[i]));
        }
    }
    lemma_accepted(pre);
    lemma_nothing_left(pre);
    if accepted(a) && a.len() > 0 && !numbers::space(a[0]) && !numbers::space(a.last()) {
        let all = pre + a + post;
        assert(accepted(all)) by {
            assert forall|i: int| 0 <= i < all.len() implies !refused(#[trigger] all[i]) by {
                if i < pre.len() {
                    assert(!refused(pre[i]));
                } else if i < pre.len() + a.len() {
                    assert(!refused(a[i - pre.len()]));
                } else {
                    assert(!refused(post[i - pre.len() - a.len()]));
                }
            }
        }
        lemma_accepted(all);
        numbers::lemma_spaces_around(pre, a, post);
    }
    cell_text::lemma_sheet_name_usable(a);
    let name = cell_text::sheet_name_of(a);
    assert forall|i: int| 0 <= i < name.len() implies !refused(#[trigger] name[i]) by {
        assert(!cell_text::banned(name[i]));
    }
}

proof fn lemma_nothing_left(s: Seq<char>)
    requires
        numbers::spaces(s),
    ensures
        text::white_trimmed(s).len() == 0,
{
    let drop = |c: char| text::white(c);
    let r = crate::laws::white_space::lemma_trimmed_is(s, drop);
    if r.0 < r.1 {
        assert(numbers::space(s[r.0]));
        assert(drop(s[r.0]));
    }
}

/// The workbook part names its one sheet by the sheet's name.
pub proof fn lemma_workbook_part(name: Seq<char>)
    ensures
        styles::workbook(name)
            == "<?xml version=\"1.0\" encoding=\"UTF-8\" standalone=\"yes\"?>\n<workbook xmlns=\"http://schemas.openxmlformats.org/spreadsheetml/2006/main\" xmlns:r=\"http://schemas.openxmlformats.org/officeDocument/2006/relationships\"><sheets><sheet name=\""@
            + cell_text::sheet_text(cell_text::sheet_name_of(name), true)
            + "\" sheetId=\"1\" r:id=\"rId1\"/></sheets></workbook>"@,
{
}

} // verus!
