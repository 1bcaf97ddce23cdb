//! Strings: what the standard library says of them, and small helpers.

use vstd::prelude::*;
use vstd::string::StringSliceAdditionalSpecFns;
use vstd::utf8::*;

verus! {

/// `String::push` appends one character.
pub assume_specification[ String::push ](s: &mut String, c: char)
    ensures
        final(s)@ == old(s)@.push(c),
;

/// `String::push_str` appends a string slice.
pub assume_specification[ String::push_str ](s: &mut String, t: &str)
    ensures
        final(s)@ == old(s)@ + t@,
;

/// The error of `core::str::from_utf8`; nothing is read from it.
#[verifier::external_type_specification]
#[verifier::external_body]
pub struct ExUtf8Error(core::str::Utf8Error);

/// `core::str::from_utf8` succeeds exactly on valid UTF-8, and then the string
/// slice has the bytes it was given.
pub assume_specification[ core::str::from_utf8 ](v: &[u8]) -> (r: Result<
    &str,
    core::str::Utf8Error,
>)
    ensures
        r is Ok <==> valid_utf8(v@),
        r matches Ok(s) ==> s.spec_bytes() == v@,
;

/// What `String::from_utf8_lossy` makes of a byte sequence.
pub uninterp spec fn utf8_lossy(bytes: Seq<u8>) -> Seq<char>;

/// `String::from_utf8_lossy`: every byte sequence becomes some text, and a valid
/// one becomes exactly the text that it encodes.
#[verifier::external_body]
pub(crate) fn text_from_utf8_lossy(bytes: &[u8]) -> (r: String)
    ensures
        r@ == utf8_lossy(bytes@),
        valid_utf8(bytes@) ==> r@ == decode_utf8(bytes@),
{
    String::from_utf8_lossy(bytes).into_owned()
}

/// An optional string by its characters.
pub open spec fn opt_text(s: Option<String>) -> Option<Seq<char>> {
    match s {
        Some(t) => Some(t@),
        None => None,
    }
}

/// An optional string slice by its characters.
pub open spec fn opt_str(s: Option<&str>) -> Option<Seq<char>> {
    match s {
        Some(t) => Some(t@),
        None => None,
    }
}

/// Two texts with the same UTF-8 bytes are the same text.
pub proof fn lemma_encode_injective(a: Seq<char>, b: Seq<char>)
    requires
        encode_utf8(a) == encode_utf8(b),
    ensures
        a == b,
{
    encode_utf8_decode_utf8(a);
    encode_utf8_decode_utf8(b);
}

/// The bytes of a concatenation are the concatenated bytes.
pub proof fn lemma_encode_concat(a: Seq<char>, b: Seq<char>)
    ensures
        encode_utf8(a + b) == encode_utf8(a) + encode_utf8(b),
    decreases a.len(),
{
    if a.len() == 0 {
        assert(a + b =~= b);
        assert(encode_utf8(a) + encode_utf8(b) =~= encode_utf8(b));
    } else {
        lemma_encode_concat(a.drop_first(), b);
        assert((a + b).drop_first() =~= a.drop_first() + b);
        assert(encode_utf8(a + b) =~= encode_utf8(a) + encode_utf8(b));
    }
}

/// Whether two byte slices hold the same bytes.
pub(crate) fn same_bytes(a: &[u8], b: &[u8]) -> (r: bool)
    ensures
        r == (a@ == b@),
{
    if a.len() != b.len() {
        return false;
    }
    let mut i: usize = 0;
    while i < a.len()
        invariant
            i <= a@.len(),
            a@.len() == b@.len(),
            forall|k: int| 0 <= k < i ==> a@[k] == b@[k],
        decreases a@.len() - i,
    {
        if a[i] != b[i] {
            return false;
        }
        i += 1;
    }
    assert(a@ =~= b@);
    true
}

/// Whether two string slices hold the same text.
pub(crate) fn same_text(a: &str, b: &str) -> (r: bool)
    ensures
        r == (a@ == b@),
{
    let r = same_bytes(a.as_bytes(), b.as_bytes());
    proof {
        if r {
            lemma_encode_injective(a@, b@);
        }
    }
    r
}

/// Copies a byte slice into an owned vector.
pub(crate) fn owned_bytes(a: &[u8]) -> (r: Vec<u8>)
    ensures
        r@ == a@,
{
    let mut r: Vec<u8> = Vec::new();
    r.extend_from_slice(a);
    assert(r@ =~= a@);
    r
}

/// The characters of a string slice.
pub(crate) fn chars_of(s: &str) -> (r: Vec<char>)
    ensures
        r@ == s@,
{
    let mut r: Vec<char> = Vec::new();
    for c in it: s.chars()
        invariant
            it.seq() == s@,
            r@ == s@.take(it.index() as int),
    {
        r.push(c);
        assert(s@.take(it.index() + 1) =~= s@.take(it.index() as int).push(c));
    }
    assert(s@.take(s@.len() as int) =~= s@);
    r
}

/// The string of the characters from `from` up to `to`.
pub(crate) fn text_of(chars: &Vec<char>, from: usize, to: usize) -> (r: String)
    requires
        from <= to <= chars@.len(),
    ensures
        r@ == chars@.subrange(from as int, to as int),
{
    let mut r = String::new();
    let mut i: usize = from;
    while i < to
        invariant
            from <= i <= to <= chars@.len(),
            r@ == chars@.subrange(from as int, i as int),
        decreases to - i,
    {
        r.push(chars[i]);
        assert(chars@.subrange(from as int, i + 1) =~= chars@.subrange(from as int, i as int).push(
            chars@[i as int],
        ));
        i += 1;
    }
    r
}

/// The four characters that XML counts as white space.
pub open spec fn blank(c: char) -> bool {
    c == '\t' || c == '\n' || c == '\r' || c == ' '
}

pub(crate) fn is_blank(c: char) -> (r: bool)
    ensures
        r == blank(c),
{
    c == '\t' || c == '\n' || c == '\r' || c == ' '
}

/// Unicode white space.
pub open spec fn white(c: char) -> bool {
    ||| '\u{9}' <= c <= '\u{d}'
    ||| c == ' '
    ||| c == '\u{85}'
    ||| c == '\u{a0}'
    ||| c == '\u{1680}'
    ||| '\u{2000}' <= c <= '\u{200a}'
    ||| c == '\u{2028}'
    ||| c == '\u{2029}'
    ||| c == '\u{202f}'
    ||| c == '\u{205f}'
    ||| c == '\u{3000}'
}

pub(crate) fn is_white(c: char) -> (r: bool)
    ensures
        r == white(c),
{
    ('\u{9}' <= c && c <= '\u{d}') || c == ' ' || c == '\u{85}' || c == '\u{a0}' || c
        == '\u{1680}' || ('\u{2000}' <= c && c <= '\u{200a}') || c == '\u{2028}' || c == '\u{2029}'
        || c == '\u{202f}' || c == '\u{205f}' || c == '\u{3000}'
}

/// The text without the characters for which `drop` holds at the front.
pub open spec fn trimmed_start(s: Seq<char>, drop: spec_fn(char) -> bool) -> Seq<char>
    decreases s.len(),
{
    if s.len() > 0 && drop(s[0]) {
        trimmed_start(s.drop_first(), drop)
    } else {
        s
    }
}

/// The text without the characters for which `drop` holds at the back.
pub open spec fn trimmed_end(s: Seq<char>, drop: spec_fn(char) -> bool) -> Seq<char>
    decreases s.len(),
{
    if s.len() > 0 && drop(s.last()) {
        trimmed_end(s.drop_last(), drop)
    } else {
        s
    }
}

/// The text without the characters for which `drop` holds at both ends.
pub open spec fn trimmed(s: Seq<char>, drop: spec_fn(char) -> bool) -> Seq<char> {
    trimmed_end(trimmed_start(s, drop), drop)
}

/// Whether every character is blank.
pub open spec fn all_blank(s: Seq<char>) -> bool {
    forall|i: int| 0 <= i < s.len() ==> blank(#[trigger] s[i])
}

pub(crate) fn is_all_blank(s: &str) -> (r: bool)
    ensures
        r == all_blank(s@),
{
    for c in it: s.chars()
        invariant
            it.seq() == s@,
            all_blank(s@.take(it.index() as int)),
    {
        if !is_blank(c) {
            assert(s@[it.index() as int] == c);
            return false;
        }
        assert forall|i: int| 0 <= i < it.index() + 1 implies blank(
            #[trigger] s@.take(it.index() + 1)[i],
        ) by {
            if i < it.index() {
                assert(s@.take(it.index() as int)[i] == s@[i]);
            }
        }
    }
    assert(s@.take(s@.len() as int) =~= s@);
    true
}

/// The text without XML white space at its ends.
pub open spec fn blank_trimmed(s: Seq<char>) -> Seq<char> {
    trimmed(s, |c: char| blank(c))
}

/// The text without Unicode white space at its ends.
pub open spec fn white_trimmed(s: Seq<char>) -> Seq<char> {
    trimmed(s, |c: char| white(c))
}

/// The text trimmed of XML white space.
pub(crate) fn trim_blank(s: &str) -> (r: String)
    ensures
        r@ == blank_trimmed(s@),
{
    let chars = chars_of(s);
    let n: usize = chars.len();
    let ghost drop = |c: char| blank(c);
    let mut from: usize = 0;
    assert(chars@.skip(0) =~= chars@);
    while from < n && is_blank(chars[from])
        invariant
            from <= n == chars@.len(),
            drop == (|c: char| blank(c)),
            trimmed_start(chars@, drop) == trimmed_start(chars@.skip(from as int), drop),
        decreases n - from,
    {
        assert(chars@.skip(from as int).drop_first() =~= chars@.skip(from + 1));
        from += 1;
    }
    assert(trimmed_start(chars@, drop) == chars@.skip(from as int));
    let mut to: usize = n;
    while from < to && is_blank(chars[to - 1])
        invariant
            from <= to <= n == chars@.len(),
            drop == (|c: char| blank(c)),
            trimmed_end(chars@.skip(from as int), drop) == trimmed_end(
                chars@.subrange(from as int, to as int),
                drop,
            ),
        decreases to - from,
    {
        assert(chars@.subrange(from as int, to as int).drop_last() =~= chars@.subrange(
            from as int,
            to - 1,
        ));
        to -= 1;
    }
    text_of(&chars, from, to)
}

/// The text trimmed of Unicode white space.
pub(crate) fn trim_white(s: &str) -> (r: String)
    ensures
        r@ == white_trimmed(s@),
{
    let chars = chars_of(s);
    let n: usize = chars.len();
    let ghost drop = |c: char| white(c);
    let mut from: usize = 0;
    assert(chars@.skip(0) =~= chars@);
    while from < n && is_white(chars[from])
        invariant
            from <= n == chars@.len(),
            drop == (|c: char| white(c)),
            trimmed_start(chars@, drop) == trimmed_start(chars@.skip(from as int), drop),
        decreases n - from,
    {
        assert(chars@.skip(from as int).drop_first() =~= chars@.skip(from + 1));
        from += 1;
    }
    assert(trimmed_start(chars@, drop) == chars@.skip(from as int));
    let mut to: usize = n;
    while from < to && is_white(chars[to - 1])
        invariant
            from <= to <= n == chars@.len(),
            drop == (|c: char| white(c)),
            trimmed_end(chars@.skip(from as int), drop) == trimmed_end(
                chars@.subrange(from as int, to as int),
                drop,
            ),
        decreases to - from,
    {
        assert(chars@.subrange(from as int, to as int).drop_last() =~= chars@.subrange(
            from as int,
            to - 1,
        ));
        to -= 1;
    }
    text_of(&chars, from, to)
}

/// Where the first white space character stands, or the length where none does.
pub open spec fn first_white(s: Seq<char>) -> int
    decreases s.len(),
{
    if s.len() == 0 || white(s[0]) {
        0
    } else {
        1 + first_white(s.drop_first())
    }
}

/// The text before the first white space.
pub open spec fn head_word(s: Seq<char>) -> Seq<char> {
    s.take(first_white(s))
}

/// The text behind the first white space and those that follow it.
pub open spec fn tail_words(s: Seq<char>) -> Seq<char> {
    if first_white(s) < s.len() {
        trimmed_start(s.skip(first_white(s) + 1), |c: char| white(c))
    } else {
        Seq::empty()
    }
}

/// The first word is a word, and what follows it does not begin with white space.
pub proof fn lemma_words(s: Seq<char>)
    ensures
        first_white(head_word(s)) == head_word(s).len(),
        tail_words(s).len() > 0 ==> !white(tail_words(s)[0]),
{
    lemma_head_word(s);
    if first_white(s) < s.len() {
        lemma_starts_kept(s.skip(first_white(s) + 1), |c: char| white(c));
    }
}

proof fn lemma_head_word(s: Seq<char>)
    ensures
        0 <= first_white(s) <= s.len(),
        first_white(head_word(s)) == head_word(s).len(),
    decreases s.len(),
{
    if s.len() > 0 && !white(s[0]) {
        lemma_head_word(s.drop_first());
        assert(head_word(s).drop_first() =~= head_word(s.drop_first()));
    } else {
        assert(head_word(s) =~= Seq::<char>::empty());
    }
}

proof fn lemma_starts_kept(s: Seq<char>, drop: spec_fn(char) -> bool)
    ensures
        trimmed_start(s, drop).len() > 0 ==> !drop(trimmed_start(s, drop)[0]),
    decreases s.len(),
{
    if s.len() > 0 && drop(s[0]) {
        lemma_starts_kept(s.drop_first(), drop);
    }
}

/// Splits a text at its first white space; further white space there is dropped.
pub(crate) fn split_word(s: &str) -> (r: (String, String))
    ensures
        r.0@ == head_word(s@),
        r.1@ == tail_words(s@),
{
    let chars = chars_of(s);
    let n: usize = chars.len();
    let mut at: usize = 0;
    assert(chars@.skip(0) =~= chars@);
    while at < n && !is_white(chars[at])
        invariant
            at <= n == chars@.len(),
            first_white(chars@) == at + first_white(chars@.skip(at as int)),
        decreases n - at,
    {
        assert(chars@.skip(at as int).drop_first() =~= chars@.skip(at + 1));
        at += 1;
    }
    assert(first_white(chars@) == at);
    let head = text_of(&chars, 0, at);
    assert(chars@.subrange(0, at as int) =~= chars@.take(at as int));
    if at == n {
        return (head, String::new());
    }
    let ghost drop = |c: char| white(c);
    let mut from: usize = at + 1;
    while from < n && is_white(chars[from])
        invariant
            from <= n == chars@.len(),
            drop == (|c: char| white(c)),
            trimmed_start(chars@.skip(at + 1), drop) == trimmed_start(
                chars@.skip(from as int),
                drop,
            ),
        decreases n - from,
    {
        assert(chars@.skip(from as int).drop_first() =~= chars@.skip(from + 1));
        from += 1;
    }
    assert(chars@.subrange(from as int, n as int) =~= chars@.skip(from as int));
    (head, text_of(&chars, from, n))
}

} // verus!
