//! How a document is written out as XML.

use crate::doc;
use crate::doc::DeclView;
use crate::doc::Doc;
use crate::doc::NodeView;
use crate::node_data::E4XNodeKindReadOnly;
use crate::node_data::VIRTUAL_TEXT;
use crate::queries;
use vstd::prelude::*;

verus! {

/// One character of text or attribute content, escaped.
pub open spec fn escaped_char(c: char, attribute: bool) -> Seq<char> {
    if c == '&' {
        "&amp;"@
    } else if c == '<' {
        "&lt;"@
    } else if c == '>' {
        "&gt;"@
    } else if c == '"' && attribute {
        "&quot;"@
    } else {
        seq![c]
    }
}

/// Text or attribute content, escaped.
pub open spec fn escaped(s: Seq<char>, attribute: bool) -> Seq<char>
    decreases s.len(),
{
    if s.len() == 0 {
        Seq::empty()
    } else {
        escaped(s.drop_last(), attribute) + escaped_char(s.last(), attribute)
    }
}

/// Appends `s`, escaped.
pub(crate) fn escape_into(s: &str, attribute: bool, out: &mut String)
    ensures
        final(out)@ == old(out)@ + escaped(s@, attribute),
{
    let ghost start = out@;
    proof {
        assert(s@.take(0) =~= Seq::<char>::empty());
        assert(out@ =~= start + escaped(s@.take(0), attribute));
    }
    for c in it: s.chars()
        invariant
            it.seq() == s@,
            out@ == start + escaped(s@.take(it.index() as int), attribute),
    {
        let ghost k = it.index() as int;
        let ghost before = out@;
        if c == '&' {
            out.push_str("&amp;");
        } else if c == '<' {
            out.push_str("&lt;");
        } else if c == '>' {
            out.push_str("&gt;");
        } else if c == '"' && attribute {
            out.push_str("&quot;");
        } else {
            out.push(c);
        }
        proof {
            assert(s@.take(k + 1).drop_last() =~= s@.take(k));
            assert(s@.take(k + 1).last() == c);
            assert(out@ =~= before + escaped_char(c, attribute));
            assert(out@ =~= start + escaped(s@.take(k + 1), attribute));
        }
    }
    assert(s@.take(s@.len() as int) =~= s@);
}

/// Escaped content holds no bracket; in an attribute it holds no quote either.
pub proof fn lemma_escaped_plain(s: Seq<char>, attribute: bool)
    ensures
        forall|k: int|
            0 <= k < escaped(s, attribute).len() ==> {
                let c = #[trigger] escaped(s, attribute)[k];
                c != '<' && c != '>' && (attribute ==> c != '"')
            },
    decreases s.len(),
{
    reveal_strlit("&amp;");
    reveal_strlit("&lt;");
    reveal_strlit("&gt;");
    reveal_strlit("&quot;");
    if s.len() > 0 {
        lemma_escaped_plain(s.drop_last(), attribute);
        let front = escaped(s.drop_last(), attribute);
        let back = escaped_char(s.last(), attribute);
        assert forall|k: int| 0 <= k < escaped(s, attribute).len() implies {
            let c = #[trigger] escaped(s, attribute)[k];
            c != '<' && c != '>' && (attribute ==> c != '"')
        } by {
            if k < front.len() {
                assert(escaped(s, attribute)[k] == front[k]);
            } else {
                assert(escaped(s, attribute)[k] == back[k - front.len()]);
            }
        }
    }
}

/// The character that an escape stands for, and how long the escape is; a character
/// that opens none stands for itself.
pub open spec fn first_unescaped(s: Seq<char>) -> (char, int)
    recommends
        s.len() > 0,
{
    if "&amp;"@.is_prefix_of(s) {
        ('&', 5int)
    } else if "&lt;"@.is_prefix_of(s) {
        ('<', 4int)
    } else if "&gt;"@.is_prefix_of(s) {
        ('>', 4int)
    } else if "&quot;"@.is_prefix_of(s) {
        ('"', 6int)
    } else {
        (s[0], 1int)
    }
}

/// The text that escaped content stands for.
pub open spec fn resolved(s: Seq<char>) -> Seq<char>
    decreases s.len(),
{
    if s.len() == 0 {
        Seq::empty()
    } else {
        let f = first_unescaped(s);
        if 0 < f.1 <= s.len() {
            seq![f.0] + resolved(s.skip(f.1))
        } else {
            Seq::empty()
        }
    }
}

proof fn lemma_resolved_char(c: char, attribute: bool, rest: Seq<char>)
    ensures
        resolved(escaped_char(c, attribute) + rest) == seq![c] + resolved(rest),
{
    reveal_strlit("&amp;");
    reveal_strlit("&lt;");
    reveal_strlit("&gt;");
    reveal_strlit("&quot;");
    let e = escaped_char(c, attribute);
    let s = e + rest;
    assert(s.skip(e.len() as int) =~= rest);
    assert(s[0] == e[0]);
    if c == '&' {
        assert("&amp;"@ =~= s.take(5));
    } else if c == '<' {
        assert("&lt;"@ =~= s.take(4));
        assert("&amp;"@[1] != s[1]);
    } else if c == '>' {
        assert("&gt;"@ =~= s.take(4));
        assert("&amp;"@[1] != s[1]);
        assert("&lt;"@[1] != s[1]);
    } else if c == '"' && attribute {
        assert("&quot;"@ =~= s.take(6));
        assert("&amp;"@[1] != s[1]);
        assert("&lt;"@[1] != s[1]);
        assert("&gt;"@[1] != s[1]);
    } else {
        assert("&amp;"@[0] != s[0]);
        assert("&lt;"@[0] != s[0]);
        assert("&gt;"@[0] != s[0]);
        assert("&quot;"@[0] != s[0]);
    }
    assert(first_unescaped(s) == (c, e.len() as int));
}

proof fn lemma_escaped_front(s: Seq<char>, attribute: bool)
    requires
        s.len() > 0,
    ensures
        escaped(s, attribute) == escaped_char(s[0], attribute) + escaped(s.drop_first(), attribute),
    decreases s.len(),
{
    if s.len() == 1 {
        assert(s.drop_last() =~= Seq::<char>::empty());
        assert(s.drop_first() =~= Seq::<char>::empty());
        assert(escaped(s, attribute) =~= escaped_char(s[0], attribute) + escaped(
            s.drop_first(),
            attribute,
        ));
    } else {
        lemma_escaped_front(s.drop_last(), attribute);
        assert(s.drop_last().drop_first() =~= s.drop_first().drop_last());
        assert(escaped(s, attribute) =~= escaped_char(s[0], attribute) + escaped(
            s.drop_first(),
            attribute,
        ));
    }
}

/// Reading escaped content back gives the content.
pub proof fn lemma_escape_round_trip(s: Seq<char>, attribute: bool)
    ensures
        resolved(escaped(s, attribute)) == s,
    decreases s.len(),
{
    if s.len() > 0 {
        lemma_escaped_front(s, attribute);
        lemma_resolved_char(s[0], attribute, escaped(s.drop_first(), attribute));
        lemma_escape_round_trip(s.drop_first(), attribute);
        assert(seq![s[0]] + s.drop_first() =~= s);
    }
}

/// The name of an element or attribute with its prefix.
pub open spec fn qualified(v: NodeView) -> Seq<char> {
    let local = match v.name {
        Some(n) => n,
        None => Seq::empty(),
    };
    match v.prefix {
        Some(p) => p + ":"@ + local,
        None => local,
    }
}

/// One namespace declaration in a start tag.
pub open spec fn decl_text(d: DeclView) -> Seq<char> {
    " xmlns"@ + (if d.prefix.len() > 0 {
        ":"@ + d.prefix
    } else {
        Seq::empty()
    }) + "=\""@ + escaped(d.uri, true) + "\""@
}

/// The declarations of element `at` among the first `n`, as its start tag has them.
pub open spec fn decls_text(decls: Seq<DeclView>, at: int, n: int) -> Seq<char>
    decreases n,
{
    if n <= 0 {
        Seq::empty()
    } else if decls[n - 1].node == at {
        decls_text(decls, at, n - 1) + decl_text(decls[n - 1])
    } else {
        decls_text(decls, at, n - 1)
    }
}

/// One attribute in a start tag.
pub open spec fn attr_text(v: NodeView) -> Seq<char> {
    " "@ + qualified(v) + "=\""@ + escaped(queries::value_text(v), true) + "\""@
}

/// Attributes in a start tag.
pub open spec fn attrs_text(nodes: Seq<NodeView>, at: Seq<int>) -> Seq<char>
    decreases at.len(),
{
    if at.len() == 0 {
        Seq::empty()
    } else {
        attrs_text(nodes, at.drop_last()) + attr_text(nodes[at.last()])
    }
}

/// A start tag up to its closing bracket.
pub open spec fn open_tag(d: Doc, i: int) -> Seq<char> {
    "<"@ + qualified(d.nodes[i]) + decls_text(d.decls, i, d.decls.len() as int) + attrs_text(
        d.nodes,
        doc::kids(d.nodes, Some(i), true, 0),
    )
}

/// An end tag.
pub open spec fn end_tag(d: Doc, i: int) -> Seq<char> {
    "</"@ + qualified(d.nodes[i]) + ">"@
}

/// A processing instruction; an empty value is left out.
pub open spec fn pi_text(v: NodeView) -> Seq<char> {
    "<?"@ + (match v.name {
        Some(n) => n,
        None => Seq::empty(),
    }) + (if queries::value_text(v).len() > 0 {
        " "@ + queries::value_text(v)
    } else {
        Seq::empty()
    }) + "?>"@
}

/// A stored node as XML.
pub open spec fn xml_text(d: Doc, i: int) -> Seq<char>
    decreases d.nodes.len() - i, 0int,
{
    if i < 0 || i >= d.nodes.len() {
        Seq::empty()
    } else {
        let v = d.nodes[i];
        match v.kind {
            E4XNodeKindReadOnly::Text => escaped(queries::value_text(v), false),
            E4XNodeKindReadOnly::Cdata => "<![CDATA["@ + queries::value_text(v) + "]]>"@,
            E4XNodeKindReadOnly::Comment => "<!--"@ + queries::value_text(v) + "-->"@,
            E4XNodeKindReadOnly::ProcessingInstruction => pi_text(v),
            E4XNodeKindReadOnly::Attribute => queries::value_text(v),
            E4XNodeKindReadOnly::Element => match v.value {
                Some(t) => open_tag(d, i) + ">"@ + escaped(t, false) + end_tag(d, i),
                None => if doc::first_kid(d.nodes, Some(i), false, 0) is None {
                    open_tag(d, i) + "/>"@
                } else {
                    open_tag(d, i) + ">"@ + kids_xml(d, i, i + 1) + end_tag(d, i)
                },
            },
        }
    }
}

/// The children of element `i` from position `from` on, as XML.
pub open spec fn kids_xml(d: Doc, i: int, from: int) -> Seq<char>
    decreases d.nodes.len() - from, 1int,
{
    if from < 0 || from >= d.nodes.len() {
        Seq::empty()
    } else if doc::is_kid(d.nodes[from], Some(i), false) {
        xml_text(d, from) + kids_xml(d, i, from + 1)
    } else {
        kids_xml(d, i, from + 1)
    }
}

pub proof fn lemma_kids_xml_step(d: Doc, i: int, from: int)
    requires
        0 <= from,
    ensures
        kids_xml(d, i, from) == (match doc::first_kid(d.nodes, Some(i), false, from) {
            Some(j) => xml_text(d, j) + kids_xml(d, i, j + 1),
            None => Seq::empty(),
        }),
    decreases d.nodes.len() - from,
{
    if from < d.nodes.len() && !doc::is_kid(d.nodes[from], Some(i), false) {
        lemma_kids_xml_step(d, i, from + 1);
    }
}

/// The node at an index as XML.
pub open spec fn xml_at(d: Doc, idx: u32) -> Seq<char> {
    if idx >= VIRTUAL_TEXT {
        escaped(queries::value_text(doc::node_at(d.nodes, idx)), false)
    } else {
        xml_text(d, idx as int)
    }
}

} // verus!
