//! How documents are written: what stands in the text of each node.

use crate::collapse;
use crate::doc;
use crate::doc::DeclView;
use crate::doc::Doc;
use crate::doc::NodeView;
use crate::node_data::VIRTUAL_TEXT;
use crate::serialize;
use vstd::prelude::*;

verus! {

/// A name with its prefix and a colon before it, where it has one.
pub open spec fn tag_name(v: NodeView) -> Seq<char> {
    if v.prefix is Some {
        v.prefix->0 + seq![':'] + v.name->0
    } else {
        v.name->0
    }
}

/// A name and its value in a tag, behind a space.
pub open spec fn pair(name: Seq<char>, value: Seq<char>) -> Seq<char> {
    seq![' '] + name + seq!['=', '"'] + serialize::escaped(value, true) + seq!['"']
}

/// The name under which a prefix is declared.
pub open spec fn declaring(prefix: Seq<char>) -> Seq<char> {
    if prefix.len() == 0 {
        seq!['x', 'm', 'l', 'n', 's']
    } else {
        seq!['x', 'm', 'l', 'n', 's', ':'] + prefix
    }
}

/// The declarations on an element, in order.
pub open spec fn decls_on(decls: Seq<DeclView>, i: int, n: int) -> Seq<char>
    decreases n,
{
    if n <= 0 {
        Seq::empty()
    } else {
        decls_on(decls, i, n - 1) + (if decls[n - 1].node == i {
            pair(declaring(decls[n - 1].prefix), decls[n - 1].uri)
        } else {
            Seq::empty()
        })
    }
}

/// Attributes, in order.
pub open spec fn attrs_on(nodes: Seq<NodeView>, at: Seq<u32>) -> Seq<char>
    decreases at.len(),
{
    if at.len() == 0 {
        Seq::empty()
    } else {
        let v = nodes[at.last() as int];
        attrs_on(nodes, at.drop_last()) + pair(tag_name(v), v.value->0)
    }
}

/// Nodes one behind the other.
pub open spec fn all_written(d: Doc, at: Seq<u32>) -> Seq<char>
    decreases at.len(),
{
    if at.len() == 0 {
        Seq::empty()
    } else {
        all_written(d, at.drop_last()) + serialize::xml_at(d, at.last())
    }
}

proof fn lemma_decls(decls: Seq<DeclView>, i: int, n: int)
    ensures
        serialize::decls_text(decls, i, n) == decls_on(decls, i, n),
    decreases n,
{
    reveal_strlit(" xmlns");
    reveal_strlit(":");
    reveal_strlit("=\"");
    reveal_strlit("\"");
    if n > 0 {
        lemma_decls(decls, i, n - 1);
        let d = decls[n - 1];
        if d.node == i {
            assert(serialize::decl_text(d) =~= pair(declaring(d.prefix), d.uri));
        } else {
            assert(decls_on(decls, i, n) =~= decls_on(decls, i, n - 1));
        }
    }
}

proof fn lemma_name(v: NodeView)
    requires
        v.name is Some,
    ensures
        serialize::qualified(v) == tag_name(v),
{
    reveal_strlit(":");
    assert(":"@ =~= seq![':']);
}

proof fn lemma_attrs(nodes: Seq<NodeView>, at: Seq<int>)
    requires
        doc::nodes_ok(nodes),
        forall|k: int|
            0 <= k < at.len() ==> 0 <= #[trigger] at[k] < nodes.len()
                && nodes[at[k]].kind is Attribute,
    ensures
        serialize::attrs_text(nodes, at) == attrs_on(nodes, doc::as_links(at)),
    decreases at.len(),
{
    reveal_strlit(" ");
    reveal_strlit("=\"");
    reveal_strlit("\"");
    let links = doc::as_links(at);
    if at.len() > 0 {
        let front = at.drop_last();
        assert forall|k: int| 0 <= k < front.len() implies 0 <= #[trigger] front[k] < nodes.len()
            && nodes[front[k]].kind is Attribute by {
            assert(front[k] == at[k]);
        }
        lemma_attrs(nodes, front);
        assert(links.drop_last() =~= doc::as_links(front));
        let v = nodes[at[at.len() - 1]];
        assert(doc::node_ok(nodes, at[at.len() - 1]));
        lemma_name(v);
        assert(serialize::attr_text(v) =~= pair(tag_name(v), v.value->0));
    }
}

proof fn lemma_all(d: Doc, at: Seq<u32>)
    ensures
        collapse::xmls_at(d, at) == all_written(d, at),
    decreases at.len(),
{
    if at.len() > 0 {
        lemma_all(d, at.drop_last());
        lemma_back(d, at);
    }
}

proof fn lemma_back(d: Doc, at: Seq<u32>)
    requires
        at.len() > 0,
    ensures
        collapse::xmls_at(d, at) == collapse::xmls_at(d, at.drop_last()) + serialize::xml_at(
            d,
            at.last(),
        ),
    decreases at.len(),
{
    if at.len() == 1 {
        assert(at.drop_first() =~= Seq::<u32>::empty());
        assert(at.drop_last() =~= Seq::<u32>::empty());
        assert(collapse::xmls_at(d, at) =~= collapse::xmls_at(d, at.drop_last())
            + serialize::xml_at(d, at.last()));
    } else {
        lemma_back(d, at.drop_first());
        assert(at.drop_first().drop_last() =~= at.drop_last().drop_first());
        assert(collapse::xmls_at(d, at) =~= collapse::xmls_at(d, at.drop_last())
            + serialize::xml_at(d, at.last()));
    }
}

/// An element is written as its name, its declarations and its attributes between brackets,
/// then its children and its name again; one without children as a single tag.
pub proof fn lemma_element_written(d: Doc, i: u32)
    requires
        doc::nodes_ok(d.nodes),
        i < d.nodes.len(),
        d.nodes[i as int].kind is Element,
    ensures
        ({
            let name = tag_name(d.nodes[i as int]);
            let tag = seq!['<'] + name + decls_on(d.decls, i as int, d.decls.len() as int)
                + attrs_on(d.nodes, doc::attr_indices(d.nodes, i));
            let at = doc::child_indices(d.nodes, i);
            serialize::xml_at(d, i) == (if at.len() == 0 {
                tag + seq!['/', '>']
            } else {
                tag + seq!['>'] + all_written(d, at) + seq!['<', '/'] + name + seq!['>']
            })
        }),
{
    reveal_strlit("<");
    reveal_strlit("/>");
    reveal_strlit(">");
    reveal_strlit("</");
    let v = d.nodes[i as int];
    assert(doc::node_ok(d.nodes, i as int));
    collapse::lemma_xml_of_children(d, i);
    lemma_name(v);
    lemma_decls(d.decls, i as int, d.decls.len() as int);
    doc::lemma_kids_are(d.nodes, Some(i as int), true, 0);
    lemma_attrs(d.nodes, doc::kids(d.nodes, Some(i as int), true, 0));
    let at = doc::child_indices(d.nodes, i);
    lemma_all(d, at);
    let name = tag_name(v);
    let tag = seq!['<'] + name + decls_on(d.decls, i as int, d.decls.len() as int) + attrs_on(
        d.nodes,
        doc::attr_indices(d.nodes, i),
    );
    assert(serialize::open_tag(d, i as int) =~= tag);
    assert(serialize::end_tag(d, i as int) =~= seq!['<', '/'] + name + seq!['>']);
    assert("/>"@ =~= seq!['/', '>'] && ">"@ =~= seq!['>']);
    if at.len() > 0 {
        assert(tag + seq!['>'] + all_written(d, at) + (seq!['<', '/'] + name + seq!['>']) =~= tag
            + seq!['>'] + all_written(d, at) + seq!['<', '/'] + name + seq!['>']);
    }
}

/// A text is written escaped, a CDATA section, a comment and a processing instruction between
/// their marks as they are, an attribute as its value.
pub proof fn lemma_leaf_written(d: Doc, i: u32)
    requires
        doc::nodes_ok(d.nodes),
        doc::valid_index(d.nodes, i),
    ensures
        ({
            let v = doc::node_at(d.nodes, i);
            let t = v.value->0;
            &&& v.kind is Text ==> serialize::xml_at(d, i) == serialize::escaped(t, false)
            &&& v.kind is Cdata ==> serialize::xml_at(d, i) == seq![
                '<',
                '!',
                '[',
                'C',
                'D',
                'A',
                'T',
                'A',
                '[',
            ] + t + seq![']', ']', '>']
            &&& v.kind is Comment ==> serialize::xml_at(d, i) == seq!['<', '!', '-', '-'] + t
                + seq!['-', '-', '>']
            &&& v.kind is ProcessingInstruction ==> serialize::xml_at(d, i) == seq!['<', '?']
                + v.name->0 + (if t.len() == 0 {
                Seq::empty()
            } else {
                seq![' '] + t
            }) + seq!['?', '>']
            &&& v.kind is Attribute ==> serialize::xml_at(d, i) == t
        }),
{
    reveal_strlit("<![CDATA[");
    reveal_strlit("]]>");
    reveal_strlit("<!--");
    reveal_strlit("-->");
    reveal_strlit("<?");
    reveal_strlit("?>");
    reveal_strlit(" ");
    let v = doc::node_at(d.nodes, i);
    if i < VIRTUAL_TEXT {
        assert(doc::node_ok(d.nodes, i as int));
        let t = v.value->0;
        let x = serialize::xml_at(d, i);
        if v.kind is Cdata {
            assert(x =~= seq!['<', '!', '[', 'C', 'D', 'A', 'T', 'A', '['] + t + seq![']', ']', '>']);
        } else if v.kind is Comment {
            assert(x =~= seq!['<', '!', '-', '-'] + t + seq!['-', '-', '>']);
        } else if v.kind is ProcessingInstruction {
            assert(x =~= seq!['<', '?'] + v.name->0 + (if t.len() == 0 {
                Seq::empty()
            } else {
                seq![' '] + t
            }) + seq!['?', '>']);
        }
    }
}

} // verus!
