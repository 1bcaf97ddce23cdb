use e4x_read_only::E4XNodeKindReadOnly;
use e4x_read_only::E4XNodeReadOnly;
use e4x_read_only::E4XStoreReadOnly;
use e4x_read_only::Multiname;
use e4x_read_only::NamespaceRef;
use e4x_read_only::VIRTUAL_TEXT;
use std::rc::Rc;

fn unescape(raw: &[u8]) -> Option<String> {
    let text = std::str::from_utf8(raw).ok()?;
    quick_xml::escape::unescape(text).ok().map(|t| t.into_owned())
}

fn root_with(src: &str, white: bool, comments: bool, pi: bool) -> E4XNodeReadOnly {
    let store = Rc::new(E4XStoreReadOnly::parse(src, white, comments, pi, &unescape).unwrap());
    let at = store.roots()[0];
    E4XNodeReadOnly::new(store, at)
}

fn root(src: &str) -> E4XNodeReadOnly {
    root_with(src, true, true, true)
}

fn local(name: &str) -> Multiname {
    Multiname {
        any_name: false,
        local: Some(name.to_string()),
        any_namespace: true,
        namespaces: Vec::new(),
        attribute: false,
        explicit_namespace: false,
    }
}

fn in_namespace(name: &str, uri: &str) -> Multiname {
    Multiname {
        any_namespace: false,
        namespaces: vec![NamespaceRef {
            is_namespace: true,
            uri: Some(uri.to_string()),
        }],
        ..local(name)
    }
}

fn any() -> Multiname {
    Multiname {
        any_name: true,
        ..local("")
    }
}

fn names(list: &[E4XNodeReadOnly]) -> Vec<String> {
    list.iter()
        .map(|n| n.local_name().unwrap_or("").to_string())
        .collect()
}

fn texts(list: &[E4XNodeReadOnly]) -> Vec<String> {
    list.iter().map(|n| n.string_value()).collect()
}

#[test]
fn children_match_by_name_in_order() {
    let r = root("<r><a>1</a><b>2</b><a>3</a></r>");
    let mut out = Vec::new();
    r.children_matching(&local("a"), &mut out);
    assert_eq!(texts(&out), vec!["1", "3"]);
    let mut all = Vec::new();
    r.children_matching(&any(), &mut all);
    assert_eq!(names(&all), vec!["a", "b", "a"]);
    let mut star = Vec::new();
    r.children_matching(&local("*"), &mut star);
    assert_eq!(star.len(), 3);
    let mut none = Vec::new();
    r.children_matching(&local("c"), &mut none);
    assert!(none.is_empty());
}

#[test]
fn children_match_by_namespace() {
    let r = root(r#"<r xmlns:p="urn:p"><p:a>1</p:a><a>2</a></r>"#);
    let mut out = Vec::new();
    r.children_matching(&in_namespace("a", "urn:p"), &mut out);
    assert_eq!(texts(&out), vec!["1"]);
    // The empty URI stands for no namespace.
    let mut bare = Vec::new();
    r.children_matching(&in_namespace("a", ""), &mut bare);
    assert_eq!(texts(&bare), vec!["2"]);
    // Without a namespace asked for, only a node in none matches.
    let mut unasked = Vec::new();
    let want = Multiname {
        any_namespace: false,
        ..local("a")
    };
    r.children_matching(&want, &mut unasked);
    assert_eq!(texts(&unasked), vec!["2"]);
}

#[test]
fn attributes_match_by_name() {
    let r = root(r#"<r x="1" y="2"/>"#);
    let mut out = Vec::new();
    r.attributes_matching(&local("y"), &mut out);
    assert_eq!(texts(&out), vec!["2"]);
    let mut all = Vec::new();
    r.all_attributes(&mut all);
    assert_eq!(names(&all), vec!["x", "y"]);
    assert!(all[0].is_attribute());
    assert_eq!(all[0].node_kind_str(), "attribute");
}

#[test]
fn joined_texts_have_one_line_each() {
    let r = root(r#"<r k="v"><a>1</a><b/><a>2</a><a><i>3</i>4</a></r>"#);
    let mut out = String::from("> ");
    r.append_children_text(&local("a"), &mut out);
    assert_eq!(out, "> 1\n2\n34");
    let mut attrs = String::new();
    r.append_attrs_text(&local("k"), &mut attrs);
    assert_eq!(attrs, "v");
    let mut none = String::new();
    r.append_children_text(&local("z"), &mut none);
    assert_eq!(none, "");
}

#[test]
fn descendants_come_depth_first() {
    let r = root(r#"<r><a n="1"><a n="2"/></a><b><a n="3"/></b></r>"#);
    let mut out = Vec::new();
    r.descendants_matching(&local("a"), &mut out);
    assert_eq!(out.len(), 3);
    let mut attrs = Vec::new();
    let want = Multiname {
        attribute: true,
        ..local("n")
    };
    r.descendants_matching(&want, &mut attrs);
    assert_eq!(texts(&attrs), vec!["1", "2", "3"]);
}

#[test]
fn collapsed_text_is_a_child() {
    let r = root("<a>hello</a>");
    let mut kids = Vec::new();
    r.all_children(&mut kids);
    assert_eq!(kids.len(), 1);
    assert_eq!(kids[0].index(), VIRTUAL_TEXT);
    assert_eq!(kids[0].kind(), E4XNodeKindReadOnly::Text);
    assert!(kids[0].is_text());
    assert_eq!(kids[0].value(), Some("hello"));
    assert_eq!(kids[0].string_value(), r.string_value());
    assert_eq!(kids[0].parent().unwrap().index(), r.index());
    assert_eq!(kids[0].child_index(), Some(0));
    let mut text = Vec::new();
    r.text_children(&mut text);
    assert_eq!(texts(&text), vec!["hello"]);
}

#[test]
fn a_folded_text_reads_as_a_stored_one() {
    // The comment keeps the second text from folding.
    let folded = root_with("<a>x&amp;y</a>", false, false, false);
    let stored = root_with("<a>x&amp;y<!--c--></a>", false, false, false);
    assert_eq!(folded.string_value(), stored.string_value());
    let mut one = String::new();
    folded.write_xml_string(&mut one);
    let mut two = String::new();
    stored.write_xml_string(&mut two);
    assert_eq!(one, "<a>x&amp;y</a>");
    assert_eq!(two, "<a>x&amp;y<!--c--></a>");
}

#[test]
fn folding_never_costs_nodes() {
    let plain = E4XStoreReadOnly::parse("<r><a>1</a><b>2</b></r>", true, true, true, &unescape);
    // Three elements and two texts were read.
    assert_eq!(plain.unwrap().node_count(), 3);
    let mixed = E4XStoreReadOnly::parse("<r>x<i/>y</r>", true, true, true, &unescape);
    assert_eq!(mixed.unwrap().node_count(), 4);
}

#[test]
fn comments_and_instructions_are_kept_when_asked_for() {
    let r = root_with("<r><!--c--><?t d e?><?u?>x</r>", true, false, false);
    let mut comments = Vec::new();
    r.comment_children(&mut comments);
    assert_eq!(comments.len(), 1);
    assert!(comments[0].is_comment());
    assert_eq!(comments[0].value(), Some("c"));
    assert_eq!(comments[0].string_value(), "");
    let mut pis = Vec::new();
    r.pi_children(None, &mut pis);
    assert_eq!(names(&pis), vec!["t", "u"]);
    assert!(pis[0].is_processing_instruction());
    assert_eq!(pis[0].value(), Some("d e"));
    let mut named = Vec::new();
    r.pi_children(Some("u"), &mut named);
    assert_eq!(named.len(), 1);
    assert_eq!(r.string_value(), "x");
    let bare = root("<r><!--c--><?t d?>x</r>");
    let mut kids = Vec::new();
    bare.all_children(&mut kids);
    assert_eq!(kids.len(), 1);
}

#[test]
fn white_space_is_kept_or_left_out() {
    let kept = root_with("<r> <a/> </r>", false, true, true);
    let mut kids = Vec::new();
    kept.all_children(&mut kids);
    assert_eq!(kids.len(), 3);
    let left_out = root("<r> <a/> </r>");
    let mut few = Vec::new();
    left_out.all_children(&mut few);
    assert_eq!(few.len(), 1);
    // Text is trimmed where white space is ignored.
    assert_eq!(root("<r>  x  </r>").string_value(), "x");
    assert_eq!(root_with("<r>  x  </r>", false, true, true).string_value(), "  x  ");
}

#[test]
fn content_is_simple_or_complex() {
    let simple = root("<r>x</r>");
    assert!(simple.has_simple_content());
    assert!(!simple.has_complex_content());
    let complex = root("<r>x<a/></r>");
    assert!(!complex.has_simple_content());
    assert!(complex.has_complex_content());
    let empty = root("<r/>");
    assert!(empty.has_simple_content());
    let c = root_with("<r><!--c--></r>", true, false, true);
    assert!(c.has_simple_content());
    let mut kids = Vec::new();
    c.all_children(&mut kids);
    assert!(!kids[0].has_simple_content());
    assert!(!kids[0].has_complex_content());
}

#[test]
fn positions_and_children_agree() {
    let r = root("<r>x<a/>y<b/></r>");
    let mut kids = Vec::new();
    r.all_children(&mut kids);
    assert_eq!(kids.len(), 4);
    for (i, k) in kids.iter().enumerate() {
        assert_eq!(k.child_index(), Some(i));
    }
    assert_eq!(r.child_index(), None);
    assert_eq!(r.child_element_at(0).unwrap().local_name(), Some("a"));
    assert_eq!(r.child_element_at(1).unwrap().local_name(), Some("b"));
    assert!(r.child_element_at(2).is_none());
    assert!(r.parent().is_none());
    assert!(kids[1].parent().unwrap().same_node(&r));
    let attrs = root(r#"<r k="v"/>"#);
    let mut list = Vec::new();
    attrs.all_attributes(&mut list);
    assert_eq!(list[0].child_index(), None);
}

#[test]
fn same_node_needs_the_same_document() {
    let a = root("<r><a/></r>");
    let b = root("<r><a/></r>");
    assert!(a.same_node(&a));
    assert!(!a.same_node(&b));
    assert!(a.deep_equals(&b));
    let k = a.child_element_at(0).unwrap();
    let again = a.child_element_at(0).unwrap();
    assert!(k.same_node(&again));
    assert!(!k.same_node(&a));
}

#[test]
fn equality_ignores_the_order_of_attributes_only() {
    let a = root(r#"<r x="1" y="2"><a/><b>t</b></r>"#);
    assert!(a.deep_equals(&a));
    assert!(a.deep_equals(&root(r#"<r y="2" x="1"><a/><b>t</b></r>"#)));
    assert!(!a.deep_equals(&root(r#"<r x="1" y="2"><b>t</b><a/></r>"#)));
    assert!(!a.deep_equals(&root(r#"<r x="1" y="3"><a/><b>t</b></r>"#)));
    assert!(!a.deep_equals(&root(r#"<r x="1"><a/><b>t</b></r>"#)));
    assert!(!a.deep_equals(&root(r#"<r x="1" y="2"><a/><b>u</b></r>"#)));
    assert!(!a.deep_equals(&root(r#"<q x="1" y="2"><a/><b>t</b></q>"#)));
}

#[test]
fn equality_goes_both_ways() {
    let a = root(r#"<r x="1" y="2"><a p="3"/><b>t</b></r>"#);
    let b = root(r#"<r y="2" x="1"><a p="3"/><b><![CDATA[t]]></b></r>"#);
    let c = root(r#"<r y="2" x="1"><a p="3"></a><b>t</b></r>"#);
    assert!(a.deep_equals(&c) && c.deep_equals(&a));
    assert_eq!(a.deep_equals(&b), b.deep_equals(&a));
    let d = root(r#"<r x="1" y="2"><a p="4"/><b>t</b></r>"#);
    assert!(!a.deep_equals(&d) && !d.deep_equals(&a));
}

#[test]
fn what_is_written_parses_as_it_was() {
    for src in [
        r#"<r x="1&amp;2" y="&quot;q&quot;"><a p="3"/><b>t &lt; u</b><c>1<d/>2</c></r>"#,
        r#"<p:r xmlns:p="urn:p" xmlns="urn:d"><a p:k="v"/><?go now?><p:b>x</p:b></p:r>"#,
        r#"<r>one<!-- note --><![CDATA[<raw>]]>two<a> </a></r>"#,
    ] {
        let a = root_with(src, false, false, false);
        let mut text = String::new();
        a.write_xml_string(&mut text);
        let b = root_with(&text, false, false, false);
        assert!(a.deep_equals(&b), "{text}");
    }
}

#[test]
fn the_closest_declaration_wins() {
    let r = root(r#"<r xmlns:p="urn:1" xmlns:q="urn:q"><a xmlns:p="urn:2"/></r>"#);
    let a = r.child_element_at(0).unwrap();
    let scope = a.in_scope_namespaces();
    let p: Vec<&str> = scope
        .iter()
        .filter(|ns| ns.prefix.as_deref() == Some("p"))
        .map(|ns| ns.uri.as_str())
        .collect();
    assert_eq!(p, vec!["urn:2"]);
    assert_eq!(scope.len(), 2);
    assert_eq!(r.in_scope_namespaces().len(), 2);
}

#[test]
fn namespaces_come_with_their_prefix() {
    let r = root(r#"<p:r xmlns:p="urn:p"><p:a/><b/></p:r>"#);
    let ns = r.namespace().unwrap();
    assert_eq!(ns.uri, "urn:p");
    assert_eq!(ns.prefix.as_deref(), Some("p"));
    assert!(r.child_element_at(1).unwrap().namespace().is_none());
}

#[test]
fn serialization_escapes_and_declares() {
    let src = r#"<p:r xmlns:p="urn:p" a="x&quot;&lt;"><b>1 &lt; 2 &amp; 3 &gt; 2</b><c/><![CDATA[<raw>]]></p:r>"#;
    let r = root(src);
    let mut out = String::new();
    r.write_xml_string(&mut out);
    assert_eq!(out, src);
    let mut attr = Vec::new();
    r.all_attributes(&mut attr);
    let mut value = String::new();
    attr[0].write_xml_string(&mut value);
    assert_eq!(value, "x\"<");
}

#[test]
fn serialization_of_each_kind() {
    let src = "<r>t<!--c--><?pi d?><?bare?></r>";
    let r = root_with(src, false, false, false);
    let mut out = String::new();
    r.write_xml_string(&mut out);
    assert_eq!(out, src);
    // A document that was written parses to an equal one.
    assert!(root_with(&out, false, false, false).deep_equals(&r));
}

#[test]
fn a_source_without_elements_has_no_root() {
    let store = E4XStoreReadOnly::parse("", true, true, true, &unescape).unwrap();
    assert!(store.roots().is_empty());
    assert_eq!(store.node_count(), 0);
}

#[test]
fn a_malformed_source_keeps_what_came_before() {
    let store = E4XStoreReadOnly::parse("<r><a>1</a></b>", true, true, true, &unescape).unwrap();
    assert_eq!(store.roots().len(), 1);
    let r = E4XNodeReadOnly::new(Rc::new(store), 0);
    assert_eq!(r.string_value(), "1");
}

#[test]
fn the_kinds_have_their_names() {
    let r = root_with("<r>t<!--c--><?p?><![CDATA[d]]></r>", true, false, false);
    let mut kids = Vec::new();
    r.all_children(&mut kids);
    let kinds: Vec<&str> = kids.iter().map(|k| k.node_kind_str()).collect();
    assert_eq!(kinds, vec!["text", "comment", "processing-instruction", "text"]);
    assert_eq!(r.node_kind_str(), "element");
    assert!(r.is_element());
}

#[test]
fn public_names_are_in_no_namespace() {
    let r = root(r#"<r xmlns:p="urn:p" k="v"><p:a>1</p:a><a>2</a></r>"#);
    let mut out = Vec::new();
    r.children_matching(&Multiname::public("a", false), &mut out);
    assert_eq!(texts(&out), vec!["2"]);
    let mut all = Vec::new();
    r.children_matching(&Multiname::public("*", false), &mut all);
    assert_eq!(all.len(), 2);
    let mut attrs = Vec::new();
    r.attributes_matching(&Multiname::public("k", true), &mut attrs);
    assert_eq!(texts(&attrs), vec!["v"]);
}
