use e4x_read_only::E4XNodeKindReadOnly;
use e4x_read_only::E4XStoreReadOnly;
use e4x_read_only::NODE_CHUNK_LEN;
use e4x_read_only::NO_NODE;
use e4x_read_only::VIRTUAL_TEXT;

fn unescape(raw: &[u8]) -> Option<String> {
    let text = std::str::from_utf8(raw).ok()?;
    quick_xml::escape::unescape(text).ok().map(|t| t.into_owned())
}

fn parse(src: &str) -> E4XStoreReadOnly {
    E4XStoreReadOnly::parse(src, true, true, true, &unescape).unwrap()
}

fn root0(store: &E4XStoreReadOnly) -> u32 {
    store.roots()[0]
}

fn child_named(store: &E4XStoreReadOnly, node: u32, name: &str) -> Vec<u32> {
    let mut out = Vec::new();
    let mut c = store.node(node).first_child_idx();
    while c != NO_NODE {
        let cn = store.node(c);
        if cn.kind() == E4XNodeKindReadOnly::Element
            && cn.name() != NO_NODE
            && store.str(cn.name()) == name
        {
            out.push(c);
        }
        c = cn.next_sibling();
    }
    out
}

fn attr_named<'a>(store: &'a E4XStoreReadOnly, node: u32, name: &str) -> Option<&'a str> {
    let mut a = store.node(node).first_attr();
    while a != NO_NODE {
        let an = store.node(a);
        if an.name() != NO_NODE && store.str(an.name()) == name {
            return Some(store.str(an.value_ref()));
        }
        a = an.next_sibling();
    }
    None
}

fn ns_uri_of(store: &E4XStoreReadOnly, node: u32) -> Option<&str> {
    let n = store.node(node);
    if n.ns() != NO_NODE {
        Some(store.str(n.ns()))
    } else {
        None
    }
}

#[test]
fn parses_and_strips_prefix() {
    // Namespaced elements (prefix `ns:`) must match by local name.
    let store = parse(
        r#"<ns:catalog xmlns:ns="urn:x"><ns:item id="1">A</ns:item><ns:item id="2">B</ns:item></ns:catalog>"#,
    );
    assert_eq!(store.roots().len(), 1);
    let root = root0(&store);
    let items = child_named(&store, root, "item");
    assert_eq!(items.len(), 2);
    assert_eq!(attr_named(&store, items[0], "id"), Some("1"));
    // xmlns declaration must not become an attribute
    assert_eq!(attr_named(&store, root, "xmlns"), None);
    // ...but its URI is resolved and recorded.
    assert_eq!(ns_uri_of(&store, root), Some("urn:x"));
    assert_eq!(ns_uri_of(&store, items[0]), Some("urn:x"));
    // ...and captured as a declaration for namespaceDeclarations().
    assert_eq!(store.decl_count(), 1);
}

#[test]
fn interns_repeated_strings() {
    // The three `<a>` elements must share a single interned name entry.
    let store = parse(r#"<r><a x="1"/><a x="2"/><a x="3"/></r>"#);
    let root = root0(&store);
    let a_nodes = child_named(&store, root, "a");
    assert_eq!(a_nodes.len(), 3);
    let name0 = store.node(a_nodes[0]).name();
    assert!(a_nodes.iter().all(|&n| store.node(n).name() == name0));
    assert_eq!(store.str(name0), "a");
}

#[test]
fn unescapes_entities_and_cdata() {
    // Entities in text and attributes are decoded; CDATA is kept literal.
    let store = parse(r#"<r a="x&amp;y">A &lt;b&gt; C<![CDATA[<raw> & ]]></r>"#);
    let root = root0(&store);
    assert_eq!(attr_named(&store, root, "a"), Some("x&y"));
    let mut text = String::new();
    for i in 0..store.node_count() {
        let n = store.node(i);
        if matches!(
            n.kind(),
            E4XNodeKindReadOnly::Text | E4XNodeKindReadOnly::Cdata
        ) {
            text.push_str(store.str(n.value_ref()));
        }
    }
    assert!(text.contains("A <b> C"), "got: {text:?}");
    assert!(text.contains("<raw> & "), "got: {text:?}");
}

#[test]
fn default_namespace_is_resolved() {
    let store = parse(r#"<root xmlns="urn:d"><child/></root>"#);
    let root = root0(&store);
    assert_eq!(ns_uri_of(&store, root), Some("urn:d"));
    let child = child_named(&store, root, "child")[0];
    assert_eq!(ns_uri_of(&store, child), Some("urn:d"));
}

#[test]
fn collapses_sole_text_child() {
    // `<a>hello</a>`: the text folds into the element; no Text node stored.
    let store = parse("<a>hello</a>");
    assert_eq!(store.node_count(), 1);
    let a = root0(&store);
    let an = store.node(a);
    assert_eq!(an.kind(), E4XNodeKindReadOnly::Element);
    assert_eq!(an.first_child_idx(), NO_NODE);
    assert_ne!(an.value_ref(), NO_NODE);
    assert_eq!(store.str(an.value_ref()), "hello");
    // The virtual child reconstitutes the text node on demand.
    let vc = store.first_child(a);
    assert_eq!(vc & VIRTUAL_TEXT, VIRTUAL_TEXT);
    let vn = store.node(vc);
    assert_eq!(vn.kind(), E4XNodeKindReadOnly::Text);
    assert_eq!(store.str(vn.value_ref()), "hello");
    assert_eq!(vn.parent_idx(), a);
    assert_eq!(vn.next_sibling(), NO_NODE);
}

#[test]
fn collapses_leaves_but_not_mixed_content() {
    // Leaf elements collapse; a mixed-content element keeps real nodes.
    // Nodes: r, a, b, m, text("x"), i  → 6 (no Text nodes for a/b).
    let store = parse("<r><a>1</a><b>2</b><m>x<i/></m></r>");
    assert_eq!(store.node_count(), 6);
    let r = root0(&store);

    let a = child_named(&store, r, "a")[0];
    assert_eq!(store.node(a).first_child_idx(), NO_NODE);
    assert_eq!(store.str(store.node(a).value_ref()), "1");

    // `m` has text *and* an element child → not collapsed.
    let m = child_named(&store, r, "m")[0];
    assert_ne!(store.node(m).first_child_idx(), NO_NODE);
    assert_eq!(store.node(m).value_ref(), NO_NODE);
    let first = store.node(m).first_child_idx();
    assert_eq!(store.node(first).kind(), E4XNodeKindReadOnly::Text);
    assert_eq!(store.str(store.node(first).value_ref()), "x");
}

#[test]
fn spans_multiple_node_chunks() {
    // Build more nodes than one extent to exercise the chunk boundary
    // (index split + back-patching across finalized extents).
    let n = NODE_CHUNK_LEN + 1000;
    let mut src = String::from("<r>");
    for i in 0..n {
        src.push_str(&format!("<i k=\"{i}\"/>"));
    }
    src.push_str("</r>");
    let store = parse(&src);
    let root = root0(&store);
    let items = child_named(&store, root, "i");
    assert_eq!(items.len(), n);
    // First and a past-the-boundary item resolve correctly.
    assert_eq!(attr_named(&store, items[0], "k"), Some("0"));
    let last = n - 1;
    assert_eq!(
        attr_named(&store, items[last], "k"),
        Some(last.to_string().as_str())
    );
    assert!(store.node_chunk_count() >= 2);
}
