use e4x_read_only::xml_object::PropertyAnswer;
use e4x_read_only::xml_read_only;
use e4x_read_only::xml_read_only::NamespaceAnswer;
use e4x_read_only::xml_read_only::NodeNamespace;
use e4x_read_only::E4XNodeReadOnly;
use e4x_read_only::Multiname;
use e4x_read_only::ParseSettings;
use e4x_read_only::XmlObjectReadOnly;

fn unescape(raw: &[u8]) -> Option<String> {
    let text = std::str::from_utf8(raw).ok()?;
    quick_xml::escape::unescape(text).ok().map(|t| t.into_owned())
}

fn object(src: &str) -> XmlObjectReadOnly<u32> {
    let mut this: XmlObjectReadOnly<u32> = XmlObjectReadOnly::empty();
    let settings = ParseSettings {
        ignore_white: true,
        ignore_comments: false,
        ignore_pi: false,
    };
    assert!(xml_read_only::init(&mut this, src, settings, &unescape));
    this
}

fn local(name: &str) -> Multiname {
    Multiname {
        any_name: false,
        local: Some(name.to_string()),
        any_namespace: true,
        namespaces: Vec::new(),
        attribute: false,
        explicit_namespace: false,
    }
}

fn attr(name: &str) -> Multiname {
    Multiname {
        attribute: true,
        ..local(name)
    }
}

fn texts(list: &[E4XNodeReadOnly]) -> Vec<String> {
    list.iter().map(|n| n.string_value()).collect()
}

const SRC: &str = r#"<p:r xmlns:p="urn:p" k="v"><a>1</a><b><a>2</a></b><!--c--><?t d?>x</p:r>"#;

#[test]
fn texts_and_markup() {
    let o = object(SRC);
    assert_eq!(xml_read_only::to_string(&o), "12x");
    assert_eq!(xml_read_only::to_xml_string(&o), SRC);
    assert_eq!(xml_read_only::length(&o), 1);
    assert_eq!(xml_read_only::node_kind(&o), "element");
    assert!(!xml_read_only::has_simple_content(&o));
    assert!(xml_read_only::has_complex_content(&o));
    let none: XmlObjectReadOnly<u32> = XmlObjectReadOnly::empty();
    assert_eq!(xml_read_only::to_string(&none), "");
    assert_eq!(xml_read_only::to_xml_string(&none), "");
    assert!(xml_read_only::parent(&none).is_none());
    assert_eq!(xml_read_only::child_index(&none), -1);
}

#[test]
fn names_and_namespaces() {
    let o = object(SRC);
    assert_eq!(xml_read_only::local_name(&o).as_deref(), Some("r"));
    let name = xml_read_only::name(&o).unwrap();
    assert_eq!(name.local, "r");
    assert!(!name.attribute);
    assert!(matches!(&name.namespace, NodeNamespace::InScope(ns) if ns.uri == "urn:p"));
    let scope = xml_read_only::in_scope_namespaces(&o);
    assert_eq!(scope.len(), 1);
    let own = xml_read_only::namespace_declarations(&o);
    assert_eq!(own.len(), 1);
    assert_eq!(own[0].prefix.as_deref(), Some("p"));
    let a = XmlObjectReadOnly::<u32>::new(xml_read_only::children(&o).remove(0));
    // What an ancestor declares is not declared here.
    assert!(xml_read_only::namespace_declarations(&a).is_empty());
    let bound = xml_read_only::namespace_internal_impl(&a, true, "p");
    assert!(matches!(
        bound,
        NamespaceAnswer::Namespace(NodeNamespace::InScope(ns)) if ns.uri == "urn:p"
    ));
    assert!(matches!(
        xml_read_only::namespace_internal_impl(&a, true, "zz"),
        NamespaceAnswer::Undefined
    ));
    assert!(matches!(
        xml_read_only::namespace_internal_impl(&a, false, ""),
        NamespaceAnswer::Namespace(NodeNamespace::Default)
    ));
}

#[test]
fn navigation() {
    let o = object(SRC);
    assert_eq!(texts(&xml_read_only::child(&o, &local("a"))), vec!["1"]);
    assert_eq!(xml_read_only::children(&o).len(), 5);
    assert_eq!(xml_read_only::elements(&o, &local("*")).len(), 2);
    assert_eq!(texts(&xml_read_only::attribute(&o, &attr("k"))), vec!["v"]);
    assert_eq!(xml_read_only::attributes(&o).len(), 1);
    assert_eq!(texts(&xml_read_only::descendants(&o, &local("a"))), vec!["1", "2"]);
    assert_eq!(texts(&xml_read_only::text(&o)), vec!["x"]);
    assert_eq!(xml_read_only::comments(&o).len(), 1);
    assert_eq!(xml_read_only::processing_instructions(&o, None).len(), 1);
    assert_eq!(xml_read_only::processing_instructions(&o, Some("z")).len(), 0);
    let b = XmlObjectReadOnly::<u32>::new(xml_read_only::child(&o, &local("b")).remove(0));
    assert_eq!(xml_read_only::child_index(&b), 1);
    let up = xml_read_only::parent(&b).unwrap();
    assert_eq!(xml_read_only::local_name(&up).as_deref(), Some("r"));
    assert!(xml_read_only::parent(&o).is_none());
}

#[test]
fn contains_is_deep_equality() {
    let o = object(SRC);
    let again = object(SRC);
    assert!(xml_read_only::contains(&o, Some(&again)));
    assert!(!xml_read_only::contains(&o, Some(&object("<r/>"))));
    assert!(!xml_read_only::contains(&o, None));
    let same = xml_read_only::copy(&o);
    assert!(same.node().unwrap().same_node(&o.node().unwrap()));
}

#[test]
fn notifications_are_stored() {
    let mut o = object("<r/>");
    assert!(xml_read_only::notification(&o).is_none());
    xml_read_only::set_notification(&mut o, Some(7));
    assert_eq!(xml_read_only::notification(&o), Some(&7));
    assert_eq!(o.notification(), Some(&7));
    xml_read_only::set_notification(&mut o, None);
    assert!(xml_read_only::notification(&o).is_none());
}

#[test]
fn properties_answer_with_lists() {
    let o = object(SRC);
    let plain = Multiname {
        any_namespace: false,
        ..local("a")
    };
    let found = o.get_property_local(&plain, None, &local("a"), false);
    assert!(matches!(found, PropertyAnswer::List(list) if texts(&list) == vec!["1"]));
    let found = o.get_property_local(&attr("k"), None, &attr("k"), true);
    assert!(matches!(found, PropertyAnswer::List(list) if texts(&list) == vec!["v"]));
    let zero = o.get_property_local(&local("0"), Some(0), &local("0"), false);
    assert!(matches!(zero, PropertyAnswer::This));
    let one = o.get_property_local(&local("1"), Some(1), &local("1"), false);
    assert!(matches!(one, PropertyAnswer::Undefined));
    let dynamic = o.get_property_local(&local("zz"), None, &local("zz"), true);
    assert!(matches!(dynamic, PropertyAnswer::Dynamic));
    let nothing = o.get_property_local(&local("zz"), None, &local("zz"), false);
    assert!(matches!(nothing, PropertyAnswer::List(list) if list.is_empty()));
}

#[test]
fn own_properties_and_enumeration() {
    let o = object(SRC);
    assert!(o.has_own_property(&local("a"), false));
    assert!(o.has_own_property(&attr("k"), false));
    assert!(!o.has_own_property(&local("zz"), false));
    assert!(o.has_own_property(&local("zz"), true));
    assert_eq!(o.xml_descendants(&local("a")).len(), 2);
    assert_eq!(o.get_next_enumerant(0), 1);
    assert_eq!(o.get_next_enumerant(1), 0);
    assert!(matches!(o.get_enumerant_value(1), PropertyAnswer::This));
    assert!(matches!(o.get_enumerant_value(2), PropertyAnswer::Undefined));
    let none: XmlObjectReadOnly<u32> = XmlObjectReadOnly::empty();
    assert_eq!(none.get_next_enumerant(0), 0);
    assert!(!none.has_own_property(&local("zz"), true));
}

#[test]
fn a_row_set_is_read_into_an_object() {
    let mut o: XmlObjectReadOnly<u32> = XmlObjectReadOnly::new_building();
    assert!(o.node().is_none());
    o.feed_binary(b"\x00RESP\x01\x01r\x00\x03row\x01\x01v");
    o.feed_binary(b"\x01\x01\x02hi\x00");
    assert!(o.finish_binary());
    assert_eq!(o.to_string_value(), "hi");
    // Further bytes are ignored.
    o.feed_binary(b"\x01\x01\x02yo");
    assert_eq!(o.to_string_value(), "hi");
}

#[test]
fn changes_are_not_made() {
    let mut o = object(SRC);
    for answer in [
        xml_read_only::add_namespace(&o),
        xml_read_only::append_child(&o),
        xml_read_only::prepend_child(&o),
        xml_read_only::normalize(&o),
        xml_read_only::remove_namespace(&o),
        xml_read_only::replace(&o),
        xml_read_only::set_children(&o),
    ] {
        assert!(answer.node().unwrap().same_node(&o.node().unwrap()));
    }
    for answer in [
        xml_read_only::insert_child_after(&o),
        xml_read_only::insert_child_before(&o),
        xml_read_only::set_local_name(&o),
        xml_read_only::set_name(&o),
        xml_read_only::set_namespace(&o),
    ] {
        assert!(matches!(answer, PropertyAnswer::Undefined));
    }
    o.set_property_local(&attr("k"));
    assert_eq!(xml_read_only::to_xml_string(&o), SRC);
}
