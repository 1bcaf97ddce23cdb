//! The methods of the read-only XML class.

pub use crate::sort_keyed::sort_keyed;
pub use crate::sort_rows::sort_rows;

use crate::builder;
use crate::doc;
use crate::doc::Doc;
use crate::events::ParseSettings;
use crate::multiname;
use crate::multiname::E4XNamespace;
use crate::multiname::Multiname;
use crate::multiname::NsView;
use crate::node;
use crate::node::E4XNodeReadOnly;
use crate::node::Handle;
use crate::node_data::E4XNodeKindReadOnly;
use crate::parse;
use crate::parse::Unescaping;
use crate::queries;
use crate::serialize;
use crate::text;
use crate::text::same_text;
use crate::xml_object;
use crate::xml_object::ObjectView;
use crate::xml_object::PropertyAnswer;
use crate::xml_object::XmlObjectReadOnly;
use vstd::prelude::*;

verus! {

/// The namespace that a node answers with.
pub enum NodeNamespace {
    /// The default namespace: the node is in none.
    Default,
    /// One that is in scope, with its prefix.
    InScope(E4XNamespace),
    /// One that is not, by its URI alone.
    Uri(String),
}

/// A [`NodeNamespace`] by its texts.
pub enum NodeNamespaceView {
    Default,
    InScope(NsView),
    Uri(Seq<char>),
}

impl View for NodeNamespace {
    type V = NodeNamespaceView;

    open spec fn view(&self) -> NodeNamespaceView {
        match *self {
            NodeNamespace::Default => NodeNamespaceView::Default,
            NodeNamespace::InScope(ns) => NodeNamespaceView::InScope(ns@),
            NodeNamespace::Uri(uri) => NodeNamespaceView::Uri(uri@),
        }
    }
}

/// The first namespace of a list with a URI, from position `k` on.
pub open spec fn first_of_uri(list: Seq<NsView>, uri: Seq<char>, k: int) -> Option<NsView>
    decreases list.len() - k,
{
    if k < 0 || k >= list.len() {
        None
    } else if list[k].uri == uri {
        Some(list[k])
    } else {
        first_of_uri(list, uri, k + 1)
    }
}

/// The first namespace of a list with a prefix, from position `k` on.
pub open spec fn first_of_prefix(list: Seq<NsView>, prefix: Seq<char>, k: int) -> Option<NsView>
    decreases list.len() - k,
{
    if k < 0 || k >= list.len() {
        None
    } else if list[k].prefix == Some(prefix) {
        Some(list[k])
    } else {
        first_of_prefix(list, prefix, k + 1)
    }
}

/// The namespace of a node: the one in scope with its URI, else the URI alone.
pub open spec fn own_namespace(h: Handle) -> NodeNamespaceView {
    match h.node().ns {
        None => NodeNamespaceView::Default,
        Some(uri) => match first_of_uri(queries::scope(h.store.doc(), h.index), uri, 0) {
            Some(ns) => NodeNamespaceView::InScope(ns),
            None => NodeNamespaceView::Uri(uri),
        },
    }
}

/// A qualified name.
pub struct NodeName {
    pub namespace: NodeNamespace,
    pub local: String,
    pub attribute: bool,
}

/// What is answered when a namespace is asked for.
pub enum NamespaceAnswer {
    Null,
    Undefined,
    Namespace(NodeNamespace),
}

fn find_uri(list: &Vec<E4XNamespace>, uri: &str) -> (r: Option<E4XNamespace>)
    ensures
        match first_of_uri(multiname::ns_views(list@), uri@, 0) {
            Some(ns) => r is Some && r->0@ == ns,
            None => r is None,
        },
{
    let ghost views = multiname::ns_views(list@);
    let mut i: usize = 0;
    while i < list.len()
        invariant
            i <= list@.len(),
            views == multiname::ns_views(list@),
            first_of_uri(views, uri@, 0) == first_of_uri(views, uri@, i as int),
        decreases list@.len() - i,
    {
        assert(views[i as int] == list@[i as int]@);
        if same_text(list[i].uri.as_str(), uri) {
            return Some(list[i].duplicate());
        }
        i += 1;
    }
    None
}

fn find_prefix(list: &Vec<E4XNamespace>, prefix: &str) -> (r: Option<E4XNamespace>)
    ensures
        match first_of_prefix(multiname::ns_views(list@), prefix@, 0) {
            Some(ns) => r is Some && r->0@ == ns,
            None => r is None,
        },
{
    let ghost views = multiname::ns_views(list@);
    let mut i: usize = 0;
    while i < list.len()
        invariant
            i <= list@.len(),
            views == multiname::ns_views(list@),
            first_of_prefix(views, prefix@, 0) == first_of_prefix(views, prefix@, i as int),
        decreases list@.len() - i,
    {
        assert(views[i as int] == list@[i as int]@);
        match &list[i].prefix {
            Some(p) => {
                if same_text(p.as_str(), prefix) {
                    return Some(list[i].duplicate());
                }
            },
            None => {},
        }
        i += 1;
    }
    None
}

fn namespace_of(n: &E4XNodeReadOnly) -> (r: NodeNamespace)
    ensures
        r@ == own_namespace(n@),
{
    match n.namespace() {
        None => NodeNamespace::Default,
        Some(ns) => {
            let in_scope = n.in_scope_namespaces();
            match find_uri(&in_scope, ns.uri.as_str()) {
                Some(found) => NodeNamespace::InScope(found),
                None => NodeNamespace::Uri(ns.uri),
            }
        },
    }
}

/// The constructor: parses the source. False where the document does not fit the arenas.
pub fn init<F, U: Fn(&[u8]) -> Option<String>>(
    this: &mut XmlObjectReadOnly<F>,
    source: &str,
    settings: ParseSettings,
    unescape: &U,
) -> (ok: bool)
    requires
        forall|x: &[u8]| call_requires(*unescape, (x,)),
    ensures
        final(this)@.notification == old(this)@.notification,
        final(this)@.build == old(this)@.build,
        !ok ==> final(this)@ == old(this)@,
        forall|g: Unescaping| #[trigger]
            parse::computes(*unescape, g) ==> {
                let end = parse::parsed(source@, settings, g).draft;
                &&& ok <==> builder::fits(end)
                &&& ok ==> xml_object::is_first_root(
                    final(this)@.node,
                    (Doc { nodes: end.nodes, decls: end.decls }),
                )
            },
{
    this.parse_and_set(source, settings, unescape)
}

/// The simple content.
pub fn to_string<F>(this: &XmlObjectReadOnly<F>) -> (r: String)
    ensures
        r@ == (match this@.node {
            Some(n) => queries::string_value(n.nodes(), n.index),
            None => Seq::empty(),
        }),
{
    this.to_string_value()
}

/// The node as XML.
pub fn to_xml_string<F>(this: &XmlObjectReadOnly<F>) -> (r: String)
    ensures
        r@ == (match this@.node {
            Some(n) => serialize::xml_at(n.store.doc(), n.index),
            None => Seq::empty(),
        }),
{
    let mut out = String::new();
    match this.node() {
        Some(n) => {
            n.write_xml_string(&mut out);
            let ghost xml = serialize::xml_at(n@.store.doc(), n@.index);
            assert(Seq::<char>::empty() + xml =~= xml);
        },
        None => {},
    }
    out
}

/// One object counts as one.
pub fn length<F>(this: &XmlObjectReadOnly<F>) -> (r: i32)
    ensures
        r == 1,
{
    1
}

/// The local name.
pub fn local_name<F>(this: &XmlObjectReadOnly<F>) -> (r: Option<String>)
    ensures
        text::opt_text(r) == (match this@.node {
            Some(n) => n.node().name,
            None => None,
        }),
{
    match this.node() {
        Some(n) => match n.local_name() {
            Some(s) => Some(s.to_owned()),
            None => None,
        },
        None => None,
    }
}

/// The qualified name.
pub fn name<F>(this: &XmlObjectReadOnly<F>) -> (r: Option<NodeName>)
    ensures
        match this@.node {
            Some(n) => match n.node().name {
                Some(local) => {
                    &&& r matches Some(q)
                    &&& q.namespace@ == own_namespace(n)
                    &&& q.local@ == local
                    &&& q.attribute == (n.node().kind is Attribute)
                },
                None => r is None,
            },
            None => r is None,
        },
{
    match this.node() {
        Some(n) => match n.local_name() {
            Some(local) => Some(
                NodeName {
                    namespace: namespace_of(&n),
                    local: local.to_owned(),
                    attribute: n.is_attribute(),
                },
            ),
            None => None,
        },
        None => None,
    }
}

/// The node's namespace, or the one in scope that a prefix is bound to.
pub fn namespace_internal_impl<F>(
    this: &XmlObjectReadOnly<F>,
    has_prefix: bool,
    prefix: &str,
) -> (r: NamespaceAnswer)
    ensures
        match this@.node {
            None => r is Null,
            Some(n) => if has_prefix {
                match first_of_prefix(queries::scope(n.store.doc(), n.index), prefix@, 0) {
                    Some(ns) => {
                        &&& r matches NamespaceAnswer::Namespace(a)
                        &&& a@ == NodeNamespaceView::InScope(ns)
                    },
                    None => r is Undefined,
                }
            } else {
                match n.node().kind {
                    E4XNodeKindReadOnly::Element | E4XNodeKindReadOnly::Attribute => {
                        &&& r matches NamespaceAnswer::Namespace(a)
                        &&& a@ == own_namespace(n)
                    },
                    _ => r is Null,
                }
            },
        },
{
    let n = match this.node() {
        Some(n) => n,
        None => {
            return NamespaceAnswer::Null;
        },
    };
    if !has_prefix {
        if n.is_text() || n.is_comment() || n.is_processing_instruction() {
            return NamespaceAnswer::Null;
        }
        return NamespaceAnswer::Namespace(namespace_of(&n));
    }
    let in_scope = n.in_scope_namespaces();
    match find_prefix(&in_scope, prefix) {
        Some(ns) => NamespaceAnswer::Namespace(NodeNamespace::InScope(ns)),
        None => NamespaceAnswer::Undefined,
    }
}

/// Namespaces by their texts.
pub open spec fn answer_views(list: Seq<NodeNamespace>) -> Seq<NodeNamespaceView> {
    Seq::new(list.len(), |i: int| list[i]@)
}

/// Namespaces in scope as answers.
pub open spec fn as_answers(list: Seq<NsView>) -> Seq<NodeNamespaceView> {
    Seq::new(list.len(), |i: int| NodeNamespaceView::InScope(list[i]))
}

/// The namespaces in scope at an object's node.
pub open spec fn object_scope(node: Option<Handle>) -> Seq<NsView> {
    match node {
        Some(n) => queries::scope(n.store.doc(), n.index),
        None => Seq::empty(),
    }
}

/// All namespaces in scope; the default namespace where there are none.
pub fn in_scope_namespaces<F>(this: &XmlObjectReadOnly<F>) -> (r: Vec<NodeNamespace>)
    ensures
        answer_views(r@) == (if object_scope(this@.node).len() == 0 {
            seq![NodeNamespaceView::Default]
        } else {
            as_answers(object_scope(this@.node))
        }),
{
    let mut out: Vec<NodeNamespace> = Vec::new();
    match this.node() {
        Some(n) => {
            let list = n.in_scope_namespaces();
            let ghost views = multiname::ns_views(list@);
            let mut i: usize = 0;
            while i < list.len()
                invariant
                    i <= list@.len(),
                    views == multiname::ns_views(list@),
                    out@.len() == i,
                    forall|k: int| 0 <= k < i ==> (#[trigger] out@[k])@
                        == NodeNamespaceView::InScope(views[k]),
                decreases list@.len() - i,
            {
                out.push(NodeNamespace::InScope(list[i].duplicate()));
                i += 1;
            }
            assert(answer_views(out@) =~= as_answers(object_scope(this@.node)));
        },
        None => {},
    }
    if out.len() == 0 {
        assert(object_scope(this@.node).len() == 0);
        out.push(NodeNamespace::Default);
        assert(answer_views(out@) =~= seq![NodeNamespaceView::Default]);
    }
    out
}

/// The members of `list` up to position `n` that `other` does not have.
pub open spec fn without(list: Seq<NsView>, other: Seq<NsView>, n: int) -> Seq<NsView>
    decreases n,
{
    if n <= 0 {
        Seq::empty()
    } else if other.contains(list[n - 1]) {
        without(list, other, n - 1)
    } else {
        without(list, other, n - 1).push(list[n - 1])
    }
}

/// The namespaces declared on a node: those in scope there and not at its parent.
pub open spec fn declared_here(node: Option<Handle>) -> Seq<NsView> {
    match node {
        Some(n) => if n.node().kind is Element {
            let above = match n.node().parent {
                Some(p) => queries::scope(n.store.doc(), p as u32),
                None => Seq::empty(),
            };
            let here = queries::scope(n.store.doc(), n.index);
            without(here, above, here.len() as int)
        } else {
            Seq::empty()
        },
        None => Seq::empty(),
    }
}

fn lists_namespace(list: &Vec<E4XNamespace>, ns: &E4XNamespace) -> (r: bool)
    ensures
        r == multiname::ns_views(list@).contains(ns@),
{
    let ghost views = multiname::ns_views(list@);
    let mut i: usize = 0;
    while i < list.len()
        invariant
            i <= list@.len(),
            views == multiname::ns_views(list@),
            forall|k: int| 0 <= k < i ==> #[trigger] views[k] != ns@,
        decreases list@.len() - i,
    {
        assert(views[i as int] == list@[i as int]@);
        if list[i].same(ns) {
            return true;
        }
        i += 1;
    }
    false
}

/// The namespaces declared on the node.
pub fn namespace_declarations<F>(this: &XmlObjectReadOnly<F>) -> (r: Vec<E4XNamespace>)
    ensures
        multiname::ns_views(r@) == declared_here(this@.node),
{
    let mut out: Vec<E4XNamespace> = Vec::new();
    assert(multiname::ns_views(out@) =~= Seq::<NsView>::empty());
    let n = match this.node() {
        Some(n) => n,
        None => {
            return out;
        },
    };
    if !n.is_element() {
        return out;
    }
    let above: Vec<E4XNamespace> = match n.parent() {
        Some(p) => p.in_scope_namespaces(),
        None => {
            let none: Vec<E4XNamespace> = Vec::new();
            assert(multiname::ns_views(none@) =~= Seq::<NsView>::empty());
            none
        },
    };
    let here = n.in_scope_namespaces();
    let ghost a = multiname::ns_views(above@);
    let ghost h = multiname::ns_views(here@);
    let mut i: usize = 0;
    while i < here.len()
        invariant
            i <= here@.len(),
            a == multiname::ns_views(above@),
            h == multiname::ns_views(here@),
            multiname::ns_views(out@) == without(h, a, i as int),
        decreases here@.len() - i,
    {
        assert(h[i as int] == here@[i as int]@);
        if !lists_namespace(&above, &here[i]) {
            let ghost before = out@;
            out.push(here[i].duplicate());
            assert(multiname::ns_views(out@) =~= multiname::ns_views(before).push(h[i as int]));
        }
        i += 1;
    }
    out
}

/// The handles that an object's node leads to.
pub open spec fn led_to(node: Option<Handle>, at: spec_fn(Handle) -> Seq<u32>) -> Seq<Handle> {
    match node {
        Some(n) => node::at_indices(n.store, at(n)),
        None => Seq::empty(),
    }
}

/// An empty list adds nothing in front.
proof fn lemma_front(list: Seq<Handle>)
    ensures
        node::handles(Seq::<E4XNodeReadOnly>::empty()) + list == list,
{
    assert(node::handles(Seq::<E4XNodeReadOnly>::empty()) + list =~= list);
}

proof fn lemma_nothing()
    ensures
        node::handles(Seq::<E4XNodeReadOnly>::empty()) == Seq::<Handle>::empty(),
{
    assert(node::handles(Seq::<E4XNodeReadOnly>::empty()) =~= Seq::<Handle>::empty());
}

/// The comment children.
pub fn comments<F>(this: &XmlObjectReadOnly<F>) -> (r: Vec<E4XNodeReadOnly>)
    ensures
        node::handles(r@) == led_to(
            this@.node,
            |n: Handle| doc::as_links(queries::comment_children(n.nodes(), n.index)),
        ),
{
    let mut out: Vec<E4XNodeReadOnly> = Vec::new();
    proof {
        lemma_nothing();
    }
    if let Some(n) = this.node() {
        n.comment_children(&mut out);
        proof {
            lemma_front(node::handles(out@));
        }
    }
    out
}

/// The processing-instruction children, of one target where `want` names one.
pub fn processing_instructions<F>(this: &XmlObjectReadOnly<F>, want: Option<&str>) -> (r: Vec<
    E4XNodeReadOnly,
>)
    ensures
        node::handles(r@) == led_to(
            this@.node,
            |n: Handle|
                doc::as_links(queries::pi_children(n.nodes(), n.index, text::opt_str(want))),
        ),
{
    let mut out: Vec<E4XNodeReadOnly> = Vec::new();
    proof {
        lemma_nothing();
    }
    if let Some(n) = this.node() {
        n.pi_children(want, &mut out);
        proof {
            lemma_front(node::handles(out@));
        }
    }
    out
}

/// The name of the node's kind; an object without a node counts as a text.
pub fn node_kind<F>(this: &XmlObjectReadOnly<F>) -> (r: &'static str)
    ensures
        r@ == (match this@.node {
            Some(n) => match n.node().kind {
                E4XNodeKindReadOnly::Element => "element"@,
                E4XNodeKindReadOnly::Text | E4XNodeKindReadOnly::Cdata => "text"@,
                E4XNodeKindReadOnly::Comment => "comment"@,
                E4XNodeKindReadOnly::ProcessingInstruction => "processing-instruction"@,
                E4XNodeKindReadOnly::Attribute => "attribute"@,
            },
            None => "text"@,
        }),
{
    match this.node() {
        Some(n) => n.node_kind_str(),
        None => "text",
    }
}

/// Whether the node has simple content; an object without a node has.
pub fn has_simple_content<F>(this: &XmlObjectReadOnly<F>) -> (r: bool)
    ensures
        r == (match this@.node {
            Some(n) => queries::simple_content(n.nodes(), n.index),
            None => true,
        }),
{
    match this.node() {
        Some(n) => n.has_simple_content(),
        None => true,
    }
}

/// Whether the node has complex content.
pub fn has_complex_content<F>(this: &XmlObjectReadOnly<F>) -> (r: bool)
    ensures
        r == (match this@.node {
            Some(n) => queries::complex_content(n.nodes(), n.index),
            None => false,
        }),
{
    match this.node() {
        Some(n) => n.has_complex_content(),
        None => false,
    }
}

/// The parent as an object of its own.
pub fn parent<F>(this: &XmlObjectReadOnly<F>) -> (r: Option<XmlObjectReadOnly<F>>)
    ensures
        match this@.node {
            Some(n) => match n.node().parent {
                Some(p) => r is Some && r->0@ == (ObjectView::<F> {
                    node: Some(Handle { index: p as u32, ..n }),
                    notification: None,
                    build: None,
                }),
                None => r is None,
            },
            None => r is None,
        },
{
    match this.node() {
        Some(n) => match n.parent() {
            Some(p) => Some(XmlObjectReadOnly::new(p)),
            None => None,
        },
        None => None,
    }
}

/// The child elements of a name.
pub fn child<F>(this: &XmlObjectReadOnly<F>, want: &Multiname) -> (r: Vec<E4XNodeReadOnly>)
    ensures
        node::handles(r@) == led_to(
            this@.node,
            |n: Handle| doc::as_links(queries::matching_children(n.nodes(), n.index, want@)),
        ),
{
    let mut out: Vec<E4XNodeReadOnly> = Vec::new();
    proof {
        lemma_nothing();
    }
    if let Some(n) = this.node() {
        n.children_matching(want, &mut out);
        proof {
            lemma_front(node::handles(out@));
        }
    }
    out
}

/// All children.
pub fn children<F>(this: &XmlObjectReadOnly<F>) -> (r: Vec<E4XNodeReadOnly>)
    ensures
        node::handles(r@) == led_to(
            this@.node,
            |n: Handle| doc::child_indices(n.nodes(), n.index),
        ),
{
    let mut out: Vec<E4XNodeReadOnly> = Vec::new();
    proof {
        lemma_nothing();
    }
    if let Some(n) = this.node() {
        n.all_children(&mut out);
        proof {
            lemma_front(node::handles(out@));
        }
    }
    out
}

/// The child elements of a name.
pub fn elements<F>(this: &XmlObjectReadOnly<F>, want: &Multiname) -> (r: Vec<E4XNodeReadOnly>)
    ensures
        node::handles(r@) == led_to(
            this@.node,
            |n: Handle| doc::as_links(queries::matching_children(n.nodes(), n.index, want@)),
        ),
{
    child(this, want)
}

/// The attributes of a name.
pub fn attribute<F>(this: &XmlObjectReadOnly<F>, want: &Multiname) -> (r: Vec<E4XNodeReadOnly>)
    ensures
        node::handles(r@) == led_to(
            this@.node,
            |n: Handle| doc::as_links(queries::matching_attrs(n.nodes(), n.index, want@)),
        ),
{
    let mut out: Vec<E4XNodeReadOnly> = Vec::new();
    proof {
        lemma_nothing();
    }
    if let Some(n) = this.node() {
        n.attributes_matching(want, &mut out);
        proof {
            lemma_front(node::handles(out@));
        }
    }
    out
}

/// All attributes.
pub fn attributes<F>(this: &XmlObjectReadOnly<F>) -> (r: Vec<E4XNodeReadOnly>)
    ensures
        node::handles(r@) == led_to(
            this@.node,
            |n: Handle| doc::attr_indices(n.nodes(), n.index),
        ),
{
    let mut out: Vec<E4XNodeReadOnly> = Vec::new();
    proof {
        lemma_nothing();
    }
    if let Some(n) = this.node() {
        n.all_attributes(&mut out);
        proof {
            lemma_front(node::handles(out@));
        }
    }
    out
}

/// The descendants of a name.
pub fn descendants<F>(this: &XmlObjectReadOnly<F>, want: &Multiname) -> (r: Vec<E4XNodeReadOnly>)
    ensures
        node::handles(r@) == led_to(
            this@.node,
            |n: Handle| doc::as_links(queries::matching_descendants(n.nodes(), n.index, want@)),
        ),
{
    this.xml_descendants(want)
}

/// The text children.
pub fn text<F>(this: &XmlObjectReadOnly<F>) -> (r: Vec<E4XNodeReadOnly>)
    ensures
        node::handles(r@) == led_to(
            this@.node,
            |n: Handle| queries::text_indices(n.nodes(), n.index),
        ),
{
    let mut out: Vec<E4XNodeReadOnly> = Vec::new();
    proof {
        lemma_nothing();
    }
    if let Some(n) = this.node() {
        n.text_children(&mut out);
        proof {
            lemma_front(node::handles(out@));
        }
    }
    out
}

/// A copy: an object that never changes is its own.
pub fn copy<F>(this: &XmlObjectReadOnly<F>) -> (r: &XmlObjectReadOnly<F>)
    ensures
        r == this,
{
    this
}

/// Deep equality with another object's node.
pub fn contains<F>(this: &XmlObjectReadOnly<F>, value: Option<&XmlObjectReadOnly<F>>) -> (r: bool)
    ensures
        r == (match this@.node {
            Some(a) => match value {
                Some(v) => match v@.node {
                    Some(b) => queries::deep_equal(a.nodes(), a.index, b.nodes(), b.index),
                    None => false,
                },
                None => false,
            },
            None => false,
        }),
{
    match (this.node(), value) {
        (Some(a), Some(v)) => match v.node() {
            Some(b) => a.deep_equals(&b),
            None => false,
        },
        _ => false,
    }
}

/// The position among the parent's children, or minus one.
pub fn child_index<F>(this: &XmlObjectReadOnly<F>) -> (r: i32)
    ensures
        r == (match this@.node {
            Some(n) => match queries::child_position(n.nodes(), n.index) {
                Some(k) => k,
                None => -1,
            },
            None => -1,
        }),
{
    match this.node() {
        Some(n) => {
            let index: u32 = n.index();
            proof {
                queries::lemma_position(n@.nodes(), index);
                queries::lemma_position_bound(n@.nodes(), index);
            }
            match n.child_index() {
                Some(k) => k as i32,
                None => -1,
            }
        },
        None => -1,
    }
}

/// The change notification.
pub fn notification<F>(this: &XmlObjectReadOnly<F>) -> (r: Option<&F>)
    ensures
        match this@.notification {
            Some(f) => r is Some && *(r->0) == f,
            None => r is None,
        },
{
    this.notification()
}

/// Sets the change notification. It is kept and never called.
pub fn set_notification<F>(this: &mut XmlObjectReadOnly<F>, func: Option<F>)
    ensures
        final(this)@ == (ObjectView { notification: func, ..old(this)@ }),
{
    this.set_notification(func);
}

/// Asks for a namespace to be declared. A document is not changed: the object is answered as it is.
pub fn add_namespace<F>(this: &XmlObjectReadOnly<F>) -> (r: &XmlObjectReadOnly<F>)
    ensures
        *r == *this,
{
    this
}

/// Asks for a child to be put last. A document is not changed: the object is answered as it is.
pub fn append_child<F>(this: &XmlObjectReadOnly<F>) -> (r: &XmlObjectReadOnly<F>)
    ensures
        *r == *this,
{
    this
}

/// Asks for a child to be put first. A document is not changed: the object is answered as it is.
pub fn prepend_child<F>(this: &XmlObjectReadOnly<F>) -> (r: &XmlObjectReadOnly<F>)
    ensures
        *r == *this,
{
    this
}

/// Asks for a child to be put behind another. A document is not changed: nothing is answered.
pub fn insert_child_after<F>(_this: &XmlObjectReadOnly<F>) -> (r: PropertyAnswer)
    ensures
        r is Undefined,
{
    PropertyAnswer::Undefined
}

/// Asks for a child to be put before another. A document is not changed: nothing is answered.
pub fn insert_child_before<F>(_this: &XmlObjectReadOnly<F>) -> (r: PropertyAnswer)
    ensures
        r is Undefined,
{
    PropertyAnswer::Undefined
}

/// Asks for adjacent texts to be joined. A document is not changed: the object is answered as it is.
pub fn normalize<F>(this: &XmlObjectReadOnly<F>) -> (r: &XmlObjectReadOnly<F>)
    ensures
        *r == *this,
{
    this
}

/// Asks for a declaration to be taken out. A document is not changed: the object is answered as it is.
pub fn remove_namespace<F>(this: &XmlObjectReadOnly<F>) -> (r: &XmlObjectReadOnly<F>)
    ensures
        *r == *this,
{
    this
}

/// Asks for a child to be replaced. A document is not changed: the object is answered as it is.
pub fn replace<F>(this: &XmlObjectReadOnly<F>) -> (r: &XmlObjectReadOnly<F>)
    ensures
        *r == *this,
{
    this
}

/// Asks for all children to be replaced. A document is not changed: the object is answered as it is.
pub fn set_children<F>(this: &XmlObjectReadOnly<F>) -> (r: &XmlObjectReadOnly<F>)
    ensures
        *r == *this,
{
    this
}

/// Asks for another local name. A document is not changed: nothing is answered.
pub fn set_local_name<F>(_this: &XmlObjectReadOnly<F>) -> (r: PropertyAnswer)
    ensures
        r is Undefined,
{
    PropertyAnswer::Undefined
}

/// Asks for another name. A document is not changed: nothing is answered.
pub fn set_name<F>(_this: &XmlObjectReadOnly<F>) -> (r: PropertyAnswer)
    ensures
        r is Undefined,
{
    PropertyAnswer::Undefined
}

/// Asks for another namespace. A document is not changed: nothing is answered.
pub fn set_namespace<F>(_this: &XmlObjectReadOnly<F>) -> (r: PropertyAnswer)
    ensures
        r is Undefined,
{
    PropertyAnswer::Undefined
}

} // verus!
