//! The object that wraps one node, or a document still being read.

use crate::builder;
use crate::doc;
use crate::doc::Doc;
use crate::doc::NodeView;
use crate::events::ParseSettings;
use crate::multiname::Multiname;
use crate::multiname::MultinameView;
use crate::node;
use crate::node::E4XNodeReadOnly;
use crate::node::Handle;
use crate::parse;
use crate::parse::Unescaping;
use crate::queries;
use crate::resp_model;
use crate::resp_stream;
use crate::resp_stream::RespStreamBuilder;
use crate::store::E4XStoreReadOnly;
use std::rc::Rc;
use vstd::prelude::*;

verus! {

/// A read-only XML object: its node, once it has one; the change notification that was
/// set on it, which never fires; and the row set being read, if one is.
pub struct XmlObjectReadOnly<F> {
    node: Option<E4XNodeReadOnly>,
    notification: Option<F>,
    build: Option<RespStreamBuilder>,
}

/// What an [`XmlObjectReadOnly`] holds.
#[verifier::reject_recursive_types(F)]
pub struct ObjectView<F> {
    pub node: Option<Handle>,
    pub notification: Option<F>,
    pub build: Option<RespStreamBuilder>,
}

impl<F> View for XmlObjectReadOnly<F> {
    type V = ObjectView<F>;

    closed spec fn view(&self) -> ObjectView<F> {
        ObjectView {
            node: handle_of(self.node),
            notification: self.notification,
            build: self.build,
        }
    }
}

/// An optional handle by what it says.
pub open spec fn handle_of(n: Option<E4XNodeReadOnly>) -> Option<Handle> {
    match n {
        Some(h) => Some(h@),
        None => None,
    }
}

/// The first root of a document.
pub open spec fn first_root(d: Doc) -> Option<int> {
    let roots = doc::kids(d.nodes, None, false, 0);
    if roots.len() > 0 {
        Some(roots[0])
    } else {
        None
    }
}

/// A handle that denotes the first root of a document, where it has one.
pub open spec fn is_first_root(h: Option<Handle>, d: Doc) -> bool {
    match first_root(d) {
        Some(i) => h is Some && h->0.store.doc() == d && h->0.index == i,
        None => h is None,
    }
}

/// The handle to a store's first root.
fn root_of(store: E4XStoreReadOnly) -> (r: Option<E4XNodeReadOnly>)
    ensures
        is_first_root(handle_of(r), store.doc()),
{
    let ghost nodes = store.doc().nodes;
    let ghost roots = doc::kids(nodes, None, false, 0);
    let shared = Rc::new(store);
    let list = shared.roots();
    if list.len() == 0 {
        return None;
    }
    let idx: u32 = list[0];
    proof {
        doc::lemma_kids_are(nodes, None, false, 0);
        assert(roots[0] == idx);
    }
    Some(E4XNodeReadOnly::new(shared, idx))
}

/// How a property is answered.
pub enum PropertyAnswer {
    /// The object itself.
    This,
    Undefined,
    /// A list of nodes.
    List(Vec<E4XNodeReadOnly>),
    /// The dynamic property of that name.
    Dynamic,
}

/// The nodes that a name selects: attributes or child elements.
pub open spec fn selected_by(nodes: Seq<NodeView>, idx: u32, want: MultinameView) -> Seq<int> {
    if want.attribute {
        queries::matching_attrs(nodes, idx, want)
    } else {
        queries::matching_children(nodes, idx, want)
    }
}

/// The handles that a name selects below a handle, if there is one.
pub open spec fn selected_handles(h: Option<Handle>, want: MultinameView) -> Seq<Handle> {
    match h {
        Some(n) => node::at_nodes(n.store, selected_by(n.nodes(), n.index, want)),
        None => Seq::empty(),
    }
}

/// The name that a lookup goes by: a plain local name stands for what it reads as,
/// `reparsed`; any other name for itself.
pub open spec fn effective(name: MultinameView, reparsed: MultinameView) -> MultinameView {
    if !name.attribute && !name.any_name && !name.any_namespace && !name.explicit_namespace
        && name.local is Some {
        reparsed
    } else {
        name
    }
}

impl<F> XmlObjectReadOnly<F> {
    #[verifier::type_invariant]
    spec fn inv(self) -> bool {
        self.build matches Some(b) ==> b.wf()
    }

    /// An object without a node.
    pub fn empty() -> (r: Self)
        ensures
            r@.node is None,
            r@.notification is None,
            r@.build is None,
    {
        XmlObjectReadOnly { node: None, notification: None, build: None }
    }

    /// Wraps a node.
    pub fn new(node: E4XNodeReadOnly) -> (r: Self)
        ensures
            r@.node == Some(node@),
            r@.notification is None,
            r@.build is None,
    {
        XmlObjectReadOnly { node: Some(node), notification: None, build: None }
    }

    /// An object that reads a row set from a stream.
    pub fn new_building() -> (r: Self)
        ensures
            r@.node is None,
            r@.notification is None,
            r@.build matches Some(b) && b@ == resp_model::start_model() && !b.plain() && b.fed()
                == Seq::<u8>::empty(),
    {
        XmlObjectReadOnly {
            node: None,
            notification: None,
            build: Some(RespStreamBuilder::new()),
        }
    }

    /// The node.
    pub fn node(&self) -> (r: Option<E4XNodeReadOnly>)
        ensures
            handle_of(r) == self@.node,
    {
        match &self.node {
            Some(n) => Some(n.clone()),
            None => None,
        }
    }

    /// The change notification.
    pub fn notification(&self) -> (r: Option<&F>)
        ensures
            match self@.notification {
                Some(f) => r is Some && *(r->0) == f,
                None => r is None,
            },
    {
        match &self.notification {
            Some(f) => Some(f),
            None => None,
        }
    }

    /// Sets the change notification.
    pub fn set_notification(&mut self, func: Option<F>)
        ensures
            final(self)@ == (ObjectView { notification: func, ..old(self)@ }),
    {
        proof {
            use_type_invariant(&*self);
        }
        self.notification = func;
    }

    /// Parses `source` and points at its first root; false, and nothing changes, where
    /// the document does not fit the arenas.
    pub fn parse_and_set<U: Fn(&[u8]) -> Option<String>>(
        &mut self,
        source: &str,
        settings: ParseSettings,
        unescape: &U,
    ) -> (ok: bool)
        requires
            forall|x: &[u8]| call_requires(*unescape, (x,)),
        ensures
            final(self)@.notification == old(self)@.notification,
            final(self)@.build == old(self)@.build,
            !ok ==> final(self)@ == old(self)@,
            forall|g: Unescaping| #[trigger]
                parse::computes(*unescape, g) ==> {
                    let end = parse::parsed(source@, settings, g).draft;
                    &&& ok <==> builder::fits(end)
                    &&& ok ==> is_first_root(
                        final(self)@.node,
                        (Doc { nodes: end.nodes, decls: end.decls }),
                    )
                },
    {
        proof {
            use_type_invariant(&*self);
        }
        match E4XStoreReadOnly::parse(
            source,
            settings.ignore_white,
            settings.ignore_comments,
            settings.ignore_pi,
            unescape,
        ) {
            Some(store) => {
                self.node = root_of(store);
                true
            },
            None => false,
        }
    }

    /// Feeds a chunk to the row set being read, if one is.
    pub fn feed_binary(&mut self, bytes: &[u8])
        ensures
            final(self)@.node == old(self)@.node,
            final(self)@.notification == old(self)@.notification,
            old(self)@.build is None ==> final(self)@.build is None,
            old(self)@.build matches Some(b) ==> {
                &&& final(self)@.build matches Some(c)
                &&& c.plain() == b.plain()
                &&& c.fed() == b.fed() + bytes@
                &&& b.stopped() ==> c@ == b@
                &&& !b.stopped() && !resp_stream::spoiled(c.plain(), c.fed()) ==> c@
                    == resp_model::absorbed(resp_stream::payload(c.plain(), c.fed()))
                &&& !b.stopped() && resp_stream::spoiled(c.plain(), c.fed()) ==> exists|
                    more: Seq<u8>,
                |
                    (resp_stream::payload(b.plain(), b.fed()) + more).is_prefix_of(
                        resp_stream::payload(c.plain(), c.fed()),
                    ) && c@ == #[trigger] resp_model::broken_off(b@, more)
            },
    {
        proof {
            use_type_invariant(&*self);
        }
        let mut build: Option<RespStreamBuilder> = None;
        std::mem::swap(&mut build, &mut self.build);
        match build {
            Some(mut b) => {
                b.feed(bytes);
                self.build = Some(b);
            },
            None => {},
        }
    }

    /// Ends the row set being read and points at its envelope; false where it does not
    /// fit the arenas. Nothing happens where no row set is being read.
    pub fn finish_binary(&mut self) -> (ok: bool)
        ensures
            final(self)@.notification == old(self)@.notification,
            final(self)@.build is None,
            match old(self)@.build {
                Some(b) => {
                    &&& ok <==> builder::fits(b@.draft)
                    &&& ok ==> is_first_root(
                        final(self)@.node,
                        (Doc { nodes: b@.draft.nodes, decls: b@.draft.decls }),
                    )
                    &&& !ok ==> final(self)@.node == old(self)@.node
                },
                None => ok && final(self)@.node == old(self)@.node,
            },
    {
        proof {
            use_type_invariant(&*self);
        }
        let mut build: Option<RespStreamBuilder> = None;
        std::mem::swap(&mut build, &mut self.build);
        match build {
            Some(b) => match b.finish() {
                Some(store) => {
                    self.node = root_of(store);
                    true
                },
                None => false,
            },
            None => true,
        }
    }

    /// The simple content of the node, empty without one.
    pub fn to_string_value(&self) -> (r: String)
        ensures
            r@ == (match self@.node {
                Some(n) => queries::string_value(n.nodes(), n.index),
                None => Seq::empty(),
            }),
    {
        match &self.node {
            Some(n) => n.string_value(),
            None => String::new(),
        }
    }

    /// The nodes that a name selects.
    fn select(&self, name: &Multiname) -> (r: Vec<E4XNodeReadOnly>)
        ensures
            node::handles(r@) == selected_handles(self@.node, name@),
    {
        let mut out: Vec<E4XNodeReadOnly> = Vec::new();
        match &self.node {
            Some(n) => {
                if name.attribute {
                    n.attributes_matching(name, &mut out);
                } else {
                    n.children_matching(name, &mut out);
                }
                assert(node::handles(Seq::<E4XNodeReadOnly>::empty()) + selected_handles(
                    self@.node,
                    name@,
                ) =~= selected_handles(self@.node, name@));
            },
            None => {
                assert(node::handles(out@) =~= Seq::<Handle>::empty());
            },
        }
        out
    }

    /// Reads a property. `index` is the number that the local name reads as, `reparsed`
    /// the name that it reads as, and `has_dynamic` says whether the object has a dynamic
    /// property of the effective name.
    ///
    /// Index zero is the object itself, any other index nothing. Attributes and child
    /// elements come before dynamic properties.
    pub fn get_property_local(
        &self,
        name: &Multiname,
        index: Option<usize>,
        reparsed: &Multiname,
        has_dynamic: bool,
    ) -> (r: PropertyAnswer)
        ensures
            ({
                let want = effective(name@, reparsed@);
                let found = selected_handles(self@.node, want);
                if !name@.explicit_namespace && name@.local is Some && index is Some {
                    if index == Some(0usize) {
                        r is This
                    } else {
                        r is Undefined
                    }
                } else if self@.node is Some && found.len() == 0 && !want.attribute && want.local
                    is Some && has_dynamic {
                    r is Dynamic
                } else {
                    r matches PropertyAnswer::List(list) && node::handles(list@) == found
                }
            }),
    {
        if !name.explicit_namespace && name.local.is_some() {
            match index {
                Some(i) => {
                    return if i == 0 {
                        PropertyAnswer::This
                    } else {
                        PropertyAnswer::Undefined
                    };
                },
                None => {},
            }
        }
        let want: &Multiname = if !name.attribute && !name.any_name && !name.any_namespace
            && !name.explicit_namespace && name.local.is_some() {
            reparsed
        } else {
            name
        };
        let out = self.select(want);
        assert(node::handles(out@).len() == out@.len());
        if self.node.is_some() && out.len() == 0 && !want.attribute && want.local.is_some()
            && has_dynamic {
            return PropertyAnswer::Dynamic;
        }
        PropertyAnswer::List(out)
    }

    /// Writes a property: a document is not changed, so the write is ignored.
    pub fn set_property_local(&mut self, _name: &Multiname)
        ensures
            *final(self) == *old(self),
    {
    }

    /// Whether the object has a property: an attribute, a child element, or the dynamic
    /// property that `has_dynamic` tells of.
    pub fn has_own_property(&self, name: &Multiname, has_dynamic: bool) -> (r: bool)
        ensures
            r == (self@.node is Some && (selected_handles(self@.node, name@).len() > 0
                || has_dynamic)),
    {
        let out = self.select(name);
        assert(node::handles(out@).len() == out@.len());
        self.node.is_some() && (out.len() > 0 || has_dynamic)
    }

    /// The matching descendants.
    pub fn xml_descendants(&self, want: &Multiname) -> (r: Vec<E4XNodeReadOnly>)
        ensures
            node::handles(r@) == (match self@.node {
                Some(n) => node::at_nodes(
                    n.store,
                    queries::matching_descendants(n.nodes(), n.index, want@),
                ),
                None => Seq::empty(),
            }),
    {
        let mut out: Vec<E4XNodeReadOnly> = Vec::new();
        match &self.node {
            Some(n) => {
                n.descendants_matching(want, &mut out);
                let ghost found = node::at_nodes(
                    n@.store,
                    queries::matching_descendants(n@.nodes(), n@.index, want@),
                );
                assert(node::handles(Seq::<E4XNodeReadOnly>::empty()) + found =~= found);
            },
            None => {
                assert(node::handles(out@) =~= Seq::<Handle>::empty());
            },
        }
        out
    }

    /// The enumerant behind `last_index`: an object with a node has one, itself.
    pub fn get_next_enumerant(&self, last_index: u32) -> (r: u32)
        ensures
            r == (if last_index == 0 && self@.node is Some {
                1u32
            } else {
                0
            }),
    {
        if last_index == 0 && self.node.is_some() {
            1
        } else {
            0
        }
    }

    /// The value of an enumerant: the object itself for the first, otherwise undefined.
    pub fn get_enumerant_value(&self, index: u32) -> (r: PropertyAnswer)
        ensures
            index == 1 ==> r is This,
            index != 1 ==> r is Undefined,
    {
        if index == 1 {
            PropertyAnswer::This
        } else {
            PropertyAnswer::Undefined
        }
    }
}

} // verus!
