//! Names to look for, and namespaces as queries give them.

use crate::text;
use crate::text::same_text;
use vstd::prelude::*;

verus! {

/// One namespace that a name may be in: whether it is a plain namespace, and its URI.
pub struct NamespaceRef {
    pub is_namespace: bool,
    pub uri: Option<String>,
}

/// A name to look for: a local name or any, in one of several namespaces or any, as an
/// element or as an attribute.
pub struct Multiname {
    pub any_name: bool,
    pub local: Option<String>,
    pub any_namespace: bool,
    pub namespaces: Vec<NamespaceRef>,
    pub attribute: bool,
    pub explicit_namespace: bool,
}

/// A [`NamespaceRef`] by its text.
pub struct NamespaceRefView {
    pub is_namespace: bool,
    pub uri: Option<Seq<char>>,
}

/// A [`Multiname`] by its texts.
#[verifier::ext_equal]
pub struct MultinameView {
    pub any_name: bool,
    pub local: Option<Seq<char>>,
    pub any_namespace: bool,
    pub namespaces: Seq<NamespaceRefView>,
    pub attribute: bool,
    pub explicit_namespace: bool,
}

impl View for NamespaceRef {
    type V = NamespaceRefView;

    open spec fn view(&self) -> NamespaceRefView {
        NamespaceRefView { is_namespace: self.is_namespace, uri: text::opt_text(self.uri) }
    }
}

impl View for Multiname {
    type V = MultinameView;

    open spec fn view(&self) -> MultinameView {
        MultinameView {
            any_name: self.any_name,
            local: text::opt_text(self.local),
            any_namespace: self.any_namespace,
            namespaces: Seq::new(self.namespaces@.len(), |i: int| self.namespaces@[i]@),
            attribute: self.attribute,
            explicit_namespace: self.explicit_namespace,
        }
    }
}

/// A name as a script writes it, in the public namespace; `*` is any name.
pub open spec fn public_name(name: Seq<char>, attribute: bool) -> MultinameView {
    MultinameView {
        any_name: name == "*"@,
        local: if name == "*"@ {
            None
        } else {
            Some(name)
        },
        any_namespace: name == "*"@,
        namespaces: seq![NamespaceRefView { is_namespace: true, uri: Some(Seq::empty()) }],
        attribute,
        explicit_namespace: false,
    }
}

impl Multiname {
    /// A name as a script writes it, in the public namespace.
    pub fn public(name: &str, attribute: bool) -> (r: Self)
        ensures
            r@ == public_name(name@, attribute),
    {
        let any = same_text(name, "*");
        let mut namespaces: Vec<NamespaceRef> = Vec::new();
        let uri = String::new();
        assert(uri@ =~= Seq::<char>::empty());
        namespaces.push(NamespaceRef { is_namespace: true, uri: Some(uri) });
        let r = Multiname {
            any_name: any,
            local: if any {
                None
            } else {
                Some(name.to_owned())
            },
            any_namespace: any,
            namespaces,
            attribute,
            explicit_namespace: false,
        };
        assert(r@.namespaces =~= public_name(name@, attribute).namespaces);
        r
    }
}

/// A namespace with the prefix it is bound to, where it is bound to one.
pub struct E4XNamespace {
    pub uri: String,
    pub prefix: Option<String>,
}

/// An [`E4XNamespace`] by its texts.
pub struct NsView {
    pub uri: Seq<char>,
    pub prefix: Option<Seq<char>>,
}

impl View for E4XNamespace {
    type V = NsView;

    open spec fn view(&self) -> NsView {
        NsView { uri: self.uri@, prefix: text::opt_text(self.prefix) }
    }
}

/// Namespaces by their texts.
pub open spec fn ns_views(list: Seq<E4XNamespace>) -> Seq<NsView> {
    Seq::new(list.len(), |i: int| list[i]@)
}

impl E4XNamespace {
    /// A copy.
    pub fn duplicate(&self) -> (r: Self)
        ensures
            r@ == self@,
    {
        E4XNamespace {
            uri: self.uri.clone(),
            prefix: match &self.prefix {
                Some(p) => Some(p.clone()),
                None => None,
            },
        }
    }

    /// Whether URI and prefix are the same.
    pub fn same(&self, other: &E4XNamespace) -> (r: bool)
        ensures
            r == (self@ == other@),
    {
        same_text(self.uri.as_str(), other.uri.as_str()) && same_opt(&self.prefix, &other.prefix)
    }
}

fn same_opt(a: &Option<String>, b: &Option<String>) -> (r: bool)
    ensures
        r == (text::opt_text(*a) == text::opt_text(*b)),
{
    match (a, b) {
        (Some(x), Some(y)) => same_text(x.as_str(), y.as_str()),
        (None, None) => true,
        _ => false,
    }
}

} // verus!
