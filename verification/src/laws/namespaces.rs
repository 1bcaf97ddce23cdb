//! Namespaces: which prefix stands for which URI where.

use crate::doc;
use crate::doc::DeclView;
use crate::doc::Doc;
use crate::multiname::NsView;
use crate::node::Handle;
use crate::queries;
use crate::xml_read_only;
use vstd::prelude::*;

verus! {

/// What an element declares a prefix for itself, among the first `n` declarations: the first of
/// its declarations that names the prefix.
pub open spec fn declared(decls: Seq<DeclView>, at: int, prefix: Seq<char>, n: int) -> Option<
    Seq<char>,
>
    decreases n,
{
    if n <= 0 {
        None
    } else if declared(decls, at, prefix, n - 1) is Some {
        declared(decls, at, prefix, n - 1)
    } else if decls[n - 1].node == at && decls[n - 1].prefix == prefix {
        Some(decls[n - 1].uri)
    } else {
        None
    }
}

/// What a prefix stands for at a node: what the node declares it for, or else what it stands for
/// at the parent.
pub open spec fn closest(d: Doc, idx: u32, prefix: Seq<char>) -> Option<Seq<char>>
    decreases idx,
{
    let own = declared(d.decls, idx as int, prefix, d.decls.len() as int);
    if own is Some {
        own
    } else {
        match doc::node_at(d.nodes, idx).parent {
            Some(p) => if 0 <= p < idx {
                closest(d, p as u32, prefix)
            } else {
                None
            },
            None => None,
        }
    }
}

/// A list has a prefix for a URI.
pub open spec fn binds(list: Seq<NsView>, prefix: Seq<char>, uri: Seq<char>) -> bool {
    exists|k: int|
        0 <= k < list.len() && (#[trigger] list[k]).prefix == Some(prefix) && list[k].uri == uri
}

proof fn lemma_with(
    list: Seq<NsView>,
    decls: Seq<DeclView>,
    at: int,
    n: int,
    prefix: Seq<char>,
    uri: Seq<char>,
)
    ensures
        ({
            let got = queries::with_decls(list, decls, at, n);
            &&& queries::has_prefix(list, prefix) ==> queries::has_prefix(got, prefix) && (binds(
                got,
                prefix,
                uri,
            ) <==> binds(list, prefix, uri))
            &&& !queries::has_prefix(list, prefix) ==> (binds(got, prefix, uri) <==> declared(
                decls,
                at,
                prefix,
                n,
            ) == Some(uri)) && (queries::has_prefix(got, prefix) <==> declared(
                decls,
                at,
                prefix,
                n,
            ) is Some)
        }),
    decreases n,
{
    if n > 0 {
        lemma_with(list, decls, at, n - 1, prefix, uri);
        let before = queries::with_decls(list, decls, at, n - 1);
        let got = queries::with_decls(list, decls, at, n);
        let d = decls[n - 1];
        if d.node == at && !queries::has_prefix(before, d.prefix) {
            let new = NsView { uri: d.uri, prefix: Some(d.prefix) };
            assert(got == before.push(new));
            assert(got[before.len() as int] == new);
            if binds(before, prefix, uri) {
                let k = choose|k: int|
                    0 <= k < before.len() && (#[trigger] before[k]).prefix == Some(prefix)
                        && before[k].uri == uri;
                assert(got[k] == before[k]);
            }
            if binds(got, prefix, uri) {
                let k = choose|k: int|
                    0 <= k < got.len() && (#[trigger] got[k]).prefix == Some(prefix) && got[k].uri
                        == uri;
                if k < before.len() {
                    assert(before[k] == got[k]);
                }
            }
            if queries::has_prefix(before, prefix) {
                let k = choose|k: int|
                    0 <= k < before.len() && (#[trigger] before[k]).prefix == Some(prefix);
                assert(got[k] == before[k]);
            }
            if queries::has_prefix(got, prefix) {
                let k = choose|k: int|
                    0 <= k < got.len() && (#[trigger] got[k]).prefix == Some(prefix);
                if k < before.len() {
                    assert(before[k] == got[k]);
                }
            }
        }
    } else if binds(list, prefix, uri) {
        let k = choose|k: int|
            0 <= k < list.len() && (#[trigger] list[k]).prefix == Some(prefix) && list[k].uri
                == uri;
        assert(list[k].prefix == Some(prefix));
    }
}

proof fn lemma_behind(d: Doc, idx: u32, list: Seq<NsView>, prefix: Seq<char>, uri: Seq<char>)
    ensures
        ({
            let got = queries::scope_behind(d, idx, list);
            &&& queries::has_prefix(list, prefix) ==> (binds(got, prefix, uri) <==> binds(
                list,
                prefix,
                uri,
            ))
            &&& !queries::has_prefix(list, prefix) ==> (binds(got, prefix, uri) <==> closest(
                d,
                idx,
                prefix,
            ) == Some(uri))
        }),
    decreases idx,
{
    let n = d.decls.len() as int;
    let own = queries::with_decls(list, d.decls, idx as int, n);
    lemma_with(list, d.decls, idx as int, n, prefix, uri);
    match doc::node_at(d.nodes, idx).parent {
        Some(p) => if 0 <= p < idx {
            lemma_behind(d, p as u32, own, prefix, uri);
        },
        None => {},
    }
}

/// The namespaces in scope at a node: a prefix stands for a URI there exactly if the closest
/// declaration of the prefix, on the node or the nodes around it, is for that URI.
pub proof fn lemma_scope(d: Doc, idx: u32, prefix: Seq<char>, uri: Seq<char>)
    ensures
        binds(queries::scope(d, idx), prefix, uri) <==> closest(d, idx, prefix) == Some(uri),
{
    assert(!queries::has_prefix(Seq::<NsView>::empty(), prefix));
    lemma_behind(d, idx, Seq::empty(), prefix, uri);
}

proof fn lemma_first_uri(list: Seq<NsView>, uri: Seq<char>, k: int)
    requires
        0 <= k,
    ensures
        match xml_read_only::first_of_uri(list, uri, k) {
            Some(ns) => first_with(list, uri, k, ns),
            None => forall|i: int| k <= i < list.len() ==> (#[trigger] list[i]).uri != uri,
        },
    decreases list.len() - k,
{
    if k < list.len() && list[k].uri != uri {
        lemma_first_uri(list, uri, k + 1);
        if xml_read_only::first_of_uri(list, uri, k + 1) is Some {
            let ns = xml_read_only::first_of_uri(list, uri, k + 1)->0;
            let m = choose|m: int|
                k + 1 <= m < list.len() && #[trigger] list[m] == ns && forall|i: int|
                    k + 1 <= i < m ==> (#[trigger] list[i]).uri != uri;
            assert(list[m] == ns);
        }
    } else if k < list.len() {
        assert(list[k] == xml_read_only::first_of_uri(list, uri, k)->0);
    }
}

/// A namespace is the first of a list, from a place on, that has a URI.
pub open spec fn first_with(list: Seq<NsView>, uri: Seq<char>, k: int, ns: NsView) -> bool {
    &&& ns.uri == uri
    &&& exists|m: int|
        k <= m < list.len() && #[trigger] list[m] == ns && forall|i: int|
            k <= i < m ==> (#[trigger] list[i]).uri != uri
}

proof fn lemma_first_prefix(list: Seq<NsView>, prefix: Seq<char>, k: int)
    requires
        0 <= k,
    ensures
        match xml_read_only::first_of_prefix(list, prefix, k) {
            Some(ns) => ns.prefix == Some(prefix) && list.contains(ns),
            None => forall|i: int| k <= i < list.len() ==> (#[trigger] list[i]).prefix != Some(
                prefix,
            ),
        },
    decreases list.len() - k,
{
    if k < list.len() && list[k].prefix != Some(prefix) {
        lemma_first_prefix(list, prefix, k + 1);
    }
}

/// Asking for a prefix gives the URI that it stands for, and nothing where it stands for none.
pub proof fn lemma_prefix_asked(d: Doc, idx: u32, prefix: Seq<char>)
    ensures
        match xml_read_only::first_of_prefix(queries::scope(d, idx), prefix, 0) {
            Some(ns) => ns.prefix == Some(prefix) && closest(d, idx, prefix) == Some(ns.uri),
            None => closest(d, idx, prefix) is None,
        },
{
    let list = queries::scope(d, idx);
    lemma_first_prefix(list, prefix, 0);
    match xml_read_only::first_of_prefix(list, prefix, 0) {
        Some(ns) => {
            let k = choose|k: int| 0 <= k < list.len() && list[k] == ns;
            assert(list[k].prefix == Some(prefix));
            lemma_scope(d, idx, prefix, ns.uri);
        },
        None => {
            if closest(d, idx, prefix) is Some {
                let u = closest(d, idx, prefix)->0;
                lemma_scope(d, idx, prefix, u);
            }
        },
    }
}

/// The namespace of a node: none gives the default one; otherwise the first in scope with its
/// URI, or the URI alone where none in scope has it.
pub proof fn lemma_own_namespace(h: Handle)
    ensures
        match xml_read_only::own_namespace(h) {
            xml_read_only::NodeNamespaceView::Default => h.node().ns is None,
            xml_read_only::NodeNamespaceView::InScope(ns) => h.node().ns == Some(ns.uri)
                && first_with(queries::scope(h.store.doc(), h.index), ns.uri, 0, ns),
            xml_read_only::NodeNamespaceView::Uri(u) => h.node().ns == Some(u) && forall|k: int|
                0 <= k < queries::scope(h.store.doc(), h.index).len() ==> (
                #[trigger] queries::scope(h.store.doc(), h.index)[k]).uri != u,
        },
{
    if h.node().ns is Some {
        lemma_first_uri(queries::scope(h.store.doc(), h.index), h.node().ns->0, 0);
    }
}

proof fn lemma_without(list: Seq<NsView>, other: Seq<NsView>, n: int, ns: NsView)
    requires
        0 <= n <= list.len(),
    ensures
        xml_read_only::without(list, other, n).contains(ns) <==> list.take(n).contains(ns)
            && !other.contains(ns),
    decreases n,
{
    let got = xml_read_only::without(list, other, n);
    if n > 0 {
        lemma_without(list, other, n - 1, ns);
        let before = xml_read_only::without(list, other, n - 1);
        let x = list[n - 1];
        assert(list.take(n) =~= list.take(n - 1).push(x));
        lemma_push(list.take(n - 1), x, ns);
        lemma_push(before, x, ns);
    }
}

proof fn lemma_push(s: Seq<NsView>, x: NsView, y: NsView)
    ensures
        s.push(x).contains(y) <==> s.contains(y) || x == y,
{
    if s.contains(y) {
        let k = choose|k: int| 0 <= k < s.len() && s[k] == y;
        assert(s.push(x)[k] == y);
    }
    if x == y {
        assert(s.push(x)[s.len() as int] == y);
    }
    if s.push(x).contains(y) {
        let k = choose|k: int| 0 <= k < s.push(x).len() && s.push(x)[k] == y;
        if k < s.len() {
            assert(s[k] == y);
        }
    }
}

/// The namespaces declared on an element are those in scope there that are not in scope at its
/// parent.
pub proof fn lemma_declared_here(h: Handle, ns: NsView)
    ensures
        xml_read_only::declared_here(Some(h)).contains(ns) <==> {
            &&& h.node().kind is Element
            &&& queries::scope(h.store.doc(), h.index).contains(ns)
            &&& h.node().parent matches Some(p) ==> !queries::scope(
                h.store.doc(),
                p as u32,
            ).contains(ns)
        },
{
    let here = queries::scope(h.store.doc(), h.index);
    let above = match h.node().parent {
        Some(p) => queries::scope(h.store.doc(), p as u32),
        None => Seq::empty(),
    };
    lemma_without(here, above, here.len() as int, ns);
    assert(here.take(here.len() as int) =~= here);
}

proof fn lemma_without_order(list: Seq<NsView>, other: Seq<NsView>, n: int) -> (at: Seq<int>)
    requires
        0 <= n <= list.len(),
    ensures
        ({
            let got = xml_read_only::without(list, other, n);
            &&& at.len() == got.len()
            &&& forall|k: int|
                0 <= k < at.len() ==> 0 <= #[trigger] at[k] < n && got[k] == list[at[k]]
            &&& forall|k: int, l: int| 0 <= k < l < at.len() ==> at[k] < at[l]
        }),
    decreases n,
{
    if n <= 0 {
        Seq::empty()
    } else {
        let front = lemma_without_order(list, other, n - 1);
        if other.contains(list[n - 1]) {
            front
        } else {
            front.push(n - 1)
        }
    }
}

/// The namespaces declared on an element stand in the order in which they stand among those in
/// scope there.
pub proof fn lemma_declared_order(h: Handle) -> (at: Seq<int>)
    requires
        h.node().kind is Element,
    ensures
        ({
            let here = queries::scope(h.store.doc(), h.index);
            let got = xml_read_only::declared_here(Some(h));
            &&& at.len() == got.len()
            &&& forall|k: int|
                0 <= k < at.len() ==> 0 <= #[trigger] at[k] < here.len() && got[k] == here[at[k]]
            &&& forall|k: int, l: int| 0 <= k < l < at.len() ==> at[k] < at[l]
        }),
{
    let here = queries::scope(h.store.doc(), h.index);
    let above = match h.node().parent {
        Some(p) => queries::scope(h.store.doc(), p as u32),
        None => Seq::empty(),
    };
    lemma_without_order(here, above, here.len() as int)
}

/// What is in scope at a node begins with what is declared on it, in the order of the
/// declarations: a prefix that is declared there for the first time stands at the place that
/// follows those declared before it.
pub proof fn lemma_scope_begins(d: Doc, idx: u32, k: int)
    requires
        0 <= k < d.decls.len(),
        d.decls[k].node == idx,
        forall|i: int|
            0 <= i < d.decls.len() && i != k && (#[trigger] d.decls[i]).node == idx
                ==> d.decls[i].prefix != d.decls[k].prefix,
    ensures
        ({
            let before = queries::with_decls(Seq::empty(), d.decls, idx as int, k);
            &&& before.len() < queries::scope(d, idx).len()
            &&& before.is_prefix_of(queries::scope(d, idx))
            &&& queries::scope(d, idx)[before.len() as int] == (NsView {
                uri: d.decls[k].uri,
                prefix: Some(d.decls[k].prefix),
            })
        }),
{
    let none = Seq::<NsView>::empty();
    let n = d.decls.len() as int;
    let before = queries::with_decls(none, d.decls, idx as int, k);
    lemma_not_yet(d, idx, k, k);
    let next = queries::with_decls(none, d.decls, idx as int, k + 1);
    assert(next == before.push(
        NsView { uri: d.decls[k].uri, prefix: Some(d.decls[k].prefix) },
    ));
    lemma_grows(none, d.decls, idx as int, k + 1, n);
    lemma_scope_grows(d, idx, none);
    let own = queries::with_decls(none, d.decls, idx as int, n);
    let all = queries::scope(d, idx);
    assert forall|i: int| 0 <= i < next.len() implies #[trigger] all[i] == next[i] by {
        assert(own.subrange(0, next.len() as int)[i] == own[i]);
        assert(all.subrange(0, own.len() as int)[i] == all[i]);
    }
    assert(all[before.len() as int] == next[before.len() as int]);
    assert(before =~= all.subrange(0, before.len() as int));
}

proof fn lemma_not_yet(d: Doc, idx: u32, k: int, n: int)
    requires
        0 <= n <= k < d.decls.len(),
        forall|i: int|
            0 <= i < d.decls.len() && i != k && (#[trigger] d.decls[i]).node == idx
                ==> d.decls[i].prefix != d.decls[k].prefix,
    ensures
        !queries::has_prefix(
            queries::with_decls(Seq::empty(), d.decls, idx as int, n),
            d.decls[k].prefix,
        ),
    decreases n,
{
    if n > 0 {
        lemma_not_yet(d, idx, k, n - 1);
        let list = queries::with_decls(Seq::empty(), d.decls, idx as int, n - 1);
        let more = queries::with_decls(Seq::empty(), d.decls, idx as int, n);
        assert forall|i: int| 0 <= i < more.len() implies (#[trigger] more[i]).prefix != Some(
            d.decls[k].prefix,
        ) by {
            if i < list.len() {
                assert(more[i] == list[i]);
            } else {
                assert(d.decls[n - 1].node == idx);
            }
        }
    }
}

proof fn lemma_grows(list: Seq<NsView>, decls: Seq<DeclView>, at: int, k: int, n: int)
    requires
        0 <= k <= n,
    ensures
        queries::with_decls(list, decls, at, k).is_prefix_of(
            queries::with_decls(list, decls, at, n),
        ),
    decreases n,
{
    if k < n {
        lemma_grows(list, decls, at, k, n - 1);
    }
}

proof fn lemma_scope_grows(d: Doc, idx: u32, list: Seq<NsView>)
    ensures
        queries::with_decls(list, d.decls, idx as int, d.decls.len() as int).is_prefix_of(
            queries::scope_behind(d, idx, list),
        ),
    decreases idx,
{
    let own = queries::with_decls(list, d.decls, idx as int, d.decls.len() as int);
    if let Some(p) = doc::node_at(d.nodes, idx).parent {
        if 0 <= p < idx {
            lemma_grows(own, d.decls, p, 0, d.decls.len() as int);
            lemma_scope_grows(d, p as u32, own);
        }
    }
}

} // verus!
