//! Building a document: interning its strings, pushing its nodes and linking them,
//! within what the arenas can hold.

use crate::doc;
use crate::doc::DeclView;
use crate::doc::NodeView;
use crate::node_arena::NodeArena;
use crate::node_data::E4XNodeDataReadOnly;
use crate::node_data::E4XNodeKindReadOnly;
use crate::node_data::NodeRecord;
use crate::node_data::NO_NODE;
use crate::node_data::PARENT_MASK;
use crate::node_data::VALUE_REF_LIMIT;
use crate::str_arena;
use crate::str_arena::Interner;
use crate::str_arena::Pool;
use crate::str_arena::StrArena;
use crate::text;
use vstd::prelude::*;
use vstd::utf8::*;

verus! {

/// One `xmlns` or `xmlns:prefix` declaration and the element it appears on.
#[derive(Clone, Copy)]
pub struct NsDeclReadOnly {
    /// Index of the element.
    pub node: u32,
    /// String reference of the prefix (the empty string for the default namespace).
    pub prefix: u32,
    /// String reference of the URI.
    pub uri: u32,
}

/// One string that is interned, and whether it is a node's value.
#[verifier::ext_equal]
pub struct Entry {
    pub text: Seq<char>,
    pub value: bool,
}

/// A name, a prefix or a URI.
pub open spec fn name_entry(text: Seq<char>) -> Entry {
    Entry { text, value: false }
}

/// A node's value.
pub open spec fn value_entry(text: Seq<char>) -> Entry {
    Entry { text, value: true }
}

/// Several names.
pub open spec fn name_entries(names: Seq<Seq<char>>) -> Seq<Entry> {
    Seq::new(names.len(), |i: int| name_entry(names[i]))
}

/// A document in the making, and every string that was interned for it, in order.
#[verifier::ext_equal]
pub struct Draft {
    pub nodes: Seq<NodeView>,
    pub decls: Seq<DeclView>,
    pub log: Seq<Entry>,
}

/// The draft with nothing in it.
pub open spec fn empty_draft() -> Draft {
    Draft { nodes: Seq::empty(), decls: Seq::empty(), log: Seq::empty() }
}

/// Whether a string can be interned: there is room for it and, if it is a value, its
/// reference leaves bit 31 free.
pub open spec fn takes(p: Pool, e: Entry) -> bool {
    let bytes = encode_utf8(e.text);
    str_arena::pool_takes(p, bytes) && (e.value ==> str_arena::pool_ref(p, bytes)
        < VALUE_REF_LIMIT)
}

/// The string pool after interning `log` in order; `None` once a string could not be.
pub open spec fn pool_of(log: Seq<Entry>) -> Option<Pool>
    decreases log.len(),
{
    if log.len() == 0 {
        Some(str_arena::empty_pool())
    } else {
        match pool_of(log.drop_last()) {
            Some(p) => if takes(p, log.last()) {
                Some(str_arena::pool_intern(p, encode_utf8(log.last().text)))
            } else {
                None
            },
            None => None,
        }
    }
}

/// The bytes behind each reference after interning `log`.
pub open spec fn refs_of(log: Seq<Entry>) -> Map<u32, Seq<u8>> {
    pool_of(log)->0.refs
}

/// No other string in `log` has the hash of these bytes.
pub open spec fn hashed_alone(log: Seq<Entry>, bytes: Seq<u8>) -> bool {
    forall|i: int|
        0 <= i < log.len() && str_arena::fnv1a(encode_utf8((#[trigger] log[i]).text)) == str_arena::fnv1a(
            bytes,
        ) ==> encode_utf8(log[i].text) == bytes
}

/// Whether the arenas can hold the draft: node indices below the parent field's
/// sentinel, and room for every string.
pub open spec fn fits(d: Draft) -> bool {
    d.nodes.len() <= PARENT_MASK && pool_of(d.log) is Some
}

/// `later` has all of `earlier`'s strings and at least as many nodes.
pub open spec fn extends(later: Draft, earlier: Draft) -> bool {
    &&& earlier.log.is_prefix_of(later.log)
    &&& earlier.nodes.len() <= later.nodes.len()
}

/// Interning further strings never makes room for earlier ones.
pub proof fn lemma_pool_prefix(log: Seq<Entry>, more: Seq<Entry>)
    requires
        log.is_prefix_of(more),
        pool_of(more) is Some,
    ensures
        pool_of(log) is Some,
    decreases more.len(),
{
    if more.len() > log.len() {
        assert(log =~= more.drop_last().take(log.len() as int));
        assert(log.is_prefix_of(more.drop_last()));
        lemma_pool_prefix(log, more.drop_last());
    } else {
        assert(log =~= more);
    }
}

/// What does not fit still does not fit when more is added.
pub proof fn lemma_extends_fits(later: Draft, earlier: Draft)
    requires
        extends(later, earlier),
    ensures
        fits(later) ==> fits(earlier),
{
    if fits(later) {
        lemma_pool_prefix(earlier.log, later.log);
    }
}

pub proof fn lemma_extends_trans(c: Draft, b: Draft, a: Draft)
    requires
        extends(c, b),
        extends(b, a),
    ensures
        extends(c, a),
{
    assert(a.log =~= c.log.take(a.log.len() as int)) by {
        assert(b.log =~= c.log.take(b.log.len() as int));
        assert(a.log =~= b.log.take(a.log.len() as int));
    }
}

/// The pool that a log leads to is well-formed.
pub proof fn lemma_pool_of_wf(log: Seq<Entry>)
    requires
        pool_of(log) is Some,
    ensures
        str_arena::pool_wf(pool_of(log)->0),
    decreases log.len(),
{
    if log.len() > 0 {
        lemma_pool_of_wf(log.drop_last());
        encode_utf8_valid_utf8(log.last().text);
        str_arena::lemma_intern_keeps(pool_of(log.drop_last())->0, encode_utf8(log.last().text));
    }
}

/// A string that no other has the hash of stands behind one reference, that of the index.
proof fn lemma_one_entry(log: Seq<Entry>, bytes: Seq<u8>)
    requires
        pool_of(log) is Some,
        hashed_alone(log, bytes),
    ensures
        forall|r: u32|
            (#[trigger] refs_of(log).dom().contains(r)) && refs_of(log)[r] == bytes ==> {
                &&& pool_of(log)->0.index.dom().contains(str_arena::fnv1a(bytes))
                &&& pool_of(log)->0.index[str_arena::fnv1a(bytes)] == r
            },
    decreases log.len(),
{
    if log.len() > 0 {
        let front = log.drop_last();
        let p = pool_of(front)->0;
        let last = encode_utf8(log.last().text);
        assert(hashed_alone(front, bytes)) by {
            assert forall|i: int|
                0 <= i < front.len() && str_arena::fnv1a(encode_utf8((#[trigger] front[i]).text))
                    == str_arena::fnv1a(bytes) implies encode_utf8(front[i].text) == bytes by {
                assert(front[i] == log[i]);
            }
        }
        lemma_one_entry(front, bytes);
        lemma_pool_of_wf(front);
        encode_utf8_valid_utf8(log.last().text);
        str_arena::lemma_intern_keeps(p, last);
        assert(log[log.len() - 1] == log.last());
        let q = pool_of(log)->0;
        assert(q == str_arena::pool_intern(p, last));
        assert forall|r: u32| (#[trigger] q.refs.dom().contains(r)) && q.refs[r] == bytes implies {
            &&& q.index.dom().contains(str_arena::fnv1a(bytes))
            &&& q.index[str_arena::fnv1a(bytes)] == r
        } by {
            if p.refs.dom().contains(r) {
                assert(refs_of(front).dom().contains(r));
                assert(p.refs[r] == bytes);
            } else {
                assert(r == str_arena::pool_ref(p, last));
                assert(last == bytes);
            }
        }
    }
}

/// Equal strings are stored once: two references behind which the same text stands are one,
/// unless another string has the hash of that text.
pub proof fn lemma_text_shared(log: Seq<Entry>, a: u32, b: u32, t: Seq<char>)
    requires
        pool_of(log) is Some,
        hashed_alone(log, encode_utf8(t)),
        doc::refers(a, Some(t), refs_of(log)),
        doc::refers(b, Some(t), refs_of(log)),
    ensures
        a == b,
{
    lemma_one_entry(log, encode_utf8(t));
    assert(refs_of(log).dom().contains(a));
    assert(refs_of(log).dom().contains(b));
}

/// A string that was interned before, since when none but it has had its hash, is found again:
/// interning it gives the old reference and leaves the arena as it is.
pub proof fn lemma_interned_again(log: Seq<Entry>, e: Entry, since: Seq<Entry>)
    requires
        pool_of(log.push(e) + since) is Some,
        hashed_alone(since, encode_utf8(e.text)),
    ensures
        pool_of(log) is Some,
        str_arena::pool_ref(pool_of(log.push(e) + since)->0, encode_utf8(e.text))
            == str_arena::pool_ref(pool_of(log)->0, encode_utf8(e.text)),
        pool_of((log.push(e) + since).push(e)) == pool_of(log.push(e) + since),
        pool_of((log.push(e) + since).push(name_entry(e.text))) == pool_of(log.push(e) + since),
        str_arena::pool_has(pool_of(log.push(e) + since)->0, encode_utf8(e.text)),
    decreases since.len(),
{
    let all = log.push(e) + since;
    let bytes = encode_utf8(e.text);
    encode_utf8_valid_utf8(e.text);
    assert(all.push(e).drop_last() =~= all);
    assert(all.push(name_entry(e.text)).drop_last() =~= all);
    assert(log.is_prefix_of(all)) by {
        assert(log =~= all.take(log.len() as int));
    }
    lemma_pool_prefix(log, all);
    lemma_pool_of_wf(log);
    if since.len() == 0 {
        assert(all =~= log.push(e));
        assert(all.drop_last() =~= log);
        str_arena::lemma_intern_shares(pool_of(log)->0, bytes);
        str_arena::lemma_intern_keeps(pool_of(log)->0, bytes);
    } else {
        let less = since.drop_last();
        let front = log.push(e) + less;
        assert(all.drop_last() =~= front);
        assert(all.last() == since.last());
        assert(front.is_prefix_of(all)) by {
            assert(front =~= all.take(front.len() as int));
        }
        lemma_pool_prefix(front, all);
        assert(hashed_alone(less, bytes)) by {
            assert forall|i: int|
                0 <= i < less.len() && str_arena::fnv1a(encode_utf8((#[trigger] less[i]).text))
                    == str_arena::fnv1a(bytes) implies encode_utf8(less[i].text) == bytes by {
                assert(less[i] == since[i]);
            }
        }
        lemma_interned_again(log, e, less);
        lemma_pool_of_wf(front);
        encode_utf8_valid_utf8(since.last().text);
        assert(since[since.len() - 1] == since.last());
        str_arena::lemma_intern_stays_shared(
            pool_of(front)->0,
            bytes,
            encode_utf8(since.last().text),
        );
    }
}

/// The draft after interning a string that is no value.
pub open spec fn logged(d: Draft, s: Seq<char>) -> Draft {
    Draft { log: d.log.push(name_entry(s)), ..d }
}

/// The draft after interning a value.
pub open spec fn logged_value(d: Draft, s: Seq<char>) -> Draft {
    Draft { log: d.log.push(value_entry(s)), ..d }
}

/// The draft after interning a value where there is one.
pub open spec fn logged_value_opt(d: Draft, s: Option<Seq<char>>) -> Draft {
    match s {
        Some(t) => logged_value(d, t),
        None => d,
    }
}

/// The draft after interning a string where there is one.
pub open spec fn logged_opt(d: Draft, s: Option<Seq<char>>) -> Draft {
    match s {
        Some(t) => logged(d, t),
        None => d,
    }
}

/// The draft after pushing a node.
pub open spec fn with_node(d: Draft, v: NodeView) -> Draft {
    Draft { nodes: d.nodes.push(v), ..d }
}

/// The draft after a namespace declaration.
pub open spec fn with_decl(d: Draft, v: DeclView) -> Draft {
    Draft { decls: d.decls.push(v), ..d }
}

/// The draft after an element took its only text as its value.
pub open spec fn with_value(d: Draft, e: int, text: Seq<char>) -> Draft {
    if 0 <= e < d.nodes.len() {
        Draft { nodes: d.nodes.update(e, NodeView { value: Some(text), ..d.nodes[e] }), ..d }
    } else {
        d
    }
}

/// A declaration record says what the declaration is.
pub open spec fn decl_ok(
    d: NsDeclReadOnly,
    v: DeclView,
    count: int,
    refs: Map<u32, Seq<u8>>,
) -> bool {
    &&& 0 <= v.node < count
    &&& d.node == v.node
    &&& doc::refers(d.prefix, Some(v.prefix), refs)
    &&& doc::refers(d.uri, Some(v.uri), refs)
}

/// The declaration records are the declarations.
pub open spec fn decls_ok(
    decls: Seq<NsDeclReadOnly>,
    views: Seq<DeclView>,
    count: int,
    refs: Map<u32, Seq<u8>>,
) -> bool {
    &&& decls.len() == views.len()
    &&& forall|i: int|
        0 <= i < decls.len() ==> decl_ok(#[trigger] decls[i], views[i], count, refs)
}

pub proof fn lemma_decls_more_refs(
    decls: Seq<NsDeclReadOnly>,
    views: Seq<DeclView>,
    count: int,
    refs: Map<u32, Seq<u8>>,
    more_count: int,
    more: Map<u32, Seq<u8>>,
)
    requires
        decls_ok(decls, views, count, refs),
        count <= more_count,
        refs.submap_of(more),
    ensures
        decls_ok(decls, views, more_count, more),
{
    assert forall|i: int| 0 <= i < decls.len() implies decl_ok(
        #[trigger] decls[i],
        views[i],
        more_count,
        more,
    ) by {
        assert(decl_ok(decls[i], views[i], count, refs));
        doc::lemma_refers_more(decls[i].prefix, Some(views[i].prefix), refs, more);
        doc::lemma_refers_more(decls[i].uri, Some(views[i].uri), refs, more);
    }
}

/// Arenas, index and declarations of a document in the making.
pub struct Builder {
    nodes: NodeArena,
    strings: Interner,
    decls: Vec<NsDeclReadOnly>,
    draft: Ghost<Draft>,
}

impl View for Builder {
    type V = Draft;

    closed spec fn view(&self) -> Draft {
        self.draft@
    }
}

impl Builder {
    pub closed spec fn wf(self) -> bool {
        let d = self.draft@;
        &&& self.nodes.wf()
        &&& self.strings.wf()
        &&& pool_of(d.log) == Some(self.strings@)
        &&& doc::nodes_ok(d.nodes)
        &&& doc::recs_ok(self.nodes@, d.nodes, self.strings@.refs)
        &&& decls_ok(self.decls@, d.decls, d.nodes.len() as int, self.strings@.refs)
    }

    /// The bytes behind each string reference.
    pub closed spec fn refs(self) -> Map<u32, Seq<u8>> {
        self.strings@.refs
    }

    pub proof fn lemma_wf(self)
        requires
            self.wf(),
        ensures
            fits(self@),
            self.refs() == refs_of(self@.log),
            doc::nodes_ok(self@.nodes),
    {
    }

    /// An empty builder.
    pub fn new() -> (r: Self)
        ensures
            r.wf(),
            r@ == empty_draft(),
    {
        Builder {
            nodes: NodeArena::new(),
            strings: Interner::new(),
            decls: Vec::new(),
            draft: Ghost(empty_draft()),
        }
    }

    /// Interns `s`; `None` where the string arena has no room for it, or where it is a value
    /// whose reference would need bit 31.
    fn intern_entry(&mut self, s: &str, value: bool) -> (r: Option<u32>)
        requires
            old(self).wf(),
        ensures
            r is Some <==> fits(
                Draft { log: old(self)@.log.push(Entry { text: s@, value }), ..old(self)@ },
            ),
            r matches Some(x) ==> {
                &&& final(self).wf()
                &&& final(self)@ == (Draft {
                    log: old(self)@.log.push(Entry { text: s@, value }),
                    ..old(self)@
                })
                &&& x == str_arena::pool_ref(pool_of(old(self)@.log)->0, encode_utf8(s@))
                &&& final(self).refs() == refs_of(final(self)@.log)
                &&& old(self).refs().submap_of(final(self).refs())
                &&& doc::refers(x, Some(s@), final(self).refs())
                &&& value ==> x < VALUE_REF_LIMIT
            },
    {
        let ghost d = self.draft@;
        let ghost p = self.strings@;
        let ghost bytes = encode_utf8(s@);
        let ghost e = Entry { text: s@, value };
        assert(d.log.push(e).drop_last() =~= d.log);
        proof {
            lemma_pool_of_wf(d.log);
            encode_utf8_valid_utf8(s@);
        }
        match self.strings.intern(s) {
            Some(x) => {
                if value && x >= VALUE_REF_LIMIT {
                    return None;
                }
                proof {
                    str_arena::lemma_intern_keeps(p, bytes);
                    self.draft@ = Draft { log: d.log.push(e), ..d };
                    doc::lemma_more_refs(self.nodes@, d.nodes, p.refs, self.strings@.refs);
                    lemma_decls_more_refs(
                        self.decls@,
                        d.decls,
                        d.nodes.len() as int,
                        p.refs,
                        d.nodes.len() as int,
                        self.strings@.refs,
                    );
                }
                Some(x)
            },
            None => None,
        }
    }

    /// Interns a name, a prefix or a URI: the reference that the strings so far give it, the
    /// old one where it was there already; `None` where the string arena has no room for it.
    pub fn intern(&mut self, s: &str) -> (r: Option<u32>)
        requires
            old(self).wf(),
        ensures
            r is Some <==> fits(logged(old(self)@, s@)),
            r matches Some(x) ==> {
                &&& final(self).wf()
                &&& final(self)@ == logged(old(self)@, s@)
                &&& x == str_arena::pool_ref(pool_of(old(self)@.log)->0, encode_utf8(s@))
                &&& final(self).refs() == refs_of(final(self)@.log)
                &&& old(self).refs().submap_of(final(self).refs())
                &&& doc::refers(x, Some(s@), final(self).refs())
            },
    {
        self.intern_entry(s, false)
    }

    /// Interns a node's value, in the same way; `None` also where its reference would need
    /// bit 31, which marks child links.
    pub fn intern_value(&mut self, s: &str) -> (r: Option<u32>)
        requires
            old(self).wf(),
        ensures
            r is Some <==> fits(logged_value(old(self)@, s@)),
            r matches Some(x) ==> {
                &&& final(self).wf()
                &&& final(self)@ == logged_value(old(self)@, s@)
                &&& x == str_arena::pool_ref(pool_of(old(self)@.log)->0, encode_utf8(s@))
                &&& final(self).refs() == refs_of(final(self)@.log)
                &&& old(self).refs().submap_of(final(self).refs())
                &&& doc::refers_value(x, Some(s@), final(self).refs())
            },
    {
        self.intern_entry(s, true)
    }

    /// Interns a string where there is one; no string is `NO_NODE`.
    pub fn intern_opt(&mut self, s: &Option<String>) -> (r: Option<u32>)
        requires
            old(self).wf(),
        ensures
            r is Some <==> fits(logged_opt(old(self)@, text::opt_text(*s))),
            r matches Some(x) ==> {
                &&& final(self).wf()
                &&& final(self)@ == logged_opt(old(self)@, text::opt_text(*s))
                &&& old(self).refs().submap_of(final(self).refs())
                &&& doc::refers(x, text::opt_text(*s), final(self).refs())
            },
    {
        proof {
            self.lemma_wf();
        }
        match s {
            Some(t) => self.intern(t.as_str()),
            None => Some(NO_NODE),
        }
    }

    /// Interns a value where there is one; no value is `NO_NODE`.
    pub fn intern_value_opt(&mut self, s: &Option<String>) -> (r: Option<u32>)
        requires
            old(self).wf(),
        ensures
            r is Some <==> fits(logged_value_opt(old(self)@, text::opt_text(*s))),
            r matches Some(x) ==> {
                &&& final(self).wf()
                &&& final(self)@ == logged_value_opt(old(self)@, text::opt_text(*s))
                &&& old(self).refs().submap_of(final(self).refs())
                &&& doc::refers_value(x, text::opt_text(*s), final(self).refs())
            },
    {
        proof {
            self.lemma_wf();
        }
        match s {
            Some(t) => self.intern_value(t.as_str()),
            None => Some(NO_NODE),
        }
    }

    /// Pushes a node and links it behind `last`, the last attribute or child that its
    /// parent has, or as the parent's first; `None` where node indices run out.
    pub fn attach(
        &mut self,
        rec: E4XNodeDataReadOnly,
        last: u32,
        Ghost(v): Ghost<NodeView>,
    ) -> (r: Option<u32>)
        requires
            old(self).wf(),
            doc::may_add(old(self)@.nodes, v),
            doc::fresh_rec(rec@, v, old(self).refs()),
            last == doc::link(doc::last_kid(old(self)@.nodes, v.parent, v.kind is Attribute)),
        ensures
            r is Some <==> fits(with_node(old(self)@, v)),
            r matches Some(id) ==> {
                &&& id == old(self)@.nodes.len()
                &&& final(self).wf()
                &&& final(self)@ == with_node(old(self)@, v)
                &&& final(self).refs() == old(self).refs()
            },
    {
        let ghost d = self.draft@;
        let ghost recs = self.nodes@;
        let ghost prev = doc::last_kid(d.nodes, v.parent, v.kind is Attribute);
        if self.nodes.len() >= PARENT_MASK {
            return None;
        }
        proof {
            doc::lemma_last_kid(d.nodes, v.parent, v.kind is Attribute);
            doc::lemma_attach(recs, d.nodes, self.strings@.refs, rec@, v);
        }
        let id: u32 = self.nodes.push(rec);
        let parent: u32 = rec.parent_idx();
        if last != NO_NODE {
            self.nodes.at_mut(last).set_next_sibling(id);
        } else if parent != NO_NODE {
            if rec.kind() == E4XNodeKindReadOnly::Attribute {
                self.nodes.at_mut(parent).set_first_attr(id);
            } else {
                self.nodes.at_mut(parent).set_first_child(id);
            }
        }
        proof {
            self.draft@ = with_node(d, v);
            assert(self.nodes@ =~= doc::recs_with(recs, rec@, v, prev));
            lemma_decls_more_refs(
                self.decls@,
                d.decls,
                d.nodes.len() as int,
                self.strings@.refs,
                d.nodes.len() as int + 1,
                self.strings@.refs,
            );
        }
        Some(id)
    }

    /// Records a namespace declaration.
    pub fn add_decl(&mut self, decl: NsDeclReadOnly, Ghost(v): Ghost<DeclView>)
        requires
            old(self).wf(),
            decl_ok(decl, v, old(self)@.nodes.len() as int, old(self).refs()),
        ensures
            final(self).wf(),
            final(self)@ == with_decl(old(self)@, v),
            final(self).refs() == old(self).refs(),
    {
        let ghost d = self.draft@;
        let ghost before = self.decls@;
        self.decls.push(decl);
        proof {
            self.draft@ = with_decl(d, v);
            assert forall|i: int| 0 <= i < self.decls@.len() implies decl_ok(
                #[trigger] self.decls@[i],
                self.draft@.decls[i],
                d.nodes.len() as int,
                self.strings@.refs,
            ) by {
                if i < before.len() {
                    assert(decl_ok(
                        before[i],
                        d.decls[i],
                        d.nodes.len() as int,
                        self.strings@.refs,
                    ));
                }
            }
        }
    }

    /// Whether an element has no stored child yet.
    pub fn childless(&self, e: u32) -> (r: bool)
        requires
            self.wf(),
            e < self@.nodes.len(),
        ensures
            r == (doc::first_kid(self@.nodes, Some(e as int), false, 0) is None),
    {
        proof {
            assert(doc::rec_ok(self.nodes@[e as int], self@.nodes, e as int, self.refs()));
            doc::lemma_first_kid(self@.nodes, Some(e as int), false, 0);
        }
        self.nodes.at(e).first_child_idx() == NO_NODE
    }

    /// Writes `value` into an element that has no child.
    pub fn set_value(&mut self, e: u32, value: u32, Ghost(text): Ghost<Seq<char>>)
        requires
            old(self).wf(),
            e < old(self)@.nodes.len(),
            old(self)@.nodes[e as int].kind is Element,
            doc::first_kid(old(self)@.nodes, Some(e as int), false, 0) is None,
            doc::refers_value(value, Some(text), old(self).refs()),
        ensures
            final(self).wf(),
            final(self)@ == with_value(old(self)@, e as int, text),
            final(self).refs() == old(self).refs(),
    {
        let ghost d = self.draft@;
        let ghost recs = self.nodes@;
        proof {
            doc::lemma_set_value(recs, d.nodes, self.strings@.refs, e as int, value, text);
        }
        self.nodes.at_mut(e).set_value(value);
        proof {
            self.draft@ = with_value(d, e as int, text);
            assert(self.nodes@ =~= recs.update(
                e as int,
                NodeRecord { value, child: NO_NODE, ..recs[e as int] },
            ));
        }
    }

    /// The arenas and declarations, without the index of strings.
    pub fn into_parts(self) -> (r: (NodeArena, StrArena, Vec<NsDeclReadOnly>))
        requires
            self.wf(),
        ensures
            r.0.wf(),
            r.1.wf(),
            r.1.refs() == self.refs(),
            self.refs() == refs_of(self@.log),
            doc::nodes_ok(self@.nodes),
            doc::recs_ok(r.0@, self@.nodes, self.refs()),
            decls_ok(r.2@, self@.decls, self@.nodes.len() as int, self.refs()),
            forall|x: u32| #[trigger]
                self.refs().dom().contains(x) ==> valid_utf8(self.refs()[x]),
    {
        proof {
            lemma_pool_of_wf(self.draft@.log);
        }
        let Builder { nodes, strings, decls, draft: _ } = self;
        (nodes, strings.into_strings(), decls)
    }
}

} // verus!
