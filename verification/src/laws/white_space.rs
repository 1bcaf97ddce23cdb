//! White space of a source, and the other parts of it that may be ignored.

use crate::doc::NodeView;
use crate::events::AttrView;
use crate::events::EventView;
use crate::events::ParseSettings;
use crate::parse;
use crate::parse::Unescaping;
use crate::text;
use crate::tree;
use crate::tree::ParseState;
use crate::xml_reader;
use vstd::prelude::*;

verus! {

/// Tab, line feed, carriage return or space.
pub open spec fn gap(c: char) -> bool {
    c == '\u{9}' || c == '\u{a}' || c == '\u{d}' || c == '\u{20}'
}

/// Nothing but such characters.
pub open spec fn gaps(s: Seq<char>) -> bool {
    forall|i: int| 0 <= i < s.len() ==> gap(#[trigger] s[i])
}

/// A text with something in it and no such character at either end.
pub open spec fn tight(s: Seq<char>) -> bool {
    s.len() > 0 && !gap(s[0]) && !gap(s.last())
}

/// Characters to drop in front of a text make no difference to it trimmed.
pub proof fn lemma_start(pre: Seq<char>, s: Seq<char>, drop: spec_fn(char) -> bool)
    requires
        forall|i: int| 0 <= i < pre.len() ==> drop(#[trigger] pre[i]),
    ensures
        text::trimmed_start(pre + s, drop) == text::trimmed_start(s, drop),
    decreases pre.len(),
{
    if pre.len() == 0 {
        assert(pre + s =~= s);
    } else {
        assert((pre + s).drop_first() =~= pre.drop_first() + s);
        assert(drop(pre[0]));
        assert forall|i: int| 0 <= i < pre.drop_first().len() implies drop(
            #[trigger] pre.drop_first()[i],
        ) by {
            assert(drop(pre[i + 1]));
        }
        lemma_start(pre.drop_first(), s, drop);
    }
}

/// Characters to drop behind a text make no difference to it trimmed.
pub proof fn lemma_end(s: Seq<char>, post: Seq<char>, drop: spec_fn(char) -> bool)
    requires
        forall|i: int| 0 <= i < post.len() ==> drop(#[trigger] post[i]),
    ensures
        text::trimmed_end(s + post, drop) == text::trimmed_end(s, drop),
    decreases post.len(),
{
    if post.len() == 0 {
        assert(s + post =~= s);
    } else {
        assert((s + post).drop_last() =~= s + post.drop_last());
        assert(drop(post[post.len() - 1]));
        lemma_end(s, post.drop_last(), drop);
    }
}

/// How many characters are dropped at the front.
proof fn lemma_start_is(s: Seq<char>, drop: spec_fn(char) -> bool) -> (k: int)
    ensures
        0 <= k <= s.len(),
        text::trimmed_start(s, drop) == s.skip(k),
        forall|i: int| 0 <= i < k ==> drop(#[trigger] s[i]),
        k < s.len() ==> !drop(s[k]),
    decreases s.len(),
{
    if s.len() > 0 && drop(s[0]) {
        let k = lemma_start_is(s.drop_first(), drop);
        assert(s.skip(k + 1) =~= s.drop_first().skip(k));
        assert forall|i: int| 0 <= i < k + 1 implies drop(#[trigger] s[i]) by {
            if i > 0 {
                assert(drop(s.drop_first()[i - 1]));
            }
        }
        k + 1
    } else {
        assert(s.skip(0) =~= s);
        0
    }
}

proof fn lemma_end_is(s: Seq<char>, drop: spec_fn(char) -> bool) -> (k: int)
    ensures
        0 <= k <= s.len(),
        text::trimmed_end(s, drop) == s.take(k),
        forall|i: int| k <= i < s.len() ==> drop(#[trigger] s[i]),
        k > 0 ==> !drop(s[k - 1]),
    decreases s.len(),
{
    if s.len() > 0 && drop(s.last()) {
        let k = lemma_end_is(s.drop_last(), drop);
        assert(s.take(k) =~= s.drop_last().take(k));
        assert forall|i: int| k <= i < s.len() implies drop(#[trigger] s[i]) by {
            if i < s.len() - 1 {
                assert(drop(s.drop_last()[i]));
            }
        }
        k
    } else {
        assert(s.take(s.len() as int) =~= s);
        s.len() as int
    }
}

/// Trimming leaves a part of the text; what stood around it is dropped characters only, and
/// the part neither begins nor ends with one.
pub proof fn lemma_trimmed_is(s: Seq<char>, drop: spec_fn(char) -> bool) -> (r: (int, int))
    ensures
        0 <= r.0 <= r.1 <= s.len(),
        text::trimmed(s, drop) == s.subrange(r.0, r.1),
        forall|i: int| 0 <= i < r.0 ==> drop(#[trigger] s[i]),
        forall|i: int| r.1 <= i < s.len() ==> drop(#[trigger] s[i]),
        r.0 < r.1 ==> !drop(s[r.0]) && !drop(s[r.1 - 1]),
{
    let a = lemma_start_is(s, drop);
    let b = lemma_end_is(s.skip(a), drop);
    assert(s.skip(a).take(b) =~= s.subrange(a, a + b));
    assert forall|i: int| a + b <= i < s.len() implies drop(#[trigger] s[i]) by {
        assert(s.skip(a)[i - a] == s[i]);
    }
    if b > 0 {
        assert(s.skip(a)[b - 1] == s[a + b - 1]);
    }
    (a, a + b)
}

/// What is left of a text when white space is ignored: the text without tabs, line feeds,
/// carriage returns and spaces around it, and no other character is lost.
pub proof fn lemma_trimmed_text(s: Seq<char>)
    ensures
        exists|a: int, b: int|
            0 <= a <= b <= s.len() && text::blank_trimmed(s) == #[trigger] s.subrange(a, b) && gaps(
                s.take(a),
            ) && gaps(s.skip(b)),
        text::all_blank(s) <==> gaps(s),
        gaps(s) || tight(text::blank_trimmed(s)),
{
    let drop = |c: char| text::blank(c);
    assert forall|c: char| #[trigger] text::blank(c) == gap(c) by {}
    assert forall|i: int| 0 <= i < s.len() implies text::blank(#[trigger] s[i]) == gap(s[i]) by {}
    let r = lemma_trimmed_is(s, drop);
    assert(gaps(s.take(r.0))) by {
        assert forall|i: int| 0 <= i < r.0 implies gap(#[trigger] s.take(r.0)[i]) by {
            assert(drop(s[i]));
        }
    }
    assert(gaps(s.skip(r.1))) by {
        assert forall|i: int| 0 <= i < s.len() - r.1 implies gap(#[trigger] s.skip(r.1)[i]) by {
            assert(drop(s[i + r.1]));
        }
    }
    assert(text::blank_trimmed(s) == s.subrange(r.0, r.1));
    if text::all_blank(s) {
        assert forall|i: int| 0 <= i < s.len() implies gap(#[trigger] s[i]) by {
            assert(text::blank(s[i]));
        }
    }
    if gaps(s) {
        assert forall|i: int| 0 <= i < s.len() implies text::blank(#[trigger] s[i]) by {
            assert(gap(s[i]));
        }
    }
    if r.0 == r.1 {
        assert forall|i: int| 0 <= i < s.len() implies gap(#[trigger] s[i]) by {
            if i < r.0 {
                assert(drop(s[i]));
            } else {
                assert(drop(s[i]));
            }
        }
    } else {
        assert(!drop(s[r.0]) && !drop(s[r.1 - 1]));
    }
}

/// A text or a collapsed element has a tight value.
spec fn tight_node(v: NodeView) -> bool {
    (v.kind is Text || v.kind is Element) && v.value is Some ==> tight(v.value->0)
}

spec fn tight_nodes(nodes: Seq<NodeView>) -> bool {
    forall|i: int| 0 <= i < nodes.len() ==> tight_node(#[trigger] nodes[i])
}

spec fn tight_state(st: ParseState) -> bool {
    &&& tight_nodes(st.draft.nodes)
    &&& st.pending matches Some(t) ==> tight(t)
}

proof fn lemma_attrs_tight(d: crate::builder::Draft, id: int, attrs: Seq<AttrView>)
    requires
        tight_nodes(d.nodes),
    ensures
        tight_nodes(tree::draft_attrs(d, id, attrs).nodes),
    decreases attrs.len(),
{
    if attrs.len() > 0 {
        lemma_attrs_tight(d, id, attrs.drop_last());
    }
}

proof fn lemma_step_tight(st: ParseState, ev: EventView, set: ParseSettings)
    requires
        set.ignore_white,
        tight_state(st),
    ensures
        tight_state(tree::step(st, ev, set)),
{
    let f = tree::flushed(st);
    assert(tight_state(f));
    match ev {
        EventView::Start(e) | EventView::Empty(e) => {
            let head = tree::draft_head(f.draft, tree::parent_of(f.open), e);
            assert(tight_nodes(head.nodes));
            lemma_attrs_tight(head, f.draft.nodes.len() as int, e.attrs);
        },
        EventView::Text(raw) => {
            lemma_trimmed_text(raw);
        },
        _ => {},
    }
}

proof fn lemma_run_tight(st: ParseState, evs: Seq<EventView>, set: ParseSettings)
    requires
        set.ignore_white,
        tight_state(st),
    ensures
        tight_state(tree::run(st, evs, set)),
    decreases evs.len(),
{
    if evs.len() > 0 {
        lemma_step_tight(st, evs[0], set);
        if !(evs[0] is Eof || evs[0] is Malformed) {
            lemma_run_tight(tree::step(st, evs[0], set), evs.drop_first(), set);
        }
    }
}

/// With white space ignored, no text of a parsed document is empty or white space only, and
/// none begins or ends with a tab, a line feed, a carriage return or a space. The text that an
/// element took as its value is such a text too.
pub proof fn lemma_no_white_space_kept(source: Seq<char>, set: ParseSettings, g: Unescaping, i: int)
    requires
        set.ignore_white,
        0 <= i < parse::parsed(source, set, g).draft.nodes.len(),
    ensures
        ({
            let v = parse::parsed(source, set, g).draft.nodes[i];
            (v.kind is Text || v.kind is Element) && v.value is Some ==> {
                let t = v.value->0;
                &&& t.len() > 0
                &&& t[0] != '\u{9}' && t[0] != '\u{a}' && t[0] != '\u{d}' && t[0] != '\u{20}'
                &&& t.last() != '\u{9}' && t.last() != '\u{a}' && t.last() != '\u{d}' && t.last()
                    != '\u{20}'
            }
        }),
{
    let evs = parse::decoded_all(xml_reader::source_events(source), g);
    lemma_run_tight(tree::start_state(), evs, set);
    assert(tight_node(parse::parsed(source, set, g).draft.nodes[i]));
}

/// An event that changes nothing may as well be left out.
proof fn lemma_left_out(
    st: ParseState,
    a: Seq<EventView>,
    ev: EventView,
    b: Seq<EventView>,
    set: ParseSettings,
)
    requires
        !(ev is Eof) && !(ev is Malformed),
        forall|s: ParseState| #[trigger] tree::step(s, ev, set) == s,
    ensures
        tree::run(st, a + seq![ev] + b, set) == tree::run(st, a + b, set),
    decreases a.len(),
{
    let all = a + seq![ev] + b;
    if a.len() == 0 {
        assert(all[0] == ev);
        assert(all.drop_first() =~= b);
        assert(a + b =~= b);
        assert(tree::step(st, ev, set) == st);
    } else {
        assert(all[0] == a[0] && (a + b)[0] == a[0]);
        assert(all.drop_first() =~= a.drop_first() + seq![ev] + b);
        assert((a + b).drop_first() =~= a.drop_first() + b);
        if !(a[0] is Eof || a[0] is Malformed) {
            lemma_left_out(tree::step(st, a[0], set), a.drop_first(), ev, b, set);
        }
    }
}

/// Two events that change every state alike stand for each other.
proof fn lemma_exchanged(
    st: ParseState,
    a: Seq<EventView>,
    x: EventView,
    y: EventView,
    b: Seq<EventView>,
    set: ParseSettings,
)
    requires
        !(x is Eof) && !(x is Malformed) && !(y is Eof) && !(y is Malformed),
        forall|s: ParseState| #[trigger] tree::step(s, x, set) == tree::step(s, y, set),
    ensures
        tree::run(st, a + seq![x] + b, set) == tree::run(st, a + seq![y] + b, set),
    decreases a.len(),
{
    let p = a + seq![x] + b;
    let q = a + seq![y] + b;
    if a.len() == 0 {
        assert(p[0] == x && q[0] == y);
        assert(p.drop_first() =~= b && q.drop_first() =~= b);
        assert(tree::step(st, x, set) == tree::step(st, y, set));
    } else {
        assert(p[0] == a[0] && q[0] == a[0]);
        assert(p.drop_first() =~= a.drop_first() + seq![x] + b);
        assert(q.drop_first() =~= a.drop_first() + seq![y] + b);
        if !(a[0] is Eof || a[0] is Malformed) {
            lemma_exchanged(tree::step(st, a[0], set), a.drop_first(), x, y, b, set);
        }
    }
}

/// With white space ignored, a text of white space alone might as well not be there.
pub proof fn lemma_white_space_between_tags(
    a: Seq<EventView>,
    w: Seq<char>,
    b: Seq<EventView>,
    set: ParseSettings,
)
    requires
        set.ignore_white,
        gaps(w),
    ensures
        tree::run(tree::start_state(), a + seq![EventView::Text(w)] + b, set) == tree::run(
            tree::start_state(),
            a + b,
            set,
        ),
{
    lemma_trimmed_text(w);
    lemma_left_out(tree::start_state(), a, EventView::Text(w), b, set);
}

/// With white space ignored, white space around a text makes no difference.
pub proof fn lemma_white_space_around_text(
    a: Seq<EventView>,
    pre: Seq<char>,
    t: Seq<char>,
    post: Seq<char>,
    b: Seq<EventView>,
    set: ParseSettings,
)
    requires
        set.ignore_white,
        gaps(pre),
        gaps(post),
    ensures
        tree::run(tree::start_state(), a + seq![EventView::Text(pre + t + post)] + b, set)
            == tree::run(tree::start_state(), a + seq![EventView::Text(t)] + b, set),
{
    let drop = |c: char| text::blank(c);
    let all = pre + t + post;
    lemma_trimmed_text(all);
    lemma_trimmed_text(t);
    assert forall|i: int| 0 <= i < pre.len() implies drop(#[trigger] pre[i]) by {
        assert(gap(pre[i]));
    }
    assert forall|i: int| 0 <= i < post.len() implies drop(#[trigger] post[i]) by {
        assert(gap(post[i]));
    }
    if gaps(t) {
        assert forall|i: int| 0 <= i < all.len() implies gap(#[trigger] all[i]) by {
            if i < pre.len() {
                assert(gap(pre[i]));
            } else if i < pre.len() + t.len() {
                assert(gap(t[i - pre.len()]));
            } else {
                assert(gap(post[i - pre.len() - t.len()]));
            }
        }
    } else {
        if gaps(all) {
            assert forall|i: int| 0 <= i < t.len() implies gap(#[trigger] t[i]) by {
                assert(gap(all[i + pre.len()]));
            }
        }
        assert(all =~= pre + (t + post));
        lemma_start(pre, t + post, drop);
        let k = lemma_start_is(t, drop);
        assert(k < t.len()) by {
            if k == t.len() {
                assert forall|i: int| 0 <= i < t.len() implies gap(#[trigger] t[i]) by {
                    assert(drop(t[i]));
                }
            }
        }
        assert(t + post =~= t.take(k) + (t.skip(k) + post));
        assert forall|i: int| 0 <= i < k implies drop(#[trigger] t.take(k)[i]) by {
            assert(drop(t[i]));
        }
        lemma_start(t.take(k), t.skip(k) + post, drop);
        assert((t.skip(k) + post)[0] == t[k]);
        assert(text::trimmed_start(t.skip(k) + post, drop) == t.skip(k) + post);
        lemma_end(t.skip(k), post, drop);
        assert(text::blank_trimmed(all) == text::blank_trimmed(t));
    }
    lemma_exchanged(tree::start_state(), a, EventView::Text(all), EventView::Text(t), b, set);
}

proof fn lemma_tight_untouched(t: Seq<char>)
    requires
        tight(t),
    ensures
        !text::all_blank(t),
        text::blank_trimmed(t) == t,
{
    assert(!text::blank(t[0]) && !text::blank(t.last()));
}

proof fn lemma_tight_step(st: ParseState, ev: EventView, set: ParseSettings)
    requires
        ev matches EventView::Text(t) ==> tight(t),
    ensures
        tree::step(st, ev, ParseSettings { ignore_white: true, ..set }) == tree::step(
            st,
            ev,
            ParseSettings { ignore_white: false, ..set },
        ),
{
    if let EventView::Text(t) = ev {
        lemma_tight_untouched(t);
    }
}

/// A text without white space around it is kept as it is, white space ignored or not: the
/// setting makes no difference to a source whose texts are all such.
pub proof fn lemma_tight_texts_kept(st: ParseState, evs: Seq<EventView>, set: ParseSettings)
    requires
        forall|i: int|
            0 <= i < evs.len() ==> (#[trigger] evs[i] matches EventView::Text(t) ==> tight(t)),
    ensures
        tree::run(st, evs, ParseSettings { ignore_white: true, ..set }) == tree::run(
            st,
            evs,
            ParseSettings { ignore_white: false, ..set },
        ),
    decreases evs.len(),
{
    let on = ParseSettings { ignore_white: true, ..set };
    let off = ParseSettings { ignore_white: false, ..set };
    if evs.len() > 0 {
        assert(evs[0] matches EventView::Text(t) ==> tight(t));
        lemma_tight_step(st, evs[0], set);
        assert forall|i: int| 0 <= i < evs.drop_first().len() implies (
        #[trigger] evs.drop_first()[i] matches EventView::Text(t) ==> tight(t)) by {
            assert(evs.drop_first()[i] == evs[i + 1]);
        }
        if !(evs[0] is Eof || evs[0] is Malformed) {
            lemma_tight_texts_kept(tree::step(st, evs[0], on), evs.drop_first(), set);
        }
    }
}

/// With comments ignored, a comment might as well not be there.
pub proof fn lemma_comment_ignored(
    a: Seq<EventView>,
    t: Seq<char>,
    b: Seq<EventView>,
    set: ParseSettings,
)
    requires
        set.ignore_comments,
    ensures
        tree::run(tree::start_state(), a + seq![EventView::Comment(t)] + b, set) == tree::run(
            tree::start_state(),
            a + b,
            set,
        ),
{
    lemma_left_out(tree::start_state(), a, EventView::Comment(t), b, set);
}

/// With processing instructions ignored, one might as well not be there.
pub proof fn lemma_pi_ignored(
    a: Seq<EventView>,
    raw: Seq<char>,
    b: Seq<EventView>,
    set: ParseSettings,
)
    requires
        set.ignore_pi,
    ensures
        tree::run(tree::start_state(), a + seq![EventView::Pi(raw)] + b, set) == tree::run(
            tree::start_state(),
            a + b,
            set,
        ),
{
    lemma_left_out(tree::start_state(), a, EventView::Pi(raw), b, set);
}

/// What is ignored makes no difference where there is none of it.
pub proof fn lemma_nothing_to_ignore(
    st: ParseState,
    evs: Seq<EventView>,
    one: ParseSettings,
    other: ParseSettings,
)
    requires
        one.ignore_white == other.ignore_white,
        one.ignore_comments != other.ignore_comments ==> forall|i: int|
            0 <= i < evs.len() ==> !(#[trigger] evs[i] is Comment),
        one.ignore_pi != other.ignore_pi ==> forall|i: int|
            0 <= i < evs.len() ==> !(#[trigger] evs[i] is Pi),
    ensures
        tree::run(st, evs, one) == tree::run(st, evs, other),
    decreases evs.len(),
{
    if evs.len() > 0 {
        assert(tree::step(st, evs[0], one) == tree::step(st, evs[0], other));
        assert forall|i: int| 0 <= i < evs.drop_first().len() implies #[trigger] evs.drop_first()[i]
            == evs[i + 1] by {}
        if !(evs[0] is Eof || evs[0] is Malformed) {
            lemma_nothing_to_ignore(tree::step(st, evs[0], one), evs.drop_first(), one, other);
        }
    }
}

} // verus!
