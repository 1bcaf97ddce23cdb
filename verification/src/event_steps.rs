//! Runs of events of which nothing is left out, a part at a time.

use crate::events::EventView;
use crate::events::ParseSettings;
use crate::tree;
use crate::tree::ParseState;
use vstd::prelude::*;

verus! {

/// Nothing is left out.
pub open spec fn keep_all() -> ParseSettings {
    ParseSettings { ignore_white: false, ignore_comments: false, ignore_pi: false }
}

/// The state after events that do not end the input.
pub open spec fn steps(st: ParseState, evs: Seq<EventView>) -> ParseState
    decreases evs.len(),
{
    if evs.len() == 0 {
        st
    } else {
        tree::step(steps(st, evs.drop_last()), evs.last(), keep_all())
    }
}

/// No event ends the input.
pub open spec fn going_on(evs: Seq<EventView>) -> bool {
    forall|i: int|
        0 <= i < evs.len() ==> !(#[trigger] evs[i] is Eof) && !(evs[i] is Malformed)
}

pub proof fn lemma_one_step(st: ParseState, ev: EventView)
    ensures
        steps(st, seq![ev]) == tree::step(st, ev, keep_all()),
{
    assert(seq![ev].drop_last() =~= Seq::<EventView>::empty());
    assert(steps(st, Seq::<EventView>::empty()) == st);
}

pub proof fn lemma_steps_concat(st: ParseState, a: Seq<EventView>, b: Seq<EventView>)
    ensures
        steps(st, a + b) == steps(steps(st, a), b),
    decreases b.len(),
{
    if b.len() == 0 {
        assert(a + b =~= a);
    } else {
        lemma_steps_concat(st, a, b.drop_last());
        assert((a + b).drop_last() =~= a + b.drop_last());
    }
}

/// A run of events is the steps of its front and then the run of the rest.
pub proof fn lemma_run_steps(st: ParseState, a: Seq<EventView>, b: Seq<EventView>)
    requires
        going_on(a),
    ensures
        tree::run(st, a + b, keep_all()) == tree::run(steps(st, a), b, keep_all()),
    decreases a.len(),
{
    if a.len() == 0 {
        assert(a + b =~= b);
    } else {
        let first = seq![a[0]];
        let rest = a.drop_first();
        assert(a =~= first + rest);
        lemma_steps_concat(st, first, rest);
        lemma_one_step(st, a[0]);
        assert((a + b)[0] == a[0]);
        assert((a + b).drop_first() =~= rest + b);
        lemma_run_steps(tree::step(st, a[0], keep_all()), rest, b);
    }
}

} // verus!
