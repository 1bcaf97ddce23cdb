//! Sorting positions by any strict total order.

use vstd::prelude::*;

verus! {

/// A strict total order on the positions below `count`.
pub trait PositionOrder {
    spec fn count(&self) -> nat;

    spec fn before(&self, a: int, b: int) -> bool;

    proof fn lemma_total(&self, a: int, b: int)
        requires
            0 <= a < self.count(),
            0 <= b < self.count(),
            a != b,
        ensures
            self.before(a, b) || self.before(b, a),
    ;

    proof fn lemma_transitive(&self, a: int, b: int, c: int)
        requires
            0 <= a < self.count(),
            0 <= b < self.count(),
            0 <= c < self.count(),
            self.before(a, b),
            self.before(b, c),
        ensures
            self.before(a, c),
    ;

    fn is_before(&self, a: u32, b: u32) -> (r: bool)
        requires
            a < self.count(),
            b < self.count(),
        ensures
            r == self.before(a as int, b as int),
    ;
}

/// `s` holds the positions from `lo` up to `hi`, each once, in order.
pub open spec fn ordered_run<O: PositionOrder>(o: &O, s: Seq<u32>, lo: int, hi: int) -> bool {
    &&& s.len() == hi - lo
    &&& forall|k: int| 0 <= k < s.len() ==> lo <= #[trigger] s[k] < hi
    &&& forall|x: int| lo <= x < hi ==> s.contains(#[trigger] (x as u32))
    &&& forall|k: int, l: int|
        0 <= k < l < s.len() ==> o.before(#[trigger] s[k] as int, #[trigger] s[l] as int)
}

/// Merges two runs that lie one behind the other.
fn merge<O: PositionOrder>(
    o: &O,
    left: &Vec<u32>,
    right: &Vec<u32>,
    Ghost(lo): Ghost<int>,
    Ghost(mid): Ghost<int>,
    Ghost(hi): Ghost<int>,
) -> (out: Vec<u32>)
    requires
        0 <= lo <= mid <= hi <= o.count(),
        hi <= u32::MAX,
        ordered_run(o, left@, lo, mid),
        ordered_run(o, right@, mid, hi),
    ensures
        ordered_run(o, out@, lo, hi),
{
    let mut out: Vec<u32> = Vec::new();
    let mut i: usize = 0;
    let mut j: usize = 0;
    while i < left.len() || j < right.len()
        invariant
            i <= left@.len(),
            j <= right@.len(),
            0 <= lo <= mid <= hi <= o.count(),
            hi <= u32::MAX,
            ordered_run(o, left@, lo, mid),
            ordered_run(o, right@, mid, hi),
            out@.len() == i + j,
            forall|k: int| 0 <= k < out@.len() ==> lo <= #[trigger] out@[k] < hi,
            forall|k: int| 0 <= k < i ==> out@.contains(#[trigger] left@[k]),
            forall|k: int| 0 <= k < j ==> out@.contains(#[trigger] right@[k]),
            forall|k: int, l: int|
                0 <= k < l < out@.len() ==> o.before(
                    #[trigger] out@[k] as int,
                    #[trigger] out@[l] as int,
                ),
            forall|k: int, l: int|
                0 <= k < out@.len() && i <= l < left@.len() ==> o.before(
                    #[trigger] out@[k] as int,
                    #[trigger] left@[l] as int,
                ),
            forall|k: int, l: int|
                0 <= k < out@.len() && j <= l < right@.len() ==> o.before(
                    #[trigger] out@[k] as int,
                    #[trigger] right@[l] as int,
                ),
        decreases left@.len() - i + right@.len() - j,
    {
        let ghost before = out@;
        let take_left: bool = if i >= left.len() {
            false
        } else if j >= right.len() {
            true
        } else {
            o.is_before(left[i], right[j])
        };
        if take_left {
            let x: u32 = left[i];
            proof {
                assert forall|l: int| j <= l < right@.len() implies o.before(
                    x as int,
                    #[trigger] right@[l] as int,
                ) by {
                    if l > j {
                        assert(o.before(right@[j as int] as int, right@[l] as int));
                        o.lemma_transitive(x as int, right@[j as int] as int, right@[l] as int);
                    }
                }
            }
            out.push(x);
            proof {
                lemma_push_contains(before, x);
            }
            i += 1;
        } else {
            let x: u32 = right[j];
            proof {
                if i < left@.len() {
                    o.lemma_total(left@[i as int] as int, x as int);
                }
                assert forall|l: int| i <= l < left@.len() implies o.before(
                    x as int,
                    #[trigger] left@[l] as int,
                ) by {
                    if l > i {
                        assert(o.before(left@[i as int] as int, left@[l] as int));
                        o.lemma_transitive(x as int, left@[i as int] as int, left@[l] as int);
                    }
                }
            }
            out.push(x);
            proof {
                lemma_push_contains(before, x);
            }
            j += 1;
        }
    }
    assert forall|x: int| lo <= x < hi implies out@.contains(#[trigger] (x as u32)) by {
        if x < mid {
            assert(left@.contains(x as u32));
            let k = choose|k: int| 0 <= k < left@.len() && left@[k] == x as u32;
            assert(out@.contains(left@[k]));
        } else {
            assert(right@.contains(x as u32));
            let k = choose|k: int| 0 <= k < right@.len() && right@[k] == x as u32;
            assert(out@.contains(right@[k]));
        }
    }
    out
}

proof fn lemma_push_contains(s: Seq<u32>, x: u32)
    ensures
        s.push(x).contains(x),
        forall|y: u32| #[trigger] s.contains(y) ==> s.push(x).contains(y),
{
    assert(s.push(x)[s.len() as int] == x);
    assert forall|y: u32| #[trigger] s.contains(y) implies s.push(x).contains(y) by {
        let k = choose|k: int| 0 <= k < s.len() && s[k] == y;
        assert(s.push(x)[k] == y);
    }
}

/// Sorts the positions from `lo` up to `hi`.
fn sort_range<O: PositionOrder>(o: &O, lo: u32, hi: u32) -> (out: Vec<u32>)
    requires
        lo <= hi <= o.count(),
    ensures
        ordered_run(o, out@, lo as int, hi as int),
    decreases hi - lo,
{
    if hi - lo == 0 {
        return Vec::new();
    }
    if hi - lo == 1 {
        let mut out: Vec<u32> = Vec::new();
        out.push(lo);
        assert(out@[0] == lo);
        assert forall|x: int| lo <= x < hi implies out@.contains(#[trigger] (x as u32)) by {
            assert(out@[0] == x as u32);
        }
        return out;
    }
    let mid: u32 = lo + (hi - lo) / 2;
    let left = sort_range(o, lo, mid);
    let right = sort_range(o, mid, hi);
    merge(o, &left, &right, Ghost(lo as int), Ghost(mid as int), Ghost(hi as int))
}

/// All positions in order.
pub fn sort_positions<O: PositionOrder>(o: &O, n: u32) -> (out: Vec<u32>)
    requires
        n == o.count(),
    ensures
        ordered_run(o, out@, 0, n as int),
{
    sort_range(o, 0, n)
}

} // verus!
