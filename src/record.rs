//! The record of a walk: which nodes were visited, where, and what the
//! mutator did to each.

use vstd::prelude::*;

use crate::tree::{children, same_frame, KeyView, Value};

verus! {

/// The record of one visit: where it took place, the node before and after the
/// mutator's call, the mutator's answer, and the records of the visits to the
/// children of the node as the mutator left it.
pub struct Visit {
    pub at: Seq<KeyView>,
    pub before: Value,
    pub after: Value,
    pub descend: bool,
    pub below: Seq<Visit>,
}

/// The depth below which the walk goes no further. Depth is counted in a
/// `usize`; no call stack holds a walk that deep, so no run ever reaches it.
pub const MAX_DEPTH: usize = usize::MAX;

/// Whether the walk goes on to the children of the node of visit `t`: the
/// mutator asked for it and the node lies above `MAX_DEPTH`.
pub open spec fn goes_down(t: Visit) -> bool {
    t.descend && t.at.len() <= MAX_DEPTH
}

/// `t` records a walk that starts at the node `v`: the node is visited first;
/// where the mutator answers `true`, each child of the node as it was left is
/// walked in turn at its own position, and where it answers `false`, none.
/// Nothing is walked below `MAX_DEPTH`.
pub open spec fn walks(t: Visit, v: Value) -> bool
    decreases t,
{
    &&& t.before == v
    &&& if goes_down(t) {
        &&& t.below.len() == children(t.after).len()
        &&& forall|i: int|
            0 <= i < t.below.len() ==> {
                &&& (#[trigger] t.below[i]).at == t.at.push(children(t.after)[i].0)
                &&& walks(t.below[i], children(t.after)[i].1)
            }
    } else {
        t.below.len() == 0
    }
}

/// `u` is one of the visits recorded in `t`: `t` itself or one below it.
pub open spec fn occurs(u: Visit, t: Visit) -> bool
    decreases t,
{
    u == t || exists|i: int| 0 <= i < t.below.len() && occurs(u, #[trigger] t.below[i])
}

/// `r` is what the walk recorded in `t` leaves: the node as the mutator left
/// it, with each child replaced by what the walk of that child left.
pub open spec fn outcome(t: Visit, r: Value) -> bool
    decreases t,
{
    if goes_down(t) {
        &&& same_frame(t.after, r)
        &&& children(r).len() == t.below.len()
        &&& forall|i: int|
            0 <= i < t.below.len() ==> outcome(#[trigger] t.below[i], children(r)[i].1)
    } else {
        r == t.after
    }
}

/// The visits recorded in `t`, in the order in which the walk makes them:
/// the visit of the node, then the visits below each of its children in turn.
pub open spec fn preorder(t: Visit) -> Seq<Visit>
    decreases t, 1int, 0int,
{
    seq![t] + preorder_below(t, t.below.len() as int)
}

/// The visits recorded below the first `k` children of the node of `t`, in order.
pub open spec fn preorder_below(t: Visit, k: int) -> Seq<Visit>
    decreases t, 0int, k,
{
    if k <= 0 || k > t.below.len() {
        seq![]
    } else {
        preorder_below(t, k - 1) + preorder(t.below[k - 1])
    }
}

} // verus!
