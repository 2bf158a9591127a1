//! What holds of every walk, stated over its record.

use vstd::prelude::*;

use crate::record::{goes_down, occurs, preorder, preorder_below, walks, Visit};
use crate::tree::{children, distinct_keys, Key, KeyView, Parent};

verus! {

/// Where the visits below the `i`-th child of the node of `t` start in
/// `preorder(t)`.
pub open spec fn child_start(t: Visit, i: int) -> int {
    1 + preorder_below(t, i).len() as int
}

proof fn lemma_below_prefix(t: Visit, k: int, i: int)
    requires
        0 <= i < k <= t.below.len(),
    ensures
        preorder_below(t, k).len() >= preorder_below(t, i + 1).len(),
        preorder_below(t, k)[preorder_below(t, i).len() as int] == t.below[i],
    decreases k,
{
    let a = preorder_below(t, k - 1);
    let b = preorder(t.below[k - 1]);
    lemma_preorder_first(t.below[k - 1]);
    lemma_preorder_first(t.below[i]);
    assert(preorder_below(t, k) == a + b);
    if i + 1 < k {
        lemma_below_prefix(t, k - 1, i);
        assert(preorder_below(t, i + 1) == preorder_below(t, i) + preorder(t.below[i]));
        assert((a + b)[preorder_below(t, i).len() as int] == a[preorder_below(t, i).len() as int]);
    } else {
        assert((a + b)[a.len() as int] == b[0]);
    }
}

proof fn lemma_preorder_first(t: Visit)
    ensures
        preorder(t).len() >= 1,
        preorder(t)[0] == t,
{
}

/// A walk visits the node before anything below it, and then the children of
/// the node in their order, each before the next: the visit of the `i`-th child
/// stands at `child_start(t, i)` in the order of visits, and these places grow
/// with `i`.
pub proof fn law_preorder(t: Visit)
    ensures
        preorder(t)[0] == t,
        forall|i: int|
            0 <= i < t.below.len() ==> {
                &&& 1 <= #[trigger] child_start(t, i) < preorder(t).len()
                &&& preorder(t)[child_start(t, i)] == t.below[i]
            },
        forall|i: int, j: int|
            0 <= i < j < t.below.len() ==> #[trigger] child_start(t, i) < #[trigger] child_start(
                t,
                j,
            ),
{
    assert forall|i: int| 0 <= i < t.below.len() implies {
        &&& 1 <= #[trigger] child_start(t, i) < preorder(t).len()
        &&& preorder(t)[child_start(t, i)] == t.below[i]
    } by {
        lemma_below_prefix(t, t.below.len() as int, i);
        let p = preorder_below(t, t.below.len() as int);
        lemma_preorder_first(t.below[i]);
        assert(preorder_below(t, i + 1) == preorder_below(t, i) + preorder(t.below[i]));
        assert(preorder(t) == seq![t] + p);
        assert((seq![t] + p)[child_start(t, i)] == p[child_start(t, i) - 1]);
    }
    assert forall|i: int, j: int| 0 <= i < j < t.below.len() implies #[trigger] child_start(t, i)
        < #[trigger] child_start(t, j) by {
        lemma_below_prefix(t, j, i);
        lemma_preorder_first(t.below[i]);
    }
}

/// Each visit recorded in a walk is itself the record of a walk of the node it
/// starts from, at a position below that of the whole walk.
pub proof fn law_sub_walk(t: Visit, v: crate::tree::Value, u: Visit)
    requires
        walks(t, v),
        occurs(u, t),
    ensures
        walks(u, u.before),
        t.at.len() <= u.at.len(),
        u.at.subrange(0, t.at.len() as int) == t.at,
    decreases t,
{
    if u != t {
        let i = choose|i: int| 0 <= i < t.below.len() && occurs(u, #[trigger] t.below[i]);
        law_sub_walk(t.below[i], children(t.after)[i].1, u);
        assert(t.below[i].at.subrange(0, t.at.len() as int) == t.at);
        assert(u.at.subrange(0, t.at.len() as int) == u.at.subrange(
            0,
            t.below[i].at.len() as int,
        ).subrange(0, t.at.len() as int));
    }
}

/// Where the mutator answers `false`, nothing below the node is visited: the
/// visits below it are none, so the walk of the node is that one visit.
pub proof fn law_gated(t: Visit, v: crate::tree::Value, u: Visit)
    requires
        walks(t, v),
        occurs(u, t),
        !u.descend,
    ensures
        u.below.len() == 0,
        preorder(u) == seq![u],
{
    law_sub_walk(t, v, u);
    assert(preorder(u) =~= seq![u]);
}

/// Where the walk goes down, it visits the children of the node as the
/// mutator left it, each once, in their order and at its own position: the
/// `i`-th visit below is that of the `i`-th child, and comes after the ones
/// before it.
pub proof fn law_children_visited(t: Visit, v: crate::tree::Value)
    requires
        walks(t, v),
        goes_down(t),
    ensures
        t.below.len() == children(t.after).len(),
        forall|i: int|
            0 <= i < t.below.len() ==> {
                &&& (#[trigger] t.below[i]).before == children(t.after)[i].1
                &&& t.below[i].at == t.at.push(children(t.after)[i].0)
                &&& preorder(t)[child_start(t, i)] == t.below[i]
            },
        forall|i: int, j: int|
            0 <= i < j < t.below.len() ==> #[trigger] child_start(t, i) < #[trigger] child_start(
                t,
                j,
            ),
{
    law_preorder(t);
    assert forall|i: int| 0 <= i < t.below.len() implies (#[trigger] t.below[i]).before
        == children(t.after)[i].1 by {
        assert(walks(t.below[i], children(t.after)[i].1));
    }
}

/// Every node that a walk went down into had distinct keys, as the mutator
/// left it.
pub open spec fn keys_distinct(t: Visit) -> bool
    decreases t,
{
    &&& (goes_down(t) ==> distinct_keys(t.after))
    &&& forall|i: int| 0 <= i < t.below.len() ==> keys_distinct(#[trigger] t.below[i])
}

/// The position `b` lies at or below the position `a`.
pub open spec fn extends(a: Seq<KeyView>, b: Seq<KeyView>) -> bool {
    a.len() <= b.len() && b.subrange(0, a.len() as int) == a
}

proof fn lemma_extends_trans(a: Seq<KeyView>, b: Seq<KeyView>, c: Seq<KeyView>)
    requires
        extends(a, b),
        extends(b, c),
    ensures
        extends(a, c),
{
    assert(c.subrange(0, a.len() as int) =~= c.subrange(0, b.len() as int).subrange(
        0,
        a.len() as int,
    ));
}

proof fn lemma_positions(t: Visit, v: crate::tree::Value)
    requires
        walks(t, v),
    ensures
        forall|k: int| 0 <= k < preorder(t).len() ==> extends(t.at, #[trigger] preorder(t)[k].at),
        forall|k: int|
            1 <= k < preorder(t).len() ==> exists|i: int|
                0 <= i < t.below.len() && extends(t.below[i].at, #[trigger] preorder(t)[k].at),
    decreases t, 1int,
{
    let n = t.below.len() as int;
    lemma_below_positions(t, v, n);
    let p = preorder_below(t, n);
    assert(preorder(t) == seq![t] + p);
    assert forall|k: int| 0 <= k < preorder(t).len() implies extends(
        t.at,
        #[trigger] preorder(t)[k].at,
    ) by {
        if k == 0 {
            assert(t.at.subrange(0, t.at.len() as int) =~= t.at);
        } else {
            assert(preorder(t)[k] == p[k - 1]);
            let i = choose|i: int| 0 <= i < n && extends(t.below[i].at, p[k - 1].at);
            assert(t.below[i].at.subrange(0, t.at.len() as int) =~= t.at);
            lemma_extends_trans(t.at, t.below[i].at, p[k - 1].at);
        }
    }
    assert forall|k: int| 1 <= k < preorder(t).len() implies exists|i: int|
        0 <= i < t.below.len() && extends(t.below[i].at, #[trigger] preorder(t)[k].at) by {
        assert(preorder(t)[k] == p[k - 1]);
    }
}

proof fn lemma_below_positions(t: Visit, v: crate::tree::Value, m: int)
    requires
        walks(t, v),
        0 <= m <= t.below.len(),
    ensures
        forall|k: int|
            0 <= k < preorder_below(t, m).len() ==> exists|i: int|
                0 <= i < m && extends(t.below[i].at, #[trigger] preorder_below(t, m)[k].at),
    decreases t, 0int, m,
{
    if m > 0 {
        lemma_below_positions(t, v, m - 1);
        let c = t.below[m - 1];
        assert(walks(c, children(t.after)[m - 1].1));
        lemma_positions(c, children(t.after)[m - 1].1);
        let a = preorder_below(t, m - 1);
        let b = preorder(c);
        assert(preorder_below(t, m) == a + b);
        assert forall|k: int| 0 <= k < preorder_below(t, m).len() implies exists|i: int|
            0 <= i < m && extends(t.below[i].at, #[trigger] preorder_below(t, m)[k].at) by {
            if k < a.len() {
                assert(preorder_below(t, m)[k] == a[k]);
                let i = choose|i: int| 0 <= i < m - 1 && extends(t.below[i].at, #[trigger] a[k].at);
            } else {
                assert(preorder_below(t, m)[k] == b[k - a.len()]);
                assert(extends(c.at, b[k - a.len()].at));
            }
        }
    }
}

/// A walk visits each position at most once, where the keys of every node it
/// goes down into are distinct: no two visits in the order of `preorder(t)`
/// take place at the same position.
pub proof fn law_visited_once(t: Visit, v: crate::tree::Value)
    requires
        walks(t, v),
        keys_distinct(t),
    ensures
        forall|j: int, k: int|
            0 <= j < k < preorder(t).len() ==> #[trigger] preorder(t)[j].at != #[trigger] preorder(
                t,
            )[k].at,
    decreases t, 1int,
{
    let n = t.below.len() as int;
    lemma_positions(t, v);
    lemma_below_distinct(t, v, n);
    let p = preorder_below(t, n);
    assert(preorder(t) == seq![t] + p);
    assert forall|j: int, k: int| 0 <= j < k < preorder(t).len() implies #[trigger] preorder(
        t,
    )[j].at != #[trigger] preorder(t)[k].at by {
        if j == 0 {
            let i = choose|i: int| 0 <= i < n && extends(t.below[i].at, preorder(t)[k].at);
            assert(walks(t.below[i], children(t.after)[i].1));
        } else {
            assert(preorder(t)[j] == p[j - 1]);
            assert(preorder(t)[k] == p[k - 1]);
        }
    }
}

proof fn lemma_below_distinct(t: Visit, v: crate::tree::Value, m: int)
    requires
        walks(t, v),
        keys_distinct(t),
        0 <= m <= t.below.len(),
    ensures
        forall|j: int, k: int|
            0 <= j < k < preorder_below(t, m).len() ==> #[trigger] preorder_below(t, m)[j].at
                != #[trigger] preorder_below(t, m)[k].at,
    decreases t, 0int, m,
{
    if m > 0 {
        lemma_below_distinct(t, v, m - 1);
        lemma_below_positions(t, v, m - 1);
        let c = t.below[m - 1];
        assert(walks(c, children(t.after)[m - 1].1));
        assert(keys_distinct(c));
        law_visited_once(c, children(t.after)[m - 1].1);
        lemma_positions(c, children(t.after)[m - 1].1);
        let a = preorder_below(t, m - 1);
        let b = preorder(c);
        let q = preorder_below(t, m);
        assert(q == a + b);
        assert forall|j: int, k: int| 0 <= j < k < q.len() implies #[trigger] q[j].at
            != #[trigger] q[k].at by {
            if k < a.len() {
                assert(q[j] == a[j] && q[k] == a[k]);
            } else if j >= a.len() {
                assert(q[j] == b[j - a.len()] && q[k] == b[k - a.len()]);
            } else {
                assert(q[j] == a[j] && q[k] == b[k - a.len()]);
                let i = choose|i: int| 0 <= i < m - 1 && extends(t.below[i].at, #[trigger] a[j].at);
                let d = t.at.len() as int;
                assert(extends(c.at, b[k - a.len()].at));
                assert(t.below[i].at[d] == children(t.after)[i].0);
                assert(c.at[d] == children(t.after)[m - 1].0);
                assert(children(t.after)[i].0 != children(t.after)[m - 1].0);
                assert(a[j].at.subrange(0, d + 1)[d] == t.below[i].at[d]);
                assert(b[k - a.len()].at.subrange(0, d + 1)[d] == c.at[d]);
            }
        }
    }
}

proof fn lemma_path_nonempty(p: Parent)
    ensures
        p.path().len() >= 1,
        p.path().last() == p.key@,
    decreases p,
{
    if let Some(q) = p.parent {
        lemma_path_nonempty(*q);
    }
}

/// The position at which a walk visits its root, `[Root]`, is that of a
/// context with the root's key and no parent: its chain of ancestors is empty.
pub proof fn law_root_position(p: Parent)
    requires
        p.path() == seq![KeyView::Root],
    ensures
        p.parent is None,
        p.key is Root,
{
    lemma_path_nonempty(p);
    if let Some(q) = p.parent {
        lemma_path_nonempty(*q);
    }
    match p.key {
        Key::Root => {},
        Key::Index(_) => {},
        Key::Prop(_) => {},
    }
}

} // verus!
