//! The traversal engine and its model: a record of the visits it makes.

use vstd::prelude::*;

use crate::record::{goes_down, occurs, outcome, walks, Visit, MAX_DEPTH};
use crate::tree::{children, same_frame, Key, KeyView, Parent, Value};

verus! {

/// The mutator may be called on every node at every position.
pub open spec fn callable<M: FnMut(&mut Value, &Parent) -> bool>(m: M) -> bool {
    forall|a: &mut Value, p: &Parent| call_requires(m, (a, p))
}

/// Visits every node of `value` in pre-order and lets `mutator` rewrite it.
///
/// The root is visited first, at the position `Key::Root` with no parent.
/// Each node is handed to `mutator` with its position. Where the mutator answers
/// `true`, the children of the node as the mutator left it are visited in
/// turn: array elements by ascending index, object entries in order. Where it
/// answers `false`, none of them are visited. The walk does not go down below
/// `MAX_DEPTH`, a depth that no call stack reaches.
///
/// What is proved: there is a record `t` of visits, starting at the root, that
/// follows the tree as the mutator rewrites it (`walks`), in which every visit
/// is a call the mutator can make at that position, and of which the final
/// value is the outcome (`outcome`).
pub fn visit_mut<Mutator>(value: &mut Value, mut mutator: Mutator) where
    Mutator: FnMut(&mut Value, &Parent) -> bool,

    requires
        callable(mutator),
    ensures
        exists|t: Visit|
            {
                &&& t.at == seq![KeyView::Root]
                &&& walks(t, *old(value))
                &&& outcome(t, *final(value))
                &&& forall|u: Visit| #[trigger]
                    occurs(u, t) ==> exists|p: Parent, a: &mut Value|
                        {
                            &&& p.path() == u.at
                            &&& mut_ref_current(a) == u.before
                            &&& mut_ref_future(a) == u.after
                            &&& call_ensures(mutator, (a, &p), u.descend)
                        }
            },
{
    let root = Parent { key: Key::Root, parent: None };
    assert(root.path() == seq![KeyView::Root]);
    let _ = visit_node(value, &mut mutator, &root, 0);
}

/// Visits `value` at the position `parent`, then, if the mutator asks for it,
/// its children.
fn visit_node<M>(
    value: &mut Value,
    mutator: &mut M,
    parent: &Parent,
    depth: usize,
) -> (t: Ghost<Visit>) where M: FnMut(&mut Value, &Parent) -> bool
    requires
        callable(*old(mutator)),
        parent.path().len() == depth + 1,
    ensures
        *final(mutator) == *old(mutator),
        t@.at == parent.path(),
        walks(t@, *old(value)),
        outcome(t@, *final(value)),
        forall|u: Visit| #[trigger]
            occurs(u, t@) ==> exists|p: Parent, a: &mut Value|
                {
                    &&& p.path() == u.at
                    &&& mut_ref_current(a) == u.before
                    &&& mut_ref_future(a) == u.after
                    &&& call_ensures(*old(mutator), (a, &p), u.descend)
                },
    decreases MAX_DEPTH - depth, 1nat,
{
    let ghost m0 = *mutator;
    let ghost before = *value;
    let descend = mutator(value, parent);
    let ghost after = *value;
    assert(exists|p: Parent, a: &mut Value|
        {
            &&& p.path() == parent.path()
            &&& mut_ref_current(a) == before
            &&& mut_ref_future(a) == after
            &&& call_ensures(m0, (a, &p), descend)
        });
    if !descend || depth == MAX_DEPTH {
        let ghost t = Visit { at: parent.path(), before, after, descend, below: seq![] };
        assert(t.descend == descend);
        assert(exists|p: Parent, a: &mut Value|
            {
                &&& p.path() == t.at
                &&& mut_ref_current(a) == t.before
                &&& mut_ref_future(a) == t.after
                &&& call_ensures(m0, (a, &p), t.descend)
            });
        assert forall|u: Visit| #[trigger] occurs(u, t) implies exists|p: Parent, a: &mut Value|
            {
                &&& p.path() == u.at
                &&& mut_ref_current(a) == u.before
                &&& mut_ref_future(a) == u.after
                &&& call_ensures(m0, (a, &p), u.descend)
            } by {
            assert(u == t);
        }
        return Ghost(t);
    }
    let below = visit_children(value, mutator, parent, depth);
    let ghost t = Visit { at: parent.path(), before, after, descend, below: below@ };
    assert forall|u: Visit| #[trigger] occurs(u, t) && u != t implies exists|i: int|
        0 <= i < below@.len() && occurs(u, #[trigger] below@[i]) by {}
    Ghost(t)
}

/// Visits the children of `value` in turn, each at its own position below
/// `parent`.
fn visit_children<M>(
    value: &mut Value,
    mutator: &mut M,
    parent: &Parent,
    depth: usize,
) -> (below: Ghost<Seq<Visit>>) where M: FnMut(&mut Value, &Parent) -> bool
    requires
        callable(*old(mutator)),
        parent.path().len() == depth + 1,
        depth < MAX_DEPTH,
    ensures
        *final(mutator) == *old(mutator),
        same_frame(*old(value), *final(value)),
        below@.len() == children(*old(value)).len(),
        children(*final(value)).len() == below@.len(),
        forall|i: int|
            0 <= i < below@.len() ==> {
                &&& (#[trigger] below@[i]).at == parent.path().push(children(*old(value))[i].0)
                &&& walks(below@[i], children(*old(value))[i].1)
                &&& outcome(below@[i], children(*final(value))[i].1)
            },
        forall|i: int, u: Visit|
            0 <= i < below@.len() && #[trigger] occurs(u, below@[i]) ==> exists|
                p: Parent,
                a: &mut Value,
            |
                {
                    &&& p.path() == u.at
                    &&& mut_ref_current(a) == u.before
                    &&& mut_ref_future(a) == u.after
                    &&& call_ensures(*old(mutator), (a, &p), u.descend)
                },
    decreases MAX_DEPTH - depth, 0nat,
{
    let ghost start = *value;
    let ghost mut below: Seq<Visit> = seq![];
    match value {
        Value::Array(items) => {
            let ghost first = items@;
            assert(children(start) == Seq::new(first.len(), |j: int| (KeyView::Index(j as nat), first[j])));
            let n = items.len();
            let mut i: usize = 0;
            while i < n
                invariant
                    *mutator == *old(mutator),
                    callable(*mutator),
                    i <= n,
                    depth < MAX_DEPTH,
                    parent.path().len() == depth + 1,
                    n == first.len(),
                    items@.len() == n,
                    below.len() == i,
                    children(start) == Seq::new(first.len(), |j: int| (KeyView::Index(j as nat), first[j])),
                    forall|j: int| i <= j < n ==> items@[j] == first[j],
                    forall|j: int|
                        0 <= j < i ==> {
                            &&& (#[trigger] below[j]).at == parent.path().push(children(start)[j].0)
                            &&& walks(below[j], children(start)[j].1)
                            &&& outcome(below[j], items@[j])
                        },
                    forall|j: int, u: Visit|
                        0 <= j < i && #[trigger] occurs(u, below[j]) ==> exists|
                            p: Parent,
                            a: &mut Value,
                        |
                            {
                                &&& p.path() == u.at
                                &&& mut_ref_current(a) == u.before
                                &&& mut_ref_future(a) == u.after
                                &&& call_ensures(*mutator, (a, &p), u.descend)
                            },
                decreases n - i,
            {
                let here = Parent { key: Key::Index(i), parent: Some(parent) };
                assert(children(start)[i as int].0 == KeyView::Index(i as nat));
                let t = visit_node(&mut items[i], mutator, &here, depth + 1);
                proof {
                    below = below.push(t@);
                }
                i += 1;
            }
        },
        Value::Object(entries) => {
            let ghost first = entries@;
            assert(children(start) == Seq::new(first.len(), |j: int| (KeyView::Prop(first[j].0@), first[j].1)));
            let n = entries.len();
            let mut i: usize = 0;
            while i < n
                invariant
                    *mutator == *old(mutator),
                    callable(*mutator),
                    i <= n,
                    depth < MAX_DEPTH,
                    parent.path().len() == depth + 1,
                    n == first.len(),
                    entries@.len() == n,
                    below.len() == i,
                    children(start) == Seq::new(first.len(), |j: int| (KeyView::Prop(first[j].0@), first[j].1)),
                    forall|j: int| i <= j < n ==> entries@[j] == first[j],
                    forall|j: int| 0 <= j < n ==> entries@[j].0@ == first[j].0@,
                    forall|j: int|
                        0 <= j < i ==> {
                            &&& (#[trigger] below[j]).at == parent.path().push(children(start)[j].0)
                            &&& walks(below[j], children(start)[j].1)
                            &&& outcome(below[j], entries@[j].1)
                        },
                    forall|j: int, u: Visit|
                        0 <= j < i && #[trigger] occurs(u, below[j]) ==> exists|
                            p: Parent,
                            a: &mut Value,
                        |
                            {
                                &&& p.path() == u.at
                                &&& mut_ref_current(a) == u.before
                                &&& mut_ref_future(a) == u.after
                                &&& call_ensures(*mutator, (a, &p), u.descend)
                            },
                decreases n - i,
            {
                let entry = &mut entries[i];
                let here = Parent { key: Key::Prop(entry.0.as_str()), parent: Some(parent) };
                assert(children(start)[i as int].0 == KeyView::Prop(first[i as int].0@));
                let t = visit_node(&mut entry.1, mutator, &here, depth + 1);
                proof {
                    below = below.push(t@);
                }
                i += 1;
            }
        },
        _ => {},
    }
    Ghost(below)
}

} // verus!
