//! Insertion: the walk that finds the node of a value, or the place where a
//! node for it is to be hung.
//!
//! The tree is never rebalanced. Its shape depends on the order in which the
//! values came, and a run of rising or falling values makes it a chain.

use crate::tree::{leaf, linked, map_vals, owns, single_rooted, well_formed, Node};
use vstd::prelude::*;
use vstd::std_specs::cmp::{PartialEqSpec, PartialOrdIs, PartialOrdSpec};

verus! {

/// What an insertion does at a node: stop there, or go on to one side.
pub enum Step {
    Here,
    Left,
    Right,
}

/// The types whose `==` and `<` are what their specifications say.
pub open spec fn comparable<T: PartialOrd>() -> bool {
    T::obeys_eq_spec() && T::obeys_partial_cmp_spec()
}

/// How an insertion of `val` treats each stored value: it stops at one equal
/// to `val`, goes left from one that is less than `val`, and right otherwise.
///
/// Larger values therefore gather on the left, the reverse of the usual
/// convention for search trees.
pub open spec fn step_toward<T: PartialOrd>(val: T) -> spec_fn(T) -> Step {
    |stored: T|
        if stored.eq_spec(&val) {
            Step::Here
        } else if stored.is_lt(&val) {
            Step::Left
        } else {
            Step::Right
        }
}

/// The link that `step` follows out of `node`.
pub open spec fn toward<T>(node: Node<T>, step: Step) -> Option<usize> {
    match step {
        Step::Here => None,
        Step::Left => node.left_idx,
        Step::Right => node.right_idx,
    }
}

/// Where a walk that starts at `at` ends: the last node it visits, and the
/// step it wanted to take from there. `Here` means that the node was the one
/// looked for; `Left` or `Right`, that the walk fell off the tree on that side.
pub open spec fn walk<T>(nodes: Seq<Node<T>>, route: spec_fn(T) -> Step, at: int) -> (int, Step)
    decreases nodes.len() - at,
{
    let step = route(nodes[at].val);
    match toward(nodes[at], step) {
        Some(next) => if at < next < nodes.len() {
            walk(nodes, route, next as int)
        } else {
            (at, step)
        },
        None => (at, step),
    }
}

/// The position of the node that an insertion starting at `start` ends on:
/// the one it found, or the one it appends.
pub open spec fn landing<T>(nodes: Seq<Node<T>>, route: spec_fn(T) -> Step, start: int) -> int {
    if nodes.len() == 0 {
        0
    } else if walk(nodes, route, start).1 is Here {
        walk(nodes, route, start).0
    } else {
        nodes.len() as int
    }
}

/// `nodes` after `val` has been hung under the node at `at`, on the side `step`.
pub open spec fn attached<T>(nodes: Seq<Node<T>>, at: int, step: Step, val: T) -> Seq<Node<T>> {
    let fresh = Some(nodes.len() as usize);
    let above = match step {
        Step::Here => nodes[at],
        Step::Left => Node { left_idx: fresh, ..nodes[at] },
        Step::Right => Node { right_idx: fresh, ..nodes[at] },
    };
    nodes.update(at, above).push(leaf(nodes.len() as int, Some(at as usize), val))
}

/// The arena after an insertion of `val` that starts at `start`: unchanged
/// where the walk finds its node, and one node longer where it does not.
pub open spec fn grown<T>(nodes: Seq<Node<T>>, route: spec_fn(T) -> Step, start: int, val: T) -> Seq<Node<T>> {
    if nodes.len() == 0 {
        seq![leaf(0, None, val)]
    } else {
        let (at, step) = walk(nodes, route, start);
        if step is Here {
            nodes
        } else {
            attached(nodes, at, step, val)
        }
    }
}

/// `nodes` with `val` in place of the value stored at `at`.
pub open spec fn holding<T>(nodes: Seq<Node<T>>, at: int, val: T) -> Seq<Node<T>> {
    nodes.update(at, Node { val, ..nodes[at] })
}

/// The route over stored values that looks at each value through `f`.
pub open spec fn through<T, U>(f: spec_fn(T) -> U, route: spec_fn(U) -> Step) -> spec_fn(T) -> Step {
    |v: T| route(f(v))
}

/// A walk ends on a node of the arena, at or after the one it started from.
pub proof fn lemma_walk_stays<T>(nodes: Seq<Node<T>>, route: spec_fn(T) -> Step, at: int)
    requires
        0 <= at < nodes.len(),
    ensures
        at <= walk(nodes, route, at).0 < nodes.len(),
    decreases nodes.len() - at,
{
    let step = route(nodes[at].val);
    if let Some(next) = toward(nodes[at], step) {
        if at < next < nodes.len() {
            lemma_walk_stays(nodes, route, next as int);
        }
    }
}

/// A walk stays in the arena and never turns back; and where it stops short
/// of its value, the link it wanted to follow is absent.
pub proof fn lemma_walk_ends<T>(nodes: Seq<Node<T>>, route: spec_fn(T) -> Step, at: int)
    requires
        well_formed(nodes),
        0 <= at < nodes.len(),
    ensures
        at <= walk(nodes, route, at).0 < nodes.len(),
        toward(nodes[walk(nodes, route, at).0], walk(nodes, route, at).1) is None,
        walk(nodes, route, at).1 == route(nodes[walk(nodes, route, at).0].val),
    decreases nodes.len() - at,
{
    let step = route(nodes[at].val);
    if let Some(next) = toward(nodes[at], step) {
        lemma_walk_ends(nodes, route, next as int);
    }
}

/// An insertion lands on a node of the grown arena, which is the arena itself
/// or one node longer.
pub proof fn lemma_landing_in_range<T>(nodes: Seq<Node<T>>, route: spec_fn(T) -> Step, start: int, val: T)
    requires
        nodes.len() > 0 ==> 0 <= start < nodes.len(),
    ensures
        0 <= landing(nodes, route, start) < grown(nodes, route, start, val).len(),
        nodes.len() <= grown(nodes, route, start, val).len() <= nodes.len() + 1,
{
    if nodes.len() > 0 {
        lemma_walk_stays(nodes, route, start);
    }
}

/// A well-formed arena stays well formed as it grows, whatever the node that
/// the insertion landed on comes to hold; and so do its parent links stay
/// answered, and its first node the only root.
pub proof fn lemma_grown_keeps_form<T>(
    nodes: Seq<Node<T>>,
    route: spec_fn(T) -> Step,
    start: int,
    val: T,
    kept: T,
)
    requires
        well_formed(nodes),
        nodes.len() > 0 ==> 0 <= start < nodes.len(),
        nodes.len() < usize::MAX,
    ensures
        well_formed(holding(grown(nodes, route, start, val), landing(nodes, route, start), kept)),
        linked(nodes) ==> linked(
            holding(grown(nodes, route, start, val), landing(nodes, route, start), kept),
        ),
        single_rooted(nodes) ==> single_rooted(
            holding(grown(nodes, route, start, val), landing(nodes, route, start), kept),
        ),
{
    let after = grown(nodes, route, start, val);
    let at = landing(nodes, route, start);
    if nodes.len() > 0 {
        lemma_walk_ends(nodes, route, start);
    }
    let held = holding(after, at, kept);
    assert forall|i: int| 0 <= i < held.len() implies {
        &&& (#[trigger] held[i]).idx == i
        &&& owns(held, i, held[i].left_idx)
        &&& owns(held, i, held[i].right_idx)
        &&& (held[i].left_idx is Some ==> held[i].left_idx != held[i].right_idx)
    } by {
        if i < nodes.len() {
            assert(nodes[i].idx == i);
            if let Some(c) = nodes[i].left_idx {
                assert(held[c as int].parent_idx == nodes[c as int].parent_idx);
            }
            if let Some(c) = nodes[i].right_idx {
                assert(held[c as int].parent_idx == nodes[c as int].parent_idx);
            }
        }
    }
    if linked(nodes) {
        assert forall|i: int| 0 <= i < held.len() implies ((#[trigger] held[i]).parent_idx matches Some(
            p,
        ) ==> p < i && (held[p as int].left_idx == Some(i as usize) || held[p as int].right_idx == Some(
            i as usize,
        ))) by {
            if i < nodes.len() {
                assert(nodes[i].parent_idx == held[i].parent_idx);
                if let Some(p) = nodes[i].parent_idx {
                    assert(nodes[p as int].idx == p);
                }
            }
        }
    }
    if single_rooted(nodes) {
        assert forall|i: int| 0 <= i < held.len() implies ((#[trigger] held[i]).parent_idx is None <==> i
            == 0) by {
            if i < nodes.len() {
                assert(nodes[i].parent_idx == held[i].parent_idx);
            }
        }
    }
}

/// An insertion that found or made its node is found again: once the node
/// that an insertion landed on holds a value at which the route stops, a
/// second walk along the same route ends on that node, and appends nothing.
pub proof fn lemma_walk_returns<T>(
    nodes: Seq<Node<T>>,
    route: spec_fn(T) -> Step,
    start: int,
    val: T,
    kept: T,
)
    requires
        well_formed(nodes),
        0 <= start < nodes.len() < usize::MAX,
        route(kept) is Here,
    ensures
        walk(
            holding(grown(nodes, route, start, val), landing(nodes, route, start), kept),
            route,
            start,
        ) == (landing(nodes, route, start), Step::Here),
    decreases nodes.len() - start,
{
    let at = landing(nodes, route, start);
    let after = holding(grown(nodes, route, start, val), at, kept);
    let step = route(nodes[start].val);
    lemma_walk_ends(nodes, route, start);
    match toward(nodes[start], step) {
        Some(next) => {
            lemma_walk_ends(nodes, route, next as int);
            lemma_walk_returns(nodes, route, next as int, val, kept);
            assert(walk(nodes, route, start) == walk(nodes, route, next as int));
            assert(at != start);
            assert(after[start].val == nodes[start].val);
            assert(toward(after[start], step) == Some(next));
        },
        None => {
            assert(walk(nodes, route, start) == (start, step));
            if step is Here {
                assert(after[start].val == kept);
            } else {
                let fresh = nodes.len() as int;
                assert(after[start].val == nodes[start].val);
                assert(toward(after[start], step) == Some(fresh as usize));
                assert(after[fresh].val == kept);
                assert(toward(after[fresh], route(kept)) is None);
                assert(walk(after, route, fresh) == (fresh, Step::Here));
            }
        },
    }
}

/// Two values that compare alike share a node: once `first` has been
/// inserted, an insertion of `second` that starts from the same place finds
/// the node that the first one landed on and appends nothing, provided that
/// the value `kept` in that node still equals `second`. From an empty arena
/// both insertions start at the only node there is.
///
/// That the two compare alike is asked of every stored value: for a type
/// whose `==` and `<` form a lawful order it follows from `first == second`.
pub proof fn lemma_equal_values_share_a_node<T: PartialOrd>(
    nodes: Seq<Node<T>>,
    first: T,
    second: T,
    start: int,
    kept: T,
)
    requires
        well_formed(nodes),
        nodes.len() > 0 ==> 0 <= start < nodes.len(),
        nodes.len() < usize::MAX,
        step_toward(first) == step_toward(second),
        step_toward(second)(kept) is Here,
    ensures
        ({
            let at = landing(nodes, step_toward(first), start);
            let once = holding(grown(nodes, step_toward(first), start, first), at, kept);
            let again = if nodes.len() == 0 {
                0
            } else {
                start
            };
            &&& grown(once, step_toward(second), again, second) == once
            &&& landing(once, step_toward(second), again) == at
        }),
{
    let route = step_toward(first);
    if nodes.len() > 0 {
        lemma_walk_returns(nodes, route, start, first, kept);
    } else {
        let once = holding(grown(nodes, route, start, first), 0, kept);
        assert(toward(once[0], route(kept)) is None);
    }
}

/// A walk sees the stored values only through its route: walking the mapped
/// nodes is walking the nodes themselves along the route taken after mapping.
pub proof fn lemma_walk_map<T, U>(
    nodes: Seq<Node<T>>,
    f: spec_fn(T) -> U,
    route: spec_fn(U) -> Step,
    at: int,
)
    requires
        0 <= at < nodes.len(),
    ensures
        walk(map_vals(nodes, f), route, at) == walk(nodes, through(f, route), at),
    decreases nodes.len() - at,
{
    let mapped = map_vals(nodes, f);
    let step = route(mapped[at].val);
    assert(step == through(f, route)(nodes[at].val));
    assert(toward(mapped[at], step) == toward(nodes[at], step));
    if let Some(next) = toward(nodes[at], step) {
        if at < next < nodes.len() {
            lemma_walk_map(nodes, f, route, next as int);
        }
    }
}

/// Insertion and mapping can be done in either order: the mapped arena grows
/// as the arena itself does, and the insertion lands on the same position.
pub proof fn lemma_grown_map<T, U>(
    nodes: Seq<Node<T>>,
    f: spec_fn(T) -> U,
    route: spec_fn(U) -> Step,
    start: int,
    val: T,
)
    requires
        nodes.len() > 0 ==> 0 <= start < nodes.len(),
    ensures
        map_vals(grown(nodes, through(f, route), start, val), f) == grown(
            map_vals(nodes, f),
            route,
            start,
            f(val),
        ),
        landing(nodes, through(f, route), start) == landing(map_vals(nodes, f), route, start),
{
    let mapped = map_vals(nodes, f);
    let left = map_vals(grown(nodes, through(f, route), start, val), f);
    let right = grown(mapped, route, start, f(val));
    if nodes.len() > 0 {
        lemma_walk_map(nodes, f, route, start);
        lemma_walk_stays(nodes, through(f, route), start);
        let (at, step) = walk(nodes, through(f, route), start);
        if !(step is Here) {
            let grew = attached(nodes, at, step, val);
            assert(left.len() == right.len());
            assert forall|i: int| 0 <= i < left.len() implies left[i] == right[i] by {
                if i == at {
                    assert(mapped[at].val == f(nodes[at].val));
                } else if i < nodes.len() {
                    assert(grew[i] == nodes[i]);
                }
            }
        }
    }
    assert(left =~= right);
}

/// Replacing a stored value and mapping can be done in either order.
pub proof fn lemma_holding_map<T, U>(nodes: Seq<Node<T>>, f: spec_fn(T) -> U, at: int, val: T)
    requires
        0 <= at < nodes.len(),
    ensures
        map_vals(holding(nodes, at, val), f) == holding(map_vals(nodes, f), at, f(val)),
{
    assert(map_vals(holding(nodes, at, val), f) =~= holding(map_vals(nodes, f), at, f(val)));
}

} // verus!
