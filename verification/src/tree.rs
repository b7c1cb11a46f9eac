//! An arena tree: a binary tree whose nodes live in one growable store and
//! name each other by position in that store.
//!
//! Nodes are only ever appended, so a position, once handed out, stays valid
//! and keeps naming the same node. The model of a tree is the sequence of its
//! nodes in arena order; every contract is stated over that sequence. What a
//! bulk load appends is defined in [`crate::bulk_load`], what an insertion
//! does in [`crate::insertion`].

use crate::bulk_load::{
    balanced, copies, copy_of, depth, lemma_append_subtree, lemma_balanced_height, lemma_balanced_is_subtree,
    lemma_balanced_len, lemma_copies_keep_subtree, levels_for,
};
use crate::insertion::{comparable, grown, holding, landing, step_toward};
use std::slice::Iter;
use vstd::prelude::*;
use vstd::std_specs::iter::IteratorSpec;
use vstd::std_specs::slice::into_iter_elts;

verus! {

/// One node of the arena: its own position, the positions of its relatives,
/// and the value it stores.
#[derive(Debug)]
pub struct Node<T> {
    pub idx: usize,
    pub left_idx: Option<usize>,
    pub right_idx: Option<usize>,
    pub parent_idx: Option<usize>,
    pub val: T,
}

/// The arena. Its view is the sequence of nodes in the order they were added.
#[derive(Debug)]
pub struct Tree<T> {
    tree: Vec<Node<T>>,
}

impl<T> View for Tree<T> {
    type V = Seq<Node<T>>;

    closed spec fn view(&self) -> Seq<Node<T>> {
        self.tree@
    }
}

/// A freshly appended node: it has no children yet.
pub open spec fn leaf<T>(at: int, parent: Option<usize>, val: T) -> Node<T> {
    Node { idx: at as usize, left_idx: None, right_idx: None, parent_idx: parent, val }
}

/// The position `at`, or nothing when `count` nodes is no node at all.
pub open spec fn link(count: nat, at: int) -> Option<usize> {
    if count == 0 {
        None
    } else {
        Some(at as usize)
    }
}

/// `child`, if present, names a later node of `nodes` that names `at` as its parent.
pub open spec fn owns<T>(nodes: Seq<Node<T>>, at: int, child: Option<usize>) -> bool {
    child matches Some(c) ==> at < c < nodes.len() && nodes[c as int].parent_idx == Some(at as usize)
}

/// What every operation keeps true of the arena, whatever its arguments:
/// each node records its own position, and each child link leads forward to a
/// node that points back.
pub open spec fn well_formed<T>(nodes: Seq<Node<T>>) -> bool {
    forall|i: int|
        0 <= i < nodes.len() ==> {
            &&& (#[trigger] nodes[i]).idx == i
            &&& owns(nodes, i, nodes[i].left_idx)
            &&& owns(nodes, i, nodes[i].right_idx)
            &&& (nodes[i].left_idx is Some ==> nodes[i].left_idx != nodes[i].right_idx)
        }
}

/// Every parent link is answered by a child link: a node is a root, or the
/// node it names as its parent comes earlier and names it as its left or
/// right child.
pub open spec fn linked<T>(nodes: Seq<Node<T>>) -> bool {
    forall|i: int|
        0 <= i < nodes.len() ==> ((#[trigger] nodes[i]).parent_idx matches Some(p) ==> p < i && (
        nodes[p as int].left_idx == Some(i as usize) || nodes[p as int].right_idx == Some(i as usize)))
}

/// The first node is a root and the only one.
pub open spec fn single_rooted<T>(nodes: Seq<Node<T>>) -> bool {
    forall|i: int| 0 <= i < nodes.len() ==> ((#[trigger] nodes[i]).parent_idx is None <==> i == 0)
}

/// The nodes form one tree, rooted in the first of them: the arena invariant
/// holds, the first node is the only one without a parent, and every other
/// node has for its parent an earlier node that names it as its left or right
/// child.
pub open spec fn one_tree<T>(nodes: Seq<Node<T>>) -> bool {
    well_formed(nodes) && linked(nodes) && single_rooted(nodes)
}

/// The two sequences have the same links, node by node, whatever they store.
pub open spec fn same_links<T>(a: Seq<Node<T>>, b: Seq<Node<T>>) -> bool {
    &&& a.len() == b.len()
    &&& forall|j: int|
        0 <= j < a.len() ==> {
            &&& (#[trigger] a[j]).idx == b[j].idx
            &&& a[j].left_idx == b[j].left_idx
            &&& a[j].right_idx == b[j].right_idx
            &&& a[j].parent_idx == b[j].parent_idx
        }
}

/// The nodes of `nodes` with `f` applied to each stored value; the links stay.
pub open spec fn map_vals<T, U>(nodes: Seq<Node<T>>, f: spec_fn(T) -> U) -> Seq<Node<U>> {
    Seq::new(
        nodes.len(),
        |i: int|
            Node {
                idx: nodes[i].idx,
                left_idx: nodes[i].left_idx,
                right_idx: nodes[i].right_idx,
                parent_idx: nodes[i].parent_idx,
                val: f(nodes[i].val),
            },
    )
}

/// Mapping the stored values leaves the links alone, and with them all that
/// is said of the links.
pub proof fn lemma_map_keeps_links<T, U>(nodes: Seq<Node<T>>, f: spec_fn(T) -> U)
    ensures
        well_formed(map_vals(nodes, f)) == well_formed(nodes),
        linked(map_vals(nodes, f)) == linked(nodes),
        single_rooted(map_vals(nodes, f)) == single_rooted(nodes),
{
    let mapped = map_vals(nodes, f);
    if well_formed(nodes) {
        assert forall|i: int| 0 <= i < mapped.len() implies {
            &&& (#[trigger] mapped[i]).idx == i
            &&& owns(mapped, i, mapped[i].left_idx)
            &&& owns(mapped, i, mapped[i].right_idx)
            &&& (mapped[i].left_idx is Some ==> mapped[i].left_idx != mapped[i].right_idx)
        } by {
            assert(nodes[i].idx == i);
        }
    }
    if well_formed(mapped) {
        assert forall|i: int| 0 <= i < nodes.len() implies {
            &&& (#[trigger] nodes[i]).idx == i
            &&& owns(nodes, i, nodes[i].left_idx)
            &&& owns(nodes, i, nodes[i].right_idx)
            &&& (nodes[i].left_idx is Some ==> nodes[i].left_idx != nodes[i].right_idx)
        } by {
            assert(mapped[i].idx == i);
            if let Some(c) = nodes[i].left_idx {
                assert(mapped[c as int].parent_idx == nodes[c as int].parent_idx);
            }
            if let Some(c) = nodes[i].right_idx {
                assert(mapped[c as int].parent_idx == nodes[c as int].parent_idx);
            }
        }
    }
    if linked(nodes) {
        assert forall|i: int| 0 <= i < mapped.len() implies ((#[trigger] mapped[i]).parent_idx matches Some(
            p,
        ) ==> p < i && (mapped[p as int].left_idx == Some(i as usize) || mapped[p as int].right_idx
            == Some(i as usize))) by {
            assert(nodes[i].parent_idx == mapped[i].parent_idx);
        }
    }
    if linked(mapped) {
        assert forall|i: int| 0 <= i < nodes.len() implies ((#[trigger] nodes[i]).parent_idx matches Some(
            p,
        ) ==> p < i && (nodes[p as int].left_idx == Some(i as usize) || nodes[p as int].right_idx
            == Some(i as usize))) by {
            assert(nodes[i].parent_idx == mapped[i].parent_idx);
            if let Some(p) = nodes[i].parent_idx {
                assert(mapped[p as int].left_idx == nodes[p as int].left_idx);
            }
        }
    }
    if single_rooted(nodes) {
        assert forall|i: int| 0 <= i < mapped.len() implies ((#[trigger] mapped[i]).parent_idx is None
            <==> i == 0) by {
            assert(nodes[i].parent_idx == mapped[i].parent_idx);
        }
    }
    if single_rooted(mapped) {
        assert forall|i: int| 0 <= i < nodes.len() implies ((#[trigger] nodes[i]).parent_idx is None
            <==> i == 0) by {
            assert(nodes[i].parent_idx == mapped[i].parent_idx);
        }
    }
}

impl<T: Clone + PartialOrd> Tree<T> {
    /// The arena invariant, see [`well_formed`].
    pub open spec fn wf(&self) -> bool {
        well_formed(self@)
    }

    /// An empty tree.
    pub fn new() -> (t: Tree<T>)
        ensures
            t@ == Seq::<Node<T>>::empty(),
            t.wf(),
    {
        Tree::<T> { tree: Vec::new() }
    }

    /// The number of nodes.
    pub fn len(&self) -> (n: usize)
        ensures
            n == self@.len(),
    {
        self.tree.len()
    }

    /// The node that `idx` names: nothing for an absent index and nothing for
    /// one past the end of the arena.
    pub open spec fn node_at(&self, idx: Option<usize>) -> Option<Node<T>> {
        match idx {
            Some(i) if i < self@.len() => Some(self@[i as int]),
            _ => None,
        }
    }

    /// Resolves a possibly absent index to its node.
    pub fn at(&self, idx: Option<usize>) -> (node: Option<&Node<T>>)
        ensures
            match self.node_at(idx) {
                Some(n) => node == Some(&n),
                None => node is None,
            },
    {
        match idx {
            None => {
                return None;
            },
            Some(i) => {
                if i >= self.tree.len() {
                    return None;
                }
                Some(&self.tree[i])
            },
        }
    }

    /// `val` is what [`Tree::val_at`] may give for `idx`: a clone of the value
    /// stored there, or nothing where `idx` names no node.
    pub open spec fn is_val_at(&self, idx: Option<usize>, val: Option<T>) -> bool {
        match self.node_at(idx) {
            Some(n) => val is Some && cloned(n.val, val.unwrap()),
            None => val is None,
        }
    }

    /// Reading the same index twice gives the same: both times a value or
    /// both times nothing, and two values that agree in all that a clone keeps
    /// of the value it was made from, which `kept` stands for. Where a clone
    /// equals the value it was made from, the two values are equal.
    pub proof fn lemma_val_at_repeats<U>(
        &self,
        idx: Option<usize>,
        first: Option<T>,
        second: Option<T>,
        kept: spec_fn(T) -> U,
    )
        requires
            self.is_val_at(idx, first),
            self.is_val_at(idx, second),
            forall|a: T, b: T| #[trigger] cloned(a, b) ==> kept(a) == kept(b),
        ensures
            first is Some <==> second is Some,
            first is Some ==> kept(first.unwrap()) == kept(second.unwrap()),
    {
    }

    /// A copy of the value stored at `idx`.
    pub fn val_at(&self, idx: Option<usize>) -> (val: Option<T>)
        ensures
            self.is_val_at(idx, val),
    {
        match self.at(idx) {
            None => {
                return None;
            },
            Some(i) => {
                return Some(i.val.clone());
            },
        }
    }

    /// Appends a balanced subtree built from `sorted` and returns the position
    /// of its root, or nothing when `sorted` is empty.
    ///
    /// The nodes already in the arena are left as they were: the new subtree
    /// records `parent_idx` as its root's parent, but no existing node is made
    /// to point at it. Keeping track of the returned root is up to the caller.
    pub fn populate_from_sorted(&mut self, parent_idx: Option<usize>, sorted: &[T]) -> (root: Option<usize>)
        ensures
            root == link(sorted@.len(), old(self)@.len() as int),
            final(self)@.len() == old(self)@.len() + sorted@.len(),
            final(self)@.take(old(self)@.len() as int) == old(self)@,
            copies(
                balanced(sorted@, parent_idx, old(self)@.len() as int),
                final(self)@.skip(old(self)@.len() as int),
            ),
            sorted@.len() > 0 ==> cloned(
                sorted@[sorted@.len() as int / 2],
                final(self)@[old(self)@.len() as int].val,
            ),
            depth(final(self)@, root) == levels_for(sorted@.len()),
            old(self).wf() ==> final(self).wf(),
            parent_idx is None && linked(old(self)@) ==> linked(final(self)@),
            parent_idx is None && old(self)@.len() == 0 ==> single_rooted(final(self)@),
        decreases sorted@.len(),
    {
        if sorted.len() == 0 {
            return None;
        }
        let mid_idx = sorted.len() / 2;

        let curr_idx = self.tree.len();
        let node = Node {
            idx: curr_idx,
            left_idx: None,
            right_idx: None,
            parent_idx,
            val: sorted[mid_idx].clone(),
        };
        self.tree.push(node);
        let ghost pushed = self@;

        let left_idx = self.populate_from_sorted(Some(curr_idx), &sorted[0..mid_idx]);
        let ghost with_left = self@;
        self.tree[curr_idx].left_idx = left_idx;

        let right_idx = self.populate_from_sorted(Some(curr_idx), &sorted[mid_idx + 1..sorted.len()]);
        let ghost with_right = self@;
        self.tree[curr_idx].right_idx = right_idx;

        proof {
            let base = curr_idx as int;
            let mid = mid_idx as int;
            let lower = sorted@.subrange(0, mid);
            let upper = sorted@.subrange(mid + 1, sorted@.len() as int);
            let left_plan = balanced(lower, Some(curr_idx), base + 1);
            let right_plan = balanced(upper, Some(curr_idx), base + 1 + mid);
            let plan = balanced(sorted@, parent_idx, base);
            let made = self@.skip(base);
            lemma_balanced_len(lower, Some(curr_idx), base + 1);
            lemma_balanced_len(upper, Some(curr_idx), base + 1 + mid);
            lemma_balanced_len(sorted@, parent_idx, base);
            assert(pushed.len() == base + 1);
            assert(with_left.len() == base + 1 + mid);
            assert(with_right.len() == base + sorted@.len());
            assert forall|j: int| 0 <= j < with_left.len() implies with_right[j] == (if j == base {
                Node { left_idx, ..with_left[j] }
            } else {
                with_left[j]
            }) by {
                assert(with_right.take(base + 1 + mid)[j] == with_right[j]);
            }
            assert forall|j: int| 0 <= j < pushed.len() implies with_left[j] == pushed[j] by {
                assert(with_left.take(base + 1)[j] == with_left[j]);
            }
            assert forall|j: int| 0 <= j < plan.len() implies copy_of(plan[j], #[trigger] made[j]) by {
                if j == 0 {
                } else if j <= mid {
                    assert(plan[j] == left_plan[j - 1]);
                    assert(with_left.skip(base + 1)[j - 1] == with_left[base + j]);
                } else {
                    assert(plan[j] == right_plan[j - 1 - mid]);
                    assert(with_right.skip(base + 1 + mid)[j - 1 - mid] == with_right[base + j]);
                }
            }
            assert(self@.take(base) =~= old(self)@);
            assert(self@ =~= old(self)@ + made);
            assert(copy_of(plan[0], made[0]));
            assert(self.tree@.len() == self.tree.len());
            lemma_balanced_is_subtree(sorted@, parent_idx, base);
            lemma_copies_keep_subtree(plan, made, parent_idx, base);
            lemma_append_subtree(old(self)@, made, parent_idx);
            assert(self@.subrange(base, base + sorted@.len()) =~= made);
            lemma_balanced_height(self@, sorted@, parent_idx, base);
        }
        Some(curr_idx)
    }

    /// Finds the node whose value equals `val`, walking down from `curr_idx`,
    /// or appends one where the walk leaves the tree, and lends out the value
    /// stored there. In an empty tree the new node is the first, whatever
    /// `curr_idx` is.
    ///
    /// The tree is not rebalanced. What the caller writes through the returned
    /// reference is what the node stores afterwards.
    pub fn add(&mut self, val: T, curr_idx: usize) -> (slot: &mut T)
        requires
            old(self).wf(),
            old(self)@.len() > 0 ==> curr_idx < old(self)@.len(),
        ensures
            comparable::<T>() ==> {
                let route = step_toward(val);
                let after = grown(old(self)@, route, curr_idx as int, val);
                let at = landing(old(self)@, route, curr_idx as int);
                &&& *slot == after[at].val
                &&& final(self)@ == holding(after, at, *final(slot))
            },
            old(self)@.len() == 0 ==> *slot == val && final(self)@ == seq![leaf(0, None, *final(slot))],
            final(self).wf(),
            linked(old(self)@) ==> linked(final(self)@),
            single_rooted(old(self)@) ==> single_rooted(final(self)@),
            old(self)@.len() <= final(self)@.len() <= old(self)@.len() + 1,
        decreases old(self)@.len() - curr_idx,
    {
        if self.tree.len() == 0 {
            self.tree.push(Node { idx: 0, left_idx: None, right_idx: None, parent_idx: None, val });
            return &mut self.tree[0].val
        }
        if self.tree[curr_idx].val == val {
            return &mut self.tree[curr_idx].val;
        } else if self.tree[curr_idx].val < val {
            match self.tree[curr_idx].left_idx {
                None => {
                    let next_insert_idx = self.tree.len();
                    self.tree.push(
                        Node {
                            idx: next_insert_idx,
                            left_idx: None,
                            right_idx: None,
                            parent_idx: Some(curr_idx),
                            val,
                        },
                    );
                    self.tree[curr_idx].left_idx = Some(next_insert_idx);
                    return &mut self.tree[next_insert_idx].val;
                },
                Some(i) => {
                    return self.add(val, i);
                },
            }
        } else {
            match self.tree[curr_idx].right_idx {
                None => {
                    let next_insert_idx = self.tree.len();
                    self.tree.push(
                        Node {
                            idx: next_insert_idx,
                            left_idx: None,
                            right_idx: None,
                            parent_idx: Some(curr_idx),
                            val,
                        },
                    );
                    self.tree[curr_idx].right_idx = Some(next_insert_idx);
                    return &mut self.tree[next_insert_idx].val;
                },
                Some(i) => {
                    return self.add(val, i);
                },
            }
        }
    }

    /// Walks the nodes in arena order, which is the order in which they were
    /// added, not the order of their values. The tree is only borrowed, so a
    /// walk can be started as often as wanted.
    pub fn iter(&mut self) -> (it: Iter<'_, Node<T>>)
        ensures
            into_iter_elts(it) == old(self)@,
            it.remaining() == old(self)@.as_ref(),
            it.decrease() is Some,
            it.initial_value_relation(&it),
            final(self)@ == old(self)@,
    {
        let it = self.tree.iter();
        proof {
            assert(it.remaining().unref() =~= self.tree@);
        }
        it
    }

    /// Walking twice gives the same: two walks that were started on the same
    /// nodes yield the same sequence.
    pub proof fn lemma_iter_repeats(nodes: Seq<Node<T>>, first: Iter<'_, Node<T>>, second: Iter<'_, Node<T>>)
        requires
            into_iter_elts(first) == nodes,
            first.initial_value_relation(&first),
            into_iter_elts(second) == nodes,
            second.initial_value_relation(&second),
        ensures
            first.remaining() == second.remaining(),
    {
        let a = first.remaining();
        let b = second.remaining();
        assert(a.unref() == b.unref());
        assert(a.len() == a.unref().len());
        assert(b.len() == b.unref().len());
        assert forall|i: int| 0 <= i < a.len() implies a[i] == b[i] by {
            assert(a.unref()[i] == *a[i]);
            assert(b.unref()[i] == *b[i]);
        }
        assert(a =~= b);
    }
}

} // verus!
