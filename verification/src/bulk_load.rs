//! Bulk loading: the balanced subtree that a sorted sequence is laid out as.
//!
//! The layout is decided by positions alone; the values are never compared.
//! Whether the walk of an insertion can find them afterwards depends on the
//! order they came in: the walk goes left for greater values, so it finds the
//! values of a load that came in falling order.

use crate::tree::{linked, link, map_vals, owns, same_links, single_rooted, well_formed, Node};
use vstd::arithmetic::power2::{lemma2_to64, lemma_pow2_unfold, pow2};
use vstd::prelude::*;

verus! {

/// The nodes that a bulk load of `sorted` appends, the first of them at arena
/// position `base`, as a subtree hanging under `parent`.
///
/// The middle element (the upper one of two) becomes the subtree's root; what
/// lies before it forms the left subtree and what lies after it the right
/// one. The root comes first, then the whole left subtree, then the right.
pub open spec fn balanced<T>(sorted: Seq<T>, parent: Option<usize>, base: int) -> Seq<Node<T>>
    decreases sorted.len(),
{
    if sorted.len() == 0 {
        Seq::empty()
    } else {
        let mid = sorted.len() as int / 2;
        let lower = sorted.subrange(0, mid);
        let upper = sorted.subrange(mid + 1, sorted.len() as int);
        let root = Node {
            idx: base as usize,
            left_idx: link(lower.len(), base + 1),
            right_idx: link(upper.len(), base + 1 + mid),
            parent_idx: parent,
            val: sorted[mid],
        };
        seq![root] + balanced(lower, Some(base as usize), base + 1) + balanced(
            upper,
            Some(base as usize),
            base + 1 + mid,
        )
    }
}

/// `made` is `planned` with a clone in place of the value: same links, and a
/// value that `Clone` gave for the planned one.
pub open spec fn copy_of<T: Clone>(planned: Node<T>, made: Node<T>) -> bool {
    &&& made.idx == planned.idx
    &&& made.left_idx == planned.left_idx
    &&& made.right_idx == planned.right_idx
    &&& made.parent_idx == planned.parent_idx
    &&& cloned(planned.val, made.val)
}

/// Node by node, `made` is a copy of `planned`.
pub open spec fn copies<T: Clone>(planned: Seq<Node<T>>, made: Seq<Node<T>>) -> bool {
    &&& made.len() == planned.len()
    &&& forall|j: int| 0 <= j < planned.len() ==> copy_of(planned[j], #[trigger] made[j])
}

/// The levels that `count` nodes need at the least: one more than half as
/// many nodes need. This is the least `k` with `count < 2^k`, the logarithm of
/// `count + 1` to the base 2, rounded up.
pub open spec fn levels_for(count: nat) -> nat
    decreases count,
{
    if count == 0 {
        0
    } else {
        1 + levels_for(count / 2)
    }
}

/// The number of nodes on the longest way down from the node at `at`, that
/// node counted; nothing where `at` is no node of the arena.
pub open spec fn height<T>(nodes: Seq<Node<T>>, at: int) -> nat
    decreases nodes.len() - at, 1int,
{
    if 0 <= at < nodes.len() {
        let left = below(nodes, at, nodes[at].left_idx);
        let right = below(nodes, at, nodes[at].right_idx);
        if left >= right {
            1 + left
        } else {
            1 + right
        }
    } else {
        0
    }
}

/// The height of the subtree under `child`, a child of the node at `at`;
/// nothing for no child, and for a link that does not lead forward to a node.
pub open spec fn below<T>(nodes: Seq<Node<T>>, at: int, child: Option<usize>) -> nat
    decreases nodes.len() - at, 0int,
{
    match child {
        Some(c) => if at < c < nodes.len() {
            height(nodes, c as int)
        } else {
            0
        },
        None => 0,
    }
}

/// The height of the subtree that `root` names, which is none for no root.
pub open spec fn depth<T>(nodes: Seq<Node<T>>, root: Option<usize>) -> nat {
    match root {
        Some(r) => height(nodes, r as int),
        None => 0,
    }
}

/// `block`, standing at positions `base` and up, is one subtree under `parent`:
/// its first node is the root, every link stays inside the block, and every
/// other node is a child of an earlier one.
pub open spec fn subtree<T>(block: Seq<Node<T>>, parent: Option<usize>, base: int) -> bool {
    &&& block.len() > 0 ==> block[0].parent_idx == parent
    &&& forall|j: int| 0 <= j < block.len() ==> #[trigger] placed(block, base, j)
}

/// The node at offset `j` of the block records its position, keeps its child
/// links inside the block and, unless it is the first, hangs from an earlier
/// node.
pub open spec fn placed<T>(block: Seq<Node<T>>, base: int, j: int) -> bool {
    &&& block[j].idx == base + j
    &&& inside(block, base, j, block[j].left_idx)
    &&& inside(block, base, j, block[j].right_idx)
    &&& (block[j].left_idx is Some ==> block[j].left_idx != block[j].right_idx)
    &&& (j > 0 ==> hangs(block, base, j))
}

/// `child`, if present, names a later node of the block that names the node at
/// offset `j` as its parent.
pub open spec fn inside<T>(block: Seq<Node<T>>, base: int, j: int, child: Option<usize>) -> bool {
    child matches Some(c) ==> base + j < c < base + block.len() && block[c - base].parent_idx == Some(
        (base + j) as usize,
    )
}

/// The node at offset `j` is a child of an earlier node of the block.
pub open spec fn hangs<T>(block: Seq<Node<T>>, base: int, j: int) -> bool {
    block[j].parent_idx matches Some(p) && base <= p < base + j && (block[p - base].left_idx == Some(
        (base + j) as usize,
    ) || block[p - base].right_idx == Some((base + j) as usize))
}

/// A bulk load adds as many nodes as it was given values.
pub proof fn lemma_balanced_len<T>(sorted: Seq<T>, parent: Option<usize>, base: int)
    ensures
        balanced(sorted, parent, base).len() == sorted.len(),
    decreases sorted.len(),
{
    if sorted.len() > 0 {
        let mid = sorted.len() as int / 2;
        lemma_balanced_len(sorted.subrange(0, mid), Some(base as usize), base + 1);
        lemma_balanced_len(
            sorted.subrange(mid + 1, sorted.len() as int),
            Some(base as usize),
            base + 1 + mid,
        );
    }
}

/// What a bulk load appends is one subtree: the links that `balanced` writes
/// all stay inside the new block and answer each other.
pub proof fn lemma_balanced_is_subtree<T>(sorted: Seq<T>, parent: Option<usize>, base: int)
    requires
        0 <= base,
        base + sorted.len() <= usize::MAX,
    ensures
        subtree(balanced(sorted, parent, base), parent, base),
    decreases sorted.len(),
{
    if sorted.len() > 0 {
        let mid = sorted.len() as int / 2;
        let lower = sorted.subrange(0, mid);
        let upper = sorted.subrange(mid + 1, sorted.len() as int);
        let left = balanced(lower, Some(base as usize), base + 1);
        let right = balanced(upper, Some(base as usize), base + 1 + mid);
        let block = balanced(sorted, parent, base);
        lemma_balanced_len(lower, Some(base as usize), base + 1);
        lemma_balanced_len(upper, Some(base as usize), base + 1 + mid);
        lemma_balanced_is_subtree(lower, Some(base as usize), base + 1);
        lemma_balanced_is_subtree(upper, Some(base as usize), base + 1 + mid);
        assert forall|j: int| 0 <= j < block.len() implies #[trigger] placed(block, base, j) by {
            if j == 0 {
                if mid > 0 {
                    assert(block[1] == left[0]);
                }
                if upper.len() > 0 {
                    assert(block[1 + mid] == right[0]);
                }
            } else if j <= mid {
                let k = j - 1;
                assert(block[j] == left[k]);
                assert(placed(left, base + 1, k));
                if let Some(c) = left[k].left_idx {
                    assert(block[c - base] == left[c - base - 1]);
                }
                if let Some(c) = left[k].right_idx {
                    assert(block[c - base] == left[c - base - 1]);
                }
                if k > 0 {
                    let p = left[k].parent_idx->0;
                    assert(block[p - base] == left[p - base - 1]);
                }
            } else {
                let k = j - 1 - mid;
                assert(block[j] == right[k]);
                assert(placed(right, base + 1 + mid, k));
                if let Some(c) = right[k].left_idx {
                    assert(block[c - base] == right[c - base - 1 - mid]);
                }
                if let Some(c) = right[k].right_idx {
                    assert(block[c - base] == right[c - base - 1 - mid]);
                }
                if k > 0 {
                    let p = right[k].parent_idx->0;
                    assert(block[p - base] == right[p - base - 1 - mid]);
                }
            }
        }
    }
}

/// Being a subtree is a matter of links alone, so a block of copies is one too.
pub proof fn lemma_copies_keep_subtree<T: Clone>(
    planned: Seq<Node<T>>,
    made: Seq<Node<T>>,
    parent: Option<usize>,
    base: int,
)
    requires
        copies(planned, made),
        subtree(planned, parent, base),
    ensures
        subtree(made, parent, base),
{
    assert forall|j: int| 0 <= j < made.len() implies #[trigger] placed(made, base, j) by {
        assert(copy_of(planned[j], made[j]));
        assert(placed(planned, base, j));
        if let Some(c) = planned[j].left_idx {
            assert(copy_of(planned[c - base], made[c - base]));
        }
        if let Some(c) = planned[j].right_idx {
            assert(copy_of(planned[c - base], made[c - base]));
        }
        if j > 0 {
            let p = planned[j].parent_idx->0;
            assert(copy_of(planned[p - base], made[p - base]));
        }
    }
    if made.len() > 0 {
        assert(copy_of(planned[0], made[0]));
    }
}

/// A subtree appended to a well-formed arena leaves it well formed; and where
/// the subtree is a new root, the parent links stay answered.
pub proof fn lemma_append_subtree<T>(nodes: Seq<Node<T>>, block: Seq<Node<T>>, parent: Option<usize>)
    requires
        subtree(block, parent, nodes.len() as int),
        nodes.len() + block.len() <= usize::MAX,
    ensures
        well_formed(nodes) ==> well_formed(nodes + block),
        parent is None && linked(nodes) ==> linked(nodes + block),
        parent is None && nodes.len() == 0 ==> single_rooted(nodes + block),
{
    let all = nodes + block;
    let base = nodes.len() as int;
    if well_formed(nodes) {
        assert forall|i: int| 0 <= i < all.len() implies {
            &&& (#[trigger] all[i]).idx == i
            &&& owns(all, i, all[i].left_idx)
            &&& owns(all, i, all[i].right_idx)
            &&& (all[i].left_idx is Some ==> all[i].left_idx != all[i].right_idx)
        } by {
            if i < base {
                assert(all[i] == nodes[i]);
                if let Some(c) = nodes[i].left_idx {
                    assert(all[c as int] == nodes[c as int]);
                }
                if let Some(c) = nodes[i].right_idx {
                    assert(all[c as int] == nodes[c as int]);
                }
            } else {
                let j = i - base;
                assert(all[i] == block[j]);
                assert(placed(block, base, j));
                if let Some(c) = block[j].left_idx {
                    assert(all[c as int] == block[c - base]);
                }
                if let Some(c) = block[j].right_idx {
                    assert(all[c as int] == block[c - base]);
                }
            }
        }
    }
    if parent is None && linked(nodes) {
        assert forall|i: int| 0 <= i < all.len() implies ((#[trigger] all[i]).parent_idx matches Some(p)
            ==> p < i && (all[p as int].left_idx == Some(i as usize) || all[p as int].right_idx == Some(
            i as usize,
        ))) by {
            if i < base {
                assert(all[i] == nodes[i]);
                if let Some(p) = nodes[i].parent_idx {
                    assert(all[p as int] == nodes[p as int]);
                }
            } else {
                let j = i - base;
                assert(all[i] == block[j]);
                assert(placed(block, base, j));
                if j > 0 {
                    let p = block[j].parent_idx->0;
                    assert(all[p as int] == block[p - base]);
                }
            }
        }
    }
    if parent is None && nodes.len() == 0 {
        assert forall|i: int| 0 <= i < all.len() implies ((#[trigger] all[i]).parent_idx is None <==> i == 0) by {
            assert(all[i] == block[i]);
            assert(placed(block, base, i));
        }
    }
}

/// A bulk load into an empty arena makes one tree: the first node is its
/// root and has no parent, and every other node names as its parent an
/// earlier node that names it as its left or right child.
pub proof fn lemma_bulk_load_is_one_tree<T>(sorted: Seq<T>)
    requires
        sorted.len() <= usize::MAX,
    ensures
        well_formed(balanced(sorted, None, 0)),
        linked(balanced(sorted, None, 0)),
        single_rooted(balanced(sorted, None, 0)),
{
    let block = balanced(sorted, None, 0);
    lemma_balanced_len(sorted, None, 0);
    lemma_balanced_is_subtree(sorted, None, 0);
    lemma_append_subtree(Seq::<Node<T>>::empty(), block, None);
    assert(Seq::<Node<T>>::empty() + block =~= block);
}

/// `levels_for(count)` is the least `k` with `count < 2^k`.
pub proof fn lemma_levels_for_is_least(count: nat)
    ensures
        count < pow2(levels_for(count)),
        count > 0 ==> pow2((levels_for(count) - 1) as nat) <= count,
    decreases count,
{
    lemma2_to64();
    if count > 0 {
        lemma_levels_for_is_least(count / 2);
        lemma_pow2_unfold(levels_for(count));
        if count / 2 > 0 {
            lemma_pow2_unfold(levels_for(count / 2));
        }
    }
}

/// More nodes never need fewer levels.
pub proof fn lemma_levels_for_grows(fewer: nat, more: nat)
    requires
        fewer <= more,
    ensures
        levels_for(fewer) <= levels_for(more),
    decreases more,
{
    if fewer > 0 {
        lemma_levels_for_grows(fewer / 2, more / 2);
    }
}

/// A bulk load is as shallow as a binary tree of so many nodes can be:
/// wherever in an arena the nodes of a bulk load of `sorted` stand, values
/// aside, the subtree under its root has `levels_for(sorted.len())` levels.
pub proof fn lemma_balanced_height<T>(
    nodes: Seq<Node<T>>,
    sorted: Seq<T>,
    parent: Option<usize>,
    base: int,
)
    requires
        0 <= base,
        base + sorted.len() <= nodes.len() <= usize::MAX,
        same_links(balanced(sorted, parent, base), nodes.subrange(base, base + sorted.len())),
    ensures
        depth(nodes, link(sorted.len(), base)) == levels_for(sorted.len()),
    decreases sorted.len(),
{
    if sorted.len() > 0 {
        let count = sorted.len() as int;
        let mid = count / 2;
        let lower = sorted.subrange(0, mid);
        let upper = sorted.subrange(mid + 1, count);
        let left = balanced(lower, Some(base as usize), base + 1);
        let right = balanced(upper, Some(base as usize), base + 1 + mid);
        let plan = balanced(sorted, parent, base);
        let block = nodes.subrange(base, base + count);
        lemma_balanced_len(lower, Some(base as usize), base + 1);
        lemma_balanced_len(upper, Some(base as usize), base + 1 + mid);
        lemma_balanced_len(sorted, parent, base);
        assert(same_links(left, nodes.subrange(base + 1, base + 1 + mid))) by {
            let part = nodes.subrange(base + 1, base + 1 + mid);
            assert forall|j: int| 0 <= j < left.len() implies {
                &&& (#[trigger] left[j]).idx == part[j].idx
                &&& left[j].left_idx == part[j].left_idx
                &&& left[j].right_idx == part[j].right_idx
                &&& left[j].parent_idx == part[j].parent_idx
            } by {
                assert(plan[j + 1] == left[j]);
                assert(block[j + 1] == part[j]);
            }
        }
        assert(same_links(right, nodes.subrange(base + 1 + mid, base + count))) by {
            let part = nodes.subrange(base + 1 + mid, base + count);
            assert forall|j: int| 0 <= j < right.len() implies {
                &&& (#[trigger] right[j]).idx == part[j].idx
                &&& right[j].left_idx == part[j].left_idx
                &&& right[j].right_idx == part[j].right_idx
                &&& right[j].parent_idx == part[j].parent_idx
            } by {
                assert(plan[j + 1 + mid] == right[j]);
                assert(block[j + 1 + mid] == part[j]);
            }
        }
        lemma_balanced_height(nodes, lower, Some(base as usize), base + 1);
        lemma_balanced_height(nodes, upper, Some(base as usize), base + 1 + mid);
        lemma_levels_for_grows(upper.len(), lower.len());
        assert(plan[0].idx == block[0].idx);
        assert(block[0] == nodes[base]);
        assert(nodes[base].left_idx == link(lower.len(), base + 1));
        assert(nodes[base].right_idx == link(upper.len(), base + 1 + mid));
    }
}

/// A bulk load stores the values it was given: what holds of each of them
/// holds of the value of each node.
pub proof fn lemma_balanced_stores_given<T>(
    sorted: Seq<T>,
    parent: Option<usize>,
    base: int,
    holds: spec_fn(T) -> bool,
)
    requires
        forall|k: int| 0 <= k < sorted.len() ==> holds(#[trigger] sorted[k]),
    ensures
        forall|j: int|
            0 <= j < sorted.len() ==> holds((#[trigger] balanced(sorted, parent, base)[j]).val),
    decreases sorted.len(),
{
    if sorted.len() > 0 {
        let mid = sorted.len() as int / 2;
        let lower = sorted.subrange(0, mid);
        let upper = sorted.subrange(mid + 1, sorted.len() as int);
        let left = balanced(lower, Some(base as usize), base + 1);
        let right = balanced(upper, Some(base as usize), base + 1 + mid);
        let whole = balanced(sorted, parent, base);
        lemma_balanced_len(lower, Some(base as usize), base + 1);
        lemma_balanced_len(upper, Some(base as usize), base + 1 + mid);
        assert forall|k: int| 0 <= k < lower.len() implies holds(#[trigger] lower[k]) by {
            assert(lower[k] == sorted[k]);
        }
        assert forall|k: int| 0 <= k < upper.len() implies holds(#[trigger] upper[k]) by {
            assert(upper[k] == sorted[k + mid + 1]);
        }
        lemma_balanced_stores_given(lower, Some(base as usize), base + 1, holds);
        lemma_balanced_stores_given(upper, Some(base as usize), base + 1 + mid, holds);
        assert forall|j: int| 0 <= j < sorted.len() implies holds((#[trigger] whole[j]).val) by {
            if j == 0 {
                assert(whole[0].val == sorted[mid]);
            } else if j <= mid {
                assert(whole[j] == left[j - 1]);
            } else {
                assert(whole[j] == right[j - 1 - mid]);
            }
        }
    }
}

/// Mapping the values of a bulk load is bulk loading the mapped values.
pub proof fn lemma_balanced_map<T, U>(sorted: Seq<T>, f: spec_fn(T) -> U, parent: Option<usize>, base: int)
    ensures
        map_vals(balanced(sorted, parent, base), f) == balanced(sorted.map_values(f), parent, base),
    decreases sorted.len(),
{
    let mapped = sorted.map_values(f);
    if sorted.len() > 0 {
        let mid = sorted.len() as int / 2;
        let lower = sorted.subrange(0, mid);
        let upper = sorted.subrange(mid + 1, sorted.len() as int);
        lemma_balanced_map(lower, f, Some(base as usize), base + 1);
        lemma_balanced_map(upper, f, Some(base as usize), base + 1 + mid);
        lemma_balanced_len(lower, Some(base as usize), base + 1);
        lemma_balanced_len(upper, Some(base as usize), base + 1 + mid);
        lemma_balanced_len(sorted, parent, base);
        lemma_balanced_len(mapped, parent, base);
        assert(mapped.subrange(0, mid) =~= lower.map_values(f));
        assert(mapped.subrange(mid + 1, sorted.len() as int) =~= upper.map_values(f));
        let left = balanced(lower, Some(base as usize), base + 1);
        let right = balanced(upper, Some(base as usize), base + 1 + mid);
        let whole = balanced(sorted, parent, base);
        let target = balanced(mapped, parent, base);
        assert forall|j: int| 0 <= j < whole.len() implies map_vals(whole, f)[j] == target[j] by {
            if j == 0 {
            } else if j <= mid {
                assert(whole[j] == left[j - 1]);
                assert(target[j] == map_vals(left, f)[j - 1]);
            } else {
                assert(whole[j] == right[j - 1 - mid]);
                assert(target[j] == map_vals(right, f)[j - 1 - mid]);
            }
        }
        assert(map_vals(whole, f) =~= target);
    } else {
        assert(map_vals(balanced(sorted, parent, base), f) =~= balanced(mapped, parent, base));
    }
}

} // verus!
