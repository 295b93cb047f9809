//! Applying transfer events to an arena.
//!
//! A transfer from a donor to a recipient makes the two lineages siblings at
//! the time of the event. Where they already share a parent only times move;
//! otherwise one of them is cut off together with its parent and grafted onto
//! the branch above the other.

use crate::arena::{
    binary_at, cross_linked, has_single_root, in_subtree, incomparable, is_root, is_sole_root,
    lemma_ancestor_height, lemma_ancestor_split, linked_at, nth_ancestor, ranked_at, ranks,
    well_formed, FlatNode,
};
use vstd::prelude::*;

verus! {

/// One transfer event.
#[derive(Clone, Copy, Debug, PartialEq, Eq, Structural)]
pub struct Transfer {
    /// The lineage that gives.
    pub donor: usize,
    /// The lineage that receives.
    pub recipient: usize,
    /// When it happens, in ticks from the root.
    pub time: i64,
}

/// The parent of record `x`, which has one.
pub open spec fn parent_of(tree: Seq<FlatNode>, x: int) -> int {
    tree[x].parent->0 as int
}

/// The other child of the parent of `x`.
pub open spec fn sibling_of(tree: Seq<FlatNode>, x: int) -> int {
    let p = parent_of(tree, x);
    if tree[p].left_child == Some(x as usize) {
        tree[p].right_child->0 as int
    } else {
        tree[p].left_child->0 as int
    }
}

/// The occupant, after `mover` has been grafted above `target`, of the slot
/// of record `i` that held `c` before. The parent of `target` now lists the
/// parent of `mover`, and the grandparent of `mover`, if there is one, lists
/// the sibling of `mover`. The parent of `mover` lists `mover` and `target`:
/// where `takes_slot` holds, `target` stands in the slot that held `mover`
/// and `mover` in the slot that its sibling left; where it does not, `mover`
/// stays and `target` stands in the slot that the sibling left. Every other
/// slot keeps its occupant.
pub open spec fn relinked(
    tree: Seq<FlatNode>,
    mover: int,
    target: int,
    takes_slot: bool,
    i: int,
    c: usize,
) -> usize {
    let p = parent_of(tree, mover);
    let s = sibling_of(tree, mover);
    let ft = parent_of(tree, target);
    if i == ft && c == target {
        p as usize
    } else if i == p && c == mover {
        if takes_slot {
            target as usize
        } else {
            mover as usize
        }
    } else if i == p && c == s {
        if takes_slot {
            mover as usize
        } else {
            target as usize
        }
    } else if tree[p].parent == Some(i as usize) && c == p {
        s as usize
    } else {
        c
    }
}

/// Record `i` after `mover` has been grafted above `target`.
pub open spec fn regrafted_record(
    tree: Seq<FlatNode>,
    mover: int,
    target: int,
    takes_slot: bool,
    i: int,
) -> FlatNode {
    let p = parent_of(tree, mover);
    let s = sibling_of(tree, mover);
    let ft = parent_of(tree, target);
    FlatNode {
        parent: if i == target {
            Some(p as usize)
        } else if i == p {
            Some(ft as usize)
        } else if i == s {
            tree[p].parent
        } else {
            tree[i].parent
        },
        left_child: match tree[i].left_child {
            Some(c) => Some(relinked(tree, mover, target, takes_slot, i, c)),
            None => None,
        },
        right_child: match tree[i].right_child {
            Some(c) => Some(relinked(tree, mover, target, takes_slot, i, c)),
            None => None,
        },
        ..tree[i]
    }
}

/// The arena after `mover` and its parent have been cut out and grafted onto
/// the branch above `target`: the sibling of `mover` takes the place of the
/// parent, and the parent becomes the parent of both `mover` and `target`.
/// Where the parent was the root, the sibling is the root afterwards.
/// `takes_slot` tells whether `target` stands in the slot of the parent that
/// held `mover`, or in the one that the sibling left.
pub open spec fn regrafted(
    tree: Seq<FlatNode>,
    mover: int,
    target: int,
    takes_slot: bool,
) -> Seq<FlatNode> {
    Seq::new(tree.len(), |i: int| regrafted_record(tree, mover, target, takes_slot, i))
}

/// The arena with the depth of record `i` set to `depth`.
pub open spec fn with_depth(tree: Seq<FlatNode>, i: int, depth: i64) -> Seq<FlatNode> {
    tree.update(i, (FlatNode { depth: Some(depth), ..tree[i] }))
}

/// The arena with the length of record `i` set to `length`.
pub open spec fn with_length(tree: Seq<FlatNode>, i: int, length: i64) -> Seq<FlatNode> {
    tree.update(i, (FlatNode { length: length, ..tree[i] }))
}

/// The arena with time counted from `time` on: `pivot`, the node that sits at
/// the event, has depth zero, and every other depth is reduced by `time`.
pub open spec fn rebased(tree: Seq<FlatNode>, pivot: int, time: i64) -> Seq<FlatNode> {
    Seq::new(
        tree.len(),
        |i: int|
            (FlatNode {
                depth: if i == pivot {
                    Some(0i64)
                } else {
                    match tree[i].depth {
                        Some(d) => Some((d - time) as i64),
                        None => None,
                    }
                },
                ..tree[i]
            }),
    )
}

/// Every depth of the arena can be reduced by `time`.
pub open spec fn rebase_fits(tree: Seq<FlatNode>, time: i64) -> bool {
    forall|i: int|
        0 <= i < tree.len() ==> ((#[trigger] tree[i]).depth matches Some(d) ==> i64::MIN <= d
            - time <= i64::MAX)
}

/// The transfer can be applied to the arena: donor and recipient are records
/// with a parent, neither descends from the other, and, where the donor
/// hangs from the root, the depths that the event reads are present and
/// every depth can be counted from the event on.
pub open spec fn transfer_applies(tree: Seq<FlatNode>, transfer: Transfer) -> bool {
    let a = transfer.donor as int;
    let b = transfer.recipient as int;
    &&& a < tree.len()
    &&& b < tree.len()
    &&& tree[a].parent is Some
    &&& tree[b].parent is Some
    &&& incomparable(tree, a, b)
    &&& tree[parent_of(tree, a)].parent is None ==> {
        &&& rebase_fits(tree, transfer.time)
        &&& tree[b].depth is Some
        &&& parent_of(tree, a) == parent_of(tree, b) ==> tree[a].depth is Some
    }
}

/// The arena after the transfer.
///
/// With `A` the donor, `B` the recipient and `t` the time of the event:
/// - `A` and `B` share a parent that is not the root: the parent's depth
///   becomes `t`.
/// - `A` and `B` are the children of the root: their lengths become their
///   depths less `t`, and time is counted from the event on, with the root
///   at zero.
/// - the parent of `A` is the root and that of `B` is not: the root, with
///   `A` below it, is grafted above `B`, so that the sibling of `A` becomes
///   the root; `A` keeps its slot and `B` stands in the slot that the
///   sibling left; the lengths of `B` and of the old root become the depth
///   of `B` less `t`, that of the new root zero, and time is counted from
///   the event on, with the old root at zero.
/// - otherwise the parent of `B`, with `B` below it, is grafted above `A`:
///   its slot that held `B` now holds `A`, `B` stands in the slot that its
///   sibling left, and its depth becomes `t`.
pub open spec fn transferred(tree: Seq<FlatNode>, transfer: Transfer) -> Seq<FlatNode> {
    let a = transfer.donor as int;
    let b = transfer.recipient as int;
    let t = transfer.time;
    let fa = parent_of(tree, a);
    let fb = parent_of(tree, b);
    if fa == fb {
        if tree[fa].parent is None {
            rebased(
                with_length(
                    with_length(tree, a, (tree[a].depth->0 - t) as i64),
                    b,
                    (tree[b].depth->0 - t) as i64,
                ),
                fa,
                t,
            )
        } else {
            with_depth(tree, fb, t)
        }
    } else if tree[fa].parent is None {
        let s = sibling_of(tree, a);
        let span = (tree[b].depth->0 - t) as i64;
        rebased(
            with_length(
                with_length(with_length(regrafted(tree, a, b, false), b, span), s, 0),
                fa,
                span,
            ),
            fa,
            t,
        )
    } else {
        with_depth(regrafted(tree, b, a, true), fb, t)
    }
}

/// Counts time from `time` on, with `pivot` at zero.
fn rebase(flat_tree: &mut Vec<FlatNode>, pivot: usize, time: i64)
    requires
        rebase_fits(old(flat_tree)@, time),
    ensures
        final(flat_tree)@ == rebased(old(flat_tree)@, pivot as int, time),
{
    let mut i: usize = 0;
    while i < flat_tree.len()
        invariant
            i <= flat_tree.len(),
            flat_tree.len() == old(flat_tree).len(),
            rebase_fits(old(flat_tree)@, time),
            forall|k: int|
                0 <= k < i ==> flat_tree@[k] == rebased(old(flat_tree)@, pivot as int, time)[k],
            forall|k: int| i <= k < flat_tree.len() ==> flat_tree@[k] == old(flat_tree)@[k],
        decreases flat_tree.len() - i,
    {
        if i == pivot {
            flat_tree[i].depth = Some(0);
        } else if let Some(d) = flat_tree[i].depth {
            assert(old(flat_tree)@[i as int].depth == Some(d));
            flat_tree[i].depth = Some(d - time);
        }
        i += 1;
    }
    assert(flat_tree@ =~= rebased(old(flat_tree)@, pivot as int, time));
}

/// Record `p` lists `x` in one slot and `y` in the other.
spec fn lists_both(tree: Seq<FlatNode>, p: int, x: int, y: int) -> bool {
    ||| tree[p].left_child == Some(x as usize) && tree[p].right_child == Some(y as usize)
    ||| tree[p].left_child == Some(y as usize) && tree[p].right_child == Some(x as usize)
}

/// Record `p` lists `x` in exactly one of its slots.
spec fn lists_once(tree: Seq<FlatNode>, p: int, x: int) -> bool {
    (tree[p].left_child == Some(x as usize)) != (tree[p].right_child == Some(x as usize))
}

/// What a regraft reads of the arena: the records around `mover` and
/// `target`, how they are linked, and which of them are different records.
spec fn graft_site(tree: Seq<FlatNode>, mover: int, target: int) -> bool {
    let p = parent_of(tree, mover);
    let s = sibling_of(tree, mover);
    let ft = parent_of(tree, target);
    let g = tree[p].parent;
    &&& 0 <= mover < tree.len() <= usize::MAX
    &&& 0 <= target < tree.len()
    &&& tree[mover].parent is Some
    &&& tree[target].parent is Some
    &&& 0 <= p < tree.len()
    &&& 0 <= s < tree.len()
    &&& 0 <= ft < tree.len()
    &&& lists_both(tree, p, mover, s)
    &&& tree[s].parent == Some(p as usize)
    &&& lists_once(tree, ft, target)
    &&& g matches Some(gi) ==> gi < tree.len() && lists_once(tree, gi as int, p)
    &&& mover != target && mover != p && mover != s && mover != ft
    &&& target != p && target != s && target != ft
    &&& p != s && p != ft
    &&& g != Some(mover as usize) && g != Some(target as usize) && g != Some(p as usize) && g
        != Some(s as usize)
}

/// In a well-formed arena, two lineages that do not descend from each other
/// and have different parents are a place for a regraft.
proof fn lemma_graft_site(tree: Seq<FlatNode>, mover: int, target: int)
    requires
        well_formed(tree),
        0 <= mover < tree.len(),
        0 <= target < tree.len(),
        tree[mover].parent is Some,
        tree[target].parent is Some,
        incomparable(tree, mover, target),
        parent_of(tree, mover) != parent_of(tree, target),
    ensures
        graft_site(tree, mover, target),
{
    let height = choose|height: Seq<nat>| ranks(tree, height);
    let p = parent_of(tree, mover);
    let ft = parent_of(tree, target);
    assert(linked_at(tree, mover));
    assert(linked_at(tree, target));
    assert(ranked_at(tree, height, mover));
    assert(ranked_at(tree, height, target));
    assert(linked_at(tree, p));
    assert(binary_at(tree, p));
    assert(binary_at(tree, ft));
    let s = sibling_of(tree, mover);
    assert(ranked_at(tree, height, s));
    assert(ranked_at(tree, height, p));
    assert(nth_ancestor(tree, target, 0) == Some(target));
    assert(nth_ancestor(tree, mover, 0) == Some(mover));
    assert(mover != target) by {
        if mover == target {
            assert(in_subtree(tree, mover, target));
        }
    }
    assert(ft != mover) by {
        if ft == mover {
            assert(nth_ancestor(tree, target, 1) == Some(mover));
            assert(in_subtree(tree, mover, target));
        }
    }
    assert(p != target) by {
        if p == target {
            assert(nth_ancestor(tree, mover, 1) == Some(target));
            assert(in_subtree(tree, target, mover));
        }
    }
    if let Some(gi) = tree[p].parent {
        assert(binary_at(tree, gi as int));
        assert(gi != target) by {
            if gi == target {
                assert(nth_ancestor(tree, p, 1) == Some(target));
                assert(nth_ancestor(tree, mover, 2) == Some(target));
                assert(in_subtree(tree, target, mover));
            }
        }
    }
}

/// After a regraft the links of every record are answered from the other
/// side.
proof fn lemma_regraft_linked_at(
    tree: Seq<FlatNode>,
    mover: int,
    target: int,
    takes_slot: bool,
    i: int,
)
    requires
        graft_site(tree, mover, target),
        0 <= i < tree.len(),
        linked_at(tree, i),
    ensures
        linked_at(regrafted(tree, mover, target, takes_slot), i),
{
    let after = regrafted(tree, mover, target, takes_slot);
    let p = parent_of(tree, mover);
    let s = sibling_of(tree, mover);
    let ft = parent_of(tree, target);
    if let Some(q) = after[i].parent {
        assert(after[q as int] == regrafted_record(tree, mover, target, takes_slot, q as int));
    }
    if let Some(c) = after[i].left_child {
        assert(after[c as int] == regrafted_record(tree, mover, target, takes_slot, c as int));
    }
    if let Some(c) = after[i].right_child {
        assert(after[c as int] == regrafted_record(tree, mover, target, takes_slot, c as int));
    }
}

/// After a regraft every record still has no child or two different ones.
proof fn lemma_regraft_binary_at(
    tree: Seq<FlatNode>,
    mover: int,
    target: int,
    takes_slot: bool,
    i: int,
)
    requires
        graft_site(tree, mover, target),
        0 <= i < tree.len(),
        linked_at(tree, i),
        binary_at(tree, i),
    ensures
        binary_at(regrafted(tree, mover, target, takes_slot), i),
{
}

/// A regraft leaves exactly one root: the old one, or the sibling of `mover`
/// where the parent of `mover` was the root.
proof fn lemma_regraft_root(
    tree: Seq<FlatNode>,
    mover: int,
    target: int,
    takes_slot: bool,
    root: int,
)
    requires
        graft_site(tree, mover, target),
        is_sole_root(tree, root),
    ensures
        is_sole_root(
            regrafted(tree, mover, target, takes_slot),
            if root == parent_of(tree, mover) {
                sibling_of(tree, mover)
            } else {
                root
            },
        ),
{
    let after = regrafted(tree, mover, target, takes_slot);
    let p = parent_of(tree, mover);
    let new_root = if root == p {
        sibling_of(tree, mover)
    } else {
        root
    };
    assert(is_root(tree, root));
    assert(is_root(after, new_root));
    assert forall|i: int| is_root(after, i) implies i == new_root by {
        if i != new_root {
            if i == sibling_of(tree, mover) {
                assert(tree[p].parent is None);
                assert(is_root(tree, p));
            } else {
                assert(is_root(tree, i));
            }
        }
    }
}

/// A record of a subtree other than its top has its parent in the subtree.
proof fn lemma_subtree_parent(tree: Seq<FlatNode>, top: int, x: int)
    requires
        in_subtree(tree, top, x),
        x != top,
    ensures
        0 <= x < tree.len(),
        tree[x].parent is Some,
        in_subtree(tree, top, parent_of(tree, x)),
{
    let steps = choose|steps: nat| nth_ancestor(tree, x, steps) == Some(top);
    assert(steps > 0);
    assert(nth_ancestor(tree, parent_of(tree, x), (steps - 1) as nat) == Some(top));
}

/// A record whose parent lies in a subtree lies in it too.
proof fn lemma_subtree_child(tree: Seq<FlatNode>, top: int, x: int)
    requires
        0 <= x < tree.len(),
        tree[x].parent is Some,
        in_subtree(tree, top, parent_of(tree, x)),
    ensures
        in_subtree(tree, top, x),
{
    let steps = choose|steps: nat| nth_ancestor(tree, parent_of(tree, x), steps) == Some(top);
    assert(nth_ancestor(tree, x, steps + 1) == Some(top));
}

/// No record of a subtree is higher than its top.
proof fn lemma_subtree_height(tree: Seq<FlatNode>, height: Seq<nat>, top: int, x: int)
    requires
        ranks(tree, height),
        in_subtree(tree, top, x),
    ensures
        0 <= x < tree.len(),
        0 <= top < tree.len(),
        height[x] <= height[top],
{
    let steps = choose|steps: nat| nth_ancestor(tree, x, steps) == Some(top);
    lemma_ancestor_height(tree, height, top, x, steps);
}

/// Heights for the arena after a regraft: the two subtrees keep theirs, the
/// parent of `mover` stands just above both, and every other record is
/// lifted above that.
spec fn regraft_height(tree: Seq<FlatNode>, height: Seq<nat>, mover: int, target: int) -> Seq<nat> {
    let top = if height[mover] >= height[target] {
        height[mover] + 1
    } else {
        height[target] + 1
    };
    Seq::new(
        tree.len(),
        |x: int|
            if in_subtree(tree, mover, x) || in_subtree(tree, target, x) {
                height[x]
            } else if x == parent_of(tree, mover) {
                top
            } else {
                height[x] + top + 1
            },
    )
}

/// After a regraft every record stands below its new parent in the new
/// heights.
proof fn lemma_regraft_ranked_at(
    tree: Seq<FlatNode>,
    height: Seq<nat>,
    mover: int,
    target: int,
    takes_slot: bool,
    x: int,
)
    requires
        graft_site(tree, mover, target),
        incomparable(tree, mover, target),
        cross_linked(tree),
        ranks(tree, height),
        0 <= x < tree.len(),
    ensures
        ranked_at(
            regrafted(tree, mover, target, takes_slot),
            regraft_height(tree, height, mover, target),
            x,
        ),
{
    let after = regrafted(tree, mover, target, takes_slot);
    let lifted = regraft_height(tree, height, mover, target);
    let p = parent_of(tree, mover);
    let s = sibling_of(tree, mover);
    let ft = parent_of(tree, target);
    let g = tree[p].parent;
    assert(nth_ancestor(tree, mover, 0) == Some(mover));
    assert(nth_ancestor(tree, target, 0) == Some(target));
    assert(in_subtree(tree, mover, mover));
    assert(in_subtree(tree, target, target));
    assert(ranked_at(tree, height, mover));
    assert(ranked_at(tree, height, target));
    assert(ranked_at(tree, height, s));
    assert(ranked_at(tree, height, p));
    assert(ranked_at(tree, height, x));
    assert(linked_at(tree, x));
    // The parent of `mover` lies in neither subtree.
    assert(!in_subtree(tree, mover, p)) by {
        if in_subtree(tree, mover, p) {
            lemma_subtree_height(tree, height, mover, p);
        }
    }
    assert(!in_subtree(tree, target, p)) by {
        if in_subtree(tree, target, p) {
            lemma_subtree_child(tree, target, mover);
        }
    }
    if x == target {
    } else if x == p {
        assert(!in_subtree(tree, mover, ft)) by {
            if in_subtree(tree, mover, ft) {
                lemma_subtree_child(tree, mover, target);
            }
        }
        assert(!in_subtree(tree, target, ft)) by {
            if in_subtree(tree, target, ft) {
                lemma_subtree_height(tree, height, target, ft);
            }
        }
    } else if x == s {
        assert(!in_subtree(tree, mover, s)) by {
            if in_subtree(tree, mover, s) {
                lemma_subtree_parent(tree, mover, s);
            }
        }
        assert(!in_subtree(tree, target, s)) by {
            if in_subtree(tree, target, s) {
                lemma_subtree_parent(tree, target, s);
            }
        }
        if let Some(gi) = g {
            assert(!in_subtree(tree, mover, gi as int)) by {
                if in_subtree(tree, mover, gi as int) {
                    lemma_subtree_height(tree, height, mover, gi as int);
                }
            }
            assert(!in_subtree(tree, target, gi as int)) by {
                if in_subtree(tree, target, gi as int) {
                    lemma_subtree_child(tree, target, p);
                }
            }
        }
    } else if let Some(q) = tree[x].parent {
        assert(after[x].parent == Some(q));
        if in_subtree(tree, mover, x) {
            if x != mover {
                lemma_subtree_parent(tree, mover, x);
            }
        } else if in_subtree(tree, target, x) {
            lemma_subtree_parent(tree, target, x);
        } else {
            if in_subtree(tree, mover, q as int) {
                lemma_subtree_child(tree, mover, x);
            }
            if in_subtree(tree, target, q as int) {
                lemma_subtree_child(tree, target, x);
            }
        }
    }
}

/// A regraft between two lineages that do not descend from each other and
/// have different parents keeps the arena well-formed.
pub proof fn lemma_regraft_well_formed(
    tree: Seq<FlatNode>,
    mover: int,
    target: int,
    takes_slot: bool,
)
    requires
        well_formed(tree),
        0 <= mover < tree.len(),
        0 <= target < tree.len(),
        tree[mover].parent is Some,
        tree[target].parent is Some,
        incomparable(tree, mover, target),
        parent_of(tree, mover) != parent_of(tree, target),
    ensures
        well_formed(regrafted(tree, mover, target, takes_slot)),
{
    let after = regrafted(tree, mover, target, takes_slot);
    lemma_graft_site(tree, mover, target);
    assert forall|i: int| 0 <= i < after.len() implies #[trigger] linked_at(after, i) by {
        assert(linked_at(tree, i));
        lemma_regraft_linked_at(tree, mover, target, takes_slot, i);
    }
    assert forall|i: int| 0 <= i < after.len() implies #[trigger] binary_at(after, i) by {
        assert(linked_at(tree, i));
        assert(binary_at(tree, i));
        lemma_regraft_binary_at(tree, mover, target, takes_slot, i);
    }
    let root = choose|r: int| is_sole_root(tree, r);
    lemma_regraft_root(tree, mover, target, takes_slot, root);
    assert(has_single_root(after));
    let height = choose|height: Seq<nat>| ranks(tree, height);
    let lifted = regraft_height(tree, height, mover, target);
    assert forall|i: int| 0 <= i < after.len() implies #[trigger] ranked_at(after, lifted, i) by {
        lemma_regraft_ranked_at(tree, height, mover, target, takes_slot, i);
    }
    assert(ranks(after, lifted));
}

/// The three links of record `i`.
pub open spec fn links_of(tree: Seq<FlatNode>, i: int) -> (Option<usize>, Option<usize>, Option<usize>) {
    (tree[i].parent, tree[i].left_child, tree[i].right_child)
}

/// The two arenas have the same records as far as links go.
pub open spec fn same_links(before: Seq<FlatNode>, after: Seq<FlatNode>) -> bool {
    &&& before.len() == after.len()
    &&& forall|i: int|
        0 <= i < before.len() ==> #[trigger] links_of(before, i) == links_of(after, i)
}

/// Well-formedness is a matter of links alone.
pub proof fn lemma_same_links(before: Seq<FlatNode>, after: Seq<FlatNode>)
    requires
        well_formed(before),
        same_links(before, after),
    ensures
        well_formed(after),
{
    assert forall|i: int| 0 <= i < after.len() implies #[trigger] linked_at(after, i) by {
        assert(linked_at(before, i));
        assert(links_of(before, i) == links_of(after, i));
        if let Some(q) = before[i].parent {
            assert(links_of(before, q as int) == links_of(after, q as int));
        }
        if let Some(c) = before[i].left_child {
            assert(links_of(before, c as int) == links_of(after, c as int));
        }
        if let Some(c) = before[i].right_child {
            assert(links_of(before, c as int) == links_of(after, c as int));
        }
    }
    assert forall|i: int| 0 <= i < after.len() implies #[trigger] binary_at(after, i) by {
        assert(binary_at(before, i));
        assert(links_of(before, i) == links_of(after, i));
    }
    let root = choose|r: int| is_sole_root(before, r);
    assert(is_sole_root(after, root)) by {
        assert(links_of(before, root) == links_of(after, root));
        assert forall|i: int| is_root(after, i) implies i == root by {
            assert(links_of(before, i) == links_of(after, i));
            assert(is_root(before, i));
        }
    }
    let height = choose|height: Seq<nat>| ranks(before, height);
    assert forall|i: int| 0 <= i < after.len() implies #[trigger] ranked_at(after, height, i) by {
        assert(ranked_at(before, height, i));
        assert(links_of(before, i) == links_of(after, i));
    }
    assert(ranks(after, height));
}

/// A transfer that can be applied keeps the arena well-formed, leaves every
/// name where it is and every leaf a leaf, and makes donor and recipient
/// children of one parent.
pub proof fn lemma_transfer_well_formed(tree: Seq<FlatNode>, transfer: Transfer)
    requires
        well_formed(tree),
        transfer_applies(tree, transfer),
    ensures
        well_formed(transferred(tree, transfer)),
        transferred(tree, transfer).len() == tree.len(),
        forall|i: int|
            0 <= i < tree.len() ==> (#[trigger] transferred(tree, transfer)[i]).name
                == tree[i].name,
        forall|i: int|
            0 <= i < tree.len() ==> ((#[trigger] transferred(tree, transfer)[i]).left_child is None
                <==> tree[i].left_child is None),
        transferred(tree, transfer)[transfer.donor as int].parent is Some,
        transferred(tree, transfer)[transfer.donor as int].parent == transferred(
            tree,
            transfer,
        )[transfer.recipient as int].parent,
{
    let a = transfer.donor as int;
    let b = transfer.recipient as int;
    let t = transfer.time;
    let fa = parent_of(tree, a);
    let fb = parent_of(tree, b);
    let after = transferred(tree, transfer);
    assert(linked_at(tree, a));
    assert(linked_at(tree, b));
    if fa == fb {
        assert forall|i: int| 0 <= i < tree.len() implies #[trigger] links_of(tree, i)
            == links_of(after, i) by {}
        lemma_same_links(tree, after);
    } else if tree[fa].parent is None {
        lemma_graft_site(tree, a, b);
        lemma_regraft_well_formed(tree, a, b, false);
        let moved = regrafted(tree, a, b, false);
        assert forall|i: int| 0 <= i < tree.len() implies #[trigger] links_of(moved, i)
            == links_of(after, i) by {}
        lemma_same_links(moved, after);
    } else {
        lemma_graft_site(tree, b, a);
        lemma_regraft_well_formed(tree, b, a, true);
        let moved = regrafted(tree, b, a, true);
        assert forall|i: int| 0 <= i < tree.len() implies #[trigger] links_of(moved, i)
            == links_of(after, i) by {}
        lemma_same_links(moved, after);
    }
}

/// Cuts out `mover` with its parent and grafts them onto the branch above
/// `target`; `mover` keeps its slot and `target` stands in the one that the
/// sibling of `mover` left.
fn regraft_beside(flat_tree: &mut Vec<FlatNode>, mover: usize, target: usize)
    requires
        graft_site(old(flat_tree)@, mover as int, target as int),
    ensures
        final(flat_tree)@ == regrafted(old(flat_tree)@, mover as int, target as int, false),
{
    let p: usize = flat_tree[mover].parent.unwrap();
    let ft: usize = flat_tree[target].parent.unwrap();
    let mover_is_left: bool = flat_tree[p].left_child == Some(mover);
    let s: usize = if mover_is_left {
        flat_tree[p].right_child.unwrap()
    } else {
        flat_tree[p].left_child.unwrap()
    };
    let g: Option<usize> = flat_tree[p].parent;
    let target_is_left: bool = flat_tree[ft].left_child == Some(target);
    let parent_is_left: bool = match g {
        Some(gi) => flat_tree[gi].left_child == Some(p),
        None => false,
    };
    flat_tree[target].parent = Some(p);
    flat_tree[p].parent = Some(ft);
    flat_tree[s].parent = g;
    if target_is_left {
        flat_tree[ft].left_child = Some(p);
    } else {
        flat_tree[ft].right_child = Some(p);
    }
    if mover_is_left {
        flat_tree[p].right_child = Some(target);
    } else {
        flat_tree[p].left_child = Some(target);
    }
    if let Some(gi) = g {
        if parent_is_left {
            flat_tree[gi].left_child = Some(s);
        } else {
            flat_tree[gi].right_child = Some(s);
        }
    }
    assert(flat_tree@ =~= regrafted(old(flat_tree)@, mover as int, target as int, false));
}

/// The arena with the two slots of record `p` exchanged.
spec fn with_slots_exchanged(tree: Seq<FlatNode>, p: int) -> Seq<FlatNode> {
    tree.update(
        p,
        (FlatNode { left_child: tree[p].right_child, right_child: tree[p].left_child, ..tree[p] }),
    )
}

/// A regraft in which `target` takes the slot of `mover` is the regraft in
/// which `mover` keeps its slot, with the slots of their parent exchanged.
proof fn lemma_regraft_exchanged(tree: Seq<FlatNode>, mover: int, target: int)
    requires
        graft_site(tree, mover, target),
    ensures
        regrafted(tree, mover, target, true) == with_slots_exchanged(
            regrafted(tree, mover, target, false),
            parent_of(tree, mover),
        ),
{
    let p = parent_of(tree, mover);
    let beside = regrafted(tree, mover, target, false);
    let exchanged = with_slots_exchanged(beside, p);
    let taken = regrafted(tree, mover, target, true);
    assert forall|i: int| 0 <= i < tree.len() implies taken[i] == exchanged[i] by {
        if i == p {
            assert(beside[p] == regrafted_record(tree, mover, target, false, p));
            assert(taken[p] == regrafted_record(tree, mover, target, true, p));
        } else {
            assert(beside[i] == regrafted_record(tree, mover, target, false, i));
            assert(taken[i] == regrafted_record(tree, mover, target, true, i));
        }
    }
    assert(taken =~= exchanged);
}

/// Cuts out `mover` with its parent and grafts them onto the branch above
/// `target`. Where `takes_slot` holds, `target` stands in the slot of the
/// parent that held `mover`, and `mover` in the one that its sibling left.
fn regraft(flat_tree: &mut Vec<FlatNode>, mover: usize, target: usize, takes_slot: bool)
    requires
        graft_site(old(flat_tree)@, mover as int, target as int),
    ensures
        final(flat_tree)@ == regrafted(
            old(flat_tree)@,
            mover as int,
            target as int,
            takes_slot,
        ),
{
    let p: usize = flat_tree[mover].parent.unwrap();
    regraft_beside(flat_tree, mover, target);
    if takes_slot {
        let ghost beside = flat_tree@;
        let left: Option<usize> = flat_tree[p].left_child;
        let right: Option<usize> = flat_tree[p].right_child;
        flat_tree[p].left_child = right;
        flat_tree[p].right_child = left;
        proof {
            assert(flat_tree@ =~= with_slots_exchanged(beside, p as int));
            lemma_regraft_exchanged(old(flat_tree)@, mover as int, target as int);
        }
    }
}

/// Applies one transfer to the arena.
pub fn change_tree(flat_tree: &mut Vec<FlatNode>, transfer: Transfer)
    requires
        well_formed(old(flat_tree)@),
        transfer_applies(old(flat_tree)@, transfer),
    ensures
        final(flat_tree)@ == transferred(old(flat_tree)@, transfer),
        well_formed(final(flat_tree)@),
        has_single_root(final(flat_tree)@),
        final(flat_tree)@[transfer.donor as int].parent is Some,
        final(flat_tree)@[transfer.donor as int].parent
            == final(flat_tree)@[transfer.recipient as int].parent,
{
    let a: usize = transfer.donor;
    let b: usize = transfer.recipient;
    let t: i64 = transfer.time;
    let fa: usize = flat_tree[a].parent.unwrap();
    let fb: usize = flat_tree[b].parent.unwrap();
    proof {
        assert(linked_at(flat_tree@, a as int));
        assert(linked_at(flat_tree@, b as int));
        lemma_transfer_well_formed(flat_tree@, transfer);
    }
    let donor_at_root: bool = flat_tree[fa].parent.is_none();
    if fa == fb {
        if donor_at_root {
            let donor_span: i64 = flat_tree[a].depth.unwrap() - t;
            let recipient_span: i64 = flat_tree[b].depth.unwrap() - t;
            flat_tree[a].length = donor_span;
            flat_tree[b].length = recipient_span;
            assert forall|i: int| 0 <= i < flat_tree.len() implies ((
            #[trigger] flat_tree@[i]).depth matches Some(d) ==> i64::MIN <= d - t <= i64::MAX) by {
                assert(flat_tree@[i].depth == old(flat_tree)@[i].depth);
            }
            rebase(flat_tree, fa, t);
        } else {
            flat_tree[fb].depth = Some(t);
        }
    } else if donor_at_root {
        proof {
            lemma_graft_site(flat_tree@, a as int, b as int);
        }
        let s: usize = if flat_tree[fa].left_child == Some(a) {
            flat_tree[fa].right_child.unwrap()
        } else {
            flat_tree[fa].left_child.unwrap()
        };
        let span: i64 = flat_tree[b].depth.unwrap() - t;
        regraft(flat_tree, a, b, false);
        flat_tree[b].length = span;
        flat_tree[s].length = 0;
        flat_tree[fa].length = span;
        assert forall|i: int| 0 <= i < flat_tree.len() implies ((
        #[trigger] flat_tree@[i]).depth matches Some(d) ==> i64::MIN <= d - t <= i64::MAX) by {
            assert(flat_tree@[i].depth == old(flat_tree)@[i].depth);
        }
        rebase(flat_tree, fa, t);
    } else {
        proof {
            lemma_graft_site(flat_tree@, b as int, a as int);
        }
        regraft(flat_tree, b, a, true);
        flat_tree[fb].depth = Some(t);
    }
    assert(flat_tree@ =~= transferred(old(flat_tree)@, transfer));
}

/// Some number is at least every height.
proof fn lemma_height_bound(height: Seq<nat>) -> (bound: nat)
    ensures
        forall|i: int| 0 <= i < height.len() ==> height[i] <= bound,
    decreases height.len(),
{
    if height.len() == 0 {
        0
    } else {
        let rest = lemma_height_bound(height.drop_last());
        let bound = if rest >= height.last() {
            rest
        } else {
            height.last()
        };
        assert forall|i: int| 0 <= i < height.len() implies height[i] <= bound by {
            if i < height.len() - 1 {
                assert(height.drop_last()[i] == height[i]);
            }
        }
        bound
    }
}

/// Tells whether `x` lies in the subtree that hangs from `top`.
pub fn is_in_subtree(flat_tree: &Vec<FlatNode>, top: usize, x: usize) -> (inside: bool)
    requires
        well_formed(flat_tree@),
        x < flat_tree.len(),
    ensures
        inside == in_subtree(flat_tree@, top as int, x as int),
{
    let ghost height = choose|height: Seq<nat>| ranks(flat_tree@, height);
    let ghost bound = lemma_height_bound(height);
    let ghost mut steps: nat = 0;
    let mut cur: usize = x;
    loop
        invariant
            ranks(flat_tree@, height),
            forall|i: int| 0 <= i < height.len() ==> height[i] <= bound,
            cur < flat_tree.len(),
            nth_ancestor(flat_tree@, x as int, steps) == Some(cur as int),
            forall|j: nat| j < steps ==> nth_ancestor(flat_tree@, x as int, j) != Some(top as int),
        decreases bound - height[cur as int],
    {
        if cur == top {
            return true;
        }
        proof {
            assert(ranked_at(flat_tree@, height, cur as int));
            lemma_ancestor_split(flat_tree@, x as int, steps, 1);
            assert(nth_ancestor(flat_tree@, cur as int, 1) == (match flat_tree@[cur as int].parent {
                None => None,
                Some(q) => nth_ancestor(flat_tree@, q as int, 0),
            }));
        }
        match flat_tree[cur].parent {
            None => {
                proof {
                    assert forall|j: nat|
                        nth_ancestor(flat_tree@, x as int, j) != Some(top as int) by {
                        if j > steps {
                            lemma_ancestor_split(flat_tree@, x as int, steps, (j - steps) as nat);
                        }
                    }
                }
                return false;
            },
            Some(q) => {
                cur = q;
                proof {
                    steps = steps + 1;
                }
            },
        }
    }
}

/// Tells whether the transfer can be applied to the arena.
pub fn can_apply(flat_tree: &Vec<FlatNode>, transfer: Transfer) -> (applies: bool)
    requires
        well_formed(flat_tree@),
    ensures
        applies == transfer_applies(flat_tree@, transfer),
{
    let a: usize = transfer.donor;
    let b: usize = transfer.recipient;
    if a >= flat_tree.len() || b >= flat_tree.len() {
        return false;
    }
    if flat_tree[a].parent.is_none() || flat_tree[b].parent.is_none() {
        return false;
    }
    if is_in_subtree(flat_tree, a, b) || is_in_subtree(flat_tree, b, a) {
        return false;
    }
    let fa: usize = flat_tree[a].parent.unwrap();
    let fb: usize = flat_tree[b].parent.unwrap();
    proof {
        assert(linked_at(flat_tree@, a as int));
    }
    if flat_tree[fa].parent.is_some() {
        return true;
    }
    if flat_tree[b].depth.is_none() || (fa == fb && flat_tree[a].depth.is_none()) {
        return false;
    }
    let mut i: usize = 0;
    while i < flat_tree.len()
        invariant
            i <= flat_tree.len(),
            flat_tree@[parent_of(flat_tree@, transfer.donor as int)].parent is None,
            forall|k: int|
                0 <= k < i ==> ((#[trigger] flat_tree@[k]).depth matches Some(d) ==> i64::MIN <= d
                    - transfer.time <= i64::MAX),
        decreases flat_tree.len() - i,
    {
        if let Some(d) = flat_tree[i].depth {
            let shifted: i128 = d as i128 - transfer.time as i128;
            if shifted < i64::MIN as i128 || shifted > i64::MAX as i128 {
                assert(!rebase_fits(flat_tree@, transfer.time)) by {
                    assert(flat_tree@[i as int].depth == Some(d));
                    assert(!(i64::MIN <= d - transfer.time <= i64::MAX));
                }
                return false;
            }
        }
        i += 1;
    }
    true
}

/// The arena after the first `n` of the transfers, applied in order.
pub open spec fn applied(tree: Seq<FlatNode>, transfers: Seq<Transfer>, n: nat) -> Seq<FlatNode>
    decreases n,
{
    if n == 0 {
        tree
    } else {
        transferred(applied(tree, transfers, (n - 1) as nat), transfers[n - 1])
    }
}

/// Each of the first `n` transfers can be applied to the arena that the
/// transfers before it leave.
pub open spec fn all_apply(tree: Seq<FlatNode>, transfers: Seq<Transfer>, n: nat) -> bool {
    forall|k: nat|
        k < n ==> transfer_applies(#[trigger] applied(tree, transfers, k), transfers[k as int])
}

/// Applying transfers that can be applied keeps the arena well-formed.
pub proof fn lemma_applied_well_formed(tree: Seq<FlatNode>, transfers: Seq<Transfer>, n: nat)
    requires
        well_formed(tree),
        n <= transfers.len(),
        all_apply(tree, transfers, n),
    ensures
        well_formed(applied(tree, transfers, n)),
        applied(tree, transfers, n).len() == tree.len(),
    decreases n,
{
    if n > 0 {
        let k = (n - 1) as nat;
        assert forall|j: nat| j < k implies transfer_applies(
            #[trigger] applied(tree, transfers, j),
            transfers[j as int],
        ) by {}
        lemma_applied_well_formed(tree, transfers, k);
        assert(transfer_applies(applied(tree, transfers, k), transfers[k as int]));
        lemma_transfer_well_formed(applied(tree, transfers, k), transfers[k as int]);
    }
}

/// Applies the transfers to the arena, in the order given.
///
/// The first transfer that cannot be applied stops the work: its position is
/// returned, and the arena is left as the transfers before it made it.
pub fn create_new_tree(new_flat_tree: &mut Vec<FlatNode>, transfers: &Vec<Transfer>) -> (done:
    Result<(), usize>)
    requires
        well_formed(old(new_flat_tree)@),
    ensures
        well_formed(final(new_flat_tree)@),
        has_single_root(final(new_flat_tree)@),
        match done {
            Ok(()) => {
                &&& all_apply(old(new_flat_tree)@, transfers@, transfers@.len())
                &&& final(new_flat_tree)@ == applied(
                    old(new_flat_tree)@,
                    transfers@,
                    transfers@.len(),
                )
            },
            Err(k) => {
                &&& k < transfers.len()
                &&& all_apply(old(new_flat_tree)@, transfers@, k as nat)
                &&& !transfer_applies(
                    applied(old(new_flat_tree)@, transfers@, k as nat),
                    transfers@[k as int],
                )
                &&& final(new_flat_tree)@ == applied(old(new_flat_tree)@, transfers@, k as nat)
            },
        },
{
    let mut k: usize = 0;
    while k < transfers.len()
        invariant
            k <= transfers.len(),
            well_formed(new_flat_tree@),
            all_apply(old(new_flat_tree)@, transfers@, k as nat),
            new_flat_tree@ == applied(old(new_flat_tree)@, transfers@, k as nat),
        decreases transfers.len() - k,
    {
        let transfer: Transfer = transfers[k];
        if !can_apply(new_flat_tree, transfer) {
            return Err(k);
        }
        change_tree(new_flat_tree, transfer);
        k += 1;
    }
    Ok(())
}

} // verus!
