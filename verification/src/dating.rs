//! Depths from lengths, and lengths from depths.
//!
//! A tree is dated from the root down: the depth of a node is the depth of
//! its parent plus its own length. While transfers are applied only depths
//! are kept up to date; the lengths are derived from them again at the end.

use crate::node::Node;
use vstd::prelude::*;

verus! {

/// Why a tree could not be dated or its lengths derived.
#[derive(Clone, Copy, Debug, PartialEq, Eq, Structural)]
pub enum TimeError {
    /// A time would not fit in 64 bits.
    Overflow,
    /// A node that has to have a depth has none.
    MissingDepth,
}

/// With the top of the subtree at `depth`, every depth below it fits.
pub open spec fn depths_fit(node: Node, depth: int) -> bool
    decreases node,
{
    &&& i64::MIN <= depth <= i64::MAX
    &&& match node.left_child {
        Some(l) => depths_fit(*l, depth + l.length),
        None => true,
    }
    &&& match node.right_child {
        Some(r) => depths_fit(*r, depth + r.length),
        None => true,
    }
}

/// The subtree with its top at `depth` and every node below at the depth of
/// its parent plus its own length.
pub open spec fn dated(node: Node, depth: int) -> Node
    decreases node,
{
    Node {
        left_child: match node.left_child {
            Some(l) => Some(Box::new(dated(*l, depth + l.length))),
            None => None,
        },
        right_child: match node.right_child {
            Some(r) => Some(Box::new(dated(*r, depth + r.length))),
            None => None,
        },
        depth: Some(depth as i64),
        ..node
    }
}

fn depths_fit_in(node: &Node, depth: i64) -> (fits: bool)
    ensures
        fits == depths_fit(*node, depth as int),
    decreases node,
{
    proof {
        reveal_with_fuel(depths_fit, 2);
    }
    if let Some(left) = &node.left_child {
        let below: i128 = depth as i128 + left.length as i128;
        if below < i64::MIN as i128 || below > i64::MAX as i128 {
            return false;
        }
        if !depths_fit_in(left, below as i64) {
            return false;
        }
    }
    if let Some(right) = &node.right_child {
        let below: i128 = depth as i128 + right.length as i128;
        if below < i64::MIN as i128 || below > i64::MAX as i128 {
            return false;
        }
        if !depths_fit_in(right, below as i64) {
            return false;
        }
    }
    true
}

fn set_depths(node: &mut Node, depth: i64)
    requires
        depths_fit(*old(node), depth as int),
    ensures
        *final(node) == dated(*old(node), depth as int),
    decreases *old(node),
{
    proof {
        reveal_with_fuel(depths_fit, 2);
    }
    node.depth = Some(depth);
    if let Some(left) = &mut node.left_child {
        let below: i64 = depth + left.length;
        set_depths(left, below);
    }
    if let Some(right) = &mut node.right_child {
        let below: i64 = depth + right.length;
        set_depths(right, below);
    }
}

/// Dates the subtree from its top down, the top being at `depth`.
///
/// Fails, and leaves the subtree as it was, where a depth would not fit.
pub fn give_depth(node: &mut Node, depth: i64) -> (done: Result<(), TimeError>)
    ensures
        match done {
            Ok(()) => depths_fit(*old(node), depth as int) && *final(node) == dated(
                *old(node),
                depth as int,
            ),
            Err(e) => e == TimeError::Overflow && !depths_fit(*old(node), depth as int)
                && *final(node) == *old(node),
        },
{
    if !depths_fit_in(node, depth) {
        return Err(TimeError::Overflow);
    }
    set_depths(node, depth);
    Ok(())
}

/// Every node of the subtree has a depth.
pub open spec fn has_depths(node: Node) -> bool
    decreases node,
{
    &&& node.depth is Some
    &&& match node.left_child {
        Some(l) => has_depths(*l),
        None => true,
    }
    &&& match node.right_child {
        Some(r) => has_depths(*r),
        None => true,
    }
}

/// In a subtree whose nodes all have depths and whose top hangs from a node
/// at `parent_depth`: the depth of every node that names a parent, less the
/// depth of the node above it, fits.
pub open spec fn spans_fit(node: Node, parent_depth: int) -> bool
    decreases node,
{
    &&& node.parent is Some ==> i64::MIN <= node.depth->0 - parent_depth <= i64::MAX
    &&& match node.left_child {
        Some(l) => spans_fit(*l, node.depth->0 as int),
        None => true,
    }
    &&& match node.right_child {
        Some(r) => spans_fit(*r, node.depth->0 as int),
        None => true,
    }
}

/// The subtree with the length of every node that names a parent set to its
/// depth less the depth of the node above it, `parent_depth` for the top.
/// A node that names no parent keeps its length.
pub open spec fn finalized(node: Node, parent_depth: int) -> Node
    decreases node,
{
    Node {
        left_child: match node.left_child {
            Some(l) => Some(Box::new(finalized(*l, node.depth->0 as int))),
            None => None,
        },
        right_child: match node.right_child {
            Some(r) => Some(Box::new(finalized(*r, node.depth->0 as int))),
            None => None,
        },
        length: if node.parent is Some {
            (node.depth->0 - parent_depth) as i64
        } else {
            node.length
        },
        ..node
    }
}

/// Every node below the top of the subtree names a parent.
pub open spec fn children_name_parents(node: Node) -> bool
    decreases node,
{
    &&& match node.left_child {
        Some(l) => l.parent is Some && children_name_parents(*l),
        None => true,
    }
    &&& match node.right_child {
        Some(r) => r.parent is Some && children_name_parents(*r),
        None => true,
    }
}

/// Below the top of the subtree, the length of every node is its depth less
/// the depth of its parent.
pub open spec fn lengths_follow_depths(node: Node) -> bool
    decreases node,
{
    &&& match node.left_child {
        Some(l) => l.length == l.depth->0 - node.depth->0 && lengths_follow_depths(*l),
        None => true,
    }
    &&& match node.right_child {
        Some(r) => r.length == r.depth->0 - node.depth->0 && lengths_follow_depths(*r),
        None => true,
    }
}

/// Once the lengths have been derived from the depths, the depth of every
/// node below the top less the depth of its parent is its length.
pub proof fn lemma_finalized_consistent(node: Node, parent_depth: int)
    requires
        has_depths(node),
        spans_fit(node, parent_depth),
        children_name_parents(node),
    ensures
        lengths_follow_depths(finalized(node, parent_depth)),
        has_depths(finalized(node, parent_depth)),
        finalized(node, parent_depth).depth == node.depth,
    decreases node,
{
    reveal_with_fuel(spans_fit, 2);
    reveal_with_fuel(finalized, 2);
    match node.left_child {
        Some(l) => lemma_finalized_consistent(*l, node.depth->0 as int),
        None => {},
    }
    match node.right_child {
        Some(r) => lemma_finalized_consistent(*r, node.depth->0 as int),
        None => {},
    }
}

fn depths_present(node: &Node) -> (present: bool)
    ensures
        present == has_depths(*node),
    decreases node,
{
    if node.depth.is_none() {
        return false;
    }
    if let Some(left) = &node.left_child {
        if !depths_present(left) {
            return false;
        }
    }
    if let Some(right) = &node.right_child {
        if !depths_present(right) {
            return false;
        }
    }
    true
}

fn spans_fit_in(node: &Node, parent_depth: i64) -> (fits: bool)
    requires
        has_depths(*node),
    ensures
        fits == spans_fit(*node, parent_depth as int),
    decreases node,
{
    let depth: i64 = node.depth.unwrap();
    if node.parent.is_some() {
        let span: i128 = depth as i128 - parent_depth as i128;
        if span < i64::MIN as i128 || span > i64::MAX as i128 {
            return false;
        }
    }
    if let Some(left) = &node.left_child {
        if !spans_fit_in(left, depth) {
            return false;
        }
    }
    if let Some(right) = &node.right_child {
        if !spans_fit_in(right, depth) {
            return false;
        }
    }
    true
}

fn set_lengths(node: &mut Node, parent_depth: i64)
    requires
        has_depths(*old(node)),
        spans_fit(*old(node), parent_depth as int),
    ensures
        *final(node) == finalized(*old(node), parent_depth as int),
    decreases *old(node),
{
    let depth: i64 = node.depth.unwrap();
    if node.parent.is_some() {
        node.length = depth - parent_depth;
    }
    if let Some(left) = &mut node.left_child {
        set_lengths(left, depth);
    }
    if let Some(right) = &mut node.right_child {
        set_lengths(right, depth);
    }
}

/// Derives the lengths of the subtree from its depths, its top hanging from
/// a node at `parent_depth`.
///
/// Fails, and leaves the subtree as it was, where a node has no depth or a
/// length would not fit.
pub fn depths_to_lengths(node: &mut Node, parent_depth: i64) -> (done: Result<(), TimeError>)
    ensures
        match done {
            Ok(()) => {
                &&& has_depths(*old(node))
                &&& spans_fit(*old(node), parent_depth as int)
                &&& *final(node) == finalized(*old(node), parent_depth as int)
            },
            Err(TimeError::MissingDepth) => !has_depths(*old(node)) && *final(node) == *old(node),
            Err(TimeError::Overflow) => {
                &&& has_depths(*old(node))
                &&& !spans_fit(*old(node), parent_depth as int)
                &&& *final(node) == *old(node)
            },
        },
{
    if !depths_present(node) {
        return Err(TimeError::MissingDepth);
    }
    if !spans_fit_in(node, parent_depth) {
        return Err(TimeError::Overflow);
    }
    set_lengths(node, parent_depth);
    Ok(())
}

} // verus!
