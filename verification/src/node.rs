//! The owned tree, and its conversion to and from the arena.

use crate::arena::{
    binary_at, cross_linked, is_acyclic, is_binary, is_sole_root, linked_at, ranked_at, ranks,
    well_formed, FlatNode,
};
use vstd::prelude::*;

verus! {

/// A node that owns its two subtrees.
///
/// `parent` is a position in an arena, not an owner: it is filled in when the
/// node is rebuilt from one.
#[derive(Debug, PartialEq, Eq)]
pub struct Node {
    pub name: String,
    pub left_child: Option<Box<Node>>,
    pub right_child: Option<Box<Node>>,
    pub parent: Option<usize>,
    /// Ticks elapsed between the root and this node; absent until assigned.
    pub depth: Option<i64>,
    /// Ticks spanned by the branch above this node.
    pub length: i64,
}

impl Node {
    /// The number of nodes of the subtree.
    pub open spec fn count(self) -> nat
        decreases self,
    {
        1 + (match self.left_child {
            Some(l) => l.count(),
            None => 0,
        }) + (match self.right_child {
            Some(r) => r.count(),
            None => 0,
        })
    }

    /// Every node of the subtree has no child or two.
    pub open spec fn is_binary(self) -> bool
        decreases self,
    {
        match (self.left_child, self.right_child) {
            (None, None) => true,
            (Some(l), Some(r)) => l.is_binary() && r.is_binary(),
            _ => false,
        }
    }
}

/// The records that `node` and its descendants occupy when `node` is stored
/// at position `at` under `parent`: the node first, then its whole left
/// subtree, then its right subtree.
pub open spec fn flattened(node: Node, parent: Option<usize>, at: nat) -> Seq<FlatNode>
    decreases node,
{
    let left_part = match node.left_child {
        Some(l) => flattened(*l, Some(at as usize), at + 1),
        None => Seq::empty(),
    };
    let right_at = at + 1 + left_part.len();
    let right_part = match node.right_child {
        Some(r) => flattened(*r, Some(at as usize), right_at),
        None => Seq::empty(),
    };
    seq![
        FlatNode {
            name: node.name,
            left_child: if node.left_child is Some {
                Some((at + 1) as usize)
            } else {
                None
            },
            right_child: if node.right_child is Some {
                Some(right_at as usize)
            } else {
                None
            },
            parent: parent,
            depth: node.depth,
            length: node.length,
        },
    ] + left_part + right_part
}

/// `node` is the owned form of the subtree stored at `index`: the same names,
/// depths and lengths in the same shape, with `parent` at its top and, below
/// it, each node's parent set to the position of the record above it.
pub open spec fn represents(
    tree: Seq<FlatNode>,
    index: int,
    parent: Option<usize>,
    node: Node,
) -> bool
    decreases node,
{
    &&& 0 <= index < tree.len()
    &&& node.name == tree[index].name
    &&& node.parent == parent
    &&& node.depth == tree[index].depth
    &&& node.length == tree[index].length
    &&& match (tree[index].left_child, node.left_child) {
        (None, None) => true,
        (Some(i), Some(l)) => represents(tree, i as int, Some(index as usize), *l),
        _ => false,
    }
    &&& match (tree[index].right_child, node.right_child) {
        (None, None) => true,
        (Some(i), Some(r)) => represents(tree, i as int, Some(index as usize), *r),
        _ => false,
    }
}

/// The owned form of the subtree stored at `index`, with `parent` at its top.
pub open spec fn owned_form(tree: Seq<FlatNode>, index: int, parent: Option<usize>) -> Node {
    choose|node: Node| represents(tree, index, parent, node)
}

/// A stored subtree has one owned form only.
pub proof fn lemma_represents_unique(
    tree: Seq<FlatNode>,
    index: int,
    parent: Option<usize>,
    one: Node,
    other: Node,
)
    requires
        represents(tree, index, parent, one),
        represents(tree, index, parent, other),
    ensures
        one == other,
    decreases one,
{
    match (one.left_child, other.left_child) {
        (Some(l), Some(m)) => {
            lemma_represents_unique(
                tree,
                tree[index].left_child->0 as int,
                Some(index as usize),
                *l,
                *m,
            );
        },
        _ => {},
    }
    match (one.right_child, other.right_child) {
        (Some(r), Some(q)) => {
            lemma_represents_unique(
                tree,
                tree[index].right_child->0 as int,
                Some(index as usize),
                *r,
                *q,
            );
        },
        _ => {},
    }
}

/// The two subtrees have the same shape and the same names, and no length
/// differs by more than one tick.
pub open spec fn same_trees(one: Node, other: Node) -> bool
    decreases one,
{
    &&& one.name@ == other.name@
    &&& -1 <= one.length - other.length <= 1
    &&& match (one.left_child, other.left_child) {
        (Some(l), Some(m)) => same_trees(*l, *m),
        (None, None) => true,
        _ => false,
    }
    &&& match (one.right_child, other.right_child) {
        (Some(r), Some(q)) => same_trees(*r, *q),
        (None, None) => true,
        _ => false,
    }
}

/// Tells whether the two subtrees are the same in shape, names and, up to
/// one tick, lengths.
pub fn compare_trees(node1: &Node, node2: &Node) -> (same: bool)
    ensures
        same == same_trees(*node1, *node2),
    decreases node1,
{
    if !(node1.name == node2.name) {
        return false;
    }
    let gap: i128 = node1.length as i128 - node2.length as i128;
    if gap > 1 || gap < -1 {
        return false;
    }
    match (&node1.left_child, &node2.left_child) {
        (Some(l1), Some(l2)) => {
            if !compare_trees(l1, l2) {
                return false;
            }
        },
        (None, None) => {},
        _ => {
            return false;
        },
    }
    match (&node1.right_child, &node2.right_child) {
        (Some(r1), Some(r2)) => {
            if !compare_trees(r1, r2) {
                return false;
            }
        },
        (None, None) => {},
        _ => {
            return false;
        },
    }
    true
}

/// Tells whether every node of the subtree has no child or two.
pub fn is_binary_tree(node: &Node) -> (binary: bool)
    ensures
        binary == node.is_binary(),
    decreases node,
{
    match (&node.left_child, &node.right_child) {
        (None, None) => true,
        (Some(left), Some(right)) => is_binary_tree(left) && is_binary_tree(right),
        _ => false,
    }
}

/// Appends `node` and its descendants to the arena and returns the position
/// that `node` took.
pub fn node_to_flat(node: &Node, flat_tree: &mut Vec<FlatNode>, parent: Option<usize>) -> (index:
    usize)
    ensures
        index == old(flat_tree)@.len(),
        final(flat_tree)@ == old(flat_tree)@ + flattened(*node, parent, old(flat_tree)@.len()),
    decreases node,
{
    let index: usize = flat_tree.len();
    flat_tree.push(
        FlatNode {
            name: node.name.clone(),
            left_child: None,
            right_child: None,
            parent: parent,
            depth: node.depth,
            length: node.length,
        },
    );
    if let Some(left) = &node.left_child {
        let left_index: usize = node_to_flat(left, flat_tree, Some(index));
        flat_tree[index].left_child = Some(left_index);
    }
    if let Some(right) = &node.right_child {
        let right_index: usize = node_to_flat(right, flat_tree, Some(index));
        flat_tree[index].right_child = Some(right_index);
    }
    assert(flat_tree@ =~= old(flat_tree)@ + flattened(*node, parent, old(flat_tree)@.len()));
    index
}

/// Rebuilds the owned form of the subtree stored at `index`.
///
/// `parent_index` becomes the parent of the rebuilt top node whatever the
/// arena says, so this is meant to be called at the root with `None`.
pub fn flat_to_node(flat_tree: &Vec<FlatNode>, index: usize, parent_index: Option<usize>) -> (node:
    Node)
    requires
        cross_linked(flat_tree@),
        is_acyclic(flat_tree@),
        index < flat_tree.len(),
    ensures
        represents(flat_tree@, index as int, parent_index, node),
        node == owned_form(flat_tree@, index as int, parent_index),
{
    let ghost height = choose|height: Seq<nat>| ranks(flat_tree@, height);
    let node = rebuild(flat_tree, index, parent_index, Ghost(height));
    proof {
        lemma_represents_unique(
            flat_tree@,
            index as int,
            parent_index,
            node,
            owned_form(flat_tree@, index as int, parent_index),
        );
    }
    node
}

/// Rebuilds the owned form of the subtree stored at `index`, the heights
/// bounding how far down the work goes.
fn rebuild(
    flat_tree: &Vec<FlatNode>,
    index: usize,
    parent_index: Option<usize>,
    Ghost(height): Ghost<Seq<nat>>,
) -> (node: Node)
    requires
        cross_linked(flat_tree@),
        ranks(flat_tree@, height),
        index < flat_tree.len(),
    ensures
        represents(flat_tree@, index as int, parent_index, node),
    decreases height[index as int],
{
    assert(linked_at(flat_tree@, index as int));
    if let Some(i) = flat_tree[index].left_child {
        assert(ranked_at(flat_tree@, height, i as int));
    }
    if let Some(i) = flat_tree[index].right_child {
        assert(ranked_at(flat_tree@, height, i as int));
    }
    let left_child = match flat_tree[index].left_child {
        Some(i) => Some(Box::new(rebuild(flat_tree, i, Some(index), Ghost(height)))),
        None => None,
    };
    let right_child = match flat_tree[index].right_child {
        Some(i) => Some(Box::new(rebuild(flat_tree, i, Some(index), Ghost(height)))),
        None => None,
    };
    Node {
        name: flat_tree[index].name.clone(),
        left_child: left_child,
        right_child: right_child,
        parent: parent_index,
        depth: flat_tree[index].depth,
        length: flat_tree[index].length,
    }
}

/// Every record of the block but the first names a parent that stands
/// earlier in the block and lists the record in one of its slots.
pub open spec fn block_parents(block: Seq<FlatNode>, at: nat) -> bool {
    forall|k: int|
        0 < k < block.len() ==> ((#[trigger] block[k]).parent matches Some(q) && at <= q < at + k
            && (block[q - at].left_child == Some((at + k) as usize) || block[q
            - at].right_child == Some((at + k) as usize)))
}

/// Every child listed in the block stands later in the block, names the
/// lister as its parent, and differs from the child in the other slot.
pub open spec fn block_children(block: Seq<FlatNode>, at: nat) -> bool {
    forall|k: int|
        0 <= k < block.len() ==> {
            &&& (#[trigger] block[k]).left_child matches Some(c) ==> at + k < c < at
                + block.len() && block[c - at].parent == Some((at + k) as usize)
            &&& block[k].right_child matches Some(c) ==> at + k < c < at + block.len()
                && block[c - at].parent == Some((at + k) as usize)
            &&& (block[k].left_child is Some && block[k].right_child is Some)
                ==> block[k].left_child != block[k].right_child
        }
}

/// What holds of the records of one subtree stored from position `at` on
/// under `parent`: links stay inside the block, a parent comes before its
/// children, and each link is answered from the other side.
pub open spec fn block_linked(block: Seq<FlatNode>, at: nat, parent: Option<usize>) -> bool {
    &&& block.len() >= 1
    &&& block[0].parent == parent
    &&& block_parents(block, at)
    &&& block_children(block, at)
}

/// Every record of the block has no child or two.
pub open spec fn block_binary(block: Seq<FlatNode>) -> bool {
    forall|k: int|
        0 <= k < block.len() ==> ((#[trigger] block[k]).left_child is Some
            <==> block[k].right_child is Some)
}

/// A subtree takes as many records as it has nodes.
pub proof fn lemma_flattened_len(node: Node, parent: Option<usize>, at: nat)
    ensures
        flattened(node, parent, at).len() == node.count(),
    decreases node,
{
    match node.left_child {
        Some(l) => lemma_flattened_len(*l, Some(at as usize), at + 1),
        None => {},
    }
    let left_len = match node.left_child {
        Some(l) => l.count(),
        None => 0,
    };
    match node.right_child {
        Some(r) => lemma_flattened_len(*r, Some(at as usize), at + 1 + left_len),
        None => {},
    }
}

/// A record followed by the blocks of its children: every record after the
/// first finds its parent earlier in the whole.
proof fn lemma_join_parents(
    block: Seq<FlatNode>,
    left_part: Seq<FlatNode>,
    right_part: Seq<FlatNode>,
    at: nat,
)
    requires
        at + block.len() <= usize::MAX,
        block.len() == 1 + left_part.len() + right_part.len(),
        block[0].left_child == (if left_part.len() > 0 {
            Some((at + 1) as usize)
        } else {
            None
        }),
        block[0].right_child == (if right_part.len() > 0 {
            Some((at + 1 + left_part.len()) as usize)
        } else {
            None
        }),
        forall|k: int| 1 <= k < 1 + left_part.len() ==> #[trigger] block[k] == left_part[k - 1],
        forall|k: int|
            1 + left_part.len() <= k < block.len() ==> #[trigger] block[k] == right_part[k - 1
                - left_part.len()],
        left_part.len() > 0 ==> left_part[0].parent == Some(at as usize),
        right_part.len() > 0 ==> right_part[0].parent == Some(at as usize),
        block_parents(left_part, at + 1),
        block_parents(right_part, at + 1 + left_part.len()),
    ensures
        block_parents(block, at),
{
    let right_at = at + 1 + left_part.len();
    assert forall|k: int| 0 < k < block.len() implies ((#[trigger] block[k]).parent matches Some(
        q,
    ) && at <= q < at + k && (block[q - at].left_child == Some((at + k) as usize) || block[q
        - at].right_child == Some((at + k) as usize))) by {
        if k < 1 + left_part.len() {
            let j = k - 1;
            assert(block[k] == left_part[j]);
            if j > 0 {
                let q = left_part[j].parent->0;
                assert(block[q - at] == left_part[q - (at + 1)]);
            }
        } else {
            let j = k - 1 - left_part.len();
            assert(block[k] == right_part[j]);
            if j > 0 {
                let q = right_part[j].parent->0;
                assert(block[q - at] == right_part[q - right_at]);
            }
        }
    }
}

/// A record followed by the blocks of its children: every listed child is
/// found later in the whole and names its lister.
proof fn lemma_join_children(
    block: Seq<FlatNode>,
    left_part: Seq<FlatNode>,
    right_part: Seq<FlatNode>,
    at: nat,
)
    requires
        at + block.len() <= usize::MAX,
        block.len() == 1 + left_part.len() + right_part.len(),
        block[0].left_child == (if left_part.len() > 0 {
            Some((at + 1) as usize)
        } else {
            None
        }),
        block[0].right_child == (if right_part.len() > 0 {
            Some((at + 1 + left_part.len()) as usize)
        } else {
            None
        }),
        forall|k: int| 1 <= k < 1 + left_part.len() ==> #[trigger] block[k] == left_part[k - 1],
        forall|k: int|
            1 + left_part.len() <= k < block.len() ==> #[trigger] block[k] == right_part[k - 1
                - left_part.len()],
        left_part.len() > 0 ==> left_part[0].parent == Some(at as usize),
        right_part.len() > 0 ==> right_part[0].parent == Some(at as usize),
        block_children(left_part, at + 1),
        block_children(right_part, at + 1 + left_part.len()),
    ensures
        block_children(block, at),
{
    let right_at = at + 1 + left_part.len();
    assert forall|k: int| 0 <= k < block.len() implies {
        &&& (#[trigger] block[k]).left_child matches Some(c) ==> at + k < c < at + block.len()
            && block[c - at].parent == Some((at + k) as usize)
        &&& block[k].right_child matches Some(c) ==> at + k < c < at + block.len() && block[c
            - at].parent == Some((at + k) as usize)
        &&& (block[k].left_child is Some && block[k].right_child is Some) ==> block[k].left_child
            != block[k].right_child
    } by {
        if k == 0 {
            if left_part.len() > 0 {
                assert(block[1] == left_part[0]);
            }
            if right_part.len() > 0 {
                assert(block[right_at - at] == right_part[0]);
            }
        } else if k < 1 + left_part.len() {
            let j = k - 1;
            assert(block[k] == left_part[j]);
            if let Some(c) = left_part[j].left_child {
                assert(block[c - at] == left_part[c - (at + 1)]);
            }
            if let Some(c) = left_part[j].right_child {
                assert(block[c - at] == left_part[c - (at + 1)]);
            }
        } else {
            let j = k - 1 - left_part.len();
            assert(block[k] == right_part[j]);
            if let Some(c) = right_part[j].left_child {
                assert(block[c - at] == right_part[c - right_at]);
            }
            if let Some(c) = right_part[j].right_child {
                assert(block[c - at] == right_part[c - right_at]);
            }
        }
    }
}

/// The block of a node is its own record, then the block of its left
/// subtree, then the block of its right subtree.
proof fn lemma_flattened_shape(node: Node, parent: Option<usize>, at: nat)
    ensures
        ({
            let block = flattened(node, parent, at);
            let left_part = match node.left_child {
                Some(l) => flattened(*l, Some(at as usize), at + 1),
                None => Seq::empty(),
            };
            let right_part = match node.right_child {
                Some(r) => flattened(*r, Some(at as usize), at + 1 + left_part.len()),
                None => Seq::empty(),
            };
            &&& block.len() == 1 + left_part.len() + right_part.len()
            &&& block.len() == node.count()
            &&& node.left_child is Some ==> left_part.len() > 0
            &&& node.right_child is Some ==> right_part.len() > 0
            &&& block[0].parent == parent
            &&& block[0].left_child == (if left_part.len() > 0 {
                Some((at + 1) as usize)
            } else {
                None
            })
            &&& block[0].right_child == (if right_part.len() > 0 {
                Some((at + 1 + left_part.len()) as usize)
            } else {
                None
            })
            &&& forall|k: int|
                1 <= k < 1 + left_part.len() ==> #[trigger] block[k] == left_part[k - 1]
            &&& forall|k: int|
                1 + left_part.len() <= k < block.len() ==> #[trigger] block[k] == right_part[k
                    - 1 - left_part.len()]
        }),
{
    lemma_flattened_len(node, parent, at);
    match node.left_child {
        Some(l) => lemma_flattened_len(*l, Some(at as usize), at + 1),
        None => {},
    }
    let left_len = match node.left_child {
        Some(l) => l.count(),
        None => 0,
    };
    match node.right_child {
        Some(r) => lemma_flattened_len(*r, Some(at as usize), at + 1 + left_len),
        None => {},
    }
}

/// The records of a stored subtree are linked among themselves.
pub proof fn lemma_flattened_linked(node: Node, parent: Option<usize>, at: nat)
    requires
        at + node.count() <= usize::MAX,
    ensures
        block_linked(flattened(node, parent, at), at, parent),
    decreases node,
{
    let here = Some(at as usize);
    let left_part = match node.left_child {
        Some(l) => flattened(*l, here, at + 1),
        None => Seq::empty(),
    };
    let right_at = at + 1 + left_part.len();
    let right_part = match node.right_child {
        Some(r) => flattened(*r, here, right_at),
        None => Seq::empty(),
    };
    lemma_flattened_shape(node, parent, at);
    match node.left_child {
        Some(l) => {
            lemma_flattened_len(*l, here, at + 1);
            lemma_flattened_linked(*l, here, at + 1);
        },
        None => {},
    }
    match node.right_child {
        Some(r) => {
            lemma_flattened_len(*r, here, right_at);
            lemma_flattened_linked(*r, here, right_at);
        },
        None => {},
    }
    lemma_join_parents(flattened(node, parent, at), left_part, right_part, at);
    lemma_join_children(flattened(node, parent, at), left_part, right_part, at);
}

/// The records of a stored binary tree have no child or two.
pub proof fn lemma_flattened_binary(node: Node, parent: Option<usize>, at: nat)
    requires
        node.is_binary(),
    ensures
        block_binary(flattened(node, parent, at)),
    decreases node,
{
    let block = flattened(node, parent, at);
    let here = Some(at as usize);
    let left_part = match node.left_child {
        Some(l) => flattened(*l, here, at + 1),
        None => Seq::empty(),
    };
    let right_at = at + 1 + left_part.len();
    let right_part = match node.right_child {
        Some(r) => flattened(*r, here, right_at),
        None => Seq::empty(),
    };
    lemma_flattened_shape(node, parent, at);
    match node.left_child {
        Some(l) => lemma_flattened_binary(*l, here, at + 1),
        None => {},
    }
    match node.right_child {
        Some(r) => lemma_flattened_binary(*r, here, right_at),
        None => {},
    }
    assert forall|k: int| 0 <= k < block.len() implies ((#[trigger] block[k]).left_child is Some
        <==> block[k].right_child is Some) by {
        if k == 0 {
        } else if k < 1 + left_part.len() {
            assert(block[k] == left_part[k - 1]);
        } else {
            assert(block[k] == right_part[k - 1 - left_part.len()]);
        }
    }
}

/// Flattening a binary tree from position zero gives a well-formed arena
/// whose root is record zero.
pub proof fn lemma_flattened_well_formed(node: Node)
    requires
        node.is_binary(),
        node.count() <= usize::MAX,
    ensures
        well_formed(flattened(node, None, 0)),
        is_sole_root(flattened(node, None, 0), 0),
{
    let tree = flattened(node, None, 0);
    lemma_flattened_linked(node, None, 0);
    lemma_flattened_binary(node, None, 0);
    lemma_flattened_len(node, None, 0);
    assert forall|i: int| 0 <= i < tree.len() implies #[trigger] linked_at(tree, i) by {
        if i > 0 {
            let q = tree[i].parent->0;
            assert(tree[q as int] == tree[q - 0]);
        }
        if let Some(c) = tree[i].left_child {
            assert(tree[c as int] == tree[c - 0]);
        }
        if let Some(c) = tree[i].right_child {
            assert(tree[c as int] == tree[c - 0]);
        }
    }
    assert forall|i: int| 0 <= i < tree.len() implies #[trigger] binary_at(tree, i) by {}
    assert(is_sole_root(tree, 0));
    let height = Seq::new(tree.len(), |i: int| (tree.len() - i) as nat);
    assert forall|i: int| 0 <= i < tree.len() implies #[trigger] ranked_at(tree, height, i) by {}
    assert(ranks(tree, height));
}

/// If `rebuilt` is the owned form of a stored copy of `node`, then storing
/// `rebuilt` at the same place gives the same records again.
pub proof fn lemma_reflatten(
    tree: Seq<FlatNode>,
    node: Node,
    parent: Option<usize>,
    at: nat,
    top: Option<usize>,
    rebuilt: Node,
)
    requires
        tree.len() <= usize::MAX,
        at + node.count() <= tree.len(),
        tree.subrange(at as int, (at + node.count()) as int) == flattened(node, parent, at),
        represents(tree, at as int, top, rebuilt),
    ensures
        flattened(rebuilt, parent, at) == flattened(node, parent, at),
    decreases node,
{
    let block = flattened(node, parent, at);
    let here = Some(at as usize);
    let left_part = match node.left_child {
        Some(l) => flattened(*l, here, at + 1),
        None => Seq::empty(),
    };
    let right_at = at + 1 + left_part.len();
    let right_part = match node.right_child {
        Some(r) => flattened(*r, here, right_at),
        None => Seq::empty(),
    };
    lemma_flattened_len(node, parent, at);
    assert(tree[at as int] == tree.subrange(at as int, (at + node.count()) as int)[0]);
    match node.left_child {
        Some(l) => {
            lemma_flattened_len(*l, here, at + 1);
            assert(tree.subrange((at + 1) as int, (at + 1 + l.count()) as int) =~= left_part) by {
                assert forall|k: int| 0 <= k < l.count() implies tree[at + 1 + k]
                    == left_part[k] by {
                    assert(tree[at + 1 + k] == tree.subrange(at as int, (at + node.count()) as int)[1 + k]);
                }
            }
            lemma_reflatten(tree, *l, here, at + 1, here, *rebuilt.left_child->0);
        },
        None => {},
    }
    match node.right_child {
        Some(r) => {
            lemma_flattened_len(*r, here, right_at);
            assert(tree.subrange(right_at as int, (right_at + r.count()) as int) =~= right_part) by {
                assert forall|k: int| 0 <= k < r.count() implies tree[right_at + k]
                    == right_part[k] by {
                    assert(tree[right_at + k] == tree.subrange(at as int, (at + node.count()) as int)[1
                        + left_part.len() + k]);
                }
            }
            lemma_reflatten(tree, *r, here, right_at, here, *rebuilt.right_child->0);
        },
        None => {},
    }
}

/// Flattening a tree, rebuilding the owned form from the arena and
/// flattening that again gives the first arena back, record for record.
pub proof fn lemma_round_trip(node: Node, rebuilt: Node)
    requires
        node.count() <= usize::MAX,
        represents(flattened(node, None, 0), 0, None, rebuilt),
    ensures
        flattened(rebuilt, None, 0) == flattened(node, None, 0),
{
    let tree = flattened(node, None, 0);
    lemma_flattened_len(node, None, 0);
    assert(tree.subrange(0, node.count() as int) =~= tree);
    lemma_reflatten(tree, node, None, 0, None, rebuilt);
}

} // verus!
