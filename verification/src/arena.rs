//! The index-based tree on which every simulation step works.
//!
//! A tree is a sequence of records that name their parent and children by
//! position. Relinking two records is then a handful of field writes, which
//! is what a regraft needs and what an owned tree cannot offer.

use vstd::prelude::*;

verus! {

/// One record of the arena: a lineage together with the node at its lower end.
///
/// Times are counted in ticks; one tick is a millionth of a branch length unit.
#[derive(Debug, PartialEq, Eq)]
pub struct FlatNode {
    pub name: String,
    pub left_child: Option<usize>,
    pub right_child: Option<usize>,
    pub parent: Option<usize>,
    /// Ticks elapsed between the root and the lower end of the lineage.
    pub depth: Option<i64>,
    /// Ticks spanned by the lineage itself.
    pub length: i64,
}

impl Clone for FlatNode {
    fn clone(&self) -> (copy: Self)
        ensures
            copy == *self,
    {
        FlatNode {
            name: self.name.clone(),
            left_child: self.left_child,
            right_child: self.right_child,
            parent: self.parent,
            depth: self.depth,
            length: self.length,
        }
    }
}

/// Record `i` exists and names no parent.
pub open spec fn is_root(tree: Seq<FlatNode>, i: int) -> bool {
    0 <= i < tree.len() && tree[i].parent is None
}

/// Exactly one record names no parent.
pub open spec fn has_single_root(tree: Seq<FlatNode>) -> bool {
    exists|r: int| is_sole_root(tree, r)
}

/// Record `r` is the only one that names no parent.
pub open spec fn is_sole_root(tree: Seq<FlatNode>, r: int) -> bool {
    &&& is_root(tree, r)
    &&& forall|i: int| is_root(tree, i) ==> i == r
}

/// The links of record `i` point at records and are answered from the other
/// side: its parent lists it in one of its two slots, and the records in its
/// slots name it as their parent.
pub open spec fn linked_at(tree: Seq<FlatNode>, i: int) -> bool {
    &&& tree[i].parent matches Some(p) ==> p < tree.len() && (tree[p as int].left_child == Some(
        i as usize,
    ) || tree[p as int].right_child == Some(i as usize))
    &&& tree[i].left_child matches Some(c) ==> c < tree.len() && tree[c as int].parent == Some(
        i as usize,
    )
    &&& tree[i].right_child matches Some(c) ==> c < tree.len() && tree[c as int].parent == Some(
        i as usize,
    )
}

/// Every link points at a record, and each link is answered from the other
/// side.
pub open spec fn cross_linked(tree: Seq<FlatNode>) -> bool {
    forall|i: int| 0 <= i < tree.len() ==> #[trigger] linked_at(tree, i)
}

/// Record `i` has no child or two different ones.
pub open spec fn binary_at(tree: Seq<FlatNode>, i: int) -> bool {
    &&& tree[i].left_child is Some <==> tree[i].right_child is Some
    &&& tree[i].left_child is Some ==> tree[i].left_child != tree[i].right_child
}

/// Every record has no child or two different ones.
pub open spec fn is_binary(tree: Seq<FlatNode>) -> bool {
    forall|i: int| 0 <= i < tree.len() ==> #[trigger] binary_at(tree, i)
}

/// The parent of record `i`, if it has one, is a record with a greater
/// height.
pub open spec fn ranked_at(tree: Seq<FlatNode>, height: Seq<nat>, i: int) -> bool {
    tree[i].parent matches Some(p) ==> p < tree.len() && height[i] < height[p as int]
}

/// `height` gives every record a number that is smaller than its parent's.
pub open spec fn ranks(tree: Seq<FlatNode>, height: Seq<nat>) -> bool {
    &&& height.len() == tree.len()
    &&& forall|i: int| 0 <= i < tree.len() ==> #[trigger] ranked_at(tree, height, i)
}

/// Following parent links never comes back to where it started.
pub open spec fn is_acyclic(tree: Seq<FlatNode>) -> bool {
    exists|height: Seq<nat>| ranks(tree, height)
}

/// The arena is one binary tree: a single root, links that agree with each
/// other, no unary record and no cycle.
pub open spec fn well_formed(tree: Seq<FlatNode>) -> bool {
    &&& tree.len() <= usize::MAX
    &&& has_single_root(tree)
    &&& cross_linked(tree)
    &&& is_binary(tree)
    &&& is_acyclic(tree)
}

/// The record reached from `x` by following `steps` parent links, if the walk
/// stays inside the arena that long.
pub open spec fn nth_ancestor(tree: Seq<FlatNode>, x: int, steps: nat) -> Option<int>
    decreases steps,
{
    if !(0 <= x < tree.len()) {
        None
    } else if steps == 0 {
        Some(x)
    } else {
        match tree[x].parent {
            None => None,
            Some(p) => nth_ancestor(tree, p as int, (steps - 1) as nat),
        }
    }
}

/// `x` lies in the subtree that hangs from `top`, `top` itself included.
pub open spec fn in_subtree(tree: Seq<FlatNode>, top: int, x: int) -> bool {
    exists|steps: nat| nth_ancestor(tree, x, steps) == Some(top)
}

/// Neither lineage descends from the other.
pub open spec fn incomparable(tree: Seq<FlatNode>, a: int, b: int) -> bool {
    !in_subtree(tree, a, b) && !in_subtree(tree, b, a)
}

/// The sum of all branch lengths.
pub open spec fn total_length(tree: Seq<FlatNode>) -> int
    decreases tree.len(),
{
    if tree.len() == 0 {
        0
    } else {
        total_length(tree.drop_last()) + tree.last().length
    }
}

/// A deep, independent copy of the whole arena.
pub fn clone_flat_tree(flat_tree: &Vec<FlatNode>) -> (copy: Vec<FlatNode>)
    ensures
        copy@ == flat_tree@,
{
    let mut copy: Vec<FlatNode> = Vec::with_capacity(flat_tree.len());
    let mut i: usize = 0;
    while i < flat_tree.len()
        invariant
            i <= flat_tree.len(),
            copy@ == flat_tree@.take(i as int),
        decreases flat_tree.len() - i,
    {
        copy.push(flat_tree[i].clone());
        assert(flat_tree@.take(i + 1) =~= flat_tree@.take(i as int).push(flat_tree@[i as int]));
        i += 1;
    }
    assert(flat_tree@.take(i as int) =~= flat_tree@);
    copy
}

/// Looks for the one record without a parent; there is none to return where
/// no record or more than one names no parent.
fn sole_root(flat_tree: &Vec<FlatNode>) -> (found: Option<usize>)
    ensures
        match found {
            Some(r) => is_sole_root(flat_tree@, r as int),
            None => !has_single_root(flat_tree@),
        },
{
    let mut root_index: Option<usize> = None;
    let mut i: usize = 0;
    while i < flat_tree.len()
        invariant
            i <= flat_tree.len(),
            match root_index {
                Some(r) => r < i && is_root(flat_tree@, r as int) && forall|k: int|
                    0 <= k < i && is_root(flat_tree@, k) ==> k == r,
                None => forall|k: int| 0 <= k < i ==> !is_root(flat_tree@, k),
            },
        decreases flat_tree.len() - i,
    {
        if flat_tree[i].parent.is_none() {
            if let Some(r) = root_index {
                assert(!has_single_root(flat_tree@)) by {
                    if has_single_root(flat_tree@) {
                        let sole = choose|sole: int| is_sole_root(flat_tree@, sole);
                        assert(is_root(flat_tree@, r as int) && is_root(flat_tree@, i as int));
                    }
                }
                return None;
            }
            root_index = Some(i);
        }
        i += 1;
    }
    if root_index.is_none() {
        assert(!has_single_root(flat_tree@)) by {
            if has_single_root(flat_tree@) {
                let sole = choose|sole: int| is_sole_root(flat_tree@, sole);
                assert(is_root(flat_tree@, sole));
            }
        }
    }
    root_index
}

/// Tells whether exactly one record names no parent.
pub fn has_one_root(flat_tree: &Vec<FlatNode>) -> (ok: bool)
    ensures
        ok == has_single_root(flat_tree@),
{
    sole_root(flat_tree).is_some()
}

/// Finds the record without a parent, in an arena that has exactly one.
///
/// An arena with a second parentless record, or with none, is not taken:
/// its links were damaged, and picking any record would hide that.
pub fn find_root_in_flat_tree(flat_tree: &Vec<FlatNode>) -> (root: usize)
    requires
        has_single_root(flat_tree@),
    ensures
        is_sole_root(flat_tree@, root as int),
{
    let ghost sole = choose|sole: int| is_sole_root(flat_tree@, sole);
    let mut i: usize = 0;
    while i < flat_tree.len()
        invariant
            i <= flat_tree.len(),
            is_sole_root(flat_tree@, sole),
            forall|k: int| 0 <= k < i ==> !is_root(flat_tree@, k),
        decreases flat_tree.len() - i,
    {
        if flat_tree[i].parent.is_none() {
            assert(is_root(flat_tree@, i as int));
            return i;
        }
        i += 1;
    }
    assert(is_root(flat_tree@, sole));
    assert(false);
    0
}

/// The sum of all branch lengths.
pub fn tree_length(flat_tree: &Vec<FlatNode>) -> (length: i128)
    ensures
        length == total_length(flat_tree@),
{
    let mut length: i128 = 0;
    let mut i: usize = 0;
    while i < flat_tree.len()
        invariant
            i <= flat_tree.len(),
            length == total_length(flat_tree@.take(i as int)),
            -i * 0x8000_0000_0000_0000 <= length <= i * 0x8000_0000_0000_0000,
        decreases flat_tree.len() - i,
    {
        assert(flat_tree@.take(i + 1).drop_last() =~= flat_tree@.take(i as int));
        assert((i + 1) * 0x8000_0000_0000_0000 <= 0x1_0000_0000_0000_0000
            * 0x8000_0000_0000_0000) by (nonlinear_arith)
            requires
                i + 1 <= 0x1_0000_0000_0000_0000,
        ;
        length = length + flat_tree[i].length as i128;
        i += 1;
    }
    assert(flat_tree@.take(i as int) =~= flat_tree@);
    length
}

/// Walking up never reaches a record of smaller height.
pub proof fn lemma_ancestor_height(
    tree: Seq<FlatNode>,
    height: Seq<nat>,
    top: int,
    x: int,
    steps: nat,
)
    requires
        ranks(tree, height),
        nth_ancestor(tree, x, steps) == Some(top),
    ensures
        0 <= x < tree.len(),
        0 <= top < tree.len(),
        height[x] + steps <= height[top],
    decreases steps,
{
    if steps > 0 {
        assert(ranked_at(tree, height, x));
        lemma_ancestor_height(tree, height, top, tree[x].parent->0 as int, (steps - 1) as nat);
    }
}

/// Walking `first + more` steps is walking `first` steps and then `more`.
pub proof fn lemma_ancestor_split(tree: Seq<FlatNode>, x: int, first: nat, more: nat)
    ensures
        nth_ancestor(tree, x, first + more) == (match nth_ancestor(tree, x, first) {
            Some(y) => nth_ancestor(tree, y, more),
            None => None,
        }),
    decreases first,
{
    if 0 <= x < tree.len() && first > 0 {
        if let Some(q) = tree[x].parent {
            lemma_ancestor_split(tree, q as int, (first - 1) as nat, more);
        }
    }
}

/// The number of steps from `x` up to a record without a parent, if there
/// are at most `fuel`.
pub open spec fn climb(tree: Seq<FlatNode>, x: int, fuel: nat) -> Option<nat>
    decreases fuel,
{
    if !(0 <= x < tree.len()) {
        None
    } else {
        match tree[x].parent {
            None => Some(0),
            Some(p) => if fuel == 0 {
                None
            } else {
                match climb(tree, p as int, (fuel - 1) as nat) {
                    Some(k) => Some(k + 1),
                    None => None,
                }
            },
        }
    }
}

/// A walk that comes out with some fuel comes out with more, after as many
/// steps, which are no more than the fuel.
proof fn lemma_climb_more(tree: Seq<FlatNode>, x: int, fuel: nat, more: nat)
    requires
        climb(tree, x, fuel) is Some,
        fuel <= more,
    ensures
        climb(tree, x, more) == climb(tree, x, fuel),
        climb(tree, x, fuel)->0 <= fuel,
    decreases fuel,
{
    if let Some(p) = tree[x].parent {
        lemma_climb_more(tree, p as int, (fuel - 1) as nat, (more - 1) as nat);
    }
}

/// A walk that does not come out with `fuel` steps passes `fuel + 1`
/// records.
proof fn lemma_climb_stuck(tree: Seq<FlatNode>, x: int, fuel: nat, steps: nat)
    requires
        0 <= x < tree.len(),
        forall|i: int|
            0 <= i < tree.len() ==> ((#[trigger] tree[i]).parent matches Some(p) ==> p
                < tree.len()),
        climb(tree, x, fuel) is None,
        steps <= fuel,
    ensures
        nth_ancestor(tree, x, steps) is Some,
    decreases steps,
{
    if steps > 0 {
        let p = tree[x].parent->0 as int;
        lemma_climb_stuck(tree, p, (fuel - 1) as nat, (steps - 1) as nat);
    }
}

/// An arena in which some walk passes more records than there are has no
/// heights: the walk comes by one record twice.
proof fn lemma_long_walk(tree: Seq<FlatNode>, height: Seq<nat>, x: int)
    requires
        0 <= x < tree.len(),
        forall|steps: nat| steps <= tree.len() ==> nth_ancestor(tree, x, steps) is Some,
    ensures
        !ranks(tree, height),
{
    if ranks(tree, height) {
        let n = tree.len() as int;
        let walk = Seq::new((n + 1) as nat, |j: int| nth_ancestor(tree, x, j as nat)->0);
        assert forall|i: int, j: int|
            0 <= i < walk.len() && 0 <= j < walk.len() && i != j implies walk[i] != walk[j] by {
            let (low, high) = if i < j {
                (i, j)
            } else {
                (j, i)
            };
            assert(nth_ancestor(tree, x, low as nat) is Some);
            assert(nth_ancestor(tree, x, high as nat) is Some);
            lemma_ancestor_split(tree, x, low as nat, (high - low) as nat);
            lemma_ancestor_height(tree, height, walk[high], walk[low], (high - low) as nat);
        }
        walk.unique_seq_to_set();
        vstd::set_lib::lemma_int_range(0, n);
        assert(walk.to_set().subset_of(vstd::set_lib::set_int_range(0, n))) by {
            assert forall|v: int| walk.to_set().contains(v) implies vstd::set_lib::set_int_range(
                0,
                n,
            ).contains(v) by {
                let j = choose|j: int| 0 <= j < walk.len() && walk[j] == v;
                assert(nth_ancestor(tree, x, j as nat) is Some);
                lemma_ancestor_in_range(tree, x, j as nat);
            }
        }
        vstd::set_lib::lemma_len_subset(walk.to_set(), vstd::set_lib::set_int_range(0, n));
    }
}

/// A walk ends at a record of the arena.
proof fn lemma_ancestor_in_range(tree: Seq<FlatNode>, x: int, steps: nat)
    requires
        nth_ancestor(tree, x, steps) is Some,
    ensures
        0 <= nth_ancestor(tree, x, steps)->0 < tree.len(),
    decreases steps,
{
    if steps > 0 {
        lemma_ancestor_in_range(tree, tree[x].parent->0 as int, (steps - 1) as nat);
    }
}

/// Tells whether the links of record `i` are answered from the other side
/// and the record has no child or two different ones.
fn links_hold_at(flat_tree: &Vec<FlatNode>, i: usize) -> (ok: bool)
    requires
        i < flat_tree.len(),
    ensures
        ok == (linked_at(flat_tree@, i as int) && binary_at(flat_tree@, i as int)),
{
    let n: usize = flat_tree.len();
    if let Some(p) = flat_tree[i].parent {
        if p >= n {
            return false;
        }
        if !(flat_tree[p].left_child == Some(i) || flat_tree[p].right_child == Some(i)) {
            return false;
        }
    }
    if let Some(c) = flat_tree[i].left_child {
        if c >= n {
            return false;
        }
        if !(flat_tree[c].parent == Some(i)) {
            return false;
        }
    }
    if let Some(c) = flat_tree[i].right_child {
        if c >= n {
            return false;
        }
        if !(flat_tree[c].parent == Some(i)) {
            return false;
        }
    }
    match (flat_tree[i].left_child, flat_tree[i].right_child) {
        (None, None) => true,
        (Some(l), Some(r)) => l != r,
        _ => false,
    }
}

/// Walks from `x` up to a record without a parent, and gives up after as
/// many steps as the arena has records.
fn climbs_out(flat_tree: &Vec<FlatNode>, x: usize) -> (out: bool)
    requires
        x < flat_tree.len(),
        cross_linked(flat_tree@),
    ensures
        out == climb(flat_tree@, x as int, flat_tree@.len()) is Some,
{
    let n: usize = flat_tree.len();
    let mut cur: usize = x;
    let mut left: usize = n;
    loop
        invariant
            n == flat_tree.len(),
            cross_linked(flat_tree@),
            cur < n,
            left <= n,
            climb(flat_tree@, x as int, n as nat) is Some <==> climb(
                flat_tree@,
                cur as int,
                left as nat,
            ) is Some,
        decreases left,
    {
        assert(linked_at(flat_tree@, cur as int));
        match flat_tree[cur].parent {
            None => {
                return true;
            },
            Some(p) => {
                if left == 0 {
                    return false;
                }
                cur = p;
                left -= 1;
            },
        }
    }
}

/// Tells whether the arena is one binary tree.
pub fn is_well_formed(flat_tree: &Vec<FlatNode>) -> (ok: bool)
    ensures
        ok == well_formed(flat_tree@),
{
    let n: usize = flat_tree.len();
    if sole_root(flat_tree).is_none() {
        return false;
    }
    let mut i: usize = 0;
    while i < n
        invariant
            i <= n,
            n == flat_tree.len(),
            forall|k: int| 0 <= k < i ==> #[trigger] linked_at(flat_tree@, k),
            forall|k: int| 0 <= k < i ==> #[trigger] binary_at(flat_tree@, k),
        decreases n - i,
    {
        if !links_hold_at(flat_tree, i) {
            assert(!(cross_linked(flat_tree@) && is_binary(flat_tree@)));
            return false;
        }
        i += 1;
    }
    let mut x: usize = 0;
    while x < n
        invariant
            x <= n,
            n == flat_tree.len(),
            cross_linked(flat_tree@),
            forall|k: int| 0 <= k < x ==> (#[trigger] climb(flat_tree@, k, n as nat)) is Some,
        decreases n - x,
    {
        if !climbs_out(flat_tree, x) {
            proof {
                let tree = flat_tree@;
                assert forall|k: int| 0 <= k < tree.len() implies ((
                #[trigger] tree[k]).parent matches Some(p) ==> p < tree.len()) by {
                    assert(linked_at(tree, k));
                }
                assert forall|steps: nat| steps <= tree.len() implies nth_ancestor(
                    tree,
                    x as int,
                    steps,
                ) is Some by {
                    lemma_climb_stuck(tree, x as int, tree.len(), steps);
                }
                assert forall|height: Seq<nat>| !ranks(tree, height) by {
                    lemma_long_walk(tree, height, x as int);
                }
            }
            return false;
        }
        x += 1;
    }
    proof {
        let tree = flat_tree@;
        let height = Seq::new(tree.len(), |k: int| (n - climb(tree, k, n as nat)->0) as nat);
        assert forall|k: int| 0 <= k < tree.len() implies #[trigger] ranked_at(tree, height, k) by {
            assert(linked_at(tree, k));
            assert(climb(tree, k, n as nat) is Some);
            if let Some(p) = tree[k].parent {
                assert(climb(tree, p as int, n as nat) is Some);
                lemma_climb_more(tree, p as int, (n - 1) as nat, n as nat);
                lemma_climb_more(tree, k, n as nat, n as nat);
            }
        }
        assert(ranks(tree, height));
    }
    true
}

} // verus!
