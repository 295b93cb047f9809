use gene_tree_sim::arena::{find_root_in_flat_tree, FlatNode};
use gene_tree_sim::dating::give_depth;
use gene_tree_sim::mutator::{can_apply, change_tree, create_new_tree, is_in_subtree, Transfer};
use gene_tree_sim::newick::tree_to_newick;
use gene_tree_sim::node::{node_to_flat, Node};
use gene_tree_sim::simulate::{finish_gene_tree, gene_tree_to_string, GeneError};

const UNIT: i64 = 1_000_000;
const R: usize = 0;
const C: usize = 1;
const A: usize = 2;
const B: usize = 3;
const D: usize = 4;

fn leaf(name: &str, length: i64) -> Node {
    Node {
        name: name.to_string(),
        left_child: None,
        right_child: None,
        parent: None,
        depth: None,
        length,
    }
}

fn inner(name: &str, length: i64, left: Node, right: Node) -> Node {
    Node {
        name: name.to_string(),
        left_child: Some(Box::new(left)),
        right_child: Some(Box::new(right)),
        parent: None,
        depth: None,
        length,
    }
}

fn arena_of(mut tree: Node) -> Vec<FlatNode> {
    give_depth(&mut tree, 0).unwrap();
    let mut arena = Vec::new();
    node_to_flat(&tree, &mut arena, None);
    arena
}

/// ((A:1,B:2)C:1,D:5)R:0 as R=0, C=1, A=2, B=3, D=4.
fn species_arena() -> Vec<FlatNode> {
    arena_of(inner(
        "R",
        0,
        inner("C", UNIT, leaf("A", UNIT), leaf("B", 2 * UNIT)),
        leaf("D", 5 * UNIT),
    ))
}

/// (((a:1,b:1)x:1,(c:1,d:1)y:1)u:1,e:3)r:0 as
/// r=0, u=1, x=2, a=3, b=4, y=5, c=6, d=7, e=8.
fn deep_arena() -> Vec<FlatNode> {
    arena_of(inner(
        "r",
        0,
        inner(
            "u",
            UNIT,
            inner("x", UNIT, leaf("a", UNIT), leaf("b", UNIT)),
            inner("y", UNIT, leaf("c", UNIT), leaf("d", UNIT)),
        ),
        leaf("e", 3 * UNIT),
    ))
}

fn transfer(donor: usize, recipient: usize, time: i64) -> Transfer {
    Transfer { donor, recipient, time }
}

fn links(tree: &Vec<FlatNode>) -> Vec<(Option<usize>, Option<usize>, Option<usize>)> {
    tree.iter().map(|n| (n.parent, n.left_child, n.right_child)).collect()
}

fn check_links(tree: &Vec<FlatNode>) {
    let mut roots = 0;
    for (i, n) in tree.iter().enumerate() {
        match n.parent {
            None => roots += 1,
            Some(p) => {
                assert!(tree[p].left_child == Some(i) || tree[p].right_child == Some(i));
            }
        }
        assert_eq!(n.left_child.is_some(), n.right_child.is_some());
        if let (Some(l), Some(r)) = (n.left_child, n.right_child) {
            assert_ne!(l, r);
            assert_eq!(tree[l].parent, Some(i));
            assert_eq!(tree[r].parent, Some(i));
        }
        let mut cur = i;
        let mut steps = 0;
        while let Some(p) = tree[cur].parent {
            cur = p;
            steps += 1;
            assert!(steps <= tree.len());
        }
    }
    assert_eq!(roots, 1);
}

#[test]
fn transfer_from_a_to_d_moves_the_parent_of_d_above_a() {
    let mut tree = species_arena();
    let t = transfer(A, D, UNIT / 2);
    assert!(can_apply(&tree, t));
    change_tree(&mut tree, t);
    // A's new parent is the old parent of D.
    assert_eq!(tree[A].parent, Some(R));
    assert_eq!(tree[D].parent, Some(R));
    assert_eq!(tree[R].parent, Some(C));
    assert_eq!(tree[C].parent, None);
    // The slot that held D now holds A; D stands where its sibling stood.
    assert_eq!((tree[R].left_child, tree[R].right_child), (Some(D), Some(A)));
    assert_eq!((tree[C].left_child, tree[C].right_child), (Some(R), Some(B)));
    assert_eq!(tree[B].parent, Some(C));
    assert_eq!(tree[R].depth, Some(UNIT / 2));
    assert_eq!(tree[C].depth, Some(UNIT));
    assert_eq!(tree[A].depth, Some(2 * UNIT));
    check_links(&tree);
    assert_eq!(find_root_in_flat_tree(&tree), C);
}

#[test]
fn lengths_after_the_transfer_from_a_to_d() {
    let mut tree = species_arena();
    change_tree(&mut tree, transfer(A, D, UNIT / 2));
    let gene = finish_gene_tree(&tree).unwrap();
    assert_eq!(
        tree_to_newick(&gene),
        "((D:4.500000,A:1.500000)R:-0.500000,B:2.000000)C:1.000000;"
    );
    // Before: 1 + 2 + 1 + 5 + 0. The moved node now hangs half a unit above
    // its new parent, and A and D reach up to it.
    let total: i64 = 1_500_000 + 4_500_000 - 500_000 + 2_000_000 + 1_000_000;
    assert_eq!(total - 9 * UNIT, -UNIT / 2);
}

#[test]
fn same_parent_below_the_root_only_moves_the_parent_depth() {
    let mut tree = species_arena();
    let before = links(&tree);
    let t = transfer(A, B, 1_500_000);
    assert!(can_apply(&tree, t));
    change_tree(&mut tree, t);
    assert_eq!(links(&tree), before);
    assert_eq!(tree[C].depth, Some(1_500_000));
    assert_eq!(tree[A].depth, Some(2 * UNIT));
    assert_eq!(tree[A].length, UNIT);
    assert_eq!(tree[R].depth, Some(0));
    let gene = finish_gene_tree(&tree).unwrap();
    assert_eq!(
        tree_to_newick(&gene),
        "((A:0.500000,B:1.500000)C:1.500000,D:5.000000)R:0.000000;"
    );
}

#[test]
fn different_parents_away_from_the_root_regraft_the_recipient() {
    let mut tree = deep_arena();
    // donor a (parent x), recipient c (parent y): y moves above a.
    let t = transfer(3, 6, 2_500_000);
    assert!(can_apply(&tree, t));
    change_tree(&mut tree, t);
    // d, the sibling of c, takes the place of y under u.
    assert_eq!(tree[7].parent, Some(1));
    assert_eq!((tree[1].left_child, tree[1].right_child), (Some(2), Some(7)));
    // x lists y where it listed a.
    assert_eq!((tree[2].left_child, tree[2].right_child), (Some(5), Some(4)));
    assert_eq!(tree[5].parent, Some(2));
    // y lists a where it listed c, and c where it listed d.
    assert_eq!((tree[5].left_child, tree[5].right_child), (Some(3), Some(6)));
    assert_eq!(tree[3].parent, Some(5));
    assert_eq!(tree[6].parent, Some(5));
    assert_eq!(tree[5].depth, Some(2_500_000));
    assert_eq!(tree[0].parent, None);
    assert_eq!(tree[8].parent, Some(0));
    check_links(&tree);
    let gene = finish_gene_tree(&tree).unwrap();
    assert_eq!(
        tree_to_newick(&gene),
        "((((a:0.500000,c:0.500000)y:0.500000,b:1.000000)x:1.000000,d:2.000000)u:1.000000,e:3.000000)r:0.000000;"
    );
}

#[test]
fn donor_beside_the_parent_of_the_recipient() {
    let mut tree = deep_arena();
    // donor x (parent u), recipient c (parent y, grandparent u).
    let t = transfer(2, 6, 1_500_000);
    assert!(can_apply(&tree, t));
    change_tree(&mut tree, t);
    // u listed x on the left and y on the right; now y on the left, d on the right.
    assert_eq!((tree[1].left_child, tree[1].right_child), (Some(5), Some(7)));
    assert_eq!((tree[5].left_child, tree[5].right_child), (Some(2), Some(6)));
    assert_eq!(tree[2].parent, Some(5));
    assert_eq!(tree[7].parent, Some(1));
    assert_eq!(tree[5].parent, Some(1));
    check_links(&tree);
}

#[test]
fn donor_under_the_root_moves_the_root_above_the_recipient() {
    let mut tree = species_arena();
    // donor D hangs from the root, recipient A does not.
    let t = transfer(D, A, UNIT / 2);
    assert!(can_apply(&tree, t));
    change_tree(&mut tree, t);
    // C, the sibling of D, is the new root.
    assert_eq!(tree[C].parent, None);
    assert_eq!(tree[R].parent, Some(C));
    assert_eq!(tree[A].parent, Some(R));
    assert_eq!(tree[D].parent, Some(R));
    assert_eq!((tree[C].left_child, tree[C].right_child), (Some(R), Some(B)));
    assert_eq!((tree[R].left_child, tree[R].right_child), (Some(A), Some(D)));
    // D keeps its slot under the old root; A stands where C stood.
    // Lengths that the event sets.
    assert_eq!(tree[A].length, 2 * UNIT - UNIT / 2);
    assert_eq!(tree[C].length, 0);
    assert_eq!(tree[R].length, 2 * UNIT - UNIT / 2);
    assert_eq!(tree[B].length, 2 * UNIT);
    assert_eq!(tree[D].length, 5 * UNIT);
    // Time is counted from the event on.
    assert_eq!(tree[R].depth, Some(0));
    assert_eq!(tree[C].depth, Some(UNIT - UNIT / 2));
    assert_eq!(tree[A].depth, Some(2 * UNIT - UNIT / 2));
    assert_eq!(tree[B].depth, Some(3 * UNIT - UNIT / 2));
    assert_eq!(tree[D].depth, Some(5 * UNIT - UNIT / 2));
    check_links(&tree);
    assert_eq!(find_root_in_flat_tree(&tree), C);
}

#[test]
fn children_of_the_root_only_move_the_split() {
    let mut tree = species_arena();
    let before = links(&tree);
    let t = transfer(C, D, 250_000);
    assert!(can_apply(&tree, t));
    change_tree(&mut tree, t);
    assert_eq!(links(&tree), before);
    assert_eq!(tree[C].length, UNIT - 250_000);
    assert_eq!(tree[D].length, 5 * UNIT - 250_000);
    assert_eq!(tree[A].length, UNIT);
    assert_eq!(tree[R].depth, Some(0));
    assert_eq!(tree[C].depth, Some(UNIT - 250_000));
    assert_eq!(tree[A].depth, Some(2 * UNIT - 250_000));
    assert_eq!(tree[B].depth, Some(3 * UNIT - 250_000));
    assert_eq!(tree[D].depth, Some(5 * UNIT - 250_000));
    let gene = finish_gene_tree(&tree).unwrap();
    assert_eq!(
        tree_to_newick(&gene),
        "((A:1.000000,B:2.000000)C:0.750000,D:4.750000)R:0.000000;"
    );
}

#[test]
fn subtree_membership() {
    let tree = deep_arena();
    assert!(is_in_subtree(&tree, 0, 7));
    assert!(is_in_subtree(&tree, 1, 6));
    assert!(is_in_subtree(&tree, 5, 5));
    assert!(is_in_subtree(&tree, 5, 6));
    assert!(!is_in_subtree(&tree, 5, 3));
    assert!(!is_in_subtree(&tree, 6, 5));
    assert!(!is_in_subtree(&tree, 8, 1));
    assert!(!is_in_subtree(&tree, 100, 1));
}

#[test]
fn transfers_that_cannot_be_applied() {
    let tree = deep_arena();
    // out of range
    assert!(!can_apply(&tree, transfer(9, 3, 0)));
    assert!(!can_apply(&tree, transfer(3, 9, 0)));
    // the root has no parent
    assert!(!can_apply(&tree, transfer(0, 3, 0)));
    assert!(!can_apply(&tree, transfer(3, 0, 0)));
    // one descends from the other, or both are the same
    assert!(!can_apply(&tree, transfer(2, 3, 0)));
    assert!(!can_apply(&tree, transfer(3, 2, 0)));
    assert!(!can_apply(&tree, transfer(1, 7, 0)));
    assert!(!can_apply(&tree, transfer(3, 3, 0)));
    // siblings and cousins are fine
    assert!(can_apply(&tree, transfer(3, 4, 0)));
    assert!(can_apply(&tree, transfer(3, 7, 0)));
    assert!(can_apply(&tree, transfer(8, 3, 0)));
}

#[test]
fn transfer_under_the_root_needs_depths_that_can_be_counted_anew() {
    let mut tree = species_arena();
    assert!(can_apply(&tree, transfer(D, A, i64::MAX)));
    assert!(!can_apply(&tree, transfer(D, A, i64::MIN)));
    assert!(can_apply(&tree, transfer(A, D, i64::MIN)));
    tree[B].depth = None;
    assert!(can_apply(&tree, transfer(D, A, 5)));
    assert!(!can_apply(&tree, transfer(D, B, 5)));
    assert!(can_apply(&tree, transfer(C, D, 5)));
    tree[C].depth = None;
    assert!(!can_apply(&tree, transfer(C, D, 5)));
    assert!(!can_apply(&tree, transfer(D, C, 5)));
}

#[test]
fn transfers_are_applied_in_order() {
    let mut tree = deep_arena();
    let list = vec![transfer(3, 6, 2_500_000), transfer(4, 7, 2_750_000)];
    assert_eq!(create_new_tree(&mut tree, &list), Ok(()));
    let mut by_hand = deep_arena();
    change_tree(&mut by_hand, list[0]);
    change_tree(&mut by_hand, list[1]);
    assert_eq!(tree, by_hand);
    check_links(&tree);
}

#[test]
fn first_transfer_that_cannot_be_applied_stops_the_work() {
    let mut tree = deep_arena();
    // After the first transfer a hangs below y, so y cannot give to a.
    let list = vec![transfer(3, 6, 2_500_000), transfer(5, 3, 2_750_000), transfer(4, 7, 2_900_000)];
    assert_eq!(create_new_tree(&mut tree, &list), Err(1));
    let mut by_hand = deep_arena();
    change_tree(&mut by_hand, list[0]);
    assert_eq!(tree, by_hand);
}

#[test]
fn one_root_after_every_transfer() {
    let mut tree = deep_arena();
    let list = vec![
        transfer(8, 3, 2_100_000),
        transfer(3, 6, 2_500_000),
        transfer(4, 7, 2_750_000),
        transfer(6, 4, 2_800_000),
        transfer(7, 8, 2_900_000),
    ];
    for t in list {
        if can_apply(&tree, t) {
            change_tree(&mut tree, t);
        }
        check_links(&tree);
        assert!(find_root_in_flat_tree(&tree) < tree.len());
    }
}

#[test]
fn gene_tree_text_after_transfers() {
    let mut tree = species_arena();
    let text = gene_tree_to_string(&mut tree, &vec![transfer(A, D, UNIT / 2)]);
    assert_eq!(
        text,
        Ok("((D:4.500000,A:1.500000)R:-0.500000,B:2.000000)C:1.000000;".to_string())
    );
    let mut tree = species_arena();
    let text = gene_tree_to_string(&mut tree, &vec![transfer(A, B, 5), transfer(A, C, 7)]);
    assert_eq!(text, Err(GeneError::Refused(1)));
    assert_eq!(tree[C].depth, Some(5));
}
