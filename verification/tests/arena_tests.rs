use gene_tree_sim::arena::{
    clone_flat_tree, find_root_in_flat_tree, has_one_root, tree_length, FlatNode,
};
use gene_tree_sim::dating::give_depth;
use gene_tree_sim::node::{compare_trees, flat_to_node, is_binary_tree, node_to_flat, Node};

const UNIT: i64 = 1_000_000;

fn leaf(name: &str, length: i64) -> Node {
    Node {
        name: name.to_string(),
        left_child: None,
        right_child: None,
        parent: None,
        depth: None,
        length,
    }
}

fn inner(name: &str, length: i64, left: Node, right: Node) -> Node {
    Node {
        name: name.to_string(),
        left_child: Some(Box::new(left)),
        right_child: Some(Box::new(right)),
        parent: None,
        depth: None,
        length,
    }
}

/// ((A:1,B:2)C:1,D:5)R:0
fn species() -> Node {
    inner(
        "R",
        0,
        inner("C", UNIT, leaf("A", UNIT), leaf("B", 2 * UNIT)),
        leaf("D", 5 * UNIT),
    )
}

fn flat(node: &Node) -> Vec<FlatNode> {
    let mut tree = Vec::new();
    node_to_flat(node, &mut tree, None);
    tree
}

#[test]
fn flatten_numbers_parent_before_children_left_before_right() {
    let tree = flat(&species());
    let names: Vec<&str> = tree.iter().map(|n| n.name.as_str()).collect();
    assert_eq!(names, vec!["R", "C", "A", "B", "D"]);
    assert_eq!(tree[0].parent, None);
    assert_eq!(tree[0].left_child, Some(1));
    assert_eq!(tree[0].right_child, Some(4));
    assert_eq!(tree[1].parent, Some(0));
    assert_eq!(tree[1].left_child, Some(2));
    assert_eq!(tree[1].right_child, Some(3));
    assert_eq!(tree[2].parent, Some(1));
    assert_eq!(tree[2].left_child, None);
    assert_eq!(tree[2].right_child, None);
    assert_eq!(tree[3].parent, Some(1));
    assert_eq!(tree[4].parent, Some(0));
    assert_eq!(tree[4].length, 5 * UNIT);
    assert_eq!(tree[1].depth, None);
}

#[test]
fn flatten_returns_the_position_taken_and_appends() {
    let mut tree = Vec::new();
    let first = node_to_flat(&leaf("x", 7), &mut tree, None);
    let second = node_to_flat(&species(), &mut tree, Some(0));
    assert_eq!(first, 0);
    assert_eq!(second, 1);
    assert_eq!(tree.len(), 6);
    assert_eq!(tree[1].parent, Some(0));
    assert_eq!(tree[1].left_child, Some(2));
    assert_eq!(tree[1].right_child, Some(5));
    assert_eq!(tree[2].parent, Some(1));
}

#[test]
fn flatten_unflatten_flatten_gives_the_same_arena() {
    let mut tree = species();
    give_depth(&mut tree, 0).unwrap();
    let first = flat(&tree);
    let rebuilt = flat_to_node(&first, 0, None);
    let second = flat(&rebuilt);
    assert_eq!(first, second);
}

#[test]
fn unflatten_sets_parents_to_arena_positions() {
    let tree = flat(&species());
    let rebuilt = flat_to_node(&tree, 0, None);
    assert_eq!(rebuilt.parent, None);
    let c = rebuilt.left_child.as_ref().unwrap();
    assert_eq!(c.name, "C");
    assert_eq!(c.parent, Some(0));
    assert_eq!(c.left_child.as_ref().unwrap().parent, Some(1));
    assert_eq!(c.right_child.as_ref().unwrap().name, "B");
    assert_eq!(rebuilt.right_child.as_ref().unwrap().parent, Some(0));
    assert!(compare_trees(&rebuilt, &species()));
}

#[test]
fn unflatten_below_the_root_takes_the_parent_it_is_given() {
    let tree = flat(&species());
    let rebuilt = flat_to_node(&tree, 1, Some(42));
    assert_eq!(rebuilt.name, "C");
    assert_eq!(rebuilt.parent, Some(42));
    assert_eq!(rebuilt.left_child.as_ref().unwrap().parent, Some(1));
}

#[test]
fn root_is_found() {
    let tree = flat(&species());
    assert!(has_one_root(&tree));
    assert_eq!(find_root_in_flat_tree(&tree), 0);
}

#[test]
fn root_is_found_wherever_it_stands() {
    let mut tree = flat(&species());
    tree[0].parent = Some(3);
    tree[3].parent = None;
    assert!(has_one_root(&tree));
    assert_eq!(find_root_in_flat_tree(&tree), 3);
}

#[test]
fn missing_root_is_seen() {
    let mut tree = flat(&species());
    tree[0].parent = Some(1);
    assert!(!has_one_root(&tree));
    assert!(!has_one_root(&Vec::new()));
}

#[test]
fn second_root_is_seen() {
    let mut tree = flat(&species());
    tree[3].parent = None;
    assert!(!has_one_root(&tree));
}

#[test]
fn tree_length_is_the_sum_of_all_lengths() {
    let tree = flat(&species());
    assert_eq!(tree_length(&tree), 9 * UNIT as i128);
    assert_eq!(tree_length(&Vec::new()), 0);
    let big = vec![flat(&leaf("a", i64::MAX)).remove(0), flat(&leaf("b", i64::MAX)).remove(0)];
    assert_eq!(tree_length(&big), 2 * (i64::MAX as i128));
}

#[test]
fn clone_is_equal_and_independent() {
    let tree = flat(&species());
    let mut copy = clone_flat_tree(&tree);
    assert_eq!(copy, tree);
    copy[2].parent = Some(0);
    copy[2].name.push('x');
    assert_eq!(tree[2].parent, Some(1));
    assert_eq!(tree[2].name, "A");
}

#[test]
fn compare_trees_allows_one_tick() {
    let a = species();
    let mut b = species();
    b.left_child.as_mut().unwrap().length += 1;
    assert!(compare_trees(&a, &b));
    b.left_child.as_mut().unwrap().length += 1;
    assert!(!compare_trees(&a, &b));
}

#[test]
fn compare_trees_sees_names_and_shape() {
    let a = species();
    let mut b = species();
    b.right_child.as_mut().unwrap().name = "E".to_string();
    assert!(!compare_trees(&a, &b));
    assert!(!compare_trees(&a, &leaf("R", 0)));
    assert!(!compare_trees(&leaf("R", 0), &a));
    assert!(compare_trees(&leaf("R", 0), &leaf("R", 1)));
}

#[test]
fn binary_trees_are_told_from_others() {
    assert!(is_binary_tree(&species()));
    assert!(is_binary_tree(&leaf("a", 0)));
    let mut unary = species();
    unary.right_child = None;
    assert!(!is_binary_tree(&unary));
    let mut deep = species();
    deep.left_child.as_mut().unwrap().left_child = None;
    assert!(!is_binary_tree(&deep));
}
