use gene_tree_sim::dating::{depths_to_lengths, give_depth, TimeError};
use gene_tree_sim::node::{flat_to_node, node_to_flat, Node};

const UNIT: i64 = 1_000_000;

fn leaf(name: &str, length: i64) -> Node {
    Node {
        name: name.to_string(),
        left_child: None,
        right_child: None,
        parent: None,
        depth: None,
        length,
    }
}

fn inner(name: &str, length: i64, left: Node, right: Node) -> Node {
    Node {
        name: name.to_string(),
        left_child: Some(Box::new(left)),
        right_child: Some(Box::new(right)),
        parent: None,
        depth: None,
        length,
    }
}

fn species() -> Node {
    inner(
        "R",
        0,
        inner("C", UNIT, leaf("A", UNIT), leaf("B", 2 * UNIT)),
        leaf("D", 5 * UNIT),
    )
}

#[test]
fn depth_is_parent_depth_plus_length() {
    let mut tree = species();
    assert_eq!(give_depth(&mut tree, 0), Ok(()));
    assert_eq!(tree.depth, Some(0));
    let c = tree.left_child.as_ref().unwrap();
    assert_eq!(c.depth, Some(UNIT));
    assert_eq!(c.left_child.as_ref().unwrap().depth, Some(2 * UNIT));
    assert_eq!(c.right_child.as_ref().unwrap().depth, Some(3 * UNIT));
    assert_eq!(tree.right_child.as_ref().unwrap().depth, Some(5 * UNIT));
}

#[test]
fn depth_starts_from_the_given_baseline() {
    let mut tree = species();
    assert_eq!(give_depth(&mut tree, -7), Ok(()));
    assert_eq!(tree.depth, Some(-7));
    assert_eq!(tree.right_child.as_ref().unwrap().depth, Some(5 * UNIT - 7));
}

#[test]
fn depth_that_does_not_fit_is_refused_and_nothing_changes() {
    let mut tree = inner("r", 0, leaf("a", i64::MAX), leaf("b", 1));
    assert_eq!(give_depth(&mut tree, 1), Err(TimeError::Overflow));
    assert_eq!(tree, inner("r", 0, leaf("a", i64::MAX), leaf("b", 1)));
    assert_eq!(give_depth(&mut tree, 0), Ok(()));
}

#[test]
fn lengths_are_derived_from_depths() {
    let mut tree = species();
    give_depth(&mut tree, 0).unwrap();
    let mut arena = Vec::new();
    node_to_flat(&tree, &mut arena, None);
    arena[1].depth = Some(UNIT / 2);
    let mut rebuilt = flat_to_node(&arena, 0, None);
    assert_eq!(depths_to_lengths(&mut rebuilt, 0), Ok(()));
    let c = rebuilt.left_child.as_ref().unwrap();
    assert_eq!(c.length, UNIT / 2);
    assert_eq!(c.left_child.as_ref().unwrap().length, 2 * UNIT - UNIT / 2);
    assert_eq!(c.right_child.as_ref().unwrap().length, 3 * UNIT - UNIT / 2);
    assert_eq!(rebuilt.right_child.as_ref().unwrap().length, 5 * UNIT);
}

#[test]
fn after_lengths_are_derived_depth_less_parent_depth_is_length() {
    let mut tree = species();
    give_depth(&mut tree, 0).unwrap();
    let mut arena = Vec::new();
    node_to_flat(&tree, &mut arena, None);
    arena[1].depth = Some(7);
    arena[4].depth = Some(-3);
    let mut rebuilt = flat_to_node(&arena, 0, None);
    let top = rebuilt.depth.unwrap();
    depths_to_lengths(&mut rebuilt, top).unwrap();
    let mut again = Vec::new();
    node_to_flat(&rebuilt, &mut again, None);
    for record in again.iter() {
        if let Some(p) = record.parent {
            assert_eq!(record.depth.unwrap() - again[p].depth.unwrap(), record.length);
        }
    }
}

#[test]
fn a_node_that_names_no_parent_keeps_its_length() {
    let mut tree = species();
    give_depth(&mut tree, 0).unwrap();
    tree.length = 9;
    assert_eq!(depths_to_lengths(&mut tree, 100), Ok(()));
    assert_eq!(tree.length, 9);
    assert_eq!(tree.left_child.as_ref().unwrap().length, UNIT);
}

#[test]
fn missing_depth_is_reported_and_nothing_changes() {
    let mut tree = species();
    give_depth(&mut tree, 0).unwrap();
    tree.left_child.as_mut().unwrap().right_child.as_mut().unwrap().depth = None;
    tree.left_child.as_mut().unwrap().parent = Some(0);
    tree.left_child.as_mut().unwrap().length = 5;
    assert_eq!(depths_to_lengths(&mut tree, 0), Err(TimeError::MissingDepth));
    assert_eq!(tree.left_child.as_ref().unwrap().length, 5);
}

#[test]
fn length_that_does_not_fit_is_reported_and_nothing_changes() {
    let mut tree = inner("r", 0, leaf("a", 0), leaf("b", 0));
    tree.depth = Some(i64::MIN);
    tree.left_child.as_mut().unwrap().depth = Some(i64::MAX);
    tree.left_child.as_mut().unwrap().parent = Some(0);
    tree.right_child.as_mut().unwrap().depth = Some(0);
    tree.right_child.as_mut().unwrap().parent = Some(0);
    tree.right_child.as_mut().unwrap().length = 3;
    assert_eq!(depths_to_lengths(&mut tree, 0), Err(TimeError::Overflow));
    assert_eq!(tree.right_child.as_ref().unwrap().length, 3);
}
