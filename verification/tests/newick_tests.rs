use gene_tree_sim::newick::{node_to_newick, time_to_string, tree_to_newick, TICKS_PER_UNIT};
use gene_tree_sim::node::Node;

const UNIT: i64 = 1_000_000;

fn leaf(name: &str, length: i64) -> Node {
    Node {
        name: name.to_string(),
        left_child: None,
        right_child: None,
        parent: None,
        depth: None,
        length,
    }
}

fn inner(name: &str, length: i64, left: Node, right: Node) -> Node {
    Node {
        name: name.to_string(),
        left_child: Some(Box::new(left)),
        right_child: Some(Box::new(right)),
        parent: None,
        depth: None,
        length,
    }
}

#[test]
fn one_unit_is_a_million_ticks() {
    assert_eq!(TICKS_PER_UNIT, 1_000_000);
    assert_eq!(time_to_string(TICKS_PER_UNIT as i64), "1.000000");
}

#[test]
fn times_are_written_with_six_decimals() {
    assert_eq!(time_to_string(0), "0.000000");
    assert_eq!(time_to_string(1), "0.000001");
    assert_eq!(time_to_string(1_500_000), "1.500000");
    assert_eq!(time_to_string(56_798), "0.056798");
    assert_eq!(time_to_string(943_202), "0.943202");
    assert_eq!(time_to_string(123_456_789_012), "123456.789012");
    assert_eq!(time_to_string(10 * UNIT), "10.000000");
}

#[test]
fn negative_times_carry_a_sign() {
    assert_eq!(time_to_string(-500_000), "-0.500000");
    assert_eq!(time_to_string(-1), "-0.000001");
    assert_eq!(time_to_string(-12_000_345), "-12.000345");
}

#[test]
fn extreme_times_are_written() {
    assert_eq!(time_to_string(i64::MAX), "9223372036854.775807");
    assert_eq!(time_to_string(i64::MIN), "-9223372036854.775808");
}

#[test]
fn leaf_is_name_colon_length() {
    assert_eq!(node_to_newick(&leaf("A", UNIT)), "A:1.000000");
    assert_eq!(node_to_newick(&leaf("", 0)), ":0.000000");
}

#[test]
fn inner_node_wraps_its_children() {
    let tree = inner(
        "R",
        0,
        inner("C", UNIT, leaf("A", UNIT), leaf("B", 2 * UNIT)),
        leaf("D", 5 * UNIT),
    );
    assert_eq!(
        node_to_newick(&tree),
        "((A:1.000000,B:2.000000)C:1.000000,D:5.000000)R:0.000000"
    );
    assert_eq!(
        tree_to_newick(&tree),
        "((A:1.000000,B:2.000000)C:1.000000,D:5.000000)R:0.000000;"
    );
}

#[test]
fn unnamed_inner_node_has_no_name() {
    let tree = inner("", 250_000, leaf("a", 1), leaf("b", 2));
    assert_eq!(tree_to_newick(&tree), "(a:0.000001,b:0.000002):0.250000;");
}

#[test]
fn node_with_one_child_is_written_as_a_leaf() {
    let mut tree = inner("C", UNIT, leaf("A", UNIT), leaf("B", UNIT));
    tree.right_child = None;
    assert_eq!(node_to_newick(&tree), "C:1.000000");
}
