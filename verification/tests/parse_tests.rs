use gene_tree_sim::newick::tree_to_newick;
use gene_tree_sim::node::Node;
use gene_tree_sim::parse::{newick_to_tree, ParseError, Parsed};

const UNIT: i64 = 1_000_000;

fn leaf(name: &str, length: i64) -> Node {
    Node {
        name: name.to_string(),
        left_child: None,
        right_child: None,
        parent: None,
        depth: None,
        length,
    }
}

fn inner(name: &str, length: i64, left: Node, right: Node) -> Node {
    Node {
        name: name.to_string(),
        left_child: Some(Box::new(left)),
        right_child: Some(Box::new(right)),
        parent: None,
        depth: None,
        length,
    }
}

fn read(text: &str) -> Node {
    let parsed = newick_to_tree(text).unwrap();
    assert!(parsed.unreadable_lengths.is_empty());
    parsed.tree
}

fn length_of(text: &str) -> (i64, usize) {
    let parsed = newick_to_tree(&format!("a:{};", text)).unwrap();
    assert_eq!(parsed.tree.name, "a");
    for unreadable in parsed.unreadable_lengths.iter() {
        assert_eq!(unreadable, text);
    }
    (parsed.tree.length, parsed.unreadable_lengths.len())
}

#[test]
fn example_tree_is_read() {
    let tree = read("((A:1,B:2)C:1,D:5)R:0;");
    let expected = inner(
        "R",
        0,
        inner("C", UNIT, leaf("A", UNIT), leaf("B", 2 * UNIT)),
        leaf("D", 5 * UNIT),
    );
    assert_eq!(tree, expected);
}

#[test]
fn children_keep_the_order_of_the_text() {
    let tree = read("(x:1.0,(y:2.0,z:3.0)w:0.5)r:0.0;");
    assert_eq!(tree.left_child.as_ref().unwrap().name, "x");
    let w = tree.right_child.as_ref().unwrap();
    assert_eq!(w.name, "w");
    assert_eq!(w.length, UNIT / 2);
    assert_eq!(w.left_child.as_ref().unwrap().name, "y");
    assert_eq!(w.right_child.as_ref().unwrap().name, "z");
    assert_eq!(w.right_child.as_ref().unwrap().length, 3 * UNIT);
}

#[test]
fn missing_names_and_lengths_take_defaults() {
    assert_eq!(read("(,);"), inner("", 0, leaf("", 0), leaf("", 0)));
    assert_eq!(read(";"), leaf("", 0));
    assert_eq!(read("a;"), leaf("a", 0));
    assert_eq!(read("a:;"), leaf("a", 0));
    assert_eq!(read(":2;"), leaf("", 2 * UNIT));
    assert_eq!(read("(a,b:1):3;"), inner("", 3 * UNIT, leaf("a", 0), leaf("b", UNIT)));
}

#[test]
fn names_run_up_to_the_next_delimiter() {
    assert_eq!(read("Homo_sapiens.1-x:1;"), leaf("Homo_sapiens.1-x", UNIT));
    assert_eq!(read("12:1;"), leaf("12", UNIT));
    assert_eq!(read("1.5;"), leaf("1.5", 0));
}

#[test]
fn a_fresh_tree_has_no_depths_and_no_parents() {
    let tree = read("((A:1,B:2)C:1,D:5)R:0;");
    assert_eq!(tree.depth, None);
    assert_eq!(tree.parent, None);
    let c = tree.left_child.as_ref().unwrap();
    assert_eq!(c.depth, None);
    assert_eq!(c.parent, None);
}

#[test]
fn lengths_are_read_to_the_tick() {
    assert_eq!(length_of("1"), (UNIT, 0));
    assert_eq!(length_of("1.5"), (1_500_000, 0));
    assert_eq!(length_of("0.056798"), (56_798, 0));
    assert_eq!(length_of("0.943202"), (943_202, 0));
    assert_eq!(length_of("123456.789012"), (123_456_789_012, 0));
    assert_eq!(length_of("0"), (0, 0));
    assert_eq!(length_of("000.000"), (0, 0));
    assert_eq!(length_of("007"), (7 * UNIT, 0));
    assert_eq!(length_of("5."), (5 * UNIT, 0));
    assert_eq!(length_of(".5"), (UNIT / 2, 0));
    assert_eq!(length_of(".000001"), (1, 0));
}

#[test]
fn lengths_are_rounded_to_the_nearest_tick() {
    assert_eq!(length_of("0.0000004"), (0, 0));
    assert_eq!(length_of("0.0000005"), (1, 0));
    assert_eq!(length_of("0.00000149999"), (1, 0));
    assert_eq!(length_of("0.0000015"), (2, 0));
    assert_eq!(length_of("1.9999995"), (2 * UNIT, 0));
    assert_eq!(length_of("1.99999949"), (1_999_999, 0));
    assert_eq!(length_of("1.9432018717076178"), (1_943_202, 0));
}

#[test]
fn lengths_may_carry_a_plus_sign() {
    assert_eq!(length_of("+1"), (UNIT, 0));
    assert_eq!(length_of("+0.5"), (UNIT / 2, 0));
    assert_eq!(length_of("+.000001"), (1, 0));
    assert_eq!(length_of("+9223372036854.775807"), (i64::MAX, 0));
    assert_eq!(length_of("+"), (0, 1));
    assert_eq!(length_of("+-1"), (0, 1));
    assert_eq!(length_of("-+1"), (0, 1));
    assert_eq!(length_of("++1"), (0, 1));
}

#[test]
fn negative_lengths_are_read() {
    assert_eq!(length_of("-0.5"), (-500_000, 0));
    assert_eq!(length_of("-3"), (-3 * UNIT, 0));
    assert_eq!(length_of("-0.0000005"), (-1, 0));
    assert_eq!(length_of("-0"), (0, 0));
}

#[test]
fn lengths_at_the_limits() {
    assert_eq!(length_of("9223372036854.775807"), (i64::MAX, 0));
    assert_eq!(length_of("9223372036854.775808"), (0, 1));
    assert_eq!(length_of("-9223372036854.775808"), (i64::MIN, 0));
    assert_eq!(length_of("-9223372036854.7758085"), (0, 1));
    assert_eq!(length_of("9223372036855"), (0, 1));
    assert_eq!(length_of("99999999999999999999999999999999999999"), (0, 1));
    assert_eq!(length_of("9223372036854.7758074"), (i64::MAX, 0));
}

#[test]
fn unreadable_lengths_count_as_zero() {
    assert_eq!(length_of("x"), (0, 1));
    assert_eq!(length_of("1e-3"), (0, 1));
    assert_eq!(length_of("1.2.3"), (0, 1));
    assert_eq!(length_of("."), (0, 1));
    assert_eq!(length_of("-"), (0, 1));
    assert_eq!(length_of("-."), (0, 1));
    assert_eq!(length_of("--1"), (0, 1));
    assert_eq!(length_of("1-"), (0, 1));
    assert_eq!(length_of("1.5x"), (0, 1));
    assert_eq!(length_of("NaN"), (0, 1));
}

#[test]
fn unreadable_lengths_are_counted_over_the_whole_tree() {
    let parsed = newick_to_tree("((a:x,b:1)c:y,d:2)r:z;").unwrap();
    assert_eq!(parsed.unreadable_lengths, vec!["x", "y", "z"]);
    assert_eq!(
        parsed.tree,
        inner("r", 0, inner("c", 0, leaf("a", 0), leaf("b", UNIT)), leaf("d", 2 * UNIT))
    );
    let parsed = newick_to_tree("(a:1,b:q);").unwrap();
    assert_eq!(parsed.unreadable_lengths, vec!["q"]);
    let parsed = newick_to_tree("((a:1e-3,b:1.2.3)c:--1,(d:1,e:NaN)f:2)r:0;").unwrap();
    assert_eq!(parsed.unreadable_lengths, vec!["1e-3", "1.2.3", "--1", "NaN"]);
    assert_eq!(parsed.tree.left_child.as_ref().unwrap().length, 0);
}

#[test]
fn text_that_is_no_tree_is_refused() {
    for text in [
        "",
        "a",
        "(a,b)",
        "(a,b);x",
        "(a,b);;",
        "(a);",
        "(a,b,c);",
        "(a,b;",
        "a,b);",
        "(a,b));",
        "((a,b);",
        "a:1:2;",
        "(a:1:2,b);",
        "()a;",
        "(a,b)(c,d);",
        "a;b;",
    ] {
        assert_eq!(newick_to_tree(text), Err(ParseError::Syntax));
    }
}

#[test]
fn text_beyond_ascii_is_refused() {
    assert_eq!(newick_to_tree("(\u{e9},b);"), Err(ParseError::NotAscii));
    assert_eq!(newick_to_tree("a:1\u{2003};"), Err(ParseError::NotAscii));
}

#[test]
fn blanks_belong_to_names() {
    let parsed = newick_to_tree("(a b,c);").unwrap();
    assert_eq!(parsed.tree.left_child.as_ref().unwrap().name, "a b");
}

#[test]
fn written_tree_is_read_back() {
    let tree = inner(
        "R",
        0,
        inner("C", 1_234_567, leaf("A", -500_000), leaf("", 2)),
        leaf("D", i64::MAX),
    );
    let text = tree_to_newick(&tree);
    assert_eq!(newick_to_tree(&text), Ok(Parsed { tree, unreadable_lengths: Vec::new() }));
}

#[test]
fn read_tree_is_written_in_full() {
    let tree = read("((A:1,B:2)C:1,D:5)R:0;");
    assert_eq!(
        tree_to_newick(&tree),
        "((A:1.000000,B:2.000000)C:1.000000,D:5.000000)R:0.000000;"
    );
}
