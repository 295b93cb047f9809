//! Trees as text for the eye: the records of an arena as rows of a table,
//! and an owned tree as one line for each step of a walk through it.

use crate::arena::FlatNode;
use crate::newick::{decimal, number_to_string, texts_of, time_text, time_to_string};
use crate::node::Node;
use vstd::prelude::*;
use vstd::string::*;

verus! {

/// A position as it is shown: its number, or `None` where there is none.
pub open spec fn position_text(position: Option<usize>) -> Seq<char> {
    match position {
        Some(i) => decimal(i as nat),
        None => "None"@,
    }
}

/// The six cells of the row of a record: name, left child, right child,
/// parent, depth and length.
pub open spec fn row_of(record: FlatNode) -> Seq<Seq<char>> {
    seq![
        record.name@,
        position_text(record.left_child),
        position_text(record.right_child),
        position_text(record.parent),
        match record.depth {
            Some(d) => time_text(d as int),
            None => "None"@,
        },
        time_text(record.length as int),
    ]
}

fn position_to_string(position: Option<usize>) -> (text: String)
    ensures
        text@ == position_text(position),
{
    match position {
        Some(i) => number_to_string(i as u64),
        None => "None".to_owned(),
    }
}

/// The cells of the row that shows one record.
pub fn flat_node_row(flat_node: &FlatNode) -> (row: Vec<String>)
    ensures
        row.len() == 6,
        forall|k: int| 0 <= k < 6 ==> (#[trigger] row@[k])@ == row_of(*flat_node)[k],
{
    let mut row: Vec<String> = Vec::new();
    row.push(flat_node.name.clone());
    row.push(position_to_string(flat_node.left_child));
    row.push(position_to_string(flat_node.right_child));
    row.push(position_to_string(flat_node.parent));
    row.push(
        match flat_node.depth {
            Some(d) => time_to_string(d),
            None => "None".to_owned(),
        },
    );
    row.push(time_to_string(flat_node.length));
    row
}

/// The rows that show the records of an arena, in the order of the arena.
pub fn flat_node_table(flat_nodes: &Vec<FlatNode>) -> (rows: Vec<Vec<String>>)
    ensures
        rows.len() == flat_nodes.len(),
        forall|i: int, k: int|
            0 <= i < rows.len() && 0 <= k < 6 ==> (#[trigger] rows@[i]@[k])@ == row_of(
                flat_nodes@[i],
            )[k],
        forall|i: int| 0 <= i < rows.len() ==> (#[trigger] rows@[i]).len() == 6,
{
    let mut rows: Vec<Vec<String>> = Vec::new();
    let mut i: usize = 0;
    while i < flat_nodes.len()
        invariant
            i <= flat_nodes.len(),
            rows.len() == i,
            forall|j: int, k: int|
                0 <= j < i && 0 <= k < 6 ==> (#[trigger] rows@[j]@[k])@ == row_of(
                    flat_nodes@[j],
                )[k],
            forall|j: int| 0 <= j < i ==> (#[trigger] rows@[j]).len() == 6,
        decreases flat_nodes.len() - i,
    {
        rows.push(flat_node_row(&flat_nodes[i]));
        i += 1;
    }
    rows
}

/// The lines of a walk through the tree: one for each node as it is
/// reached, and one before each step down to a child.
pub open spec fn walk_of(node: Node) -> Seq<Seq<char>>
    decreases node,
{
    let below_left = match node.left_child {
        Some(l) => seq!["Traversing left child of "@ + node.name@] + walk_of(*l),
        None => Seq::empty(),
    };
    let below_right = match node.right_child {
        Some(r) => seq!["Traversing right child of "@ + node.name@] + walk_of(*r),
        None => Seq::empty(),
    };
    seq!["Node: "@ + node.name@] + below_left + below_right
}

fn walk_into(node: &Node, lines: &mut Vec<String>)
    ensures
        texts_of(final(lines)@) == texts_of(old(lines)@) + walk_of(*node),
    decreases node,
{
    let mut line = "Node: ".to_owned();
    line.append(node.name.as_str());
    lines.push(line);
    assert(texts_of(lines@) =~= texts_of(old(lines)@) + seq!["Node: "@ + node.name@]);
    if let Some(left) = &node.left_child {
        let mut line = "Traversing left child of ".to_owned();
        line.append(node.name.as_str());
        let ghost before = lines@;
        lines.push(line);
        assert(texts_of(lines@) =~= texts_of(before) + seq![
            "Traversing left child of "@ + node.name@,
        ]);
        walk_into(left, lines);
    }
    if let Some(right) = &node.right_child {
        let mut line = "Traversing right child of ".to_owned();
        line.append(node.name.as_str());
        let ghost before = lines@;
        lines.push(line);
        assert(texts_of(lines@) =~= texts_of(before) + seq![
            "Traversing right child of "@ + node.name@,
        ]);
        walk_into(right, lines);
    }
    assert(texts_of(lines@) =~= texts_of(old(lines)@) + walk_of(*node));
}

/// The lines of a walk through the tree, parents before children and the
/// left subtree before the right one.
pub fn traverse_tree(node: &Node) -> (lines: Vec<String>)
    ensures
        texts_of(lines@) == walk_of(*node),
{
    let mut lines: Vec<String> = Vec::new();
    walk_into(node, &mut lines);
    assert(texts_of(lines@) =~= walk_of(*node));
    lines
}

} // verus!
