use gene_tree_sim::arena::{is_well_formed, FlatNode};
use gene_tree_sim::mutator::{change_tree, Transfer};
use gene_tree_sim::sampler::is_cdf_for;
use gene_tree_sim::simulate::{lists_records_of, names_records_of};
use gene_tree_sim::timeline::{is_all_dated, is_ascending};

fn record(parent: Option<usize>, children: Option<(usize, usize)>) -> FlatNode {
    FlatNode {
        name: String::new(),
        left_child: children.map(|c| c.0),
        right_child: children.map(|c| c.1),
        parent,
        depth: Some(0),
        length: 0,
    }
}

/// 0 -> (1, 4), 1 -> (2, 3)
fn five() -> Vec<FlatNode> {
    vec![
        record(None, Some((1, 4))),
        record(Some(0), Some((2, 3))),
        record(Some(1), None),
        record(Some(1), None),
        record(Some(0), None),
    ]
}

#[test]
fn a_tree_is_well_formed() {
    assert!(is_well_formed(&five()));
    assert!(is_well_formed(&vec![record(None, None)]));
    let mut moved = five();
    change_tree(&mut moved, Transfer { donor: 2, recipient: 4, time: 0 });
    assert!(is_well_formed(&moved));
}

#[test]
fn an_arena_without_records_is_no_tree() {
    assert!(!is_well_formed(&Vec::new()));
}

#[test]
fn two_roots_or_none_are_no_tree() {
    let mut two = five();
    two.push(record(None, None));
    assert!(!is_well_formed(&two));
    let mut none = five();
    none[0].parent = Some(1);
    assert!(!is_well_formed(&none));
}

#[test]
fn links_that_are_not_answered_are_no_tree() {
    let mut tree = five();
    tree[2].parent = Some(0);
    assert!(!is_well_formed(&tree));
    let mut tree = five();
    tree[1].left_child = Some(4);
    assert!(!is_well_formed(&tree));
    let mut tree = five();
    tree[1].right_child = Some(9);
    assert!(!is_well_formed(&tree));
    let mut tree = five();
    tree[3].parent = Some(9);
    assert!(!is_well_formed(&tree));
}

#[test]
fn one_child_or_the_same_child_twice_is_no_tree() {
    let mut tree = five();
    tree[1].right_child = None;
    tree[3].parent = None;
    assert!(!is_well_formed(&tree));
    let mut tree = five();
    tree[1].right_child = Some(2);
    assert!(!is_well_formed(&tree));
}

#[test]
fn a_cycle_beside_the_tree_is_no_tree() {
    // 0 is a lone root; 1 and 2 are each other's parent and child, each
    // with a leaf as second child.
    let tree = vec![
        record(None, None),
        record(Some(2), Some((2, 3))),
        record(Some(1), Some((1, 4))),
        record(Some(1), None),
        record(Some(2), None),
    ];
    assert!(!is_well_formed(&tree));
}

#[test]
fn a_deep_tree_is_well_formed() {
    // A comb: record 2k is an inner node with the leaf 2k + 1 and the next
    // inner node 2k + 2 below it.
    let n = 200;
    let mut tree = Vec::new();
    for k in 0..n {
        let parent = if k == 0 { None } else { Some(2 * (k - 1)) };
        tree.push(record(parent, Some((2 * k + 1, 2 * k + 2))));
        tree.push(record(Some(2 * k), None));
    }
    tree.push(record(Some(2 * (n - 1)), None));
    assert!(is_well_formed(&tree));
}

#[test]
fn ascending_means_strictly_ascending() {
    assert!(is_ascending(&Vec::new()));
    assert!(is_ascending(&vec![3]));
    assert!(is_ascending(&vec![-5, 0, 1, 100]));
    assert!(!is_ascending(&vec![0, 1, 1, 2]));
    assert!(!is_ascending(&vec![0, 2, 1]));
    assert!(!is_ascending(&vec![1, 0]));
}

#[test]
fn dated_means_a_depth_everywhere() {
    let mut tree = five();
    assert!(is_all_dated(&tree));
    assert!(is_all_dated(&Vec::new()));
    tree[4].depth = None;
    assert!(!is_all_dated(&tree));
}

#[test]
fn cumulative_weights_belong_to_breakpoints() {
    let depths = vec![0, 10, 20, 40];
    assert!(is_cdf_for(&vec![0, 20, 20, 60], &depths));
    assert!(is_cdf_for(&vec![0, 0, 0, 0], &depths));
    assert!(is_cdf_for(&Vec::new(), &Vec::new()));
    // not as many entries as breakpoints
    assert!(!is_cdf_for(&vec![0, 20, 20], &depths));
    // the first entry is not zero
    assert!(!is_cdf_for(&vec![10, 20, 20, 60], &depths));
    // an entry is smaller than the one before it
    assert!(!is_cdf_for(&vec![0, 20, 10, 50], &depths));
    // a weight is no multiple of the length of its interval
    assert!(!is_cdf_for(&vec![0, 20, 25, 65], &depths));
    // the breakpoints do not ascend
    assert!(!is_cdf_for(&vec![0, 20, 20, 60], &vec![0, 10, 10, 40]));
}

#[test]
fn listed_lineages_are_records() {
    let lists = vec![vec![], vec![1, 4], vec![2, 3, 4]];
    assert!(lists_records_of(&lists, 5));
    assert!(!lists_records_of(&lists, 4));
    assert!(lists_records_of(&Vec::new(), 0));
}

#[test]
fn transfers_name_records() {
    let transfers = vec![
        Transfer { donor: 1, recipient: 4, time: 0 },
        Transfer { donor: 3, recipient: 2, time: 0 },
    ];
    assert!(names_records_of(&transfers, 5));
    assert!(!names_records_of(&transfers, 4));
    assert!(!names_records_of(&transfers, 3));
    assert!(names_records_of(&Vec::new(), 0));
}
