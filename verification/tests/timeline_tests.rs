use gene_tree_sim::arena::FlatNode;
use gene_tree_sim::dating::give_depth;
use gene_tree_sim::node::{node_to_flat, Node};
use gene_tree_sim::timeline::{
    find_closest_index, find_contemporaneity, make_intervals, make_subdivision, number_of_species,
};

const UNIT: i64 = 1_000_000;

fn leaf(name: &str, length: i64) -> Node {
    Node {
        name: name.to_string(),
        left_child: None,
        right_child: None,
        parent: None,
        depth: None,
        length,
    }
}

fn inner(name: &str, length: i64, left: Node, right: Node) -> Node {
    Node {
        name: name.to_string(),
        left_child: Some(Box::new(left)),
        right_child: Some(Box::new(right)),
        parent: None,
        depth: None,
        length,
    }
}

/// ((A:1,B:2)C:1,D:5)R:0, dated and flattened: R=0, C=1, A=2, B=3, D=4.
fn species_arena() -> Vec<FlatNode> {
    let mut tree = inner(
        "R",
        0,
        inner("C", UNIT, leaf("A", UNIT), leaf("B", 2 * UNIT)),
        leaf("D", 5 * UNIT),
    );
    give_depth(&mut tree, 0).unwrap();
    let mut arena = Vec::new();
    node_to_flat(&tree, &mut arena, None);
    arena
}

#[test]
fn breakpoints_of_the_example_tree() {
    let arena = species_arena();
    let depths = make_subdivision(&arena);
    assert_eq!(depths, vec![0, UNIT, 2 * UNIT, 3 * UNIT, 5 * UNIT]);
}

#[test]
fn intervals_of_the_example_tree() {
    let depths = vec![0, UNIT, 2 * UNIT, 3 * UNIT, 5 * UNIT];
    let intervals = make_intervals(&depths);
    let unit = UNIT as u64;
    assert_eq!(intervals, vec![0, unit, unit, unit, 2 * unit]);
}

#[test]
fn breakpoints_are_sorted_and_without_duplicates() {
    let mut arena = species_arena();
    arena[0].depth = Some(7);
    arena[1].depth = Some(-3);
    arena[2].depth = Some(7);
    arena[3].depth = None;
    arena[4].depth = Some(-3);
    assert_eq!(make_subdivision(&arena), vec![-3, 7]);
    assert_eq!(make_subdivision(&Vec::new()), Vec::<i64>::new());
}

#[test]
fn intervals_are_as_many_as_breakpoints() {
    assert_eq!(make_intervals(&Vec::new()), Vec::<u64>::new());
    assert_eq!(make_intervals(&vec![5]), vec![0]);
    assert_eq!(make_intervals(&vec![i64::MIN, i64::MAX]), vec![0, u64::MAX]);
}

#[test]
fn every_depth_snaps_to_itself() {
    let arena = species_arena();
    let depths = make_subdivision(&arena);
    for record in arena.iter() {
        let d = record.depth.unwrap();
        let index = find_closest_index(&depths, d);
        assert!(index < depths.len());
        assert_eq!(depths[index], d);
    }
}

#[test]
fn closest_index_of_a_time_between_breakpoints() {
    let depths = vec![0, 10, 20, 40];
    assert_eq!(find_closest_index(&depths, 3), 0);
    assert_eq!(find_closest_index(&depths, 7), 1);
    assert_eq!(find_closest_index(&depths, 10), 1);
    assert_eq!(find_closest_index(&depths, 29), 2);
    assert_eq!(find_closest_index(&depths, 31), 3);
}

#[test]
fn closest_index_prefers_the_earlier_of_two_equally_near() {
    let depths = vec![0, 10, 20, 40];
    assert_eq!(find_closest_index(&depths, 5), 0);
    assert_eq!(find_closest_index(&depths, 15), 1);
    assert_eq!(find_closest_index(&depths, 30), 2);
}

#[test]
fn closest_index_stays_within_bounds() {
    let depths = vec![0, 10, 20, 40];
    assert_eq!(find_closest_index(&depths, -100), 0);
    assert_eq!(find_closest_index(&depths, 1000), 3);
    assert_eq!(find_closest_index(&depths, i64::MIN), 0);
    assert_eq!(find_closest_index(&depths, i64::MAX), 3);
    assert_eq!(find_closest_index(&vec![i64::MIN, i64::MAX], -1), 0);
    assert_eq!(find_closest_index(&vec![i64::MIN, i64::MAX], 0), 1);
    assert_eq!(find_closest_index(&Vec::new(), 5), 0);
}

#[test]
fn lineages_alive_in_each_interval_of_the_example_tree() {
    let arena = species_arena();
    let depths = make_subdivision(&arena);
    let contemporaneity = find_contemporaneity(&arena, &depths);
    let expected: Vec<Vec<usize>> =
        vec![vec![], vec![1, 4], vec![2, 3, 4], vec![3, 4], vec![4]];
    assert_eq!(contemporaneity, expected);
}

#[test]
fn root_is_alive_in_no_interval() {
    let mut arena = species_arena();
    arena[0].length = 3 * UNIT;
    let depths = make_subdivision(&arena);
    let contemporaneity = find_contemporaneity(&arena, &depths);
    for lineages in contemporaneity.iter() {
        assert!(!lineages.contains(&0));
    }
    assert!(contemporaneity[0].is_empty());
}

#[test]
fn lineage_starts_at_the_nearest_breakpoint() {
    let mut arena = species_arena();
    // A ends at 2 and is 1.6 long: it begins at 0.4, nearest breakpoint 0.
    arena[2].length = 1_600_000;
    let depths = make_subdivision(&arena);
    let contemporaneity = find_contemporaneity(&arena, &depths);
    assert_eq!(contemporaneity[1], vec![1, 2, 4]);
    // Halfway between two breakpoints the earlier one is taken.
    arena[2].length = 1_500_000;
    let contemporaneity = find_contemporaneity(&arena, &depths);
    assert_eq!(contemporaneity[1], vec![1, 2, 4]);
    arena[2].length = 1_499_999;
    let contemporaneity = find_contemporaneity(&arena, &depths);
    assert_eq!(contemporaneity[1], vec![1, 4]);
}

#[test]
fn lineage_with_a_start_that_does_not_fit_begins_at_the_first_breakpoint() {
    let mut arena = species_arena();
    arena[4].length = i64::MIN;
    let depths = make_subdivision(&arena);
    let contemporaneity = find_contemporaneity(&arena, &depths);
    assert!(!contemporaneity[4].contains(&4));
    arena[4].depth = Some(-5);
    arena[4].length = i64::MAX;
    let depths = make_subdivision(&arena);
    assert_eq!(depths[0], -5);
    let contemporaneity = find_contemporaneity(&arena, &depths);
    for lineages in contemporaneity.iter() {
        assert!(!lineages.contains(&4));
    }
}

#[test]
fn species_counts_are_the_sizes_of_the_lists() {
    let arena = species_arena();
    let depths = make_subdivision(&arena);
    let contemporaneity = find_contemporaneity(&arena, &depths);
    assert_eq!(number_of_species(&contemporaneity), vec![0, 2, 3, 2, 1]);
    assert_eq!(number_of_species(&Vec::new()), Vec::<usize>::new());
}

#[test]
fn breakpoints_of_many_records_agree_with_sorting_and_deduplicating() {
    let mut arena = Vec::new();
    let mut expected = Vec::new();
    let mut value: i64 = 12345;
    for k in 0..2000 {
        value = (value * 1_103_515_245 + 12_345) % 2_147_483_648;
        let depth = if k % 7 == 0 { None } else { Some(value % 500 - 250) };
        if let Some(d) = depth {
            expected.push(d);
        }
        arena.push(FlatNode {
            name: String::new(),
            left_child: None,
            right_child: None,
            parent: None,
            depth,
            length: 0,
        });
    }
    expected.sort();
    expected.dedup();
    assert_eq!(make_subdivision(&arena), expected);
}
