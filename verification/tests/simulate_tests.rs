use gene_tree_sim::arena::FlatNode;
use gene_tree_sim::dating::{give_depth, TimeError};
use gene_tree_sim::mutator::Transfer;
use gene_tree_sim::newick::tree_to_newick;
use gene_tree_sim::node::{compare_trees, node_to_flat, Node};
use gene_tree_sim::sampler::make_CDF;
use gene_tree_sim::simulate::{
    create_many_genes, finish_gene_tree, gene_tree_to_string, make_transfer_records,
    one_gene_sim_to_string, simulate_genes, GeneError, SetupError, TransferRecord,
};
use gene_tree_sim::timeline::{
    find_contemporaneity, make_intervals, make_subdivision, number_of_species,
};
use rand::rngs::StdRng;
use rand::SeedableRng;

const UNIT: i64 = 1_000_000;

fn leaf(name: &str, length: i64) -> Node {
    Node {
        name: name.to_string(),
        left_child: None,
        right_child: None,
        parent: None,
        depth: None,
        length,
    }
}

fn inner(name: &str, length: i64, left: Node, right: Node) -> Node {
    Node {
        name: name.to_string(),
        left_child: Some(Box::new(left)),
        right_child: Some(Box::new(right)),
        parent: None,
        depth: None,
        length,
    }
}

fn species() -> Node {
    inner(
        "R",
        0,
        inner("C", UNIT, leaf("A", UNIT), leaf("B", 2 * UNIT)),
        leaf("D", 5 * UNIT),
    )
}

fn bigger() -> Node {
    inner(
        "r",
        0,
        inner(
            "u",
            UNIT,
            inner("x", UNIT, leaf("a", UNIT), leaf("b", UNIT)),
            inner("y", UNIT / 2, leaf("c", 3 * UNIT / 2), leaf("d", 3 * UNIT / 2)),
        ),
        inner("v", 2 * UNIT, leaf("e", UNIT), leaf("f", UNIT)),
    )
}

struct Prepared {
    arena: Vec<FlatNode>,
    depths: Vec<i64>,
    contemporaneity: Vec<Vec<usize>>,
    cdf: Vec<u128>,
}

fn prepare(mut tree: Node) -> Prepared {
    give_depth(&mut tree, 0).unwrap();
    let mut arena = Vec::new();
    node_to_flat(&tree, &mut arena, None);
    let depths = make_subdivision(&arena);
    let intervals = make_intervals(&depths);
    let contemporaneity = find_contemporaneity(&arena, &depths);
    let counts = number_of_species(&contemporaneity);
    let cdf = make_CDF(&intervals, &counts);
    Prepared { arena, depths, contemporaneity, cdf }
}

#[test]
fn no_transfers_give_the_species_tree_back() {
    let mut tree = species();
    let mut rng = StdRng::seed_from_u64(1);
    let genes = simulate_genes(&mut tree, &vec![0], &mut rng).unwrap();
    assert_eq!(genes.len(), 1);
    let gene = &genes[0];
    assert!(gene.transfers.is_empty());
    assert_eq!(gene.newick, Ok(tree_to_newick(&species())));
    assert_eq!(
        gene.newick,
        Ok("((A:1.000000,B:2.000000)C:1.000000,D:5.000000)R:0.000000;".to_string())
    );
}

#[test]
fn finishing_an_untouched_arena_gives_the_same_tree() {
    let p = prepare(bigger());
    let gene = finish_gene_tree(&p.arena).unwrap();
    assert!(compare_trees(&gene, &bigger()));
    assert_eq!(tree_to_newick(&gene), tree_to_newick(&bigger()));
}

#[test]
fn finishing_needs_depths() {
    let mut p = prepare(species());
    p.arena[3].depth = None;
    assert_eq!(finish_gene_tree(&p.arena), Err(TimeError::MissingDepth));
    p.arena[3].depth = Some(3);
    p.arena[0].depth = None;
    assert_eq!(finish_gene_tree(&p.arena), Err(TimeError::MissingDepth));
}

#[test]
fn finishing_reports_a_length_that_does_not_fit() {
    let mut p = prepare(species());
    p.arena[1].depth = Some(i64::MIN);
    p.arena[2].depth = Some(i64::MAX);
    assert_eq!(finish_gene_tree(&p.arena), Err(TimeError::Overflow));
    let mut tree = p.arena;
    assert_eq!(
        gene_tree_to_string(&mut tree, &Vec::new()),
        Err(GeneError::Time(TimeError::Overflow))
    );
}

#[test]
fn same_seed_gives_the_same_gene_trees() {
    let counts = vec![0, 3, 10, 25];
    let mut first_tree = bigger();
    let mut second_tree = bigger();
    let mut first_rng = StdRng::seed_from_u64(4242);
    let mut second_rng = StdRng::seed_from_u64(4242);
    let first = simulate_genes(&mut first_tree, &counts, &mut first_rng).unwrap();
    let second = simulate_genes(&mut second_tree, &counts, &mut second_rng).unwrap();
    assert_eq!(first, second);
    assert_eq!(first.len(), 4);
}

#[test]
fn each_gene_tree_has_at_most_as_many_transfers_as_draws() {
    let counts = vec![0, 1, 5, 40];
    let mut tree = bigger();
    let mut rng = StdRng::seed_from_u64(8);
    let genes = simulate_genes(&mut tree, &counts, &mut rng).unwrap();
    let mut made = 0;
    for (gene, &n) in genes.iter().zip(counts.iter()) {
        assert!(gene.transfers.len() <= n);
        if let Ok(newick) = &gene.newick {
            assert!(newick.ends_with(';'));
            made += 1;
        }
    }
    assert!(made >= 1);
}

#[test]
fn species_tree_is_dated_by_the_simulation() {
    let mut tree = species();
    let mut rng = StdRng::seed_from_u64(1);
    simulate_genes(&mut tree, &Vec::new(), &mut rng).unwrap();
    assert_eq!(tree.depth, Some(0));
    assert_eq!(tree.right_child.as_ref().unwrap().depth, Some(5 * UNIT));
}

#[test]
fn tree_with_a_single_child_is_refused() {
    let mut tree = species();
    tree.left_child.as_mut().unwrap().right_child = None;
    let mut rng = StdRng::seed_from_u64(1);
    assert_eq!(simulate_genes(&mut tree, &vec![1], &mut rng), Err(SetupError::NotBinary));
    assert_eq!(tree.depth, None);
}

#[test]
fn tree_whose_depths_do_not_fit_is_refused() {
    let mut tree = inner("r", 0, leaf("a", i64::MAX), inner("b", 1, leaf("c", i64::MAX), leaf("d", 0)));
    let mut rng = StdRng::seed_from_u64(1);
    assert_eq!(
        simulate_genes(&mut tree, &vec![1], &mut rng),
        Err(SetupError::Time(TimeError::Overflow))
    );
    assert_eq!(tree.depth, None);
}

#[test]
fn tree_without_time_extent_is_refused() {
    let mut rng = StdRng::seed_from_u64(1);
    let mut single = leaf("a", 5);
    assert_eq!(
        simulate_genes(&mut single, &vec![1], &mut rng),
        Err(SetupError::ZeroWeight)
    );
    let mut flat = inner("r", 3, leaf("a", 0), leaf("b", 0));
    assert_eq!(
        simulate_genes(&mut flat, &vec![1], &mut rng),
        Err(SetupError::ZeroWeight)
    );
}

#[test]
fn records_carry_names_and_time() {
    let p = prepare(species());
    let transfers = vec![
        Transfer { donor: 2, recipient: 4, time: 1_943_202 },
        Transfer { donor: 4, recipient: 3, time: 2_000_000 },
    ];
    let records = make_transfer_records(&p.arena, &transfers);
    assert_eq!(
        records,
        vec![
            TransferRecord {
                donor: "A".to_string(),
                recipient: "D".to_string(),
                depth: "1.943202".to_string(),
            },
            TransferRecord {
                donor: "D".to_string(),
                recipient: "B".to_string(),
                depth: "2.000000".to_string(),
            },
        ]
    );
    assert!(make_transfer_records(&p.arena, &Vec::new()).is_empty());
}

#[test]
fn one_gene_reports_the_transfers_it_applied() {
    let p = prepare(bigger());
    let names: Vec<String> = p.arena.iter().map(|n| n.name.clone()).collect();
    let mut rng = StdRng::seed_from_u64(77);
    let mut seen = 0;
    for _ in 0..20 {
        let mut copy = p.arena.clone();
        let gene = one_gene_sim_to_string(&mut copy, 6, &p.contemporaneity, &p.cdf, &p.depths, &mut rng);
        assert!(gene.transfers.len() <= 6);
        for record in gene.transfers.iter() {
            assert!(names.contains(&record.donor));
            assert!(names.contains(&record.recipient));
            assert_ne!(record.donor, record.recipient);
            assert_eq!(record.depth.split('.').nth(1).unwrap().len(), 6);
        }
        if let Ok(newick) = &gene.newick {
            seen += 1;
            // every name of the species tree is still in the gene tree
            for name in names.iter() {
                assert!(newick.contains(&format!("{}:", name)));
            }
        }
    }
    assert!(seen >= 1);
}

#[test]
fn many_genes_leave_the_species_arena_alone() {
    let p = prepare(bigger());
    let before = p.arena.clone();
    let mut rng = StdRng::seed_from_u64(5);
    let genes = create_many_genes(&p.arena, &vec![4, 0, 9], &p.contemporaneity, &p.cdf, &p.depths, &mut rng);
    assert_eq!(genes.len(), 3);
    assert_eq!(p.arena, before);
    assert_eq!(genes[1].newick, Ok(tree_to_newick(&bigger())));
    assert!(genes[1].transfers.is_empty());
}
