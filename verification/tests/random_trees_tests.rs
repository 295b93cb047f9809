use gene_tree_sim::arena::{find_root_in_flat_tree, FlatNode};
use gene_tree_sim::dating::give_depth;
use gene_tree_sim::mutator::{can_apply, change_tree};
use gene_tree_sim::node::{flat_to_node, node_to_flat, Node};
use gene_tree_sim::parse::newick_to_tree;
use gene_tree_sim::sampler::{generate_transfers, make_CDF};
use gene_tree_sim::simulate::{finish_gene_tree, simulate_genes};
use gene_tree_sim::timeline::{
    find_contemporaneity, make_intervals, make_subdivision, number_of_species,
};
use rand::rngs::StdRng;
use rand::Rng;
use rand::SeedableRng;

fn random_tree(rng: &mut StdRng, leaves: usize, next: &mut usize) -> Node {
    *next += 1;
    let name = format!("n{}", *next);
    let length = rng.gen_range(1..2_000_000);
    if leaves == 1 {
        return Node {
            name,
            left_child: None,
            right_child: None,
            parent: None,
            depth: None,
            length,
        };
    }
    let left = rng.gen_range(1..leaves);
    let l = random_tree(rng, left, next);
    let r = random_tree(rng, leaves - left, next);
    Node {
        name,
        left_child: Some(Box::new(l)),
        right_child: Some(Box::new(r)),
        parent: None,
        depth: None,
        length,
    }
}

fn names_of(node: &Node, names: &mut Vec<String>) {
    names.push(node.name.clone());
    if let Some(l) = &node.left_child {
        names_of(l, names);
    }
    if let Some(r) = &node.right_child {
        names_of(r, names);
    }
}

fn leaves_of(node: &Node, names: &mut Vec<String>) {
    match (&node.left_child, &node.right_child) {
        (None, None) => names.push(node.name.clone()),
        (l, r) => {
            if let Some(l) = l {
                leaves_of(l, names);
            }
            if let Some(r) = r {
                leaves_of(r, names);
            }
        }
    }
}

fn sorted(mut names: Vec<String>) -> Vec<String> {
    names.sort();
    names
}

fn check_arena(tree: &Vec<FlatNode>) {
    let mut roots = 0;
    for (i, n) in tree.iter().enumerate() {
        match n.parent {
            None => roots += 1,
            Some(p) => {
                assert!(tree[p].left_child == Some(i) || tree[p].right_child == Some(i));
            }
        }
        assert_eq!(n.left_child.is_some(), n.right_child.is_some());
        if let (Some(l), Some(r)) = (n.left_child, n.right_child) {
            assert_ne!(l, r);
            assert_eq!(tree[l].parent, Some(i));
            assert_eq!(tree[r].parent, Some(i));
        }
        let mut cur = i;
        let mut steps = 0;
        while let Some(p) = tree[cur].parent {
            cur = p;
            steps += 1;
            assert!(steps <= tree.len());
        }
    }
    assert_eq!(roots, 1);
}

#[test]
fn random_trees_survive_the_round_trip() {
    for seed in 0..20u64 {
        let mut rng = StdRng::seed_from_u64(seed);
        let mut next = 0;
        let mut tree = random_tree(&mut rng, 1 + (seed as usize) * 3, &mut next);
        give_depth(&mut tree, 0).unwrap();
        let mut first = Vec::new();
        node_to_flat(&tree, &mut first, None);
        check_arena(&first);
        assert_eq!(find_root_in_flat_tree(&first), 0);
        let rebuilt = flat_to_node(&first, 0, None);
        let mut second = Vec::new();
        node_to_flat(&rebuilt, &mut second, None);
        assert_eq!(first, second);
    }
}

#[test]
fn random_transfers_keep_the_arena_a_tree() {
    for seed in 0..20u64 {
        let mut rng = StdRng::seed_from_u64(1000 + seed);
        let mut next = 0;
        let mut tree = random_tree(&mut rng, 30, &mut next);
        give_depth(&mut tree, 0).unwrap();
        let mut arena = Vec::new();
        node_to_flat(&tree, &mut arena, None);
        let depths = make_subdivision(&arena);
        let intervals = make_intervals(&depths);
        let contemporaneity = find_contemporaneity(&arena, &depths);
        let counts = number_of_species(&contemporaneity);
        let cdf = make_CDF(&intervals, &counts);
        let transfers = generate_transfers(60, &contemporaneity, &cdf, &depths, &mut rng);
        let mut applied = 0;
        for t in transfers {
            if can_apply(&arena, t) {
                change_tree(&mut arena, t);
                applied += 1;
                check_arena(&arena);
                assert_eq!(arena[t.donor].parent, arena[t.recipient].parent);
            }
        }
        assert!(applied > 0);
        let gene = finish_gene_tree(&arena).unwrap();
        let mut before = Vec::new();
        names_of(&tree, &mut before);
        let mut after = Vec::new();
        names_of(&gene, &mut after);
        assert_eq!(sorted(before), sorted(after));
        let mut again = Vec::new();
        node_to_flat(&gene, &mut again, None);
        for record in again.iter() {
            if let Some(p) = record.parent {
                assert_eq!(record.depth.unwrap() - again[p].depth.unwrap(), record.length);
            }
        }
    }
}

#[test]
fn random_gene_trees_keep_the_leaves_of_the_species_tree() {
    let mut made = 0;
    for seed in 0..10u64 {
        let mut rng = StdRng::seed_from_u64(2000 + seed);
        let mut next = 0;
        let mut tree = random_tree(&mut rng, 25, &mut next);
        let mut species_leaves = Vec::new();
        leaves_of(&tree, &mut species_leaves);
        let counts = vec![0, 1, 4, 16, 64];
        let genes = simulate_genes(&mut tree, &counts, &mut rng).unwrap();
        assert_eq!(genes.len(), counts.len());
        for (gene, &n) in genes.iter().zip(counts.iter()) {
            assert!(gene.transfers.len() <= n);
            if let Ok(text) = &gene.newick {
                made += 1;
                let read = newick_to_tree(text).unwrap();
                assert!(read.unreadable_lengths.is_empty());
                let mut gene_leaves = Vec::new();
                leaves_of(&read.tree, &mut gene_leaves);
                assert_eq!(sorted(gene_leaves), sorted(species_leaves.clone()));
            }
        }
    }
    assert!(made >= 10);
}
