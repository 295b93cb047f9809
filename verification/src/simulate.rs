//! From a species tree to gene trees.
//!
//! The species tree is dated and flattened once, and its breakpoints,
//! lineage lists and cumulative weights are computed once. Every gene tree
//! then starts from a copy of the species arena, has its own transfers drawn
//! and applied, and is written out with lengths derived from its depths.

use crate::arena::{
    clone_flat_tree, find_root_in_flat_tree, is_sole_root, well_formed, FlatNode,
};
use crate::dating::{
    children_name_parents, dated, depths_fit, depths_to_lengths, finalized, give_depth,
    has_depths, lemma_finalized_consistent, lengths_follow_depths, spans_fit, TimeError,
};
use crate::mutator::{all_apply, applied, create_new_tree, transfer_applies, Transfer};
use crate::newick::{newick_text, time_text, time_to_string, tree_to_newick};
use crate::node::{
    flat_to_node, flattened, is_binary_tree, lemma_flattened_len, lemma_flattened_well_formed,
    lemma_represents_unique, node_to_flat, owned_form, represents, Node,
};
use crate::sampler::{
    can_weigh, cdf_matches, comes_of, cumulative_weights, generate_transfers, is_event,
    lemma_cdf_matches, lemma_intervals_span, lemma_weight_sum_grows, make_CDF, sorted_by_time,
    weight_sum, Draw,
};
use crate::timeline::{
    alive, alive_among, alive_lists, all_dated, breakpoints_of, find_contemporaneity,
    interval_lists, intervals_of, is_subdivision, lemma_alive_among,
    lemma_first_lineage_never_alive, make_intervals, make_subdivision, number_of_species,
    species_counts,
};
use rand::rngs::StdRng;
use vstd::prelude::*;

verus! {

/// One transfer as it is reported: the names of the two lineages and the
/// time in branch length units.
#[derive(Debug, PartialEq, Eq)]
pub struct TransferRecord {
    pub donor: String,
    pub recipient: String,
    pub depth: String,
}

/// Why a gene tree could not be made.
#[derive(Clone, Copy, Debug, PartialEq, Eq, Structural)]
pub enum GeneError {
    /// The transfer at this position could not be applied.
    Refused(usize),
    /// The lengths could not be derived from the depths.
    Time(TimeError),
}

/// Why a species tree could not be prepared.
#[derive(Clone, Copy, Debug, PartialEq, Eq, Structural)]
pub enum SetupError {
    /// Some node has one child only.
    NotBinary,
    /// A depth does not fit.
    Time(TimeError),
    /// The total weight of the intervals is zero: the tree spans no time, or
    /// no lineage is ever alive, and no event can be drawn.
    ZeroWeight,
}

/// One simulated gene tree.
#[derive(Debug, PartialEq, Eq)]
pub struct GeneTree {
    /// The transfers that were drawn for it, in time order.
    pub transfers: Vec<TransferRecord>,
    /// The tree in Newick form, closed by a semicolon, or the reason why
    /// the transfers did not lead to a tree.
    pub newick: Result<String, GeneError>,
}

/// Every transfer names two records of the arena.
pub open spec fn transfers_in_range(transfers: Seq<Transfer>, n: nat) -> bool {
    forall|k: int|
        0 <= k < transfers.len() ==> (#[trigger] transfers[k]).donor < n && transfers[k].recipient
            < n
}

/// The record tells of the transfer: the names of donor and recipient, and
/// the time with six decimals.
pub open spec fn reports(record: TransferRecord, tree: Seq<FlatNode>, transfer: Transfer) -> bool {
    &&& record.donor@ == tree[transfer.donor as int].name@
    &&& record.recipient@ == tree[transfer.recipient as int].name@
    &&& record.depth@ == time_text(transfer.time as int)
}

/// The transfers as they are reported, one record each, in the same order.
pub fn make_transfer_records(flat_tree: &Vec<FlatNode>, transfers: &Vec<Transfer>) -> (records: Vec<
    TransferRecord,
>)
    requires
        transfers_in_range(transfers@, flat_tree@.len()),
    ensures
        records.len() == transfers.len(),
        forall|k: int|
            0 <= k < transfers.len() ==> reports(#[trigger] records@[k], flat_tree@, transfers@[k]),
{
    let mut records: Vec<TransferRecord> = Vec::new();
    let mut k: usize = 0;
    while k < transfers.len()
        invariant
            k <= transfers.len(),
            records.len() == k,
            transfers_in_range(transfers@, flat_tree@.len()),
            forall|m: int|
                0 <= m < k ==> reports(#[trigger] records@[m], flat_tree@, transfers@[m]),
        decreases transfers.len() - k,
    {
        let transfer: Transfer = transfers[k];
        assert(transfers@[k as int].donor < flat_tree.len());
        records.push(
            TransferRecord {
                donor: flat_tree[transfer.donor].name.clone(),
                recipient: flat_tree[transfer.recipient].name.clone(),
                depth: time_to_string(transfer.time),
            },
        );
        k += 1;
    }
    records
}

/// The root of an arena that has exactly one.
pub open spec fn root_of(tree: Seq<FlatNode>) -> int {
    choose|r: int| is_sole_root(tree, r)
}

/// The owned form of a stored subtree names a parent at every node below its
/// top.
pub proof fn lemma_represents_names_parents(
    tree: Seq<FlatNode>,
    index: int,
    parent: Option<usize>,
    node: Node,
)
    requires
        represents(tree, index, parent, node),
    ensures
        children_name_parents(node),
    decreases node,
{
    reveal_with_fuel(represents, 2);
    match node.left_child {
        Some(l) => lemma_represents_names_parents(
            tree,
            tree[index].left_child->0 as int,
            Some(index as usize),
            *l,
        ),
        None => {},
    }
    match node.right_child {
        Some(r) => lemma_represents_names_parents(
            tree,
            tree[index].right_child->0 as int,
            Some(index as usize),
            *r,
        ),
        None => {},
    }
}

/// The owned form of the arena, from its root, with every length below the
/// root derived from the depths.
///
/// In the tree that comes back the depth of every node below the root, less
/// the depth of its parent, is its length. Fails where a record has no depth
/// or a length would not fit.
pub fn finish_gene_tree(flat_tree: &Vec<FlatNode>) -> (done: Result<Node, TimeError>)
    requires
        well_formed(flat_tree@),
    ensures
        ({
            let raw = owned_form(flat_tree@, root_of(flat_tree@), None);
            match done {
                Ok(node) => {
                    &&& has_depths(raw)
                    &&& spans_fit(raw, raw.depth->0 as int)
                    &&& node == finalized(raw, raw.depth->0 as int)
                    &&& lengths_follow_depths(node)
                },
                Err(TimeError::MissingDepth) => !has_depths(raw),
                Err(TimeError::Overflow) => has_depths(raw) && !spans_fit(
                    raw,
                    raw.depth->0 as int,
                ),
            }
        }),
{
    let root: usize = find_root_in_flat_tree(flat_tree);
    proof {
        let r = root_of(flat_tree@);
        assert(is_sole_root(flat_tree@, r));
        assert(r == root);
    }
    let mut node = flat_to_node(flat_tree, root, None);
    let ghost raw = node;
    let root_depth: i64 = match node.depth {
        Some(depth) => depth,
        None => {
            return Err(TimeError::MissingDepth);
        },
    };
    match depths_to_lengths(&mut node, root_depth) {
        Ok(()) => {
            proof {
                lemma_represents_names_parents(flat_tree@, root as int, None, raw);
                lemma_finalized_consistent(raw, root_depth as int);
            }
            Ok(node)
        },
        Err(e) => Err(e),
    }
}

/// What applying `transfers` to the arena `before` and writing the result
/// out comes to: the arena `after`, and the text or the reason why there is
/// none.
pub open spec fn gene_outcome(
    before: Seq<FlatNode>,
    transfers: Seq<Transfer>,
    after: Seq<FlatNode>,
    outcome: Result<String, GeneError>,
) -> bool {
    let n = transfers.len();
    let raw = owned_form(after, root_of(after), None);
    match outcome {
        Ok(text) => {
            &&& all_apply(before, transfers, n)
            &&& after == applied(before, transfers, n)
            &&& has_depths(raw)
            &&& spans_fit(raw, raw.depth->0 as int)
            &&& text@ == newick_text(finalized(raw, raw.depth->0 as int)).push(';')
        },
        Err(GeneError::Refused(k)) => {
            &&& k < n
            &&& all_apply(before, transfers, k as nat)
            &&& !transfer_applies(applied(before, transfers, k as nat), transfers[k as int])
            &&& after == applied(before, transfers, k as nat)
        },
        Err(GeneError::Time(TimeError::MissingDepth)) => {
            &&& all_apply(before, transfers, n)
            &&& after == applied(before, transfers, n)
            &&& !has_depths(raw)
        },
        Err(GeneError::Time(TimeError::Overflow)) => {
            &&& all_apply(before, transfers, n)
            &&& after == applied(before, transfers, n)
            &&& has_depths(raw)
            &&& !spans_fit(raw, raw.depth->0 as int)
        },
    }
}

/// Applies the transfers to the arena, in order, and writes the tree that
/// results in Newick form, with lengths derived from its depths.
pub fn gene_tree_to_string(copied_flat_tree: &mut Vec<FlatNode>, transfers: &Vec<Transfer>) -> (text:
    Result<String, GeneError>)
    requires
        well_formed(old(copied_flat_tree)@),
    ensures
        well_formed(final(copied_flat_tree)@),
        gene_outcome(old(copied_flat_tree)@, transfers@, final(copied_flat_tree)@, text),
{
    if let Err(k) = create_new_tree(copied_flat_tree, transfers) {
        return Err(GeneError::Refused(k));
    }
    match finish_gene_tree(copied_flat_tree) {
        Ok(tree) => Ok(tree_to_newick(&tree)),
        Err(e) => Err(GeneError::Time(e)),
    }
}

/// Every lineage listed for an interval is a record of an arena of `n`
/// records.
pub open spec fn lineages_in_range(lists: Seq<Seq<usize>>, n: nat) -> bool {
    forall|j: int, k: int|
        0 <= j < lists.len() && 0 <= k < lists[j].len() ==> #[trigger] lists[j][k] < n
}

/// Tells whether every lineage listed for an interval is a record of an
/// arena of `n` records.
pub fn lists_records_of(contemporaneity: &Vec<Vec<usize>>, n: usize) -> (ok: bool)
    ensures
        ok == lineages_in_range(interval_lists(contemporaneity@), n as nat),
{
    let ghost lists = interval_lists(contemporaneity@);
    let mut j: usize = 0;
    while j < contemporaneity.len()
        invariant
            j <= contemporaneity.len(),
            lists == interval_lists(contemporaneity@),
            forall|a: int, k: int|
                0 <= a < j && 0 <= k < lists[a].len() ==> #[trigger] lists[a][k] < n,
        decreases contemporaneity.len() - j,
    {
        let list = &contemporaneity[j];
        assert(lists[j as int] == list@);
        let mut k: usize = 0;
        while k < list.len()
            invariant
                k <= list.len(),
                j < contemporaneity.len(),
                lists == interval_lists(contemporaneity@),
                lists[j as int] == list@,
                forall|m: int| 0 <= m < k ==> #[trigger] list@[m] < n,
            decreases list.len() - k,
        {
            if list[k] >= n {
                assert(lists[j as int][k as int] >= n);
                return false;
            }
            k += 1;
        }
        j += 1;
    }
    true
}

/// Tells whether every transfer names two records of an arena of `n`
/// records.
pub fn names_records_of(transfers: &Vec<Transfer>, n: usize) -> (ok: bool)
    ensures
        ok == transfers_in_range(transfers@, n as nat),
{
    let mut k: usize = 0;
    while k < transfers.len()
        invariant
            k <= transfers.len(),
            forall|m: int|
                0 <= m < k ==> (#[trigger] transfers@[m]).donor < n && transfers@[m].recipient < n,
        decreases transfers.len() - k,
    {
        if transfers[k].donor >= n || transfers[k].recipient >= n {
            assert(!(transfers@[k as int].donor < n && transfers@[k as int].recipient < n));
            return false;
        }
        k += 1;
    }
    true
}

/// `gene` is what the draws come to for the arena `before`: `transfers` are
/// the events that the `n_transfers` draws give, in time order; `gene`
/// holds one record for each of them; and applying them leaves the arena
/// `after` and gives the text that `gene` holds, or the reason why there is
/// no text.
pub open spec fn gene_from(
    before: Seq<FlatNode>,
    n_transfers: usize,
    lists: Seq<Seq<usize>>,
    cdf: Seq<u128>,
    depths: Seq<i64>,
    after: Seq<FlatNode>,
    gene: GeneTree,
    transfers: Seq<Transfer>,
    draws: Seq<Draw>,
) -> bool {
    &&& comes_of(transfers, n_transfers, lists, cdf, depths, draws)
    &&& transfers.len() <= n_transfers
    &&& sorted_by_time(transfers)
    &&& forall|k: int| 0 <= k < transfers.len() ==> is_event(lists, depths, #[trigger] transfers[k])
    &&& gene.transfers.len() == transfers.len()
    &&& forall|k: int|
        0 <= k < transfers.len() ==> reports(#[trigger] gene.transfers@[k], before, transfers[k])
    &&& gene_outcome(before, transfers, after, gene.newick)
}

/// `gene` is what `n_transfers` draws come to for the arena `before`,
/// whatever was drawn, and `after` is the arena that it leaves.
pub open spec fn is_gene_of(
    before: Seq<FlatNode>,
    n_transfers: usize,
    lists: Seq<Seq<usize>>,
    cdf: Seq<u128>,
    depths: Seq<i64>,
    after: Seq<FlatNode>,
    gene: GeneTree,
) -> bool {
    exists|transfers: Seq<Transfer>, draws: Seq<Draw>| #[trigger]
        gene_from(before, n_transfers, lists, cdf, depths, after, gene, transfers, draws)
}

/// `gene` is what `n_transfers` draws come to for the arena `before`,
/// whatever was drawn.
pub open spec fn is_some_gene_of(
    before: Seq<FlatNode>,
    n_transfers: usize,
    lists: Seq<Seq<usize>>,
    cdf: Seq<u128>,
    depths: Seq<i64>,
    gene: GeneTree,
) -> bool {
    exists|after: Seq<FlatNode>| #[trigger]
        is_gene_of(before, n_transfers, lists, cdf, depths, after, gene)
}

/// Draws `n_transfers` times, applies the transfers that the draws give to
/// the arena and writes out the gene tree that results, together with the
/// transfers.
///
/// Whatever is drawn, the transfers are the events that `n_transfers` draws
/// give, in time order, and what comes back is what applying just those
/// transfers and writing out the result comes to.
pub fn one_gene_sim_to_string(
    copied_flat_tree: &mut Vec<FlatNode>,
    n_transfers: usize,
    contemporaneity: &Vec<Vec<usize>>,
    cdf: &Vec<u128>,
    depths: &Vec<i64>,
    rng: &mut StdRng,
) -> (gene: GeneTree)
    requires
        well_formed(old(copied_flat_tree)@),
        cdf_matches(cdf@, depths@),
        cdf.len() > 0,
        cdf@.last() > 0,
        contemporaneity.len() == depths.len(),
        lineages_in_range(interval_lists(contemporaneity@), old(copied_flat_tree)@.len()),
    ensures
        well_formed(final(copied_flat_tree)@),
        is_gene_of(
            old(copied_flat_tree)@,
            n_transfers,
            interval_lists(contemporaneity@),
            cdf@,
            depths@,
            final(copied_flat_tree)@,
            gene,
        ),
{
    let transfers = generate_transfers(n_transfers, contemporaneity, cdf, depths, rng);
    let ghost draws = choose|draws: Seq<Draw>|
        comes_of(
            transfers@,
            n_transfers,
            interval_lists(contemporaneity@),
            cdf@,
            depths@,
            draws,
        );
    proof {
        assert forall|k: int| 0 <= k < transfers.len() implies (#[trigger] transfers@[k]).donor
            < copied_flat_tree@.len() && transfers@[k].recipient < copied_flat_tree@.len() by {
            assert(is_event(interval_lists(contemporaneity@), depths@, transfers@[k]));
        }
    }
    let records = make_transfer_records(copied_flat_tree, &transfers);
    let newick = gene_tree_to_string(copied_flat_tree, &transfers);
    let gene = GeneTree { transfers: records, newick: newick };
    assert(gene_from(
        old(copied_flat_tree)@,
        n_transfers,
        interval_lists(contemporaneity@),
        cdf@,
        depths@,
        copied_flat_tree@,
        gene,
        transfers@,
        draws,
    ));
    gene
}

/// Simulates one gene tree for each entry of `n_transfers_vec`, each from
/// its own copy of the species arena, the entry being the number of draws.
///
/// A gene tree that fails does not touch the others: each entry of the
/// result tells of its own gene tree, and of its own failure.
pub fn create_many_genes(
    flat_tree: &Vec<FlatNode>,
    n_transfers_vec: &Vec<usize>,
    contemporaneity: &Vec<Vec<usize>>,
    cdf: &Vec<u128>,
    depths: &Vec<i64>,
    rng: &mut StdRng,
) -> (genes: Vec<GeneTree>)
    requires
        well_formed(flat_tree@),
        cdf_matches(cdf@, depths@),
        cdf.len() > 0,
        cdf@.last() > 0,
        contemporaneity.len() == depths.len(),
        lineages_in_range(interval_lists(contemporaneity@), flat_tree@.len()),
    ensures
        genes.len() == n_transfers_vec.len(),
        forall|i: int|
            0 <= i < genes.len() ==> is_some_gene_of(
                flat_tree@,
                n_transfers_vec@[i],
                interval_lists(contemporaneity@),
                cdf@,
                depths@,
                #[trigger] genes@[i],
            ),
{
    let mut genes: Vec<GeneTree> = Vec::new();
    let mut i: usize = 0;
    while i < n_transfers_vec.len()
        invariant
            i <= n_transfers_vec.len(),
            genes.len() == i,
            well_formed(flat_tree@),
            cdf_matches(cdf@, depths@),
            cdf.len() > 0,
            cdf@.last() > 0,
            contemporaneity.len() == depths.len(),
            lineages_in_range(interval_lists(contemporaneity@), flat_tree@.len()),
            forall|k: int|
                0 <= k < i ==> is_some_gene_of(
                    flat_tree@,
                    n_transfers_vec@[k],
                    interval_lists(contemporaneity@),
                    cdf@,
                    depths@,
                    #[trigger] genes@[k],
                ),
        decreases n_transfers_vec.len() - i,
    {
        let mut copy = clone_flat_tree(flat_tree);
        let gene = one_gene_sim_to_string(
            &mut copy,
            n_transfers_vec[i],
            contemporaneity,
            cdf,
            depths,
            rng,
        );
        assert(is_gene_of(
            flat_tree@,
            n_transfers_vec@[i as int],
            interval_lists(contemporaneity@),
            cdf@,
            depths@,
            copy@,
            gene,
        ));
        let ghost before = genes@;
        genes.push(gene);
        assert forall|k: int| 0 <= k < i + 1 implies is_some_gene_of(
            flat_tree@,
            n_transfers_vec@[k],
            interval_lists(contemporaneity@),
            cdf@,
            depths@,
            #[trigger] genes@[k],
        ) by {
            if k < i {
                assert(genes@[k] == before[k]);
            }
        }
        i += 1;
    }
    genes
}

/// A dated tree has a depth at every node.
pub proof fn lemma_dated_has_depths(node: Node, depth: int)
    ensures
        has_depths(dated(node, depth)),
        dated(node, depth).is_binary() == node.is_binary(),
        dated(node, depth).count() == node.count(),
    decreases node,
{
    match node.left_child {
        Some(l) => lemma_dated_has_depths(*l, depth + l.length),
        None => {},
    }
    match node.right_child {
        Some(r) => lemma_dated_has_depths(*r, depth + r.length),
        None => {},
    }
}

/// Every record of the block of a tree whose nodes all have depths has a
/// depth.
pub proof fn lemma_flattened_dated(node: Node, parent: Option<usize>, at: nat)
    requires
        has_depths(node),
    ensures
        all_dated(flattened(node, parent, at)),
    decreases node,
{
    let block = flattened(node, parent, at);
    let here = Some(at as usize);
    let left_part = match node.left_child {
        Some(l) => flattened(*l, here, at + 1),
        None => Seq::empty(),
    };
    let right_at = at + 1 + left_part.len();
    let right_part = match node.right_child {
        Some(r) => flattened(*r, here, right_at),
        None => Seq::empty(),
    };
    match node.left_child {
        Some(l) => lemma_flattened_dated(*l, here, at + 1),
        None => {},
    }
    match node.right_child {
        Some(r) => lemma_flattened_dated(*r, here, right_at),
        None => {},
    }
    assert forall|k: int| 0 <= k < block.len() implies (#[trigger] block[k]).depth is Some by {
        if k == 0 {
        } else if k < 1 + left_part.len() {
            assert(block[k] == left_part[k - 1]);
        } else {
            assert(block[k] == right_part[k - 1 - left_part.len()]);
        }
    }
}

/// The owned form that comes back when `node` is stored at position `at`
/// and rebuilt with `parent` at its top: the same tree, with the parent of
/// every node below the top set to the position of the record above it.
pub open spec fn stored(node: Node, parent: Option<usize>, at: nat) -> Node
    decreases node,
{
    let left_count = match node.left_child {
        Some(l) => l.count(),
        None => 0,
    };
    Node {
        left_child: match node.left_child {
            Some(l) => Some(Box::new(stored(*l, Some(at as usize), at + 1))),
            None => None,
        },
        right_child: match node.right_child {
            Some(r) => Some(Box::new(stored(*r, Some(at as usize), at + 1 + left_count))),
            None => None,
        },
        parent: parent,
        ..node
    }
}

/// An arena that holds the records of `node` from position `at` on holds
/// there the owned form `stored(node, top, at)`.
pub proof fn lemma_stored_represents(
    tree: Seq<FlatNode>,
    node: Node,
    parent: Option<usize>,
    at: nat,
    top: Option<usize>,
)
    requires
        tree.len() <= usize::MAX,
        at + node.count() <= tree.len(),
        tree.subrange(at as int, (at + node.count()) as int) == flattened(node, parent, at),
    ensures
        represents(tree, at as int, top, stored(node, top, at)),
    decreases node,
{
    let here = Some(at as usize);
    let left_part = match node.left_child {
        Some(l) => flattened(*l, here, at + 1),
        None => Seq::empty(),
    };
    let right_at = at + 1 + left_part.len();
    let right_part = match node.right_child {
        Some(r) => flattened(*r, here, right_at),
        None => Seq::empty(),
    };
    lemma_flattened_len(node, parent, at);
    assert(tree[at as int] == tree.subrange(at as int, (at + node.count()) as int)[0]);
    match node.left_child {
        Some(l) => {
            lemma_flattened_len(*l, here, at + 1);
            assert(tree.subrange((at + 1) as int, (at + 1 + l.count()) as int) =~= left_part) by {
                assert forall|k: int| 0 <= k < l.count() implies tree[at + 1 + k]
                    == left_part[k] by {
                    assert(tree[at + 1 + k] == tree.subrange(
                        at as int,
                        (at + node.count()) as int,
                    )[1 + k]);
                }
            }
            lemma_stored_represents(tree, *l, here, at + 1, here);
        },
        None => {},
    }
    match node.right_child {
        Some(r) => {
            lemma_flattened_len(*r, here, right_at);
            assert(tree.subrange(right_at as int, (right_at + r.count()) as int) =~= right_part) by {
                assert forall|k: int| 0 <= k < r.count() implies tree[right_at + k]
                    == right_part[k] by {
                    assert(tree[right_at + k] == tree.subrange(
                        at as int,
                        (at + node.count()) as int,
                    )[1 + left_part.len() + k]);
                }
            }
            lemma_stored_represents(tree, *r, here, right_at, here);
        },
        None => {},
    }
}

/// Deriving the lengths of a dated tree from its depths gives the lengths
/// that it was dated from: the tree is written just as before.
pub proof fn lemma_finalized_dated(
    node: Node,
    depth: int,
    top: Option<usize>,
    at: nat,
    parent_depth: int,
)
    requires
        depths_fit(node, depth),
        top is Some ==> node.length == depth - parent_depth,
    ensures
        has_depths(stored(dated(node, depth), top, at)),
        spans_fit(stored(dated(node, depth), top, at), parent_depth),
        newick_text(finalized(stored(dated(node, depth), top, at), parent_depth)) == newick_text(
            node,
        ),
    decreases node,
{
    let here = Some(at as usize);
    let aged = dated(node, depth);
    let left_count = match aged.left_child {
        Some(l) => l.count(),
        None => 0,
    };
    match node.left_child {
        Some(l) => {
            lemma_finalized_dated(*l, depth + l.length, here, at + 1, depth);
        },
        None => {},
    }
    match node.right_child {
        Some(r) => {
            lemma_finalized_dated(*r, depth + r.length, here, at + 1 + left_count, depth);
        },
        None => {},
    }
}

/// With no transfers the gene tree is the species tree: the arena is left as
/// it was, and the text that comes out is the species tree as written.
pub proof fn lemma_no_transfers(species: Node, after: Seq<FlatNode>, text: Result<String, GeneError>)
    requires
        species.is_binary(),
        species.count() <= usize::MAX,
        depths_fit(species, 0),
        gene_outcome(species_arena(species), Seq::<Transfer>::empty(), after, text),
    ensures
        after == species_arena(species),
        text matches Ok(written) && written@ == newick_text(species).push(';'),
{
    let aged = dated(species, 0);
    let arena = species_arena(species);
    lemma_dated_has_depths(species, 0);
    lemma_flattened_len(aged, None, 0);
    lemma_flattened_well_formed(aged);
    assert(arena.subrange(0, aged.count() as int) =~= arena);
    lemma_stored_represents(arena, aged, None, 0, None);
    let raw = owned_form(arena, 0, None);
    lemma_represents_unique(arena, 0, None, stored(aged, None, 0), raw);
    lemma_finalized_dated(species, 0, None, 0, 0);
    assert(is_sole_root(arena, 0));
    assert(is_sole_root(arena, root_of(arena)));
    assert(root_of(arena) == 0);
    assert(applied(arena, Seq::<Transfer>::empty(), 0) == arena);
}

/// No node of the subtree has a negative length.
pub open spec fn lengths_not_negative(node: Node) -> bool
    decreases node,
{
    &&& node.length >= 0
    &&& match node.left_child {
        Some(l) => lengths_not_negative(*l),
        None => true,
    }
    &&& match node.right_child {
        Some(r) => lengths_not_negative(*r),
        None => true,
    }
}

/// In a tree without negative lengths no node is dated before the top.
proof fn lemma_dated_not_before(node: Node, depth: int, parent: Option<usize>, at: nat)
    requires
        depths_fit(node, depth),
        match node.left_child {
            Some(l) => lengths_not_negative(*l),
            None => true,
        },
        match node.right_child {
            Some(r) => lengths_not_negative(*r),
            None => true,
        },
    ensures
        forall|k: int|
            0 <= k < flattened(dated(node, depth), parent, at).len() ==> ((#[trigger] flattened(
                dated(node, depth),
                parent,
                at,
            )[k]).depth matches Some(d) && d >= depth),
    decreases node,
{
    let aged = dated(node, depth);
    let block = flattened(aged, parent, at);
    let here = Some(at as usize);
    let left_part = match aged.left_child {
        Some(l) => flattened(*l, here, at + 1),
        None => Seq::empty(),
    };
    let right_at = at + 1 + left_part.len();
    let right_part = match aged.right_child {
        Some(r) => flattened(*r, here, right_at),
        None => Seq::empty(),
    };
    match node.left_child {
        Some(l) => lemma_dated_not_before(*l, depth + l.length, here, at + 1),
        None => {},
    }
    match node.right_child {
        Some(r) => lemma_dated_not_before(*r, depth + r.length, here, right_at),
        None => {},
    }
    assert forall|k: int| 0 <= k < block.len() implies ((#[trigger] block[k]).depth matches Some(
        d,
    ) && d >= depth) by {
        if k == 0 {
        } else if k < 1 + left_part.len() {
            assert(block[k] == left_part[k - 1]);
        } else {
            assert(block[k] == right_part[k - 1 - left_part.len()]);
        }
    }
}

/// The root of a species tree without negative lengths is alive in no
/// interval: it begins and ends at the first breakpoint.
pub proof fn lemma_root_never_alive(species: Node, depths: Seq<i64>, j: int)
    requires
        lengths_not_negative(species),
        depths_fit(species, 0),
        is_subdivision(species_arena(species), depths),
    ensures
        !alive(species_arena(species), depths, 0, j),
{
    let arena = species_arena(species);
    lemma_dated_not_before(species, 0, None, 0);
    assert(arena[0].depth == Some(0i64));
    assert(crate::timeline::is_depth_of(arena, 0i64));
    assert(depths.contains(0i64));
    let m = choose|m: int| 0 <= m < depths.len() && depths[m] == 0i64;
    assert(depths.contains(depths[0]));
    assert(crate::timeline::is_depth_of(arena, depths[0]));
    let k = choose|k: int| 0 <= k < arena.len() && arena[k].depth == Some(depths[0]);
    assert(depths[0] >= 0);
    assert(depths[0] == 0) by {
        if m > 0 {
            assert(depths[0] < depths[m]);
        }
    }
    lemma_first_lineage_never_alive(arena, depths, 0, j);
}

/// The arena of a species tree: the tree dated from depth zero and stored
/// from position zero.
pub open spec fn species_arena(species: Node) -> Seq<FlatNode> {
    flattened(dated(species, 0), None, 0)
}

/// The weight of all intervals of the arena together: for each interval its
/// length times the number of lineages alive in it.
pub open spec fn total_weight(tree: Seq<FlatNode>) -> int {
    let depths = breakpoints_of(tree);
    weight_sum(intervals_of(depths), species_counts(tree, depths), depths.len() as int)
}

/// The cumulative weights of the intervals of the arena.
pub open spec fn species_weights(tree: Seq<FlatNode>) -> Seq<u128> {
    let depths = breakpoints_of(tree);
    cumulative_weights(intervals_of(depths), species_counts(tree, depths))
}

/// Dates the species tree from depth zero, and simulates one gene tree for
/// each entry of `n_transfers_vec`, the entry being the number of draws.
///
/// Fails where the tree has a node with one child only, where a depth does
/// not fit, or where no transfer could ever be drawn because the total
/// weight of the intervals is zero.
pub fn simulate_genes(species: &mut Node, n_transfers_vec: &Vec<usize>, rng: &mut StdRng) -> (genes:
    Result<Vec<GeneTree>, SetupError>)
    ensures
        match genes {
            Ok(genes) => {
                &&& old(species).is_binary()
                &&& depths_fit(*old(species), 0)
                &&& *final(species) == dated(*old(species), 0)
                &&& 0 < total_weight(species_arena(*old(species)))
                &&& genes.len() == n_transfers_vec.len()
                &&& forall|i: int|
                    0 <= i < genes.len() ==> is_some_gene_of(
                        species_arena(*old(species)),
                        n_transfers_vec@[i],
                        alive_lists(
                            species_arena(*old(species)),
                            breakpoints_of(species_arena(*old(species))),
                        ),
                        species_weights(species_arena(*old(species))),
                        breakpoints_of(species_arena(*old(species))),
                        #[trigger] genes@[i],
                    )
            },
            Err(SetupError::NotBinary) => !old(species).is_binary() && *final(species) == *old(
                species,
            ),
            Err(SetupError::Time(e)) => {
                &&& e == TimeError::Overflow
                &&& old(species).is_binary()
                &&& !depths_fit(*old(species), 0)
                &&& *final(species) == *old(species)
            },
            Err(SetupError::ZeroWeight) => {
                &&& old(species).is_binary()
                &&& depths_fit(*old(species), 0)
                &&& *final(species) == dated(*old(species), 0)
                &&& total_weight(species_arena(*old(species))) == 0
            },
        },
{
    if !is_binary_tree(species) {
        return Err(SetupError::NotBinary);
    }
    if let Err(e) = give_depth(species, 0) {
        return Err(SetupError::Time(e));
    }
    let mut flat_tree: Vec<FlatNode> = Vec::new();
    node_to_flat(species, &mut flat_tree, None);
    let records: usize = flat_tree.len();
    proof {
        lemma_dated_has_depths(*old(species), 0);
        assert(flat_tree@ =~= flattened(*species, None, 0));
        lemma_flattened_len(*species, None, 0);
        assert(species.count() == records);
        lemma_flattened_well_formed(*species);
        lemma_flattened_dated(*species, None, 0);
    }
    let depths = make_subdivision(&flat_tree);
    let intervals = make_intervals(&depths);
    let contemporaneity = find_contemporaneity(&flat_tree, &depths);
    let counts = number_of_species(&contemporaneity);
    proof {
        assert forall|j: int| 0 <= j < counts.len() implies counts@[j] == species_counts(
            flat_tree@,
            depths@,
        )[j] by {
            assert(contemporaneity@[j]@ == alive_among(
                flat_tree@,
                depths@,
                j,
                flat_tree@.len() as int,
            ));
        }
        assert(counts@ =~= species_counts(flat_tree@, depths@));
    }
    proof {
        lemma_intervals_span(depths@, depths@.len() as int);
        lemma_weight_sum_grows(intervals@, counts@, 0, intervals@.len() as int);
    }
    if !can_weigh(&intervals, &counts) {
        return Err(SetupError::ZeroWeight);
    }
    let cdf = make_CDF(&intervals, &counts);
    proof {
        lemma_cdf_matches(depths@, intervals@, counts@, cdf@);
        let lists = interval_lists(contemporaneity@);
        assert forall|j: int, k: int| 0 <= j < lists.len() && 0 <= k < lists[j].len()
            implies #[trigger] lists[j][k] < flat_tree@.len() by {
            assert(lists[j] == contemporaneity@[j]@);
            lemma_alive_among(flat_tree@, depths@, j, flat_tree@.len() as int);
        }
    }
    Ok(create_many_genes(&flat_tree, n_transfers_vec, &contemporaneity, &cdf, &depths, rng))
}

} // verus!
