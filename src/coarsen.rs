//! Graph contraction: from a graph and a matching of it, the coarse graph,
//! the fine-to-coarse mapping and its inverse.
//!
//! The pipeline sorts edge-refs into a compound order (grouped by coarse
//! owner, by coarse target within a group), marks self-loops and duplicates,
//! and compacts the valid edges by an inclusive prefix sum.

use vstd::prelude::*;
use crate::coarsen_kernels::{
    collect_coarse_nodes_edge_weights, compact_coarse_edges, count_coarse_node_edges,
    finalize_coarse_nodes_edge_offset, gather_edge_owner_list, lemma_collected_len, lemma_compacted_len,
    lemma_counted_len, mark_coarse_edge_validity, resolve_coarse_edge_ref_count,
};
use crate::counts::FallbackCounts;
use crate::compaction::{
    compaction_inputs, compound_sorted, lemma_coarse_graph, lemma_offsets_are_counts, lemma_pair_in_adjacency,
    lemma_slot_source, lemma_valid_before_steps,
};
use crate::conservation::{edge_owner, lemma_joined_weight_symmetric, no_duplicate_edges, weights_symmetric, joined_weight, lemma_collected_slot, lemma_slot_is_pair, pair_values, slot_values, kept_fine_weight, kept_values, lemma_collected_sum, lemma_edge_has_owner, lemma_sum_permuted};
use crate::csr::{adjacency_strictly_ascending, csr_well_formed, edges_symmetric, has_edge, lemma_has_edge, lemma_owner_unique, no_self_loops, offsets_well_formed, owns, range_end};
use crate::match_state::MAX_NODES;
use crate::matching::is_matching_labelling;
use crate::primitives::{
    find_runs, gather_by, gathered, generate_index_list, index_seq, is_permutation, is_permutation_with_inverse, starts_run,
    is_stable_sort_by, lemma_run_index_bounds, prefix_sum_inclusive, run_index, scatter_by, sort_by_key,
    sorted_ascending, sum_all, sum_prefix, take_prefix,
};

verus! {

/// Live counts for buffers that hold more than the live graph.
#[derive(Clone, Copy, PartialEq, Eq, Structural, Debug)]
pub struct CoarsenCounts {
    pub node_count: u32,
    pub edge_ref_count: u32,
}

/// A fine graph in CSR form and its finalized matching, with optional live
/// counts; without them the whole buffers are live.
pub struct CoarsenGraphInput {
    pub fine_nodes_edge_offset: Vec<u32>,
    pub fine_nodes_edges: Vec<u32>,
    pub fine_nodes_edge_weights: Vec<u32>,
    pub fine_nodes_matching: Vec<u32>,
    pub counts: Option<CoarsenCounts>,
}

impl CoarsenGraphInput {
    /// The live node count.
    pub open spec fn live_node_count(&self) -> nat {
        match self.counts {
            Some(c) => c.node_count as nat,
            None => self.fine_nodes_edge_offset@.len(),
        }
    }

    /// The live edge-ref count.
    pub open spec fn live_edge_ref_count(&self) -> nat {
        match self.counts {
            Some(c) => c.edge_ref_count as nat,
            None => self.fine_nodes_edges@.len(),
        }
    }

    /// The live part of the offsets.
    pub open spec fn live_edge_offset(&self) -> Seq<u32> {
        self.fine_nodes_edge_offset@.take(self.live_node_count() as int)
    }

    /// The live part of the edges.
    pub open spec fn live_edges(&self) -> Seq<u32> {
        self.fine_nodes_edges@.take(self.live_edge_ref_count() as int)
    }

    /// The live part of the weights.
    pub open spec fn live_edge_weights(&self) -> Seq<u32> {
        self.fine_nodes_edge_weights@.take(self.live_edge_ref_count() as int)
    }

    /// The live part of the matching.
    pub open spec fn live_matching(&self) -> Seq<u32> {
        self.fine_nodes_matching@.take(self.live_node_count() as int)
    }

    /// The live counts fit the buffers, the live part is a graph, and each
    /// live node's match label names a live node.
    pub open spec fn wf(&self) -> bool {
        &&& self.fine_nodes_edge_offset@.len() <= u32::MAX
        &&& self.fine_nodes_edges@.len() <= u32::MAX
        &&& self.fine_nodes_edge_weights@.len() == self.fine_nodes_edges@.len()
        &&& self.fine_nodes_matching@.len() >= self.live_node_count()
        &&& self.live_node_count() <= self.fine_nodes_edge_offset@.len()
        &&& self.live_edge_ref_count() <= self.fine_nodes_edges@.len()
        &&& csr_well_formed(self.live_edge_offset(), self.live_edges(), self.live_edge_weights())
        &&& forall|i: int| 0 <= i < self.live_node_count() ==> #[trigger] self.fine_nodes_matching@[i] < self.live_node_count()
    }
}

/// The coarse level: the fine-to-coarse mapping, its inverse (the fine nodes
/// of each coarse node, grouped, with each group's start), the counts, and
/// the coarse graph in CSR form.
pub struct CoarsenGraphOutput {
    pub fine_nodes_mapping: Vec<u32>,
    pub coarse_nodes_mapping_offset: Vec<u32>,
    pub coarse_nodes_mapping: Vec<u32>,
    pub coarse_node_count: u32,
    pub coarse_edge_ref_count: u32,
    pub coarse_nodes_edge_offset: Vec<u32>,
    pub coarse_nodes_edges: Vec<u32>,
    pub coarse_nodes_edge_weights: Vec<u32>,
}

/// `labels` maps nodes onto `0..count` preserving equality and order of
/// `keys`: equal keys get equal labels, smaller keys smaller labels, and every
/// label is taken.
pub open spec fn is_rank_labelling(keys: Seq<u32>, labels: Seq<u32>, count: nat) -> bool {
    &&& labels.len() == keys.len()
    &&& forall|x: int| 0 <= x < keys.len() ==> #[trigger] labels[x] < count
    &&& forall|x: int, y: int|
        0 <= x < keys.len() && 0 <= y < keys.len() ==> (#[trigger] labels[x] == #[trigger] labels[y] <==> keys[x]
            == keys[y]) && (labels[x] < labels[y] <==> keys[x] < keys[y])
    &&& forall|c: u32| c < count ==> #[trigger] labels.contains(c)
}

/// `coarse_nodes_mapping` lists the fine nodes grouped by coarse node, groups
/// in coarse order and nodes in index order within a group, and
/// `coarse_nodes_mapping_offset[c]` is where group `c` starts.
pub open spec fn groups_fine_nodes(
    fine_nodes_mapping: Seq<u32>,
    coarse_nodes_mapping_offset: Seq<u32>,
    coarse_nodes_mapping: Seq<u32>,
) -> bool {
    &&& coarse_nodes_mapping.len() == fine_nodes_mapping.len()
    &&& is_permutation(coarse_nodes_mapping)
    &&& forall|a: int, b: int|
        0 <= a < b < coarse_nodes_mapping.len() ==> {
            let ca = fine_nodes_mapping[#[trigger] coarse_nodes_mapping[a] as int];
            let cb = fine_nodes_mapping[#[trigger] coarse_nodes_mapping[b] as int];
            ca < cb || (ca == cb && coarse_nodes_mapping[a] < coarse_nodes_mapping[b])
        }
    &&& forall|c: int|
        0 <= c < coarse_nodes_mapping_offset.len() ==> {
            let start = #[trigger] coarse_nodes_mapping_offset[c] as int;
            &&& 0 <= start < coarse_nodes_mapping.len()
            &&& fine_nodes_mapping[coarse_nodes_mapping[start] as int] == c
            &&& start == 0 || fine_nodes_mapping[coarse_nodes_mapping[start - 1] as int] < c
        }
}

/// Every run index up to that of position `i` has its run start at or
/// before `i`.
pub proof fn lemma_run_start_exists(keys: Seq<u32>, i: int, c: int) -> (a: int)
    requires
        0 <= i < keys.len(),
        0 <= c <= run_index(keys, i),
    ensures
        0 <= a <= i,
        starts_run(keys, a),
        run_index(keys, a) == c,
    decreases i,
{
    if c == run_index(keys, i) && starts_run(keys, i) {
        i
    } else if c == run_index(keys, i) {
        lemma_run_start_exists(keys, i - 1, c)
    } else {
        lemma_run_start_exists(keys, i - 1, c)
    }
}

/// Some fine edge-ref runs from a node mapped to `c` to a node mapped to
/// `d`.
pub open spec fn joins_groups(edge_offset: Seq<u32>, edges: Seq<u32>, fine_nodes_mapping: Seq<u32>, c: int, d: int) -> bool {
    exists|e: int|
        0 <= e < edges.len() && fine_nodes_mapping[edge_owner(edge_offset, edges.len(), e)] == c
            && fine_nodes_mapping[edges[e] as int] == d
}

/// Keys at sorted positions `a <= b` share a run exactly when they are equal,
/// and a smaller key lies in an earlier run.
pub proof fn lemma_run_index_sorted(keys: Seq<u32>, a: int, b: int)
    requires
        sorted_ascending(keys),
        0 <= a <= b < keys.len(),
    ensures
        run_index(keys, a) == run_index(keys, b) <==> keys[a] == keys[b],
        run_index(keys, a) < run_index(keys, b) <==> keys[a] < keys[b],
    decreases b - a,
{
    if a < b {
        lemma_run_index_sorted(keys, a, b - 1);
        lemma_run_index_bounds(keys, a, b - 1);
        assert(keys[a] <= keys[b - 1] <= keys[b]);
    }
}

/// Every run index up to that of position `i` is taken at or before `i`.
pub proof fn lemma_run_index_onto(keys: Seq<u32>, i: int, c: int)
    requires
        0 <= i < keys.len(),
        0 <= c <= run_index(keys, i),
    ensures
        exists|a: int| 0 <= a <= i && run_index(keys, a) == c,
    decreases i,
{
    if c == run_index(keys, i) {
        assert(run_index(keys, i) == c);
    } else {
        lemma_run_index_onto(keys, i - 1, c);
        let a = choose|a: int| 0 <= a <= i - 1 && run_index(keys, a) == c;
        assert(0 <= a <= i && run_index(keys, a) == c);
    }
}

/// Phase A of contraction: stably sorts the fine nodes by match label, finds
/// the runs of equal labels, and scatters each run's index back to its fine
/// nodes. Returns the fine-to-coarse mapping, the start of each coarse
/// node's group, the fine nodes grouped by coarse node, and the coarse node
/// count.
pub fn contract_nodes(matching: Vec<u32>) -> (r: (Vec<u32>, Vec<u32>, Vec<u32>, u32))
    requires
        matching@.len() < MAX_NODES,
    ensures
        is_rank_labelling(matching@, r.0@, r.3 as nat),
        r.3 <= matching@.len(),
        r.1@.len() == r.3,
        r.2@.len() == matching@.len(),
        groups_fine_nodes(r.0@, r.1@, r.2@),
{
    let ghost keys0 = matching@;
    let n = matching.len() as u32;
    // Phase A: the fine-to-coarse mapping and its inverse.
    let index_list = generate_index_list(n);
    let (sorted_matching, coarse_nodes_mapping) = sort_by_key(matching, index_list);
    let ghost (p, q) = choose|p: Seq<int>, q: Seq<int>|
        is_stable_sort_by(keys0, index_seq(n as nat), sorted_matching@, coarse_nodes_mapping@, p, q);
    let runs = find_runs(&sorted_matching);
    proof {
        let nn = n as int;
        assert(is_stable_sort_by(keys0, index_seq(n as nat), sorted_matching@, coarse_nodes_mapping@, p, q));
        assert forall|i: int| 0 <= i < nn implies #[trigger] coarse_nodes_mapping@[i] == p[i] && sorted_matching@[i] == keys0[p[i]] by {
            assert(0 <= p[i] < nn);
            assert(coarse_nodes_mapping@[i] == index_seq(n as nat)[p[i]]);
        }
        assert(is_permutation_with_inverse(coarse_nodes_mapping@, q));
    }
    let fine_nodes_mapping = scatter_by(&runs.run_mapping, &coarse_nodes_mapping);
    let coarse_node_count = runs.run_count;
    proof {
        let keys = keys0;
        let s = sorted_matching@;
        let f = fine_nodes_mapping@;
        let nn = n as int;
        assert forall|x: int| 0 <= x < nn implies #[trigger] f[x] == run_index(s, q[x]) && s[q[x]] == keys[x] by {
            let a = q[x];
            assert(0 <= a < nn && p[a] == x);
            assert(coarse_nodes_mapping@[a] == x);
            assert(f[coarse_nodes_mapping@[a] as int] == runs.run_mapping@[a]);
            assert(s[a] == keys[p[a]]);
            lemma_run_index_bounds(s, 0, a);
        }
        assert forall|x: int| 0 <= x < nn implies #[trigger] f[x] < coarse_node_count by {
            lemma_run_index_bounds(s, q[x], nn - 1);
        }
        assert forall|x: int, y: int| 0 <= x < nn && 0 <= y < nn implies (#[trigger] f[x] == #[trigger] f[y] <==> keys[x]
            == keys[y]) && (f[x] < f[y] <==> keys[x] < keys[y]) by {
            assert(f[x] == run_index(s, q[x]));
            assert(f[y] == run_index(s, q[y]));
            if q[x] <= q[y] {
                lemma_run_index_sorted(s, q[x], q[y]);
            } else {
                lemma_run_index_sorted(s, q[y], q[x]);
            }
        }
        assert forall|c: u32| c < coarse_node_count implies #[trigger] f.contains(c) by {
            lemma_run_index_onto(s, nn - 1, c as int);
            let a = choose|a: int| 0 <= a <= nn - 1 && run_index(s, a) == c as int;
            let x = p[a];
            assert(q[x] == a);
            assert(f[x] == c);
        }
        if nn > 0 {
            lemma_run_index_bounds(s, 0, nn - 1);
        }
        let c2f = coarse_nodes_mapping@;
        assert forall|a: int| 0 <= a < nn implies #[trigger] f[c2f[a] as int] == run_index(s, a) by {
            assert(c2f[a] == p[a]);
            assert(q[p[a]] == a);
        }
        assert forall|a: int, b: int| 0 <= a < b < nn implies {
            let ca = f[#[trigger] c2f[a] as int];
            let cb = f[#[trigger] c2f[b] as int];
            ca < cb || (ca == cb && c2f[a] < c2f[b])
        } by {
            assert(f[c2f[a] as int] == run_index(s, a));
            assert(f[c2f[b] as int] == run_index(s, b));
            lemma_run_index_sorted(s, a, b);
            lemma_run_index_bounds(s, a, b);
        }
        let starts = runs.run_starts@;
        assert forall|c: int| 0 <= c < starts.len() implies {
            let start = #[trigger] starts[c] as int;
            &&& 0 <= start < nn
            &&& f[c2f[start] as int] == c
            &&& start == 0 || f[c2f[start - 1] as int] < c
        } by {
            let a = lemma_run_start_exists(s, nn - 1, c);
            assert(starts[run_index(s, a) as int] == a);
            assert(f[c2f[a] as int] == run_index(s, a));
            if a > 0 {
                assert(f[c2f[a - 1] as int] == run_index(s, a - 1));
            }
        }
        assert(is_permutation_with_inverse(c2f, q));
        assert(groups_fine_nodes(f, starts, c2f));
    }

    (fine_nodes_mapping, runs.run_starts, coarse_nodes_mapping, coarse_node_count)
}

/// Phases B and C of contraction: orders the edge-refs by coarse owner and,
/// within an owner, by coarse target; marks self-loops and duplicates; and
/// compacts the valid edges, summing the weights of their duplicates.
/// Returns the coarse offsets, edges and weights and the coarse edge-ref
/// count.
#[verifier::rlimit(60)]
pub fn contract_edges(
    edge_offset: &Vec<u32>,
    edges: &Vec<u32>,
    edge_weights: &Vec<u32>,
    fine_nodes_mapping: &Vec<u32>,
    coarse_node_count: u32,
) -> (r: (Vec<u32>, Vec<u32>, Vec<u32>, u32))
    requires
        csr_well_formed(edge_offset@, edges@, edge_weights@),
        fine_nodes_mapping@.len() == edge_offset@.len(),
        coarse_node_count <= edge_offset@.len(),
        forall|x: int| 0 <= x < edge_offset@.len() ==> #[trigger] fine_nodes_mapping@[x] < coarse_node_count,
    ensures
        r.0@.len() == coarse_node_count,
        r.1@.len() == r.3,
        r.2@.len() == r.3,
        csr_well_formed(r.0@, r.1@, r.2@),
        no_self_loops(r.0@, r.1@),
        adjacency_strictly_ascending(r.0@, r.1@),
        forall|c: int, d: int|
            0 <= c < coarse_node_count ==> (#[trigger] has_edge(r.0@, r.1@, c, d) <==> (c != d && joins_groups(
                edge_offset@,
                edges@,
                fine_nodes_mapping@,
                c,
                d,
            ))),
        sum_all(edge_weights@) <= u32::MAX ==> sum_all(r.2@) == kept_fine_weight(
            edge_offset@,
            edges@,
            edge_weights@,
            fine_nodes_mapping@,
        ),
        sum_all(edge_weights@) <= u32::MAX ==> forall|c: int, s: int|
            #![trigger r.0@[c], r.2@[s]]
            0 <= c < coarse_node_count && r.0@[c] <= s < range_end(r.0@, r.3 as nat, c) ==> r.2@[s] == joined_weight(
                edge_offset@,
                edges@,
                edge_weights@,
                fine_nodes_mapping@,
                c,
                r.1@[s] as int,
            ),
{
    let m = edges.len() as u32;
    // Phase B: the edge-refs in compound order.
    let mapped_edges = gather_by(fine_nodes_mapping, edges);
    let edge_index_list = generate_index_list(m);
    let (sorted_targets, target_order) = sort_by_key(mapped_edges, edge_index_list);
    let ghost (by_target, by_target_inv) = choose|by_target: Seq<int>, by_target_inv: Seq<int>|
        is_stable_sort_by(gathered(fine_nodes_mapping@, edges@), index_seq(m as nat), sorted_targets@, target_order@, by_target, by_target_inv);
    proof {
        let mm = m as int;
        assert(is_stable_sort_by(gathered(fine_nodes_mapping@, edges@), index_seq(m as nat), sorted_targets@, target_order@, by_target, by_target_inv));
        assert forall|i: int| 0 <= i < mm implies #[trigger] target_order@[i] == by_target[i] by {
            assert(0 <= by_target[i] < mm);
            assert(target_order@[i] == index_seq(m as nat)[by_target[i]]);
        }
    }
    let fine_owners = gather_edge_owner_list(edge_offset, m as usize, fine_nodes_mapping);
    let owners_by_target = gather_by(&fine_owners, &target_order);
    let ghost owners_by_target_view = owners_by_target@;
    let (owners, compound_order) = sort_by_key(owners_by_target, target_order);
    let ghost (by_owner, by_owner_inv) = choose|by_owner: Seq<int>, by_owner_inv: Seq<int>|
        is_stable_sort_by(owners_by_target_view, target_order@, owners@, compound_order@, by_owner, by_owner_inv);
    proof {
        assert forall|k: int| 0 <= k < m implies #[trigger] compound_order@[k] < m by {
            assert(compound_order@[k] == target_order@[by_owner[k]]);
        }
    }
    let mapped_edges = gather_by(fine_nodes_mapping, edges);
    let targets = gather_by(&mapped_edges, &compound_order);
    let weights = gather_by(edge_weights, &compound_order);
    proof {
        assert forall|k: int| 0 <= k < m implies #[trigger] targets@[k] < MAX_NODES by {
            let e = compound_order@[k] as int;
            assert(targets@[k] == fine_nodes_mapping@[edges@[e] as int]);
        }
    }

    // Phase C: mark, sum and compact.
    let (validity, tagged) = mark_coarse_edge_validity(&owners, &targets);
    let validity_prefix_sum = prefix_sum_inclusive(&validity);
    let coarse_edge_ref_count = resolve_coarse_edge_ref_count(&validity_prefix_sum);
    let coarse_nodes_edge_weights = collect_coarse_nodes_edge_weights(
        &tagged,
        &weights,
        &validity_prefix_sum,
        coarse_edge_ref_count,
    );
    let coarse_nodes_edges = compact_coarse_edges(&tagged, &validity_prefix_sum, coarse_edge_ref_count);
    let node_edge_counts = count_coarse_node_edges(&owners, &validity, coarse_node_count);
    let node_edge_counts_prefix_sum = prefix_sum_inclusive(&node_edge_counts);
    let coarse_nodes_edge_offset = finalize_coarse_nodes_edge_offset(&node_edge_counts_prefix_sum);
    proof {
        lemma_collected_len(tagged@, weights@, validity_prefix_sum@, coarse_edge_ref_count as nat, m as int);
        lemma_compacted_len(tagged@, validity_prefix_sum@, coarse_edge_ref_count as nat, m as int);
        lemma_counted_len(owners@, validity@, coarse_node_count as nat, m as int);
        let mm = m as int;
        let nn = edge_offset@.len() as int;
        // The compound order: owners ascend, and targets ascend within an owner.
        assert forall|k: int| 0 <= k < mm implies #[trigger] targets@[k] == sorted_targets@[by_owner[k]] && owners@[k]
            < coarse_node_count by {
            let i = by_owner[k];
            assert(0 <= i < mm);
            assert(compound_order@[k] == target_order@[i]);
            assert(target_order@[i] == by_target[i]);
            assert(sorted_targets@[i] == gathered(fine_nodes_mapping@, edges@)[by_target[i]]);
            assert(owners@[k] == owners_by_target_view[i]);
            assert(owners_by_target_view[i] == fine_owners@[target_order@[i] as int]);
            assert(fine_nodes_mapping@.contains(fine_owners@[target_order@[i] as int]));
        }
        assert forall|k: int, l: int| 0 <= k < l < mm && owners@[k] == owners@[l] implies #[trigger] targets@[k]
            <= #[trigger] targets@[l] by {
            assert(by_owner[k] < by_owner[l]);
        }
        assert(compound_sorted(owners@, targets@));
        assert forall|k: int| 0 <= k < mm implies #[trigger] targets@[k] < coarse_node_count by {
            let e = compound_order@[k] as int;
            assert(targets@[k] == fine_nodes_mapping@[edges@[e] as int]);
        }
        if coarse_node_count == 0 && nn > 0 {
            assert(fine_nodes_mapping@[0] < coarse_node_count);
        }
        lemma_valid_before_steps(owners@, targets@, 0, mm);
        if mm > 0 {
            assert(validity_prefix_sum@[mm - 1] == sum_prefix(validity@, mm) % 0x1_0000_0000);
        }
        // Weight: the compound order is a permutation of the edge-refs.
        let cmp = compound_order@;
        let perm = Seq::new(mm as nat, |k: int| cmp[k] as int);
        let inv = Seq::new(mm as nat, |x: int| by_owner_inv[by_target_inv[x]]);
        assert forall|k: int| 0 <= k < mm implies 0 <= #[trigger] perm[k] < mm && inv[perm[k]] == k by {
            assert(cmp[k] == target_order@[by_owner[k]]);
            assert(target_order@[by_owner[k]] == by_target[by_owner[k]]);
        }
        assert forall|x: int| 0 <= x < mm implies 0 <= #[trigger] inv[x] < mm && perm[inv[x]] == x by {
            let i = by_target_inv[x];
            assert(cmp[by_owner_inv[i]] == target_order@[by_owner[by_owner_inv[i]]]);
            assert(target_order@[i] == by_target[i]);
        }
        let ow_f = Seq::new(mm as nat, |k: int| fine_nodes_mapping@[edge_owner(edge_offset@, mm as nat, k)]);
        let tg_f = Seq::new(mm as nat, |k: int| fine_nodes_mapping@[edges@[k] as int]);
        assert forall|e: int| 0 <= e < mm implies #[trigger] fine_owners@[e] == ow_f[e] by {
            lemma_edge_has_owner(edge_offset@, mm as nat, e, 0);
        }
        let g = kept_values(ow_f, tg_f, edge_weights@);
        assert forall|k: int| 0 <= k < mm implies #[trigger] kept_values(owners@, targets@, weights@)[k] == g[perm[k]]
            && weights@[k] == edge_weights@[perm[k]] by {
            let i = by_owner[k];
            assert(cmp[k] == target_order@[i]);
            assert(owners@[k] == owners_by_target_view[i]);
            assert(owners_by_target_view[i] == fine_owners@[target_order@[i] as int]);
        }
        lemma_sum_permuted(g, perm, inv);
        lemma_sum_permuted(edge_weights@, perm, inv);
        assert(kept_values(owners@, targets@, weights@) =~= Seq::new(g.len(), |k: int| g[perm[k]]));
        assert(weights@ =~= Seq::new(edge_weights@.len(), |k: int| edge_weights@[perm[k]]));
        if sum_all(edge_weights@) <= u32::MAX {
            lemma_collected_sum(owners@, targets@, weights@, coarse_edge_ref_count as nat, mm);
        }
        assert(compaction_inputs(
            owners@,
            targets@,
            coarse_node_count as nat,
            coarse_edge_ref_count as nat,
            coarse_nodes_edge_offset@,
            coarse_nodes_edges@,
        ));
        lemma_coarse_graph(
            owners@,
            targets@,
            coarse_node_count as nat,
            coarse_edge_ref_count as nat,
            coarse_nodes_edge_offset@,
            coarse_nodes_edges@,
        );
        lemma_offsets_are_counts(
            owners@,
            targets@,
            coarse_node_count as nat,
            coarse_edge_ref_count as nat,
            coarse_nodes_edge_offset@,
            coarse_nodes_edges@,
        );
        assert forall|k: int| 0 <= k < mm implies #[trigger] owners@[k] == ow_f[perm[k]] && targets@[k] == tg_f[perm[k]] by {
            let i = by_owner[k];
            assert(cmp[k] == target_order@[i]);
            assert(owners@[k] == owners_by_target_view[i]);
            assert(owners_by_target_view[i] == fine_owners@[target_order@[i] as int]);
        }
        // Each coarse edge weighs what the fine edge-refs between its groups weigh.
        if sum_all(edge_weights@) <= u32::MAX {
            let cw = coarse_nodes_edge_weights@;
            lemma_collected_slot(owners@, targets@, weights@, coarse_edge_ref_count as nat, mm);
            assert forall|c: int, s: int|
                #![trigger coarse_nodes_edge_offset@[c], cw[s]]
                0 <= c < coarse_node_count && coarse_nodes_edge_offset@[c] <= s < range_end(
                    coarse_nodes_edge_offset@,
                    coarse_edge_ref_count as nat,
                    c,
                ) implies cw[s] == joined_weight(
                edge_offset@,
                edges@,
                edge_weights@,
                fine_nodes_mapping@,
                c,
                coarse_nodes_edges@[s] as int,
            ) by {
                let k = lemma_slot_source(
                    owners@,
                    targets@,
                    coarse_node_count as nat,
                    coarse_edge_ref_count as nat,
                    coarse_nodes_edge_offset@,
                    coarse_nodes_edges@,
                    c,
                    s,
                );
                let d = targets@[k] as int;
                assert(coarse_nodes_edges@[s] == targets@[k]);
                let sv = slot_values(owners@, targets@, weights@, s);
                let pv = pair_values(owners@, targets@, weights@, c, d);
                assert forall|l: int| 0 <= l < mm implies sv[l] == pv[l] by {
                    if targets@[l] != owners@[l] {
                        lemma_slot_is_pair(owners@, targets@, k, l);
                    }
                }
                assert(sv =~= pv);
                let gp = pair_values(ow_f, tg_f, edge_weights@, c, d);
                assert(pv =~= Seq::new(gp.len(), |l: int| gp[perm[l]]));
                lemma_sum_permuted(gp, perm, inv);
            }
        }
        // Adjacency: exactly the pairs of groups that some fine edge-ref joins.
        let offs = coarse_nodes_edge_offset@;
        let ce = coarse_nodes_edges@;
        assert forall|c: int, d: int| 0 <= c < coarse_node_count implies (#[trigger] has_edge(offs, ce, c, d) <==> (c != d
            && joins_groups(edge_offset@, edges@, fine_nodes_mapping@, c, d))) by {
            reveal(has_edge);
            if has_edge(offs, ce, c, d) {
                let s = choose|s: int| owns(offs, ce.len(), c, s) && ce[s] == d;
                let k = lemma_slot_source(
                    owners@,
                    targets@,
                    coarse_node_count as nat,
                    coarse_edge_ref_count as nat,
                    offs,
                    ce,
                    c,
                    s,
                );
                assert(ce[s] == targets@[k]);
                let e = perm[k];
                assert(ow_f[e] == c && tg_f[e] == d);
                assert(joins_groups(edge_offset@, edges@, fine_nodes_mapping@, c, d));
            }
            if c != d && joins_groups(edge_offset@, edges@, fine_nodes_mapping@, c, d) {
                let e = choose|e: int|
                    0 <= e < mm && fine_nodes_mapping@[edge_owner(edge_offset@, mm as nat, e)] == c
                        && fine_nodes_mapping@[edges@[e] as int] == d;
                let k = inv[e];
                assert(owners@[k] == c && targets@[k] == d);
                let s = lemma_pair_in_adjacency(
                    owners@,
                    targets@,
                    coarse_node_count as nat,
                    coarse_edge_ref_count as nat,
                    offs,
                    ce,
                    k,
                );
                assert(owns(offs, ce.len(), c, s));
            }
        }
    }
    (coarse_nodes_edge_offset, coarse_nodes_edges, coarse_nodes_edge_weights, coarse_edge_ref_count)
}

/// The coarse node count is the number of distinct match labels: a rank
/// labelling onto `0..count` numbers the distinct keys.
pub proof fn lemma_coarse_count_is_distinct_labels(matching: Seq<u32>, fine_nodes_mapping: Seq<u32>, count: nat)
    requires
        is_rank_labelling(matching, fine_nodes_mapping, count),
        count <= u32::MAX,
    ensures
        matching.to_set().len() == count,
{
    let labels = matching.to_set();
    let rank = |v: u32| fine_nodes_mapping[matching.index_of(v)] as int;
    vstd::seq_lib::seq_to_set_is_finite(matching);
    assert forall|v: u32| #[trigger] labels.contains(v) implies matching[matching.index_of(v)] == v && 0 <= matching.index_of(v)
        < matching.len() by {
        assert(matching.contains(v));
    }
    assert(vstd::relations::injective_on(rank, labels)) by {
        assert forall|a: u32, b: u32| labels.contains(a) && labels.contains(b) && #[trigger] rank(a) == #[trigger] rank(b) implies a
            == b by {
            let x = matching.index_of(a);
            let y = matching.index_of(b);
            assert(fine_nodes_mapping[x] == fine_nodes_mapping[y]);
        }
    }
    assert(labels.map(rank) =~= vstd::set_lib::set_int_range(0, count as int)) by {
        assert forall|c: int| #[trigger] labels.map(rank).contains(c) implies 0 <= c < count by {
            let v = choose|v: u32| labels.contains(v) && rank(v) == c;
            let x = matching.index_of(v);
            assert(fine_nodes_mapping[x] < count);
        }
        assert forall|c: int| 0 <= c < count implies #[trigger] labels.map(rank).contains(c) by {
            assert(fine_nodes_mapping.contains(c as u32));
            let x = choose|x: int| 0 <= x < fine_nodes_mapping.len() && fine_nodes_mapping[x] == c as u32;
            let v = matching[x];
            assert(matching.contains(v));
            let y = matching.index_of(v);
            assert(matching[y] == matching[x]);
            assert(fine_nodes_mapping[y] == fine_nodes_mapping[x]);
            assert(rank(v) == fine_nodes_mapping[y] as int);
            assert(labels.contains(v));
        }
    }
    vstd::set_lib::lemma_map_size(labels, vstd::set_lib::set_int_range(0, count as int), rank);
    vstd::set_lib::lemma_int_range(0, count as int);
}

/// Contracting along a matching makes each coarse node out of one fine node
/// or two adjacent ones: the mapping takes every coarse index, no three fine
/// nodes share one, and two that share one are joined by an edge.
pub proof fn lemma_coarse_nodes_are_pairs(
    edge_offset: Seq<u32>,
    edges: Seq<u32>,
    matching: Seq<u32>,
    fine_nodes_mapping: Seq<u32>,
    count: nat,
)
    requires
        is_matching_labelling(edge_offset, edges, matching),
        is_rank_labelling(matching, fine_nodes_mapping, count),
    ensures
        forall|c: u32| c < count ==> #[trigger] fine_nodes_mapping.contains(c),
        forall|a: int, b: int, d: int|
            0 <= a < b < d < fine_nodes_mapping.len() ==> !(#[trigger] fine_nodes_mapping[a] == #[trigger] fine_nodes_mapping[b]
                && fine_nodes_mapping[b] == #[trigger] fine_nodes_mapping[d]),
        forall|a: int, b: int|
            0 <= a < fine_nodes_mapping.len() && 0 <= b < fine_nodes_mapping.len() && a != b && #[trigger] fine_nodes_mapping[a]
                == #[trigger] fine_nodes_mapping[b] ==> has_edge(edge_offset, edges, a, b) || has_edge(edge_offset, edges, b, a),
{
    assert forall|a: int, b: int, d: int|
        0 <= a < b < d < fine_nodes_mapping.len() implies !(#[trigger] fine_nodes_mapping[a] == #[trigger] fine_nodes_mapping[b]
            && fine_nodes_mapping[b] == #[trigger] fine_nodes_mapping[d]) by {
        if fine_nodes_mapping[a] == fine_nodes_mapping[b] && fine_nodes_mapping[b] == fine_nodes_mapping[d] {
            assert(matching[a] == matching[b] && matching[b] == matching[d]);
            assert(a == matching[a] || b == matching[b]);
            assert(a == matching[a] || d == matching[d]);
            assert(b == matching[b] || d == matching[d]);
        }
    }
    assert forall|a: int, b: int|
        0 <= a < fine_nodes_mapping.len() && 0 <= b < fine_nodes_mapping.len() && a != b && #[trigger] fine_nodes_mapping[a]
            == #[trigger] fine_nodes_mapping[b] implies has_edge(edge_offset, edges, a, b) || has_edge(edge_offset, edges, b, a) by {
        assert(matching[a] == matching[b]);
        assert(a == matching[a] || b == matching[b]);
        if matching[a] != a {
            assert(has_edge(edge_offset, edges, a, b));
        } else {
            assert(matching[b] != b);
            assert(has_edge(edge_offset, edges, b, a));
        }
    }
}

/// Contraction keeps adjacency symmetric: when every fine edge has its
/// reverse, and the coarse adjacency is exactly the pairs of distinct groups
/// that fine edges join, then `d` is adjacent to `c` whenever `c` is
/// adjacent to `d`.
pub proof fn lemma_coarse_adjacency_symmetric(
    edge_offset: Seq<u32>,
    edges: Seq<u32>,
    fine_nodes_mapping: Seq<u32>,
    coarse_node_count: nat,
    coarse_offsets: Seq<u32>,
    coarse_edges: Seq<u32>,
)
    requires
        offsets_well_formed(edge_offset, edges.len()),
        fine_nodes_mapping.len() == edge_offset.len(),
        forall|k: int| 0 <= k < edges.len() ==> (#[trigger] edges[k]) < edge_offset.len(),
        forall|x: int| 0 <= x < fine_nodes_mapping.len() ==> #[trigger] fine_nodes_mapping[x] < coarse_node_count,
        edges_symmetric(edge_offset, edges),
        forall|c: int, d: int|
            0 <= c < coarse_node_count ==> (#[trigger] has_edge(coarse_offsets, coarse_edges, c, d) <==> (c != d
                && joins_groups(edge_offset, edges, fine_nodes_mapping, c, d))),
    ensures
        forall|c: int, d: int|
            0 <= c < coarse_node_count && 0 <= d < coarse_node_count && #[trigger] has_edge(coarse_offsets, coarse_edges, c, d)
                ==> has_edge(coarse_offsets, coarse_edges, d, c),
{
    let m = edges.len();
    assert forall|c: int, d: int|
        0 <= c < coarse_node_count && 0 <= d < coarse_node_count && #[trigger] has_edge(coarse_offsets, coarse_edges, c, d)
            implies has_edge(coarse_offsets, coarse_edges, d, c) by {
        let e = choose|e: int|
            0 <= e < m && fine_nodes_mapping[edge_owner(edge_offset, m, e)] == c && fine_nodes_mapping[edges[e] as int] == d;
        lemma_edge_has_owner(edge_offset, m, e, 0);
        let a = edge_owner(edge_offset, m, e);
        let b = edges[e] as int;
        lemma_has_edge(edge_offset, edges, a, b, e);
        assert(has_edge(edge_offset, edges, b, a));
        reveal(has_edge);
        let e2 = choose|e2: int| owns(edge_offset, m, b, e2) && edges[e2] == a;
        lemma_edge_has_owner(edge_offset, m, e2, 0);
        lemma_owner_unique(edge_offset, m, b, edge_owner(edge_offset, m, e2), e2);
        assert(joins_groups(edge_offset, edges, fine_nodes_mapping, d, c));
    }
}

/// Contraction keeps edge weights symmetric: when every fine edge-ref has a
/// reverse of equal weight and no node names another twice, and each coarse
/// edge weighs what the fine edge-refs between its groups weigh, then the
/// coarse edges `c -> d` and `d -> c` weigh the same.
pub proof fn lemma_coarse_weights_symmetric(
    edge_offset: Seq<u32>,
    edges: Seq<u32>,
    edge_weights: Seq<u32>,
    fine_nodes_mapping: Seq<u32>,
    coarse_node_count: nat,
    coarse_offsets: Seq<u32>,
    coarse_edges: Seq<u32>,
    coarse_weights: Seq<u32>,
)
    requires
        offsets_well_formed(edge_offset, edges.len()),
        edge_weights.len() == edges.len(),
        fine_nodes_mapping.len() == edge_offset.len(),
        forall|k: int| 0 <= k < edges.len() ==> (#[trigger] edges[k]) < edge_offset.len(),
        weights_symmetric(edge_offset, edges, edge_weights),
        no_duplicate_edges(edge_offset, edges),
        forall|c: int, s: int|
            #![trigger coarse_offsets[c], coarse_weights[s]]
            0 <= c < coarse_node_count && coarse_offsets[c] <= s < range_end(coarse_offsets, coarse_edges.len(), c)
                ==> coarse_weights[s] == joined_weight(edge_offset, edges, edge_weights, fine_nodes_mapping, c, coarse_edges[s] as int),
    ensures
        forall|c: int, d: int, s: int, t: int|
            #![trigger coarse_offsets[c], coarse_offsets[d], coarse_weights[s], coarse_weights[t]]
            0 <= c < coarse_node_count && 0 <= d < coarse_node_count && coarse_offsets[c] <= s < range_end(
                coarse_offsets,
                coarse_edges.len(),
                c,
            ) && coarse_offsets[d] <= t < range_end(coarse_offsets, coarse_edges.len(), d) && coarse_edges[s] == d
                && coarse_edges[t] == c ==> coarse_weights[s] == coarse_weights[t],
{
    assert forall|c: int, d: int, s: int, t: int|
        #![trigger coarse_offsets[c], coarse_offsets[d], coarse_weights[s], coarse_weights[t]]
        0 <= c < coarse_node_count && 0 <= d < coarse_node_count && coarse_offsets[c] <= s < range_end(
            coarse_offsets,
            coarse_edges.len(),
            c,
        ) && coarse_offsets[d] <= t < range_end(coarse_offsets, coarse_edges.len(), d) && coarse_edges[s] == d
            && coarse_edges[t] == c implies coarse_weights[s] == coarse_weights[t] by {
        lemma_joined_weight_symmetric(edge_offset, edges, edge_weights, fine_nodes_mapping, c, d);
    }
}

/// The contraction driver. The CPU pipeline holds no state between calls.
pub struct CoarsenGraph {}

impl CoarsenGraph {
    /// Sets up the contraction pipeline.
    pub fn init() -> (r: Self) {
        CoarsenGraph {}
    }

    /// Contracts the live graph along its matching.
    pub fn encode(&self, input: &CoarsenGraphInput) -> (r: CoarsenGraphOutput)
        requires
            input.wf(),
        ensures
            is_rank_labelling(input.live_matching(), r.fine_nodes_mapping@, r.coarse_node_count as nat),
            r.coarse_node_count <= input.live_node_count(),
            r.coarse_nodes_mapping@.len() == input.live_node_count(),
            r.coarse_nodes_mapping_offset@.len() == r.coarse_node_count,
            r.coarse_nodes_edge_offset@.len() == r.coarse_node_count,
            r.coarse_nodes_edges@.len() == r.coarse_edge_ref_count,
            r.coarse_nodes_edge_weights@.len() == r.coarse_edge_ref_count,
            groups_fine_nodes(r.fine_nodes_mapping@, r.coarse_nodes_mapping_offset@, r.coarse_nodes_mapping@),
            input.live_matching().to_set().len() == r.coarse_node_count,
            csr_well_formed(r.coarse_nodes_edge_offset@, r.coarse_nodes_edges@, r.coarse_nodes_edge_weights@),
            no_self_loops(r.coarse_nodes_edge_offset@, r.coarse_nodes_edges@),
            adjacency_strictly_ascending(r.coarse_nodes_edge_offset@, r.coarse_nodes_edges@),
            forall|c: int, d: int|
                0 <= c < r.coarse_node_count ==> (#[trigger] has_edge(r.coarse_nodes_edge_offset@, r.coarse_nodes_edges@, c, d)
                    <==> (c != d && joins_groups(input.live_edge_offset(), input.live_edges(), r.fine_nodes_mapping@, c, d))),
            sum_all(input.live_edge_weights()) <= u32::MAX ==> sum_all(r.coarse_nodes_edge_weights@) == kept_fine_weight(
                input.live_edge_offset(),
                input.live_edges(),
                input.live_edge_weights(),
                r.fine_nodes_mapping@,
            ),
            sum_all(input.live_edge_weights()) <= u32::MAX ==> forall|c: int, s: int|
                #![trigger r.coarse_nodes_edge_offset@[c], r.coarse_nodes_edge_weights@[s]]
                0 <= c < r.coarse_node_count && r.coarse_nodes_edge_offset@[c] <= s < range_end(
                    r.coarse_nodes_edge_offset@,
                    r.coarse_edge_ref_count as nat,
                    c,
                ) ==> r.coarse_nodes_edge_weights@[s] == joined_weight(
                    input.live_edge_offset(),
                    input.live_edges(),
                    input.live_edge_weights(),
                    r.fine_nodes_mapping@,
                    c,
                    r.coarse_nodes_edges@[s] as int,
                ),
    {
        let fallback_node_count = input.fine_nodes_edge_offset.len() as u32;
        let fallback_edge_ref_count = input.fine_nodes_edges.len() as u32;
        let binding = match input.counts {
            Some(c) => Some((c.node_count, c.edge_ref_count)),
            None => None,
        };
        let counts = FallbackCounts::new(binding, (fallback_node_count, fallback_edge_ref_count));
        let n = counts.node_count();
        let m = counts.edge_ref_count();
        let edge_offset = take_prefix(&input.fine_nodes_edge_offset, n as usize);
        let edges = take_prefix(&input.fine_nodes_edges, m as usize);
        let edge_weights = take_prefix(&input.fine_nodes_edge_weights, m as usize);
        let matching = take_prefix(&input.fine_nodes_matching, n as usize);
        assert(matching@ == input.live_matching());

        let ghost live_matching = matching@;
        let (fine_nodes_mapping, coarse_nodes_mapping_offset, coarse_nodes_mapping, coarse_node_count) =
            contract_nodes(matching);
        proof {
            lemma_coarse_count_is_distinct_labels(live_matching, fine_nodes_mapping@, coarse_node_count as nat);
        }
        let (coarse_nodes_edge_offset, coarse_nodes_edges, coarse_nodes_edge_weights, coarse_edge_ref_count) =
            contract_edges(&edge_offset, &edges, &edge_weights, &fine_nodes_mapping, coarse_node_count);
        CoarsenGraphOutput {
            fine_nodes_mapping,
            coarse_nodes_mapping_offset,
            coarse_nodes_mapping,
            coarse_node_count,
            coarse_edge_ref_count,
            coarse_nodes_edge_offset,
            coarse_nodes_edges,
            coarse_nodes_edge_weights,
        }
    }
}

} // verus!
