use graco::coarsen::{contract_edges, contract_nodes, CoarsenCounts, CoarsenGraph, CoarsenGraphInput};
use graco::coarsen_kernels::{
    collect_coarse_nodes_edge_weights, compact_coarse_edges, count_coarse_node_edges,
    finalize_coarse_nodes_edge_offset, gather_edge_owner_list, mark_coarse_edge_validity,
    resolve_coarse_edge_ref_count,
};
use graco::counts::FallbackCounts;
use graco::dispatch::{generate_dispatch, generate_dispatches, GROUP_SIZE};
use graco::match_state::{MatchState, MatchStatus};
use graco::matching::{assign_node_colors, hash_u32, MatchPairsByEdgeWeightConfig};
use graco::prng::round_seeds;

#[test]
fn owners_follow_offsets() {
    assert_eq!(gather_edge_owner_list(&vec![0, 2, 2, 3], 5, &vec![7, 8, 9, 6]), vec![7, 7, 9, 6, 6]);
}

#[test]
fn validity_marks_self_loops_and_duplicates() {
    let owners = vec![0, 0, 0, 0, 1];
    let targets = vec![0, 1, 1, 2, 0];
    let (flags, tagged) = mark_coarse_edge_validity(&owners, &targets);
    assert_eq!(flags, vec![0, 1, 0, 1, 1]);
    assert_eq!(tagged, vec![0, (2 << 30) | 1, (1 << 30) | 1, (2 << 30) | 2, 2 << 30]);
    let tagged_valid: Vec<u32> = tagged.iter().map(|w| w >> 30).collect();
    assert_eq!(tagged_valid, vec![0, 2, 1, 2, 2]);
}

#[test]
fn weights_collect_into_valid_slots() {
    let owners = vec![0, 0, 0, 0, 1];
    let targets = vec![0, 1, 1, 2, 0];
    let weights = vec![100, 3, 4, 5, 6];
    let (flags, tagged) = mark_coarse_edge_validity(&owners, &targets);
    let prefix = vec![0, 1, 1, 2, 3];
    assert_eq!(flags.iter().sum::<u32>(), 3);
    assert_eq!(resolve_coarse_edge_ref_count(&prefix), 3);
    assert_eq!(collect_coarse_nodes_edge_weights(&tagged, &weights, &prefix, 3), vec![7, 5, 6]);
    assert_eq!(compact_coarse_edges(&tagged, &prefix, 3), vec![1, 2, 0]);
    let counts = count_coarse_node_edges(&owners, &flags, 2);
    assert_eq!(counts, vec![2, 1]);
    assert_eq!(finalize_coarse_nodes_edge_offset(&vec![2, 3]), vec![0, 2]);
    assert_eq!(resolve_coarse_edge_ref_count(&vec![]), 0);
}

#[test]
fn nodes_contract_by_label_rank() {
    let (f2c, offsets, c2f, count) = contract_nodes(vec![0, 0, 2, 3, 2]);
    assert_eq!(count, 3);
    assert_eq!(f2c, vec![0, 0, 1, 2, 1]);
    assert_eq!(c2f, vec![0, 1, 2, 4, 3]);
    assert_eq!(offsets, vec![0, 2, 4]);
}

#[test]
fn edges_contract_to_coarse_csr() {
    // Path 0-1-2-3 with 1 and 2 merged.
    let (offsets, edges, weights, count) = contract_edges(
        &vec![0, 1, 3, 5],
        &vec![1, 0, 2, 1, 3, 2],
        &vec![1, 1, 10, 10, 1, 1],
        &vec![0, 1, 1, 2],
        3,
    );
    assert_eq!(count, 4);
    assert_eq!(offsets, vec![0, 1, 3]);
    assert_eq!(edges, vec![1, 0, 2, 1]);
    assert_eq!(weights, vec![1, 1, 1, 1]);
}

#[test]
fn live_counts_limit_the_graph() {
    // The buffers hold a triangle, of which only nodes 0 and 1 and their
    // first two edge-refs are live.
    let out = CoarsenGraph::init().encode(&CoarsenGraphInput {
        fine_nodes_edge_offset: vec![0, 1, 2],
        fine_nodes_edges: vec![1, 0, 0, 1],
        fine_nodes_edge_weights: vec![4, 4, 9, 9],
        fine_nodes_matching: vec![0, 1, 2],
        counts: Some(CoarsenCounts { node_count: 2, edge_ref_count: 2 }),
    });
    assert_eq!(out.coarse_node_count, 2);
    assert_eq!(out.coarse_edge_ref_count, 2);
    assert_eq!(out.coarse_nodes_edges, vec![1, 0]);
    assert_eq!(out.coarse_nodes_edge_weights, vec![4, 4]);
}

#[test]
fn fallback_counts_prefer_the_binding() {
    let bound = FallbackCounts::new(Some((3, 7)), (10, 20));
    assert_eq!((bound.node_count(), bound.edge_ref_count()), (3, 7));
    let fallback = FallbackCounts::new(None, (10, 20));
    assert_eq!((fallback.node_count(), fallback.edge_ref_count()), (10, 20));
}

#[test]
fn match_state_packs_status_over_index() {
    let s = MatchState::new(MatchStatus::Matched, 12345);
    assert_eq!(s.packed_data, (3 << 30) | 12345);
    assert_eq!(s.status(), MatchStatus::Matched);
    assert_eq!(s.match_index(), 12345);
    assert_eq!(MatchState::new(MatchStatus::Red, 0).status(), MatchStatus::Red);
    assert_eq!(MatchState::new(MatchStatus::Dead, 0).packed_data, 2 << 30);
}

#[test]
fn hash_matches_known_values() {
    assert_eq!(hash_u32(0), 129708002);
    assert_eq!(hash_u32(1), 2831084092);
    assert_eq!(hash_u32(12345), 4099845390);
}

#[test]
fn coloring_leaves_dead_and_matched_nodes() {
    let states = vec![
        MatchState::new(MatchStatus::Dead, 0),
        MatchState::new(MatchStatus::Matched, 2),
        MatchState::new(MatchStatus::Blue, 0),
    ];
    let (colored, live) = assign_node_colors(&states, 7);
    assert!(live);
    assert_eq!(colored[0], states[0]);
    assert_eq!(colored[1], states[1]);
    let expected = if hash_u32(7 ^ 2) & 1 == 1 { MatchStatus::Red } else { MatchStatus::Blue };
    assert_eq!(colored[2].status(), expected);
    let (_, live) = assign_node_colors(&vec![MatchState::new(MatchStatus::Dead, 0)], 7);
    assert!(!live);
}

#[test]
fn round_seeds_come_from_pcg32() {
    let mut rng = oorandom::Rand32::new(1);
    let expected: Vec<u32> = (0..8).map(|_| rng.rand_u32()).collect();
    assert_eq!(round_seeds(1, 8), expected);
    assert_ne!(round_seeds(1, 2), vec![1, 1]);
}

#[test]
fn default_config_is_eight_rounds_seed_one() {
    let c = MatchPairsByEdgeWeightConfig::default();
    assert_eq!(c.rounds, 8);
    assert_eq!(c.prng_seed, 1);
}

#[test]
fn dispatch_rounds_up_to_whole_groups() {
    let d = generate_dispatch(GROUP_SIZE, 257);
    assert_eq!((d.count_x, d.count_y, d.count_z), (2, 1, 1));
    assert_eq!(generate_dispatch(GROUP_SIZE, 256).count_x, 1);
    assert_eq!(generate_dispatch(GROUP_SIZE, 0).count_x, 0);
    assert_eq!(generate_dispatch(1, u32::MAX).count_x, u32::MAX);
    let (nodes, edge_refs) = generate_dispatches(GROUP_SIZE, 16, 1000);
    assert_eq!((nodes.count_x, edge_refs.count_x), (1, 4));
}
