use graco::coarsen::{CoarsenGraph, CoarsenGraphInput, CoarsenGraphOutput};
use graco::match_state::{MatchState, MatchStatus};
use graco::matching::{
    finalize_matching, find_matches, make_proposals, MatchPairsByEdgeWeight,
    MatchPairsByEdgeWeightConfig, MatchPairsByEdgeWeightInput,
};

fn run_matching(edge_offset: &[u32], edges: &[u32], weights: &[u32]) -> Vec<u32> {
    let matcher = MatchPairsByEdgeWeight::init(MatchPairsByEdgeWeightConfig::default());
    matcher.encode(&MatchPairsByEdgeWeightInput {
        nodes_edge_offset: edge_offset.to_vec(),
        nodes_edges: edges.to_vec(),
        nodes_edge_weights: weights.to_vec(),
        count: None,
    })
}

fn run_coarsening(
    edge_offset: &[u32],
    edges: &[u32],
    weights: &[u32],
    matching: &[u32],
) -> CoarsenGraphOutput {
    CoarsenGraph::init().encode(&CoarsenGraphInput {
        fine_nodes_edge_offset: edge_offset.to_vec(),
        fine_nodes_edges: edges.to_vec(),
        fine_nodes_edge_weights: weights.to_vec(),
        fine_nodes_matching: matching.to_vec(),
        counts: None,
    })
}

fn matched_pairs(matching: &[u32]) -> usize {
    (0..matching.len()).filter(|&i| matching[i] as usize != i).count()
}

/// The `(target, weight)` lists of each coarse node.
fn adjacency(out: &CoarsenGraphOutput) -> Vec<Vec<(u32, u32)>> {
    let n = out.coarse_node_count as usize;
    let m = out.coarse_edge_ref_count as usize;
    (0..n)
        .map(|c| {
            let lo = out.coarse_nodes_edge_offset[c] as usize;
            let hi = if c + 1 < n { out.coarse_nodes_edge_offset[c + 1] as usize } else { m };
            (lo..hi)
                .map(|k| (out.coarse_nodes_edges[k], out.coarse_nodes_edge_weights[k]))
                .collect()
        })
        .collect()
}

fn grid(size: u32) -> (Vec<u32>, Vec<u32>, Vec<u32>) {
    let mut offsets = Vec::new();
    let mut edges = Vec::new();
    for row in 0..size {
        for col in 0..size {
            offsets.push(edges.len() as u32);
            if col > 0 {
                edges.push(row * size + col - 1);
            }
            if col < size - 1 {
                edges.push(row * size + col + 1);
            }
            if row > 0 {
                edges.push((row - 1) * size + col);
            }
            if row < size - 1 {
                edges.push((row + 1) * size + col);
            }
        }
    }
    let weights = vec![1; edges.len()];
    (offsets, edges, weights)
}

#[test]
fn triangle_matches_one_pair() {
    let offsets = [0, 2, 4];
    let edges = [1, 2, 0, 2, 0, 1];
    let weights = [1, 1, 1, 1, 1, 1];
    let matching = run_matching(&offsets, &edges, &weights);
    assert_eq!(matched_pairs(&matching), 1);
    let out = run_coarsening(&offsets, &edges, &weights, &matching);
    assert_eq!(out.coarse_node_count, 2);
    assert_eq!(out.coarse_edge_ref_count, 2);
    assert_eq!(adjacency(&out), vec![vec![(1, 2)], vec![(0, 2)]]);
}

#[test]
fn isolated_nodes_stay_apart() {
    let offsets = [0, 0];
    let matching = run_matching(&offsets, &[], &[]);
    assert_eq!(matching, vec![0, 1]);
    let out = run_coarsening(&offsets, &[], &[], &matching);
    assert_eq!(out.coarse_node_count, 2);
    assert_eq!(out.coarse_edge_ref_count, 0);
    assert_eq!(out.fine_nodes_mapping, vec![0, 1]);
    assert_eq!(out.coarse_nodes_edge_offset, vec![0, 0]);
}

#[test]
fn heavy_edge_wins_on_a_path() {
    let offsets = vec![0, 1, 3, 5];
    let edges = vec![1, 0, 2, 1, 3, 2];
    let weights = vec![1, 1, 10, 10, 1, 1];
    let states = vec![
        MatchState::new(MatchStatus::Blue, 0),
        MatchState::new(MatchStatus::Blue, 0),
        MatchState::new(MatchStatus::Red, 0),
        MatchState::new(MatchStatus::Blue, 0),
    ];
    let (states, proposals) = make_proposals(&offsets, &edges, &weights, &states, &vec![0; 4]);
    assert_eq!(proposals, vec![1, 2, 0, 2]);
    let states = find_matches(&offsets, &edges, &weights, &states, &proposals);
    let matching = finalize_matching(&states);
    assert_eq!(matching, vec![0, 1, 1, 3]);
    let out = run_coarsening(&offsets, &edges, &weights, &matching);
    assert_eq!(out.coarse_node_count, 3);
    assert_eq!(out.coarse_edge_ref_count, 4);
    assert_eq!(adjacency(&out), vec![vec![(1, 1)], vec![(0, 1), (2, 1)], vec![(1, 1)]]);
}

#[test]
fn path_matching_is_valid_for_the_default_seed() {
    let offsets = [0, 1, 3, 5];
    let edges = [1, 0, 2, 1, 3, 2];
    let weights = [1, 1, 10, 10, 1, 1];
    let matching = run_matching(&offsets, &edges, &weights);
    assert_eq!(matched_pairs(&matching), 2);
    for i in 0..4 {
        let j = matching[i] as usize;
        assert!(j <= i);
        if j != i {
            let hi = if i + 1 < 4 { offsets[i + 1] } else { 6 };
            assert!((offsets[i]..hi).any(|k| edges[k as usize] as usize == j));
        }
    }
}

#[test]
fn grid_coarsens_to_about_half() {
    let (offsets, edges, weights) = grid(4);
    let matching = run_matching(&offsets, &edges, &weights);
    let out = run_coarsening(&offsets, &edges, &weights, &matching);
    assert!(out.coarse_node_count >= 8 && out.coarse_node_count <= 10);
    let fine_total: u64 = weights.iter().map(|&w| w as u64).sum();
    let coarse_total: u64 = out.coarse_nodes_edge_weights.iter().map(|&w| w as u64).sum();
    let mut self_loop_total: u64 = 0;
    for i in 0..offsets.len() {
        let hi = if i + 1 < offsets.len() { offsets[i + 1] } else { edges.len() as u32 };
        for k in offsets[i]..hi {
            if matching[i] == matching[edges[k as usize] as usize] {
                self_loop_total += weights[k as usize] as u64;
            }
        }
    }
    assert_eq!(coarse_total + self_loop_total, fine_total);
}

#[test]
fn disconnected_triangles_match_once_each() {
    let offsets = [0, 2, 4, 6, 8, 10];
    let edges = [1, 2, 0, 2, 0, 1, 4, 5, 3, 5, 3, 4];
    let weights = [1; 12];
    let matching = run_matching(&offsets, &edges, &weights);
    assert_eq!(matched_pairs(&matching), 2);
    let out = run_coarsening(&offsets, &edges, &weights, &matching);
    assert_eq!(out.coarse_node_count, 4);
    assert_eq!(out.coarse_edge_ref_count, 4);
}

#[test]
fn single_edge_contracts_to_one_node() {
    let offsets = [0, 1];
    let edges = [1, 0];
    let weights = [5, 5];
    let matching = run_matching(&offsets, &edges, &weights);
    assert_eq!(matching, vec![0, 0]);
    let out = run_coarsening(&offsets, &edges, &weights, &matching);
    assert_eq!(out.coarse_node_count, 1);
    assert_eq!(out.coarse_edge_ref_count, 0);
    assert_eq!(out.fine_nodes_mapping, vec![0, 0]);
    assert_eq!(out.coarse_nodes_mapping, vec![0, 1]);
    assert_eq!(out.coarse_nodes_mapping_offset, vec![0]);
}

#[test]
fn matching_is_deterministic_for_a_seed() {
    let (offsets, edges, weights) = grid(5);
    let first = run_matching(&offsets, &edges, &weights);
    let second = run_matching(&offsets, &edges, &weights);
    assert_eq!(first, second);
    let other = MatchPairsByEdgeWeight::init(MatchPairsByEdgeWeightConfig { rounds: 8, prng_seed: 1 });
    let third = other.encode(&MatchPairsByEdgeWeightInput {
        nodes_edge_offset: offsets.clone(),
        nodes_edges: edges.clone(),
        nodes_edge_weights: weights.clone(),
        count: None,
    });
    assert_eq!(first, third);
}

#[test]
fn grid_matching_pairs_adjacent_nodes() {
    let (offsets, edges, weights) = grid(4);
    let matching = run_matching(&offsets, &edges, &weights);
    for i in 0..16usize {
        let label = matching[i] as usize;
        assert!(label <= i);
        assert_eq!(matching[label] as usize, label);
        assert!((0..16).filter(|&j| matching[j] as usize == label).count() <= 2);
        if label != i {
            let hi = if i + 1 < 16 { offsets[i + 1] } else { edges.len() as u32 };
            assert!((offsets[i]..hi).any(|k| edges[k as usize] as usize == label));
        }
    }
}

#[test]
fn coarse_grid_is_a_clean_symmetric_graph() {
    let (offsets, edges, mut weights) = grid(4);
    // Give the edge between u and v the weight u + v + 1 in both directions.
    for i in 0..16u32 {
        let hi = if i + 1 < 16 { offsets[i as usize + 1] } else { edges.len() as u32 };
        for k in offsets[i as usize]..hi {
            weights[k as usize] = i + edges[k as usize] + 1;
        }
    }
    let matching = run_matching(&offsets, &edges, &weights);
    let out = run_coarsening(&offsets, &edges, &weights, &matching);
    let n = out.coarse_node_count as usize;
    let mut labels: Vec<u32> = matching.clone();
    labels.sort();
    labels.dedup();
    assert_eq!(labels.len(), n);
    assert_eq!(out.coarse_nodes_edge_offset[0], 0);
    assert!(out.coarse_nodes_edge_offset.windows(2).all(|w| w[0] <= w[1]));
    let adj = adjacency(&out);
    for c in 0..n {
        assert!(adj[c].iter().all(|&(d, _)| d as usize != c));
        assert!(adj[c].windows(2).all(|w| w[0].0 < w[1].0));
        for &(d, w) in &adj[c] {
            assert!(adj[d as usize].contains(&(c as u32, w)));
        }
    }
    let mut kept: u32 = 0;
    for i in 0..16usize {
        let hi = if i + 1 < 16 { offsets[i + 1] } else { edges.len() as u32 };
        for k in offsets[i]..hi {
            if out.fine_nodes_mapping[i] != out.fine_nodes_mapping[edges[k as usize] as usize] {
                kept += weights[k as usize];
            }
        }
    }
    assert_eq!(out.coarse_nodes_edge_weights.iter().sum::<u32>(), kept);
}
