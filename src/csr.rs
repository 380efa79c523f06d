//! Graphs in compressed-sparse-row form, as sequences.
//!
//! A graph of `n` nodes and `m` edge-refs is held in `edge_offset` (length
//! `n`, the start of each node's adjacency list; the last list ends at `m`),
//! `edges` (length `m`, the adjacent node of each edge-ref) and
//! `edge_weights` (length `m`).

use vstd::prelude::*;
use crate::match_state::MAX_NODES;

verus! {

/// The end of node `i`'s adjacency range.
pub open spec fn range_end(edge_offset: Seq<u32>, m: nat, i: int) -> int {
    if i < edge_offset.len() - 1 {
        edge_offset[i + 1] as int
    } else {
        m as int
    }
}

/// The offsets cut `0..m` into one adjacency range per node: they start at
/// zero, never decrease and stay within `m`.
pub open spec fn offsets_well_formed(edge_offset: Seq<u32>, m: nat) -> bool {
    &&& edge_offset.len() == 0 ==> m == 0
    &&& edge_offset.len() > 0 ==> edge_offset[0] == 0
    &&& forall|i: int| 0 <= i < edge_offset.len() ==> edge_offset[i] <= range_end(edge_offset, m, i)
    &&& forall|i: int| 0 <= i < edge_offset.len() ==> edge_offset[i] <= m
}

/// The arrays form a graph: the offsets cut the edge list into adjacency
/// ranges; every edge names a node; each edge has a weight; node and edge
/// counts fit their index words.
pub open spec fn csr_well_formed(edge_offset: Seq<u32>, edges: Seq<u32>, edge_weights: Seq<u32>) -> bool {
    &&& edge_offset.len() < MAX_NODES
    &&& edges.len() < u32::MAX
    &&& edge_weights.len() == edges.len()
    &&& offsets_well_formed(edge_offset, edges.len())
    &&& forall|k: int| 0 <= k < edges.len() ==> (#[trigger] edges[k]) < edge_offset.len()
}

/// No node's adjacency list names the node itself.
pub open spec fn no_self_loops(edge_offset: Seq<u32>, edges: Seq<u32>) -> bool {
    forall|c: int, s: int|
        #![trigger edge_offset[c], edges[s]]
        0 <= c < edge_offset.len() && edge_offset[c] <= s < range_end(edge_offset, edges.len(), c) ==> edges[s] != c
}

/// Each adjacency list is strictly ascending, so names no node twice.
pub open spec fn adjacency_strictly_ascending(edge_offset: Seq<u32>, edges: Seq<u32>) -> bool {
    forall|c: int, s: int, t: int|
        #![trigger edge_offset[c], edges[s], edges[t]]
        0 <= c < edge_offset.len() && edge_offset[c] <= s < t < range_end(edge_offset, edges.len(), c) ==> edges[s] < edges[t]
}

/// Edge-ref `k` lies in node `i`'s adjacency range.
pub open spec fn owns(edge_offset: Seq<u32>, m: nat, i: int, k: int) -> bool {
    0 <= i < edge_offset.len() && edge_offset[i] <= k < range_end(edge_offset, m, i)
}

/// Some edge-ref under node `i` names node `j`.
#[verifier::opaque]
pub open spec fn has_edge(edge_offset: Seq<u32>, edges: Seq<u32>, i: int, j: int) -> bool {
    exists|k: int| owns(edge_offset, edges.len(), i, k) && edges[k] == j
}

/// The end of node `i`'s adjacency range, for a graph of `m` edge-refs.
pub fn node_range_end(edge_offset: &Vec<u32>, m: usize, i: usize) -> (r: u32)
    requires
        i < edge_offset@.len(),
        m <= u32::MAX,
    ensures
        r == range_end(edge_offset@, m as nat, i as int),
{
    if i < edge_offset.len() - 1 {
        edge_offset[i + 1]
    } else {
        m as u32
    }
}

/// An edge-ref under node `i` that names `j` shows that `i` has an edge to `j`.
pub proof fn lemma_has_edge(edge_offset: Seq<u32>, edges: Seq<u32>, i: int, j: int, k: int)
    requires
        owns(edge_offset, edges.len(), i, k),
        edges[k] == j,
    ensures
        has_edge(edge_offset, edges, i, j),
{
    reveal(has_edge);
}

/// Earlier nodes' ranges end before later nodes' ranges start.
pub proof fn lemma_offsets_ordered(edge_offset: Seq<u32>, m: nat, a: int, b: int)
    requires
        offsets_well_formed(edge_offset, m),
        0 <= a < b < edge_offset.len(),
    ensures
        edge_offset[a] <= range_end(edge_offset, m, a) <= edge_offset[b],
    decreases b - a,
{
    if b > a + 1 {
        lemma_offsets_ordered(edge_offset, m, a, b - 1);
    }
}

/// An edge-ref lies in one node's range only.
pub proof fn lemma_owner_unique(edge_offset: Seq<u32>, m: nat, i: int, j: int, k: int)
    requires
        offsets_well_formed(edge_offset, m),
        owns(edge_offset, m, i, k),
        owns(edge_offset, m, j, k),
    ensures
        i == j,
{
    if i < j {
        lemma_offsets_ordered(edge_offset, m, i, j);
    } else if j < i {
        lemma_offsets_ordered(edge_offset, m, j, i);
    }
}

/// Every edge has its reverse: if `i` names `j`, then `j` names `i`.
pub open spec fn edges_symmetric(edge_offset: Seq<u32>, edges: Seq<u32>) -> bool {
    forall|i: int, j: int| #[trigger] has_edge(edge_offset, edges, i, j) ==> has_edge(edge_offset, edges, j, i)
}

} // verus!
