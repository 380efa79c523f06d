//! Parallel heavy-edge matching: rounds of randomized colouring, proposals
//! from blue nodes to their heaviest live neighbour, acceptance by red nodes,
//! and a final pass that gives each node its coarse index.

use vstd::prelude::*;
use crate::csr::{csr_well_formed, has_edge, lemma_has_edge, node_range_end, range_end};
use crate::counts::FallbackCounts;
use crate::match_state::{MatchState, MatchStatus, MAX_NODES};
use crate::primitives::take_prefix;
use crate::prng::{pcg32_stream, round_seeds};

verus! {

/// A 32-bit integer hash (a PCG output permutation over one LCG step).
pub open spec fn pcg_hash(x: u32) -> u32 {
    let state = ((x as int * 747796405 + 2891336453) % 0x1_0000_0000) as u32;
    let shift = ((state >> 28u32) + 4) as u32;
    let word = ((((state >> shift) ^ state) as int * 277803737) % 0x1_0000_0000) as u32;
    (word >> 22u32) ^ word
}

/// Computes `pcg_hash`.
pub fn hash_u32(x: u32) -> (r: u32)
    ensures
        r == pcg_hash(x),
{
    let state = ((x as u64 * 747796405 + 2891336453) % 0x1_0000_0000) as u32;
    assert(state >> 28u32 < 16) by (bit_vector);
    let shift = (state >> 28) + 4;
    let mixed = (state >> shift) ^ state;
    let word = ((mixed as u64 * 277803737) % 0x1_0000_0000) as u32;
    (word >> 22) ^ word
}

/// The colour that node `i` draws in a round with seed `seed`.
pub open spec fn node_color(seed: u32, i: u32) -> MatchStatus {
    if pcg_hash(seed ^ i) & 1 == 1 {
        MatchStatus::Red
    } else {
        MatchStatus::Blue
    }
}

/// Some node is still live.
pub open spec fn any_live(states: Seq<MatchState>) -> bool {
    exists|i: int| 0 <= i < states.len() && (#[trigger] states[i]).spec_status().is_live()
}

/// The states after colouring: every live node takes the colour it draws,
/// with a zero payload; dead and matched nodes keep their word.
pub open spec fn colored(states: Seq<MatchState>, seed: u32) -> Seq<MatchState> {
    Seq::new(
        states.len(),
        |i: int|
            if states[i].spec_status().is_live() {
                MatchState::spec_new(node_color(seed, i as u32), 0)
            } else {
                states[i]
            },
    )
}

/// Colours every live node blue or red by a bit hashed from the round's seed
/// and the node index. Also reports whether any node is live.
pub fn assign_node_colors(states: &Vec<MatchState>, prng_seed: u32) -> (r: (Vec<MatchState>, bool))
    requires
        states@.len() < MAX_NODES,
    ensures
        r.0@ == colored(states@, prng_seed),
        r.1 == any_live(states@),
{
    let n = states.len();
    let mut out: Vec<MatchState> = Vec::new();
    let mut has_live_nodes = false;
    let mut i: usize = 0;
    while i < n
        invariant
            i <= n,
            n == states@.len(),
            n < MAX_NODES,
            out@ == colored(states@, prng_seed).take(i as int),
            has_live_nodes == exists|k: int| 0 <= k < i && (#[trigger] states@[k]).spec_status().is_live(),
        decreases n - i,
    {
        let st = states[i];
        let status = st.status();
        if status == MatchStatus::Blue || status == MatchStatus::Red {
            let h = hash_u32(prng_seed ^ (i as u32));
            let color = if h & 1 == 1 { MatchStatus::Red } else { MatchStatus::Blue };
            out.push(MatchState::new(color, 0));
            has_live_nodes = true;
        } else {
            out.push(st);
        }
        proof {
            assert(out@ =~= colored(states@, prng_seed).take(i + 1));
        }
        i = i + 1;
    }
    proof {
        assert(out@ =~= colored(states@, prng_seed));
    }
    (out, has_live_nodes)
}

/// The heaviest edge-ref in `lo..hi` whose target is `eligible`, as
/// `(target, weight)`; of equal weights the smaller target wins, and of equal
/// targets the first. `None` when no target is eligible.
#[verifier::opaque]
pub open spec fn heaviest(
    edges: Seq<u32>,
    weights: Seq<u32>,
    eligible: spec_fn(u32) -> bool,
    lo: int,
    hi: int,
) -> Option<(u32, u32)>
    decreases hi - lo,
{
    if hi <= lo {
        None
    } else {
        let prev = heaviest(edges, weights, eligible, lo, hi - 1);
        let j = edges[hi - 1];
        let w = weights[hi - 1];
        if !eligible(j) {
            prev
        } else {
            match prev {
                None => Some((j, w)),
                Some(best) => if w > best.1 || (w == best.1 && j < best.0) {
                    Some((j, w))
                } else {
                    prev
                },
            }
        }
    }
}

/// What `heaviest` picks is the eligible target of some edge-ref in range.
pub proof fn lemma_heaviest_found(
    edges: Seq<u32>,
    weights: Seq<u32>,
    eligible: spec_fn(u32) -> bool,
    lo: int,
    hi: int,
)
    requires
        heaviest(edges, weights, eligible, lo, hi) is Some,
    ensures
        ({
            let best = heaviest(edges, weights, eligible, lo, hi).unwrap();
            eligible(best.0) && exists|k: int| lo <= k < hi && edges[k] == best.0
        }),
    decreases hi - lo,
{
    reveal(heaviest);
    let best = heaviest(edges, weights, eligible, lo, hi).unwrap();
    if hi > lo {
        let prev = heaviest(edges, weights, eligible, lo, hi - 1);
        if best == (edges[hi - 1], weights[hi - 1]) && eligible(edges[hi - 1]) {
            assert(edges[hi - 1] == best.0);
        } else {
            lemma_heaviest_found(edges, weights, eligible, lo, hi - 1);
            let k = choose|k: int| lo <= k < hi - 1 && edges[k] == prev.unwrap().0;
            assert(edges[k] == best.0);
        }
    }
}

/// A target that a node may propose to: a live node.
pub open spec fn live_target(states: Seq<MatchState>) -> spec_fn(u32) -> bool {
    |j: u32| (j as int) < states.len() && states[j as int].spec_status().is_live()
}

/// A target that red node `i` may accept: a blue node that proposed to `i`.
pub open spec fn proposer_of(states: Seq<MatchState>, proposals: Seq<u32>, i: int) -> spec_fn(u32) -> bool {
    |j: u32|
        (j as int) < states.len() && (j as int) < proposals.len() && states[j as int].spec_status()
            == MatchStatus::Blue && proposals[j as int] == i
}

/// The heaviest live neighbour of node `i`.
pub open spec fn proposal_of(
    edge_offset: Seq<u32>,
    edges: Seq<u32>,
    edge_weights: Seq<u32>,
    states: Seq<MatchState>,
    i: int,
) -> Option<(u32, u32)> {
    heaviest(edges, edge_weights, live_target(states), edge_offset[i] as int, range_end(edge_offset, edges.len(), i))
}

/// The states after the proposal step: a blue node with no live neighbour
/// dies; every other node keeps its word.
pub open spec fn proposed_states(
    edge_offset: Seq<u32>,
    edges: Seq<u32>,
    edge_weights: Seq<u32>,
    states: Seq<MatchState>,
) -> Seq<MatchState> {
    Seq::new(
        states.len(),
        |i: int|
            if states[i].spec_status() == MatchStatus::Blue && proposal_of(edge_offset, edges, edge_weights, states, i) is None {
                MatchState::spec_new(MatchStatus::Dead, 0)
            } else {
                states[i]
            },
    )
}

/// The proposals after the proposal step: a blue node with a live neighbour
/// proposes to the heaviest one; other entries stay.
pub open spec fn proposed_targets(
    edge_offset: Seq<u32>,
    edges: Seq<u32>,
    edge_weights: Seq<u32>,
    states: Seq<MatchState>,
    proposals: Seq<u32>,
) -> Seq<u32> {
    Seq::new(
        proposals.len(),
        |i: int|
            if states[i].spec_status() == MatchStatus::Blue && proposal_of(edge_offset, edges, edge_weights, states, i) is Some {
                proposal_of(edge_offset, edges, edge_weights, states, i).unwrap().0
            } else {
                proposals[i]
            },
    )
}

/// One step of the scan behind `heaviest`: the edge-ref with target `j` and
/// weight `w` against the best so far.
fn heavier(best: Option<(u32, u32)>, j: u32, w: u32) -> (r: Option<(u32, u32)>)
    ensures
        r == match best {
            None => Some((j, w)),
            Some(b) => if w > b.1 || (w == b.1 && j < b.0) {
                Some((j, w))
            } else {
                best
            },
        },
{
    match best {
        None => Some((j, w)),
        Some(b) => {
            if w > b.1 || (w == b.1 && j < b.0) {
                Some((j, w))
            } else {
                best
            }
        },
    }
}

/// The heaviest live neighbour among edge-refs `lo..hi`.
fn heaviest_live(
    edges: &Vec<u32>,
    edge_weights: &Vec<u32>,
    states: &Vec<MatchState>,
    lo: u32,
    hi: u32,
) -> (r: Option<(u32, u32)>)
    requires
        lo <= hi <= edges@.len(),
        edge_weights@.len() == edges@.len(),
    ensures
        r == heaviest(edges@, edge_weights@, live_target(states@), lo as int, hi as int),
{
    let mut best: Option<(u32, u32)> = None;
    let mut k: u32 = lo;
    proof {
        reveal(heaviest);
    }
    while k < hi
        invariant
            lo <= k <= hi <= edges@.len(),
            edge_weights@.len() == edges@.len(),
            best == heaviest(edges@, edge_weights@, live_target(states@), lo as int, k as int),
        decreases hi - k,
    {
        proof {
            reveal(heaviest);
        }
        let j = edges[k as usize];
        let w = edge_weights[k as usize];
        if (j as usize) < states.len() {
            let status = states[j as usize].status();
            if status == MatchStatus::Blue || status == MatchStatus::Red {
                best = heavier(best, j, w);
            }
        }
        k = k + 1;
    }
    best
}

/// The heaviest blue neighbour that proposed to node `i`, among edge-refs
/// `lo..hi`.
fn heaviest_proposer(
    edges: &Vec<u32>,
    edge_weights: &Vec<u32>,
    states: &Vec<MatchState>,
    proposals: &Vec<u32>,
    i: u32,
    lo: u32,
    hi: u32,
) -> (r: Option<(u32, u32)>)
    requires
        lo <= hi <= edges@.len(),
        edge_weights@.len() == edges@.len(),
    ensures
        r == heaviest(edges@, edge_weights@, proposer_of(states@, proposals@, i as int), lo as int, hi as int),
{
    let mut best: Option<(u32, u32)> = None;
    let mut k: u32 = lo;
    proof {
        reveal(heaviest);
    }
    while k < hi
        invariant
            lo <= k <= hi <= edges@.len(),
            edge_weights@.len() == edges@.len(),
            best == heaviest(edges@, edge_weights@, proposer_of(states@, proposals@, i as int), lo as int, k as int),
        decreases hi - k,
    {
        proof {
            reveal(heaviest);
        }
        let j = edges[k as usize];
        let w = edge_weights[k as usize];
        if (j as usize) < states.len() && (j as usize) < proposals.len() {
            if states[j as usize].status() == MatchStatus::Blue && proposals[j as usize] == i {
                best = heavier(best, j, w);
            }
        }
        k = k + 1;
    }
    best
}

/// The proposal step: every blue node proposes to its heaviest live
/// neighbour (the smaller index among equal weights), or dies when it has no
/// live neighbour. Returns the new states and proposals.
pub fn make_proposals(
    edge_offset: &Vec<u32>,
    edges: &Vec<u32>,
    edge_weights: &Vec<u32>,
    states: &Vec<MatchState>,
    proposals: &Vec<u32>,
) -> (r: (Vec<MatchState>, Vec<u32>))
    requires
        csr_well_formed(edge_offset@, edges@, edge_weights@),
        states@.len() == edge_offset@.len(),
        proposals@.len() == edge_offset@.len(),
    ensures
        r.0@ == proposed_states(edge_offset@, edges@, edge_weights@, states@),
        r.1@ == proposed_targets(edge_offset@, edges@, edge_weights@, states@, proposals@),
{
    let n = edge_offset.len();
    let m = edges.len();
    let mut out_states: Vec<MatchState> = Vec::new();
    let mut out_proposals: Vec<u32> = Vec::new();
    let mut i: usize = 0;
    while i < n
        invariant
            i <= n,
            n == edge_offset@.len(),
            m == edges@.len(),
            csr_well_formed(edge_offset@, edges@, edge_weights@),
            states@.len() == n,
            proposals@.len() == n,
            out_states@ == proposed_states(edge_offset@, edges@, edge_weights@, states@).take(i as int),
            out_proposals@ == proposed_targets(edge_offset@, edges@, edge_weights@, states@, proposals@).take(i as int),
        decreases n - i,
    {
        let st = states[i];
        if st.status() == MatchStatus::Blue {
            let hi = node_range_end(edge_offset, m, i);
            let best = heaviest_live(edges, edge_weights, states, edge_offset[i], hi);
            match best {
                Some(b) => {
                    out_states.push(st);
                    out_proposals.push(b.0);
                },
                None => {
                    out_states.push(MatchState::new(MatchStatus::Dead, 0));
                    out_proposals.push(proposals[i]);
                },
            }
        } else {
            out_states.push(st);
            out_proposals.push(proposals[i]);
        }
        proof {
            assert(out_states@ =~= proposed_states(edge_offset@, edges@, edge_weights@, states@).take(i + 1));
            assert(out_proposals@ =~= proposed_targets(edge_offset@, edges@, edge_weights@, states@, proposals@).take(i + 1));
        }
        i = i + 1;
    }
    proof {
        assert(out_states@ =~= proposed_states(edge_offset@, edges@, edge_weights@, states@));
        assert(out_proposals@ =~= proposed_targets(edge_offset@, edges@, edge_weights@, states@, proposals@));
    }
    (out_states, out_proposals)
}

/// The heaviest blue neighbour that proposed to node `i`.
pub open spec fn accepted_partner(
    edge_offset: Seq<u32>,
    edges: Seq<u32>,
    edge_weights: Seq<u32>,
    states: Seq<MatchState>,
    proposals: Seq<u32>,
    i: int,
) -> Option<(u32, u32)> {
    heaviest(
        edges,
        edge_weights,
        proposer_of(states, proposals, i),
        edge_offset[i] as int,
        range_end(edge_offset, edges.len(), i),
    )
}

/// The states after acceptance: a red node that some blue neighbour proposed
/// to is matched to the heaviest such neighbour.
pub open spec fn accepted_states(
    edge_offset: Seq<u32>,
    edges: Seq<u32>,
    edge_weights: Seq<u32>,
    states: Seq<MatchState>,
    proposals: Seq<u32>,
) -> Seq<MatchState> {
    Seq::new(
        states.len(),
        |i: int|
            if states[i].spec_status() == MatchStatus::Red && accepted_partner(edge_offset, edges, edge_weights, states, proposals, i) is Some {
                MatchState::spec_new(
                    MatchStatus::Matched,
                    accepted_partner(edge_offset, edges, edge_weights, states, proposals, i).unwrap().0,
                )
            } else {
                states[i]
            },
    )
}

/// A blue node `i` whose proposal was accepted: the node it proposed to is
/// now matched to `i`.
pub open spec fn proposal_accepted(states: Seq<MatchState>, proposals: Seq<u32>, i: int) -> bool {
    &&& states[i].spec_status() == MatchStatus::Blue
    &&& proposals[i] < states.len()
    &&& states[proposals[i] as int].spec_status() == MatchStatus::Matched
    &&& states[proposals[i] as int].spec_index() == i
}

/// The states after confirmation: a blue node whose proposal was accepted is
/// matched to the node it proposed to.
pub open spec fn confirmed_states(states: Seq<MatchState>, proposals: Seq<u32>) -> Seq<MatchState> {
    Seq::new(
        states.len(),
        |i: int|
            if proposal_accepted(states, proposals, i) {
                MatchState::spec_new(MatchStatus::Matched, proposals[i])
            } else {
                states[i]
            },
    )
}

/// The matching step: red nodes accept their heaviest proposer, then blue
/// nodes whose proposal was accepted match in turn.
pub open spec fn found_matches(
    edge_offset: Seq<u32>,
    edges: Seq<u32>,
    edge_weights: Seq<u32>,
    states: Seq<MatchState>,
    proposals: Seq<u32>,
) -> Seq<MatchState> {
    confirmed_states(accepted_states(edge_offset, edges, edge_weights, states, proposals), proposals)
}

/// Red nodes accept the heaviest blue neighbour that proposed to them.
fn accept_proposals(
    edge_offset: &Vec<u32>,
    edges: &Vec<u32>,
    edge_weights: &Vec<u32>,
    states: &Vec<MatchState>,
    proposals: &Vec<u32>,
) -> (r: Vec<MatchState>)
    requires
        csr_well_formed(edge_offset@, edges@, edge_weights@),
        states@.len() == edge_offset@.len(),
        proposals@.len() == edge_offset@.len(),
    ensures
        r@ == accepted_states(edge_offset@, edges@, edge_weights@, states@, proposals@),
{
    let n = edge_offset.len();
    let m = edges.len();
    let mut out: Vec<MatchState> = Vec::new();
    let mut i: usize = 0;
    while i < n
        invariant
            i <= n,
            n == edge_offset@.len(),
            m == edges@.len(),
            csr_well_formed(edge_offset@, edges@, edge_weights@),
            states@.len() == n,
            proposals@.len() == n,
            out@ == accepted_states(edge_offset@, edges@, edge_weights@, states@, proposals@).take(i as int),
        decreases n - i,
    {
        let st = states[i];
        let mut next = st;
        if st.status() == MatchStatus::Red {
            let hi = node_range_end(edge_offset, m, i);
            let best = heaviest_proposer(edges, edge_weights, states, proposals, i as u32, edge_offset[i], hi);
            if let Some(b) = best {
                proof {
                    lemma_heaviest_found(edges@, edge_weights@, proposer_of(states@, proposals@, i as int), edge_offset@[i as int] as int, hi as int);
                    let k = choose|k: int| edge_offset@[i as int] <= k < hi && edges@[k] == b.0;
                    assert(edges@[k] < n);
                }
                next = MatchState::new(MatchStatus::Matched, b.0);
            }
        }
        out.push(next);
        proof {
            assert(out@ =~= accepted_states(edge_offset@, edges@, edge_weights@, states@, proposals@).take(i + 1));
        }
        i = i + 1;
    }
    proof {
        assert(out@ =~= accepted_states(edge_offset@, edges@, edge_weights@, states@, proposals@));
    }
    out
}

/// Blue nodes whose proposal was accepted match the node they proposed to.
fn confirm_matches(states: &Vec<MatchState>, proposals: &Vec<u32>) -> (r: Vec<MatchState>)
    requires
        states@.len() < MAX_NODES,
        proposals@.len() == states@.len(),
        forall|i: int| 0 <= i < proposals@.len() ==> #[trigger] proposals@[i] < MAX_NODES,
    ensures
        r@ == confirmed_states(states@, proposals@),
{
    let n = states.len();
    let mut out: Vec<MatchState> = Vec::new();
    let mut i: usize = 0;
    while i < n
        invariant
            i <= n,
            n == states@.len(),
            n < MAX_NODES,
            proposals@.len() == n,
            forall|i: int| 0 <= i < proposals@.len() ==> #[trigger] proposals@[i] < MAX_NODES,
            out@ == confirmed_states(states@, proposals@).take(i as int),
        decreases n - i,
    {
        let st = states[i];
        let t = proposals[i];
        let mut next = st;
        if st.status() == MatchStatus::Blue && (t as usize) < n {
            let other = states[t as usize];
            if other.status() == MatchStatus::Matched && other.match_index() == i as u32 {
                next = MatchState::new(MatchStatus::Matched, t);
            }
        }
        out.push(next);
        proof {
            assert(out@ =~= confirmed_states(states@, proposals@).take(i + 1));
        }
        i = i + 1;
    }
    proof {
        assert(out@ =~= confirmed_states(states@, proposals@));
    }
    out
}

/// The matching step of a round: red nodes accept their heaviest proposer,
/// then each blue node whose proposal was accepted matches too.
pub fn find_matches(
    edge_offset: &Vec<u32>,
    edges: &Vec<u32>,
    edge_weights: &Vec<u32>,
    states: &Vec<MatchState>,
    proposals: &Vec<u32>,
) -> (r: Vec<MatchState>)
    requires
        csr_well_formed(edge_offset@, edges@, edge_weights@),
        states@.len() == edge_offset@.len(),
        proposals@.len() == edge_offset@.len(),
        forall|i: int| 0 <= i < proposals@.len() ==> #[trigger] proposals@[i] < MAX_NODES,
    ensures
        r@ == found_matches(edge_offset@, edges@, edge_weights@, states@, proposals@),
{
    let mid = accept_proposals(edge_offset, edges, edge_weights, states, proposals);
    confirm_matches(&mid, proposals)
}

/// The coarse index that finalization gives node `i`: the smaller index of a
/// matched pair, or the node's own index.
pub open spec fn finalized_entry(states: Seq<MatchState>, i: int) -> u32 {
    if states[i].spec_status() == MatchStatus::Matched && states[i].spec_index() < i {
        states[i].spec_index()
    } else {
        i as u32
    }
}

/// The matching after finalization.
pub open spec fn finalized(states: Seq<MatchState>) -> Seq<u32> {
    Seq::new(states.len(), |i: int| finalized_entry(states, i))
}

/// Rewrites each node's state into its coarse index: both nodes of a matched
/// pair take the smaller of their two indices, every other node its own.
pub fn finalize_matching(states: &Vec<MatchState>) -> (r: Vec<u32>)
    requires
        states@.len() < MAX_NODES,
    ensures
        r@ == finalized(states@),
{
    let n = states.len();
    let mut out: Vec<u32> = Vec::new();
    let mut i: usize = 0;
    while i < n
        invariant
            i <= n,
            n == states@.len(),
            n < MAX_NODES,
            out@ == finalized(states@).take(i as int),
        decreases n - i,
    {
        let st = states[i];
        if st.status() == MatchStatus::Matched && (st.match_index() as usize) < i {
            out.push(st.match_index());
        } else {
            out.push(i as u32);
        }
        proof {
            assert(out@ =~= finalized(states@).take(i + 1));
        }
        i = i + 1;
    }
    proof {
        assert(out@ =~= finalized(states@));
    }
    out
}

/// One round: colouring; then, if any node is live, proposals and matching.
/// Gives the new states and proposals.
pub open spec fn matching_round(
    edge_offset: Seq<u32>,
    edges: Seq<u32>,
    edge_weights: Seq<u32>,
    states: Seq<MatchState>,
    proposals: Seq<u32>,
    seed: u32,
) -> (Seq<MatchState>, Seq<u32>) {
    let c = colored(states, seed);
    if !any_live(states) {
        (c, proposals)
    } else {
        let proposed = proposed_states(edge_offset, edges, edge_weights, c);
        let targets = proposed_targets(edge_offset, edges, edge_weights, c, proposals);
        (found_matches(edge_offset, edges, edge_weights, proposed, targets), targets)
    }
}

/// The states and proposals after the first `r` rounds, one per seed.
pub open spec fn matching_rounds(
    edge_offset: Seq<u32>,
    edges: Seq<u32>,
    edge_weights: Seq<u32>,
    seeds: Seq<u32>,
    r: nat,
) -> (Seq<MatchState>, Seq<u32>)
    decreases r,
{
    if r == 0 {
        (
            Seq::new(edge_offset.len(), |i: int| MatchState::spec_new(MatchStatus::Blue, 0)),
            Seq::new(edge_offset.len(), |i: int| 0u32),
        )
    } else {
        let prev = matching_rounds(edge_offset, edges, edge_weights, seeds, (r - 1) as nat);
        matching_round(edge_offset, edges, edge_weights, prev.0, prev.1, seeds[r - 1])
    }
}

/// The finalized matching of a graph after one round per seed.
pub open spec fn matching_of(edge_offset: Seq<u32>, edges: Seq<u32>, edge_weights: Seq<u32>, seeds: Seq<u32>) -> Seq<u32> {
    finalized(matching_rounds(edge_offset, edges, edge_weights, seeds, seeds.len()).0)
}

/// Every matched node names a distinct neighbour that is matched back to it.
pub open spec fn pairing_valid(edge_offset: Seq<u32>, edges: Seq<u32>, states: Seq<MatchState>) -> bool {
    forall|i: int|
        0 <= i < states.len() && (#[trigger] states[i]).spec_status() == MatchStatus::Matched ==> {
            let j = states[i].spec_index() as int;
            &&& 0 <= j < states.len()
            &&& j != i
            &&& states[j].spec_status() == MatchStatus::Matched
            &&& states[j].spec_index() == i
            &&& has_edge(edge_offset, edges, i, j)
        }
}

/// Every proposal names a node.
pub open spec fn proposals_in_range(proposals: Seq<u32>, n: nat) -> bool {
    forall|i: int| 0 <= i < proposals.len() ==> (#[trigger] proposals[i]) < n
}

/// The packed words that the kernels write unpack as written.
proof fn lemma_words_unpack()
    ensures
        forall|s: MatchStatus, x: u32| x < MAX_NODES ==> (#[trigger] MatchState::spec_new(s, x)).spec_status() == s
            && MatchState::spec_new(s, x).spec_index() == x,
{
    assert forall|s: MatchStatus, x: u32| x < MAX_NODES implies (#[trigger] MatchState::spec_new(s, x)).spec_status() == s
        && MatchState::spec_new(s, x).spec_index() == x by {
        MatchState::lemma_spec_new(s, x);
    }
}

/// Colouring keeps the pairing valid.
proof fn lemma_colored_valid(edge_offset: Seq<u32>, edges: Seq<u32>, states: Seq<MatchState>, seed: u32)
    requires
        states.len() < MAX_NODES,
        pairing_valid(edge_offset, edges, states),
    ensures
        pairing_valid(edge_offset, edges, colored(states, seed)),
{
    let c = colored(states, seed);
    assert forall|i: int| 0 <= i < c.len() && (#[trigger] c[i]).spec_status() == MatchStatus::Matched implies
        c[i] == states[i] by {
        if states[i].spec_status().is_live() {
            MatchState::lemma_spec_new(node_color(seed, i as u32), 0);
        }
    }
}

/// The proposal step keeps the pairing valid, and every blue node that is
/// left has proposed to one of its neighbours.
proof fn lemma_proposed_valid(
    edge_offset: Seq<u32>,
    edges: Seq<u32>,
    edge_weights: Seq<u32>,
    states: Seq<MatchState>,
    proposals: Seq<u32>,
)
    requires
        csr_well_formed(edge_offset, edges, edge_weights),
        states.len() == edge_offset.len(),
        proposals.len() == edge_offset.len(),
        pairing_valid(edge_offset, edges, states),
        proposals_in_range(proposals, edge_offset.len()),
    ensures
        ({
            let proposed = proposed_states(edge_offset, edges, edge_weights, states);
            let targets = proposed_targets(edge_offset, edges, edge_weights, states, proposals);
            &&& pairing_valid(edge_offset, edges, proposed)
            &&& proposals_in_range(targets, edge_offset.len())
            &&& forall|i: int| 0 <= i < edge_offset.len() && (#[trigger] proposed[i]).spec_status() == MatchStatus::Blue ==>
                has_edge(edge_offset, edges, i, targets[i] as int)
        }),
{
    let n = edge_offset.len();
    let proposed = proposed_states(edge_offset, edges, edge_weights, states);
    let targets = proposed_targets(edge_offset, edges, edge_weights, states, proposals);
    MatchState::lemma_spec_new(MatchStatus::Dead, 0);
    assert forall|i: int| 0 <= i < n implies (#[trigger] targets[i]) < n && (proposed[i].spec_status() == MatchStatus::Blue ==>
        has_edge(edge_offset, edges, i, targets[i] as int)) by {
        if states[i].spec_status() == MatchStatus::Blue && proposal_of(edge_offset, edges, edge_weights, states, i) is Some {
            let lo = edge_offset[i] as int;
            let hi = range_end(edge_offset, edges.len(), i);
            lemma_heaviest_found(edges, edge_weights, live_target(states), lo, hi);
            let k = choose|k: int| lo <= k < hi && edges[k] == targets[i];
            lemma_has_edge(edge_offset, edges, i, edges[k] as int, k);
        }
    }
    assert forall|i: int| 0 <= i < n && (#[trigger] proposed[i]).spec_status() == MatchStatus::Matched implies
        proposed[i] == states[i] by {
    }
}

/// The matching step's conditions on its inputs: a valid pairing, proposals
/// in range, and every blue node proposing to one of its neighbours.
pub open spec fn found_ready(
    edge_offset: Seq<u32>,
    edges: Seq<u32>,
    edge_weights: Seq<u32>,
    proposed: Seq<MatchState>,
    targets: Seq<u32>,
) -> bool {
    &&& csr_well_formed(edge_offset, edges, edge_weights)
    &&& proposed.len() == edge_offset.len()
    &&& targets.len() == edge_offset.len()
    &&& pairing_valid(edge_offset, edges, proposed)
    &&& proposals_in_range(targets, edge_offset.len())
    &&& forall|i: int| 0 <= i < edge_offset.len() && (#[trigger] proposed[i]).spec_status() == MatchStatus::Blue ==>
        has_edge(edge_offset, edges, i, targets[i] as int)
}

/// After the matching step, a node that is matched names a distinct
/// neighbour matched back to it.
proof fn lemma_found_node(
    edge_offset: Seq<u32>,
    edges: Seq<u32>,
    edge_weights: Seq<u32>,
    proposed: Seq<MatchState>,
    targets: Seq<u32>,
    i: int,
)
    requires
        found_ready(edge_offset, edges, edge_weights, proposed, targets),
        0 <= i < proposed.len(),
        found_matches(edge_offset, edges, edge_weights, proposed, targets)[i].spec_status() == MatchStatus::Matched,
    ensures
        ({
            let f = found_matches(edge_offset, edges, edge_weights, proposed, targets);
            let j = f[i].spec_index() as int;
            &&& 0 <= j < f.len()
            &&& j != i
            &&& f[j].spec_status() == MatchStatus::Matched
            &&& f[j].spec_index() == i
            &&& has_edge(edge_offset, edges, i, j)
        }),
{
    let n = edge_offset.len();
    let mid = accepted_states(edge_offset, edges, edge_weights, proposed, targets);
    let f = confirmed_states(mid, targets);
    if proposed[i].spec_status() == MatchStatus::Matched {
        let j = proposed[i].spec_index() as int;
        assert(mid[i] == proposed[i]);
        assert(mid[j] == proposed[j]);
        assert(f[i] == mid[i]);
        assert(f[j] == mid[j]);
    } else if proposed[i].spec_status() == MatchStatus::Red {
        let b = accepted_partner(edge_offset, edges, edge_weights, proposed, targets, i);
        let lo = edge_offset[i] as int;
        let hi = range_end(edge_offset, edges.len(), i);
        if b is Some {
            lemma_heaviest_found(edges, edge_weights, proposer_of(proposed, targets, i), lo, hi);
            let j = b.unwrap().0 as int;
            let k = choose|k: int| lo <= k < hi && edges[k] == j;
            lemma_has_edge(edge_offset, edges, i, edges[k] as int, k);
            MatchState::lemma_spec_new(MatchStatus::Matched, j as u32);
            MatchState::lemma_spec_new(MatchStatus::Matched, i as u32);
            assert(mid[j] == proposed[j]);
            assert(proposal_accepted(mid, targets, j));
            assert(f[i] == mid[i]);
        } else {
            assert(f[i] == mid[i]);
            assert(mid[i] == proposed[i]);
        }
    } else if proposed[i].spec_status() == MatchStatus::Blue {
        assert(mid[i] == proposed[i]);
        if proposal_accepted(mid, targets, i) {
            let t = targets[i] as int;
            MatchState::lemma_spec_new(MatchStatus::Matched, t as u32);
            assert(f[t] == mid[t]);
        } else {
            assert(f[i] == mid[i]);
        }
    } else {
        assert(mid[i] == proposed[i]);
        assert(f[i] == mid[i]);
    }
}

/// The matching step keeps the pairing valid, where every blue node has
/// proposed to one of its neighbours.
proof fn lemma_found_valid(
    edge_offset: Seq<u32>,
    edges: Seq<u32>,
    edge_weights: Seq<u32>,
    proposed: Seq<MatchState>,
    targets: Seq<u32>,
)
    requires
        found_ready(edge_offset, edges, edge_weights, proposed, targets),
    ensures
        pairing_valid(edge_offset, edges, found_matches(edge_offset, edges, edge_weights, proposed, targets)),
{
    let f = found_matches(edge_offset, edges, edge_weights, proposed, targets);
    assert forall|i: int| 0 <= i < f.len() && (#[trigger] f[i]).spec_status() == MatchStatus::Matched implies {
        let j = f[i].spec_index() as int;
        &&& 0 <= j < f.len()
        &&& j != i
        &&& f[j].spec_status() == MatchStatus::Matched
        &&& f[j].spec_index() == i
        &&& has_edge(edge_offset, edges, i, j)
    } by {
        lemma_found_node(edge_offset, edges, edge_weights, proposed, targets, i);
    }
}

/// A round keeps the pairing valid and the proposals in range.
#[verifier::rlimit(60)]
pub proof fn lemma_round_valid(
    edge_offset: Seq<u32>,
    edges: Seq<u32>,
    edge_weights: Seq<u32>,
    states: Seq<MatchState>,
    proposals: Seq<u32>,
    seed: u32,
)
    requires
        csr_well_formed(edge_offset, edges, edge_weights),
        states.len() == edge_offset.len(),
        proposals.len() == edge_offset.len(),
        pairing_valid(edge_offset, edges, states),
        proposals_in_range(proposals, edge_offset.len()),
    ensures
        matching_round(edge_offset, edges, edge_weights, states, proposals, seed).0.len() == edge_offset.len(),
        matching_round(edge_offset, edges, edge_weights, states, proposals, seed).1.len() == edge_offset.len(),
        pairing_valid(edge_offset, edges, matching_round(edge_offset, edges, edge_weights, states, proposals, seed).0),
        proposals_in_range(matching_round(edge_offset, edges, edge_weights, states, proposals, seed).1, edge_offset.len()),
{
    let c = colored(states, seed);
    lemma_colored_valid(edge_offset, edges, states, seed);
    if any_live(states) {
        lemma_proposed_valid(edge_offset, edges, edge_weights, c, proposals);
        let proposed = proposed_states(edge_offset, edges, edge_weights, c);
        let targets = proposed_targets(edge_offset, edges, edge_weights, c, proposals);
        lemma_found_valid(edge_offset, edges, edge_weights, proposed, targets);
    }
}

/// Runs one round per seed from the all-blue start and finalizes: the
/// matching of a graph whose arrays hold exactly its live nodes and edges.
pub fn match_pairs(
    edge_offset: &Vec<u32>,
    edges: &Vec<u32>,
    edge_weights: &Vec<u32>,
    seeds: &Vec<u32>,
) -> (r: Vec<u32>)
    requires
        csr_well_formed(edge_offset@, edges@, edge_weights@),
    ensures
        r@ == matching_of(edge_offset@, edges@, edge_weights@, seeds@),
        is_matching_labelling(edge_offset@, edges@, r@),
{
    let n = edge_offset.len();
    let mut states: Vec<MatchState> = Vec::new();
    let mut proposals: Vec<u32> = Vec::new();
    let mut i: usize = 0;
    while i < n
        invariant
            i <= n,
            n == edge_offset@.len(),
            states@ == Seq::new(i as nat, |k: int| MatchState::spec_new(MatchStatus::Blue, 0)),
            proposals@ == Seq::new(i as nat, |k: int| 0u32),
        decreases n - i,
    {
        states.push(MatchState::new(MatchStatus::Blue, 0));
        proposals.push(0);
        proof {
            assert(states@ =~= Seq::new((i + 1) as nat, |k: int| MatchState::spec_new(MatchStatus::Blue, 0)));
            assert(proposals@ =~= Seq::new((i + 1) as nat, |k: int| 0u32));
        }
        i = i + 1;
    }
    proof {
        lemma_words_unpack();
        assert(states@ == matching_rounds(edge_offset@, edges@, edge_weights@, seeds@, 0).0);
        assert(proposals@ == matching_rounds(edge_offset@, edges@, edge_weights@, seeds@, 0).1);
    }
    let mut round: usize = 0;
    while round < seeds.len()
        invariant
            round <= seeds@.len(),
            n == edge_offset@.len(),
            csr_well_formed(edge_offset@, edges@, edge_weights@),
            states@.len() == n,
            proposals@.len() == n,
            states@ == matching_rounds(edge_offset@, edges@, edge_weights@, seeds@, round as nat).0,
            proposals@ == matching_rounds(edge_offset@, edges@, edge_weights@, seeds@, round as nat).1,
            pairing_valid(edge_offset@, edges@, states@),
            proposals_in_range(proposals@, n as nat),
        decreases seeds@.len() - round,
    {
        proof {
            lemma_round_valid(edge_offset@, edges@, edge_weights@, states@, proposals@, seeds@[round as int]);
        }
        let (c, live) = assign_node_colors(&states, seeds[round]);
        if live {
            let (proposed, targets) = make_proposals(edge_offset, edges, edge_weights, &c, &proposals);
            states = find_matches(edge_offset, edges, edge_weights, &proposed, &targets);
            proposals = targets;
        } else {
            states = c;
        }
        round = round + 1;
    }
    proof {
        lemma_finalized_is_matching(edge_offset@, edges@, states@);
    }
    finalize_matching(&states)
}

/// `labels` is a finalized matching of the graph: each node's label is its
/// own index or a smaller one; a label's own node keeps it; no three nodes
/// share a label; and two nodes that share a label are joined by an edge.
pub open spec fn is_matching_labelling(edge_offset: Seq<u32>, edges: Seq<u32>, labels: Seq<u32>) -> bool {
    &&& labels.len() == edge_offset.len()
    &&& forall|i: int| 0 <= i < labels.len() ==> (#[trigger] labels[i]) <= i && labels[labels[i] as int] == labels[i]
    &&& forall|a: int, b: int|
        0 <= a < labels.len() && 0 <= b < labels.len() && a != b && #[trigger] labels[a] == #[trigger] labels[b] ==> a
            == labels[a] || b == labels[b]
    &&& forall|i: int, j: int|
        0 <= i < labels.len() && 0 <= j < labels.len() && i != j && #[trigger] labels[i] == #[trigger] labels[j]
            && labels[i] != i ==> has_edge(edge_offset, edges, i, j)
}

/// Finalizing a valid pairing gives a matching labelling: every node is
/// labelled by itself or by its partner, pairs share the smaller index, and
/// the two nodes of a pair are adjacent.
pub proof fn lemma_finalized_is_matching(edge_offset: Seq<u32>, edges: Seq<u32>, states: Seq<MatchState>)
    requires
        states.len() == edge_offset.len(),
        states.len() < MAX_NODES,
        pairing_valid(edge_offset, edges, states),
    ensures
        is_matching_labelling(edge_offset, edges, finalized(states)),
{
    let r = finalized(states);
    assert forall|i: int| 0 <= i < r.len() implies (#[trigger] r[i]) <= i && r[r[i] as int] == r[i] by {
        if r[i] != i {
            let j = states[i].spec_index() as int;
            assert(states[j].spec_index() == i);
        }
    }
    assert forall|a: int, b: int|
        0 <= a < r.len() && 0 <= b < r.len() && a != b && #[trigger] r[a] == #[trigger] r[b] implies a == r[a] || b
            == r[b] by {
        if a != r[a] && b != r[b] {
            let v = r[a] as int;
            assert(states[v].spec_index() == a);
            assert(states[v].spec_index() == b);
        }
    }
    assert forall|i: int, j: int|
        0 <= i < r.len() && 0 <= j < r.len() && i != j && #[trigger] r[i] == #[trigger] r[j] && r[i] != i implies
        has_edge(edge_offset, edges, i, j) by {
        let v = r[i] as int;
        if j != v {
            assert(states[v].spec_index() == i);
            assert(states[v].spec_index() == j);
        }
    }
}

/// How many rounds the matcher runs, and the seed of the generator that draws
/// each round's seed.
#[derive(Clone, Copy, PartialEq, Eq, Structural, Debug)]
pub struct MatchPairsByEdgeWeightConfig {
    pub rounds: usize,
    pub prng_seed: u32,
}

impl Default for MatchPairsByEdgeWeightConfig {
    /// Eight rounds, seed 1.
    fn default() -> (r: Self)
        ensures
            r.rounds == 8,
            r.prng_seed == 1,
    {
        MatchPairsByEdgeWeightConfig { rounds: 8, prng_seed: 1 }
    }
}

/// Live counts for buffers that hold more than the live graph.
#[derive(Clone, Copy, PartialEq, Eq, Structural, Debug)]
pub struct MatchPairsByEdgeWeightsCounts {
    pub node_count: u32,
    pub edge_ref_count: u32,
}

/// The graph to match, in CSR form, with optional live counts; without them
/// the whole buffers are the graph.
pub struct MatchPairsByEdgeWeightInput {
    pub nodes_edge_offset: Vec<u32>,
    pub nodes_edges: Vec<u32>,
    pub nodes_edge_weights: Vec<u32>,
    pub count: Option<MatchPairsByEdgeWeightsCounts>,
}

impl MatchPairsByEdgeWeightInput {
    /// The live node count.
    pub open spec fn live_node_count(&self) -> nat {
        match self.count {
            Some(c) => c.node_count as nat,
            None => self.nodes_edge_offset@.len(),
        }
    }

    /// The live edge-ref count.
    pub open spec fn live_edge_ref_count(&self) -> nat {
        match self.count {
            Some(c) => c.edge_ref_count as nat,
            None => self.nodes_edges@.len(),
        }
    }

    /// The live counts fit the buffers, and the live part is a graph.
    pub open spec fn wf(&self) -> bool {
        &&& self.nodes_edge_offset@.len() <= u32::MAX
        &&& self.nodes_edges@.len() <= u32::MAX
        &&& self.nodes_edge_weights@.len() == self.nodes_edges@.len()
        &&& self.live_node_count() <= self.nodes_edge_offset@.len()
        &&& self.live_edge_ref_count() <= self.nodes_edges@.len()
        &&& csr_well_formed(self.live_edge_offset(), self.live_edges(), self.live_edge_weights())
    }

    /// The live part of the offsets.
    pub open spec fn live_edge_offset(&self) -> Seq<u32> {
        self.nodes_edge_offset@.take(self.live_node_count() as int)
    }

    /// The live part of the edges.
    pub open spec fn live_edges(&self) -> Seq<u32> {
        self.nodes_edges@.take(self.live_edge_ref_count() as int)
    }

    /// The live part of the weights.
    pub open spec fn live_edge_weights(&self) -> Seq<u32> {
        self.nodes_edge_weights@.take(self.live_edge_ref_count() as int)
    }
}

/// The heavy-edge matcher: its configuration and the seed of each round.
pub struct MatchPairsByEdgeWeight {
    pub config: MatchPairsByEdgeWeightConfig,
    pub prng_seeds: Vec<u32>,
}

impl MatchPairsByEdgeWeight {
    /// The round seeds are those that the configuration's generator draws.
    pub open spec fn wf(&self) -> bool {
        self.prng_seeds@ == pcg32_stream(self.config.prng_seed as u64, self.config.rounds as nat)
    }

    /// Sets up a matcher, drawing one seed per round from a PCG-32 generator
    /// seeded with `config.prng_seed`.
    pub fn init(config: MatchPairsByEdgeWeightConfig) -> (r: Self)
        ensures
            r.config == config,
            r.wf(),
    {
        let prng_seeds = round_seeds(config.prng_seed, config.rounds);
        MatchPairsByEdgeWeight { config, prng_seeds }
    }

    /// Matches the live graph: returns, for each live node, its coarse index
    /// (the smaller index of its pair, or its own).
    pub fn encode(&self, input: &MatchPairsByEdgeWeightInput) -> (r: Vec<u32>)
        requires
            input.wf(),
        ensures
            r@ == matching_of(input.live_edge_offset(), input.live_edges(), input.live_edge_weights(), self.prng_seeds@),
            is_matching_labelling(input.live_edge_offset(), input.live_edges(), r@),
    {
        let fallback_node_count = input.nodes_edge_offset.len() as u32;
        let fallback_edge_ref_count = input.nodes_edges.len() as u32;
        let binding = match input.count {
            Some(c) => Some((c.node_count, c.edge_ref_count)),
            None => None,
        };
        let counts = FallbackCounts::new(binding, (fallback_node_count, fallback_edge_ref_count));
        let edge_offset = take_prefix(&input.nodes_edge_offset, counts.node_count() as usize);
        let edges = take_prefix(&input.nodes_edges, counts.edge_ref_count() as usize);
        let edge_weights = take_prefix(&input.nodes_edge_weights, counts.edge_ref_count() as usize);
        match_pairs(&edge_offset, &edges, &edge_weights, &self.prng_seeds)
    }
}

/// With a fixed configuration the matching is fixed: two matchers set up
/// from equal configurations label a graph alike.
pub proof fn lemma_matching_deterministic(
    a: MatchPairsByEdgeWeight,
    b: MatchPairsByEdgeWeight,
    edge_offset: Seq<u32>,
    edges: Seq<u32>,
    edge_weights: Seq<u32>,
)
    requires
        a.wf(),
        b.wf(),
        a.config == b.config,
    ensures
        matching_of(edge_offset, edges, edge_weights, a.prng_seeds@) == matching_of(
            edge_offset,
            edges,
            edge_weights,
            b.prng_seeds@,
        ),
{
}

} // verus!
