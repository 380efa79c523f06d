//! Weight conservation: contraction keeps the weight of every edge-ref that
//! does not become a self-loop.

use vstd::prelude::*;
use crate::coarsen_kernels::{
    collected_weights, edge_code, lemma_tag_edge, tagged_edges, validity_code, validity_flags, zeros, DUPLICATE, SELF_LOOP,
};
use crate::compaction::{
    compound_sorted, is_valid_edge, lemma_first_of_pair, lemma_slots_ordered, lemma_valid_before_steps,
    lemma_valid_edges_strictly_ordered, valid_before,
};
use crate::csr::{lemma_owner_unique, offsets_well_formed, owns, range_end};
use crate::match_state::MAX_NODES;
use crate::primitives::{inclusive_prefix_sum, sum_all, sum_prefix};

verus! {

/// Each edge-ref's weight where its owner and target differ, zero where
/// they are equal.
pub open spec fn kept_values(owners: Seq<u32>, targets: Seq<u32>, weights: Seq<u32>) -> Seq<u32> {
    Seq::new(weights.len(), |k: int| if owners[k] != targets[k] { weights[k] } else { 0u32 })
}

/// The weight of the fine edge-refs that join two different coarse nodes:
/// all weight but that of edge-refs inside one coarse node.
pub open spec fn kept_fine_weight(
    edge_offset: Seq<u32>,
    edges: Seq<u32>,
    edge_weights: Seq<u32>,
    fine_nodes_mapping: Seq<u32>,
) -> int {
    let owners = Seq::new(edges.len(), |k: int| fine_nodes_mapping[edge_owner(edge_offset, edges.len(), k)]);
    let targets = Seq::new(edges.len(), |k: int| fine_nodes_mapping[edges[k] as int]);
    sum_all(kept_values(owners, targets, edge_weights))
}

/// The node whose adjacency range holds edge-ref `k`.
pub open spec fn edge_owner(edge_offset: Seq<u32>, m: nat, k: int) -> int {
    choose|i: int| owns(edge_offset, m, i, k)
}

/// Every edge-ref lies in some node's range, found from node `i` on.
pub proof fn lemma_edge_has_owner(edge_offset: Seq<u32>, m: nat, k: int, i: int)
    requires
        offsets_well_formed(edge_offset, m),
        0 <= i < edge_offset.len(),
        edge_offset[i] <= k < m,
    ensures
        owns(edge_offset, m, edge_owner(edge_offset, m, k), k),
    decreases edge_offset.len() - i,
{
    if k < range_end(edge_offset, m, i) {
        assert(owns(edge_offset, m, i, k));
    } else {
        lemma_edge_has_owner(edge_offset, m, k, i + 1);
    }
}

/// Changing one entry changes the sum by the difference.
pub proof fn lemma_sum_update(s: Seq<u32>, i: int, v: u32, u: int)
    requires
        0 <= i < s.len(),
        0 <= u <= s.len(),
    ensures
        sum_prefix(s.update(i, v), u) == sum_prefix(s, u) + if i < u { v - s[i] } else { 0 },
    decreases u,
{
    if u > 0 {
        lemma_sum_update(s, i, v, u - 1);
    }
}

/// Sums are not negative, and no entry exceeds the sum.
pub proof fn lemma_sum_bounds(s: Seq<u32>, u: int)
    requires
        0 <= u <= s.len(),
    ensures
        sum_prefix(s, u) >= 0,
        forall|i: int| 0 <= i < u ==> s[i] <= sum_prefix(s, u),
    decreases u,
{
    if u > 0 {
        lemma_sum_bounds(s, u - 1);
    }
}

/// Sums of equal prefixes are equal.
pub proof fn lemma_sum_prefix_eq(a: Seq<u32>, b: Seq<u32>, u: int)
    requires
        0 <= u <= a.len(),
        0 <= u <= b.len(),
        forall|i: int| 0 <= i < u ==> a[i] == b[i],
    ensures
        sum_prefix(a, u) == sum_prefix(b, u),
    decreases u,
{
    if u > 0 {
        lemma_sum_prefix_eq(a, b, u - 1);
    }
}

/// Reordering a sequence by a permutation keeps its sum.
pub proof fn lemma_sum_permuted(g: Seq<u32>, perm: Seq<int>, inv: Seq<int>)
    requires
        perm.len() == g.len(),
        inv.len() == g.len(),
        forall|k: int| 0 <= k < g.len() ==> 0 <= #[trigger] perm[k] < g.len() && inv[perm[k]] == k,
        forall|x: int| 0 <= x < g.len() ==> 0 <= #[trigger] inv[x] < g.len() && perm[inv[x]] == x,
    ensures
        sum_all(Seq::new(g.len(), |k: int| g[perm[k]])) == sum_all(g),
    decreases g.len(),
{
    let n = g.len() as int;
    let h = Seq::new(g.len(), |k: int| g[perm[k]]);
    if n > 0 {
        let j = inv[n - 1];
        let last = perm[n - 1];
        let perm2 = Seq::new((n - 1) as nat, |k: int| if k == j { last } else { perm[k] });
        let inv2 = Seq::new((n - 1) as nat, |x: int| if x == last { j } else { inv[x] });
        let g2 = g.take(n - 1);
        assert forall|k: int| 0 <= k < n - 1 implies 0 <= #[trigger] perm2[k] < n - 1 && inv2[perm2[k]] == k by {
            if k == j {
                assert(last != n - 1);
            } else {
                assert(perm[k] != n - 1);
            }
        }
        assert forall|x: int| 0 <= x < n - 1 implies 0 <= #[trigger] inv2[x] < n - 1 && perm2[inv2[x]] == x by {
            if x == last {
                assert(j != n - 1);
            } else {
                assert(inv[x] != n - 1);
                assert(inv[x] != j);
            }
        }
        lemma_sum_permuted(g2, perm2, inv2);
        let h2 = Seq::new((n - 1) as nat, |k: int| g2[perm2[k]]);
        // h2 is h's first n - 1 entries with the entry at j replaced.
        if j < n - 1 {
            let h3 = h.update(j, g[last]);
            lemma_sum_update(h, j, g[last], n - 1);
            lemma_sum_prefix_eq(h2, h3, n - 1);
            assert(h[j] == g[n - 1]);
        } else {
            lemma_sum_prefix_eq(h2, h, n - 1);
        }
        lemma_sum_prefix_eq(g2, g, n - 1);
    }
}

/// A duplicate or valid edge has a valid edge at or before it, so its slot
/// is at least one.
pub proof fn lemma_kept_edge_slot(owners: Seq<u32>, targets: Seq<u32>, k: int)
    requires
        owners.len() == targets.len(),
        0 <= k < targets.len(),
        validity_code(owners, targets, k) != SELF_LOOP,
    ensures
        valid_before(owners, targets, k + 1) >= 1,
    decreases k,
{
    let f = validity_flags(owners, targets);
    assert(sum_prefix(f, k + 1) == sum_prefix(f, k) + f[k]);
    lemma_valid_before_steps(owners, targets, 0, k);
    if validity_code(owners, targets, k) == DUPLICATE {
        lemma_kept_edge_slot(owners, targets, k - 1);
    }
}

/// Collecting weights keeps the weight of every duplicate and valid edge,
/// when their total fits a word.
pub proof fn lemma_collected_sum(owners: Seq<u32>, targets: Seq<u32>, weights: Seq<u32>, len: nat, u: int)
    requires
        owners.len() == targets.len(),
        weights.len() == targets.len(),
        targets.len() < u32::MAX,
        forall|k: int| 0 <= k < targets.len() ==> #[trigger] targets[k] < MAX_NODES,
        len == valid_before(owners, targets, targets.len() as int),
        sum_all(weights) <= u32::MAX,
        0 <= u <= targets.len(),
    ensures
        ({
            let c = collected_weights(
                tagged_edges(owners, targets),
                weights,
                inclusive_prefix_sum(validity_flags(owners, targets)),
                len,
                u,
            );
            &&& c.len() == len
            &&& sum_all(c) == sum_prefix(kept_values(owners, targets, weights), u)
            &&& sum_prefix(kept_values(owners, targets, weights), u) <= sum_prefix(weights, u)
        }),
    decreases u,
{
    let tagged = tagged_edges(owners, targets);
    let prefix = inclusive_prefix_sum(validity_flags(owners, targets));
    let kept = kept_values(owners, targets, weights);
    let m = targets.len() as int;
    if u == 0 {
        let z = zeros(len);
        assert forall|i: int| 0 <= i <= len implies sum_prefix(z, i) == 0 by {
            lemma_zero_sum(len, i);
        }
    } else {
        let k = u - 1;
        lemma_collected_sum(owners, targets, weights, len, k);
        let acc = collected_weights(tagged, weights, prefix, len, k);
        let f = validity_flags(owners, targets);
        lemma_tag_edge(validity_code(owners, targets, k), targets[k]);
        assert(edge_code(tagged[k]) == validity_code(owners, targets, k));
        lemma_valid_before_steps(owners, targets, k + 1, m);
        lemma_valid_before_steps(owners, targets, 0, k + 1);
        lemma_valid_before_steps(owners, targets, 0, m);
        assert(prefix[k] == sum_prefix(f, k + 1));
        lemma_sum_bounds(weights, m);
        lemma_sum_grows(weights, u, m);
        if validity_code(owners, targets, k) != SELF_LOOP {
            lemma_kept_edge_slot(owners, targets, k);
            let s = prefix[k] - 1;
            lemma_sum_bounds(acc, len as int);
            assert(acc[s] + weights[k] <= u32::MAX);
            lemma_sum_update(acc, s, (acc[s] + weights[k]) as u32, len as int);
        }
    }
}

/// Zeros sum to zero.
proof fn lemma_zero_sum(len: nat, i: int)
    requires
        0 <= i <= len,
    ensures
        sum_prefix(zeros(len), i) == 0,
    decreases i,
{
    if i > 0 {
        lemma_zero_sum(len, i - 1);
    }
}

/// Prefix sums grow with the prefix.
proof fn lemma_sum_grows(s: Seq<u32>, i: int, j: int)
    requires
        0 <= i <= j <= s.len(),
    ensures
        sum_prefix(s, i) <= sum_prefix(s, j),
    decreases j - i,
{
    if i < j {
        lemma_sum_grows(s, i, j - 1);
    }
}

/// Each edge-ref's weight where it runs from `c` to `d`, zero elsewhere.
pub open spec fn pair_values(owners: Seq<u32>, targets: Seq<u32>, weights: Seq<u32>, c: int, d: int) -> Seq<u32> {
    Seq::new(weights.len(), |k: int| if owners[k] == c && targets[k] == d { weights[k] } else { 0u32 })
}

/// Each edge-ref's weight where it is not a self-loop and collects into slot
/// `s`, zero elsewhere.
pub open spec fn slot_values(owners: Seq<u32>, targets: Seq<u32>, weights: Seq<u32>, s: int) -> Seq<u32> {
    Seq::new(
        weights.len(),
        |k: int|
            if targets[k] != owners[k] && valid_before(owners, targets, k + 1) - 1 == s {
                weights[k]
            } else {
                0u32
            },
    )
}

/// The total weight of the fine edge-refs from nodes mapped to `c` to nodes
/// mapped to `d`.
pub open spec fn joined_weight(
    edge_offset: Seq<u32>,
    edges: Seq<u32>,
    edge_weights: Seq<u32>,
    fine_nodes_mapping: Seq<u32>,
    c: int,
    d: int,
) -> int {
    let owners = Seq::new(edges.len(), |k: int| fine_nodes_mapping[edge_owner(edge_offset, edges.len(), k)]);
    let targets = Seq::new(edges.len(), |k: int| fine_nodes_mapping[edges[k] as int]);
    sum_all(pair_values(owners, targets, edge_weights, c, d))
}

/// Each slot of the collected weights holds the weight of the edges that
/// collect into it, when the total weight fits a word.
pub proof fn lemma_collected_slot(owners: Seq<u32>, targets: Seq<u32>, weights: Seq<u32>, len: nat, u: int)
    requires
        owners.len() == targets.len(),
        weights.len() == targets.len(),
        targets.len() < u32::MAX,
        forall|k: int| 0 <= k < targets.len() ==> #[trigger] targets[k] < MAX_NODES,
        len == valid_before(owners, targets, targets.len() as int),
        sum_all(weights) <= u32::MAX,
        0 <= u <= targets.len(),
    ensures
        forall|s: int|
            0 <= s < len ==> #[trigger] collected_weights(
                tagged_edges(owners, targets),
                weights,
                inclusive_prefix_sum(validity_flags(owners, targets)),
                len,
                u,
            )[s] == sum_prefix(slot_values(owners, targets, weights, s), u),
    decreases u,
{
    let tagged = tagged_edges(owners, targets);
    let prefix = inclusive_prefix_sum(validity_flags(owners, targets));
    let m = targets.len() as int;
    if u == 0 {
        assert forall|s: int| 0 <= s < len implies #[trigger] collected_weights(tagged, weights, prefix, len, u)[s]
            == sum_prefix(slot_values(owners, targets, weights, s), u) by {
        }
    } else {
        let k = u - 1;
        lemma_collected_slot(owners, targets, weights, len, k);
        lemma_collected_sum(owners, targets, weights, len, k);
        let acc = collected_weights(tagged, weights, prefix, len, k);
        let f = validity_flags(owners, targets);
        lemma_tag_edge(validity_code(owners, targets, k), targets[k]);
        assert(edge_code(tagged[k]) == validity_code(owners, targets, k));
        lemma_valid_before_steps(owners, targets, k + 1, m);
        lemma_valid_before_steps(owners, targets, 0, k + 1);
        assert(prefix[k] == sum_prefix(f, k + 1));
        lemma_sum_bounds(weights, m);
        lemma_sum_grows(weights, u, m);
        lemma_sum_bounds(acc, len as int);
        if validity_code(owners, targets, k) != SELF_LOOP {
            lemma_kept_edge_slot(owners, targets, k);
            let slot = prefix[k] - 1;
            assert(acc[slot] + weights[k] <= u32::MAX);
        }
        assert forall|s: int| 0 <= s < len implies #[trigger] collected_weights(tagged, weights, prefix, len, u)[s]
            == sum_prefix(slot_values(owners, targets, weights, s), u) by {
            assert(collected_weights(tagged, weights, prefix, len, k)[s] == sum_prefix(
                slot_values(owners, targets, weights, s),
                k,
            ));
        }
    }
}

/// An edge that is not a self-loop collects into the slot of a valid edge
/// exactly when the two share their `(owner, target)` pair.
pub proof fn lemma_slot_is_pair(owners: Seq<u32>, targets: Seq<u32>, j: int, k: int)
    requires
        compound_sorted(owners, targets),
        0 <= j < targets.len(),
        0 <= k < targets.len(),
        is_valid_edge(owners, targets, j),
        targets[k] != owners[k],
    ensures
        valid_before(owners, targets, k + 1) - 1 == valid_before(owners, targets, j) <==> (owners[k] == owners[j]
            && targets[k] == targets[j]),
{
    let first = lemma_first_of_pair(owners, targets, k);
    lemma_no_valid_between(owners, targets, first, k);
    let f = validity_flags(owners, targets);
    assert(sum_prefix(f, first + 1) == sum_prefix(f, first) + f[first]);
    // The edge collects into the slot of the first edge of its pair.
    if first != j {
        if first < j {
            lemma_slots_ordered(owners, targets, first, j);
        } else {
            lemma_slots_ordered(owners, targets, j, first);
        }
        if owners[k] == owners[j] && targets[k] == targets[j] {
            if first < j {
                lemma_valid_edges_strictly_ordered(owners, targets, first, j);
            } else {
                lemma_valid_edges_strictly_ordered(owners, targets, j, first);
            }
        }
    }
}

/// No valid edge lies strictly after the first edge of a pair and at or
/// before a later edge of the same pair.
proof fn lemma_no_valid_between(owners: Seq<u32>, targets: Seq<u32>, first: int, k: int)
    requires
        compound_sorted(owners, targets),
        0 <= first <= k < targets.len(),
        owners[first] == owners[k],
        targets[first] == targets[k],
    ensures
        valid_before(owners, targets, k + 1) == valid_before(owners, targets, first + 1),
    decreases k - first,
{
    if k > first {
        lemma_no_valid_between(owners, targets, first, k - 1);
        let f = validity_flags(owners, targets);
        assert(sum_prefix(f, k + 1) == sum_prefix(f, k) + f[k]);
        assert(owners[first] <= owners[k - 1] <= owners[k]);
        if k - 1 > first {
            assert(targets[first] <= targets[k - 1]);
        }
        assert(targets[k - 1] <= targets[k]);
        lemma_no_valid_between_step(owners, targets, first, k);
    }
}

/// The edge at `k` repeats the pair before it, so it is not valid.
proof fn lemma_no_valid_between_step(owners: Seq<u32>, targets: Seq<u32>, first: int, k: int)
    requires
        compound_sorted(owners, targets),
        0 <= first < k < targets.len(),
        owners[first] == owners[k],
        targets[first] == targets[k],
    ensures
        !is_valid_edge(owners, targets, k),
{
    assert(owners[first] <= owners[k - 1] <= owners[k]);
    if k - 1 > first {
        assert(targets[first] <= targets[k - 1]);
    }
    assert(targets[k - 1] <= targets[k]);
}

/// Every edge-ref has a reverse edge-ref of equal weight.
pub open spec fn weights_symmetric(edge_offset: Seq<u32>, edges: Seq<u32>, edge_weights: Seq<u32>) -> bool {
    forall|e: int|
        0 <= e < edges.len() ==> exists|r: int|
            owns(edge_offset, edges.len(), #[trigger] edges[e] as int, r) && edges[r] == edge_owner(edge_offset, edges.len(), e)
                && edge_weights[r] == edge_weights[e]
}

/// No node names the same node twice.
pub open spec fn no_duplicate_edges(edge_offset: Seq<u32>, edges: Seq<u32>) -> bool {
    forall|i: int, k: int, l: int|
        #[trigger] owns(edge_offset, edges.len(), i, k) && #[trigger] owns(edge_offset, edges.len(), i, l) && edges[k] == edges[l]
            ==> k == l
}

/// The reverse of edge-ref `e`.
pub open spec fn reverse_edge(edge_offset: Seq<u32>, edges: Seq<u32>, edge_weights: Seq<u32>, e: int) -> int {
    choose|r: int|
        owns(edge_offset, edges.len(), edges[e] as int, r) && edges[r] == edge_owner(edge_offset, edges.len(), e)
            && edge_weights[r] == edge_weights[e]
}

/// In a graph whose edges all have reverses of equal weight and whose nodes
/// name no node twice, the fine edge-refs from `c` to `d` weigh as much as
/// those from `d` to `c`.
pub proof fn lemma_joined_weight_symmetric(
    edge_offset: Seq<u32>,
    edges: Seq<u32>,
    edge_weights: Seq<u32>,
    fine_nodes_mapping: Seq<u32>,
    c: int,
    d: int,
)
    requires
        offsets_well_formed(edge_offset, edges.len()),
        edge_weights.len() == edges.len(),
        fine_nodes_mapping.len() == edge_offset.len(),
        forall|k: int| 0 <= k < edges.len() ==> (#[trigger] edges[k]) < edge_offset.len(),
        weights_symmetric(edge_offset, edges, edge_weights),
        no_duplicate_edges(edge_offset, edges),
    ensures
        joined_weight(edge_offset, edges, edge_weights, fine_nodes_mapping, c, d) == joined_weight(
            edge_offset,
            edges,
            edge_weights,
            fine_nodes_mapping,
            d,
            c,
        ),
{
    let m = edges.len();
    let owners = Seq::new(m, |k: int| fine_nodes_mapping[edge_owner(edge_offset, m, k)]);
    let targets = Seq::new(m, |k: int| fine_nodes_mapping[edges[k] as int]);
    let rev = Seq::new(m, |e: int| reverse_edge(edge_offset, edges, edge_weights, e));
    // Each edge-ref's reverse is owned by its target and names its owner.
    assert forall|e: int| 0 <= e < m implies 0 <= #[trigger] rev[e] < m && edge_owner(edge_offset, m, rev[e]) == edges[e]
        && edges[rev[e]] == edge_owner(edge_offset, m, e) && edge_weights[rev[e]] == edge_weights[e] && owns(
        edge_offset,
        m,
        edge_owner(edge_offset, m, e),
        e,
    ) by {
        assert(edges[e] == edges[e]);
        let r = rev[e];
        lemma_edge_has_owner(edge_offset, m, e, 0);
        lemma_edge_has_owner(edge_offset, m, r, 0);
        lemma_owner_unique(edge_offset, m, edges[e] as int, edge_owner(edge_offset, m, r), r);
    }
    // Reversing twice gives the edge-ref back.
    assert forall|e: int| 0 <= e < m implies #[trigger] rev[rev[e]] == e by {
        let r = rev[e];
        let rr = rev[r];
        let a = edge_owner(edge_offset, m, e);
        assert(0 <= r < m && edge_owner(edge_offset, m, r) == edges[e] && edges[r] == a);
        assert(0 <= rr < m && edge_owner(edge_offset, m, rr) == edges[r] && edges[rr] == edge_owner(edge_offset, m, r));
        lemma_edge_has_owner(edge_offset, m, rr, 0);
        assert(owns(edge_offset, m, a, rr));
        assert(owns(edge_offset, m, a, e));
        assert(edges[rr] == edges[e]);
    }
    let forward = pair_values(owners, targets, edge_weights, c, d);
    let backward = pair_values(owners, targets, edge_weights, d, c);
    assert forall|e: int| 0 <= e < m implies #[trigger] forward[e] == backward[rev[e]] by {
        let r = rev[e];
        assert(owners[r] == targets[e]);
        assert(targets[r] == owners[e]);
    }
    assert(forward =~= Seq::new(backward.len(), |e: int| backward[rev[e]]));
    lemma_sum_permuted(backward, rev, rev);
}

} // verus!
