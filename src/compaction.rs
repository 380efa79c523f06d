//! Why compaction yields a well-formed coarse graph: counting lemmas that
//! tie each compacted slot to the valid edge written there, and each coarse
//! node's range to the valid edges it owns.

use vstd::prelude::*;
use crate::coarsen_kernels::{
    compacted_edges, counted_edges, edge_code, edge_target, lemma_tag_edge, tag_edge, tagged_edges, validity_code,
    validity_flags, shifted_right, VALID,
};
use crate::csr::{adjacency_strictly_ascending, no_self_loops, offsets_well_formed, range_end};
use crate::match_state::MAX_NODES;
use crate::primitives::{inclusive_prefix_sum, sorted_ascending, sum_prefix};

verus! {

/// In the compound order, owners ascend, and targets ascend among edges of
/// one owner.
pub open spec fn compound_sorted(owners: Seq<u32>, targets: Seq<u32>) -> bool {
    &&& owners.len() == targets.len()
    &&& sorted_ascending(owners)
    &&& forall|k: int, l: int| 0 <= k < l < owners.len() && owners[k] == owners[l] ==> #[trigger] targets[k] <= #[trigger] targets[l]
}

/// Edge `k` is valid.
pub open spec fn is_valid_edge(owners: Seq<u32>, targets: Seq<u32>, k: int) -> bool {
    validity_code(owners, targets, k) == VALID
}

/// The number of valid edges among the first `k`: the compacted slot of edge
/// `k` when it is valid.
pub open spec fn valid_before(owners: Seq<u32>, targets: Seq<u32>, k: int) -> int {
    sum_prefix(validity_flags(owners, targets), k)
}

/// Valid edges among the first `u` whose owner is `c`.
pub open spec fn count_owned(owners: Seq<u32>, flags: Seq<u32>, c: int, u: int) -> int
    decreases u,
{
    if u <= 0 {
        0
    } else {
        count_owned(owners, flags, c, u - 1) + if owners[u - 1] == c { flags[u - 1] as int } else { 0 }
    }
}

/// Valid edges among the first `u` whose owner is below `c`.
pub open spec fn count_below(owners: Seq<u32>, flags: Seq<u32>, c: int, u: int) -> int
    decreases u,
{
    if u <= 0 {
        0
    } else {
        count_below(owners, flags, c, u - 1) + if owners[u - 1] < c { flags[u - 1] as int } else { 0 }
    }
}

/// Flag sums grow by the flag at each step and never decrease.
pub proof fn lemma_valid_before_steps(owners: Seq<u32>, targets: Seq<u32>, i: int, j: int)
    requires
        owners.len() == targets.len(),
        0 <= i <= j <= targets.len(),
    ensures
        0 <= valid_before(owners, targets, i) <= valid_before(owners, targets, j) <= valid_before(owners, targets, i) + (j - i),
    decreases j - i,
{
    let f = validity_flags(owners, targets);
    if i < j {
        lemma_valid_before_steps(owners, targets, i, j - 1);
        assert(sum_prefix(f, j) == sum_prefix(f, j - 1) + f[j - 1]);
    } else {
        lemma_flag_sum_nonneg(owners, targets, i);
    }
}

/// Flag sums are not negative.
proof fn lemma_flag_sum_nonneg(owners: Seq<u32>, targets: Seq<u32>, i: int)
    requires
        owners.len() == targets.len(),
        0 <= i <= targets.len(),
    ensures
        0 <= valid_before(owners, targets, i) <= i,
    decreases i,
{
    if i > 0 {
        lemma_flag_sum_nonneg(owners, targets, i - 1);
    }
}

/// Every slot below the number of valid edges holds a valid edge.
pub proof fn lemma_slot_has_edge(owners: Seq<u32>, targets: Seq<u32>, u: int, s: int)
    requires
        owners.len() == targets.len(),
        0 <= u <= targets.len(),
        0 <= s < valid_before(owners, targets, u),
    ensures
        exists|k: int| 0 <= k < u && is_valid_edge(owners, targets, k) && valid_before(owners, targets, k) == s,
    decreases u,
{
    let f = validity_flags(owners, targets);
    assert(sum_prefix(f, u) == sum_prefix(f, u - 1) + f[u - 1]);
    if s < valid_before(owners, targets, u - 1) {
        lemma_slot_has_edge(owners, targets, u - 1, s);
        let k = choose|k: int| 0 <= k < u - 1 && is_valid_edge(owners, targets, k) && valid_before(owners, targets, k) == s;
        assert(0 <= k < u && is_valid_edge(owners, targets, k) && valid_before(owners, targets, k) == s);
    } else {
        assert(is_valid_edge(owners, targets, u - 1));
    }
}

/// Distinct valid edges get distinct slots, in order.
pub proof fn lemma_slots_ordered(owners: Seq<u32>, targets: Seq<u32>, k: int, l: int)
    requires
        owners.len() == targets.len(),
        0 <= k < l < targets.len(),
        is_valid_edge(owners, targets, k),
    ensures
        valid_before(owners, targets, k) < valid_before(owners, targets, l),
{
    let f = validity_flags(owners, targets);
    assert(sum_prefix(f, k + 1) == sum_prefix(f, k) + f[k]);
    lemma_valid_before_steps(owners, targets, k + 1, l);
}

/// Two valid edges in the compound order differ in their `(owner, target)`
/// pair, the later one being larger.
pub proof fn lemma_valid_edges_strictly_ordered(owners: Seq<u32>, targets: Seq<u32>, k: int, l: int)
    requires
        compound_sorted(owners, targets),
        0 <= k < l < targets.len(),
        is_valid_edge(owners, targets, l),
    ensures
        owners[k] < owners[l] || (owners[k] == owners[l] && targets[k] < targets[l]),
{
    if owners[k] == owners[l] && targets[k] == targets[l] {
        assert(owners[k] <= owners[l - 1] <= owners[l]);
        if l - 1 > k {
            assert(targets[k] <= targets[l - 1]);
        }
        assert(targets[l - 1] <= targets[l]);
    }
}

/// The compacted edges hold, at the slot of each valid edge, its target.
pub proof fn lemma_compacted_slots(owners: Seq<u32>, targets: Seq<u32>, len: nat, u: int)
    requires
        owners.len() == targets.len(),
        targets.len() < u32::MAX,
        forall|k: int| 0 <= k < targets.len() ==> #[trigger] targets[k] < MAX_NODES,
        len == valid_before(owners, targets, targets.len() as int),
        0 <= u <= targets.len(),
    ensures
        ({
            let tagged = tagged_edges(owners, targets);
            let prefix = Seq::new(targets.len(), |i: int| (sum_prefix(validity_flags(owners, targets), i + 1) % 0x1_0000_0000) as u32);
            let e = compacted_edges(tagged, prefix, len, u);
            &&& e.len() == len
            &&& forall|k: int| 0 <= k < u && is_valid_edge(owners, targets, k) ==> e[valid_before(owners, targets, k)] == targets[k]
        }),
    decreases u,
{
    let tagged = tagged_edges(owners, targets);
    let f = validity_flags(owners, targets);
    let prefix = Seq::new(targets.len(), |i: int| (sum_prefix(f, i + 1) % 0x1_0000_0000) as u32);
    if u > 0 {
        lemma_compacted_slots(owners, targets, len, u - 1);
        let k = u - 1;
        lemma_tag_edge(validity_code(owners, targets, k), targets[k]);
        lemma_valid_before_steps(owners, targets, k + 1, targets.len() as int);
        lemma_valid_before_steps(owners, targets, k, k + 1);
        assert(sum_prefix(f, k + 1) == sum_prefix(f, k) + f[k]);
        lemma_flag_sum_nonneg(owners, targets, k + 1);
        let acc = compacted_edges(tagged, prefix, len, k);
        let e = compacted_edges(tagged, prefix, len, u);
        assert(tagged[k] == tag_edge(validity_code(owners, targets, k), targets[k]));
        assert(edge_code(tagged[k]) == validity_code(owners, targets, k));
        assert(edge_target(tagged[k]) == targets[k]);
        assert(prefix[k] == sum_prefix(f, k + 1));
        if is_valid_edge(owners, targets, k) {
            assert(f[k] == 1);
            assert(e == acc.update(valid_before(owners, targets, k), targets[k]));
        } else {
            assert(e == acc);
        }
        assert forall|j: int| 0 <= j < u && is_valid_edge(owners, targets, j) implies e[valid_before(owners, targets, j)] == targets[j] by {
            if j < k {
                assert(acc[valid_before(owners, targets, j)] == targets[j]);
                lemma_valid_before_steps(owners, targets, j, k);
                if is_valid_edge(owners, targets, k) {
                    lemma_slots_ordered(owners, targets, j, k);
                }
            }
        }
    }
}

/// The per-node counts are the valid edges each coarse node owns.
pub proof fn lemma_counted_is_owned(owners: Seq<u32>, flags: Seq<u32>, len: nat, u: int)
    requires
        owners.len() == flags.len(),
        flags.len() < u32::MAX,
        forall|k: int| 0 <= k < flags.len() ==> #[trigger] flags[k] <= 1,
        forall|k: int| 0 <= k < owners.len() ==> #[trigger] owners[k] < len,
        0 <= u <= owners.len(),
    ensures
        counted_edges(owners, flags, len, u).len() == len,
        forall|c: int| 0 <= c < len ==> #[trigger] counted_edges(owners, flags, len, u)[c] == count_owned(owners, flags, c, u),
        forall|c: int| 0 <= c < len ==> 0 <= #[trigger] count_owned(owners, flags, c, u) <= u,
    decreases u,
{
    if u > 0 {
        lemma_counted_is_owned(owners, flags, len, u - 1);
        assert forall|c: int| 0 <= c < len implies 0 <= #[trigger] count_owned(owners, flags, c, u) <= u by {
            assert(count_owned(owners, flags, c, u - 1) <= u - 1);
        }
    } else {
        assert forall|c: int| 0 <= c < len implies 0 <= #[trigger] count_owned(owners, flags, c, u) <= u by {
        }
    }
}

/// Splitting off one owner: the edges below `c + 1` are those below `c`
/// and those of `c`.
pub proof fn lemma_below_step(owners: Seq<u32>, flags: Seq<u32>, c: int, u: int)
    requires
        0 <= u <= owners.len(),
        owners.len() == flags.len(),
    ensures
        count_below(owners, flags, c + 1, u) == count_below(owners, flags, c, u) + count_owned(owners, flags, c, u),
    decreases u,
{
    if u > 0 {
        lemma_below_step(owners, flags, c, u - 1);
    }
}

/// Counts of a subset of the flags stay within the flag sum, and equal it
/// when every owner is below `c`.
pub proof fn lemma_below_le_sum(owners: Seq<u32>, targets: Seq<u32>, c: int, u: int)
    requires
        owners.len() == targets.len(),
        0 <= u <= owners.len(),
    ensures
        0 <= count_below(owners, validity_flags(owners, targets), c, u) <= valid_before(owners, targets, u),
        (forall|k: int| 0 <= k < u ==> owners[k] < c) ==> count_below(owners, validity_flags(owners, targets), c, u)
            == valid_before(owners, targets, u),
    decreases u,
{
    if u > 0 {
        lemma_below_le_sum(owners, targets, c, u - 1);
    }
}

/// With owners ascending, no edge from position `k` on is below `c` once
/// the owner at `k` is not.
pub proof fn lemma_below_stops(owners: Seq<u32>, flags: Seq<u32>, c: int, k: int, u: int)
    requires
        owners.len() == flags.len(),
        sorted_ascending(owners),
        0 <= k < owners.len(),
        k <= u <= owners.len(),
        owners[k] >= c,
    ensures
        count_below(owners, flags, c, u) == count_below(owners, flags, c, k),
    decreases u - k,
{
    if u > k {
        lemma_below_stops(owners, flags, c, k, u - 1);
        assert(owners[k] <= owners[u - 1]);
    }
}

/// The node ranges: the sums of the per-node counts.
pub proof fn lemma_range_sums(owners: Seq<u32>, flags: Seq<u32>, len: nat, degrees: Seq<u32>, c: int)
    requires
        owners.len() == flags.len(),
        degrees.len() == len,
        0 <= c <= len,
        forall|d: int| 0 <= d < len ==> #[trigger] degrees[d] == count_owned(owners, flags, d, owners.len() as int),
    ensures
        sum_prefix(degrees, c) == count_below(owners, flags, c, owners.len() as int),
    decreases c,
{
    if c > 0 {
        lemma_range_sums(owners, flags, len, degrees, c - 1);
        lemma_below_step(owners, flags, c - 1, owners.len() as int);
    } else {
        lemma_below_zero(owners, flags, owners.len() as int);
    }
}

/// No owner is below zero.
proof fn lemma_below_zero(owners: Seq<u32>, flags: Seq<u32>, u: int)
    requires
        0 <= u <= owners.len(),
    ensures
        count_below(owners, flags, 0, u) == 0,
    decreases u,
{
    if u > 0 {
        lemma_below_zero(owners, flags, u - 1);
    }
}

/// A valid edge of owner `c` sits in the range of `c`: at or after the
/// valid edges of smaller owners, before those of owners up to `c`.
pub proof fn lemma_valid_edge_in_range(owners: Seq<u32>, targets: Seq<u32>, k: int)
    requires
        compound_sorted(owners, targets),
        0 <= k < owners.len(),
        is_valid_edge(owners, targets, k),
    ensures
        count_below(owners, validity_flags(owners, targets), owners[k] as int, owners.len() as int) <= valid_before(owners, targets, k),
        valid_before(owners, targets, k) < count_below(owners, validity_flags(owners, targets), owners[k] + 1, owners.len() as int),
{
    let f = validity_flags(owners, targets);
    let c = owners[k] as int;
    let m = owners.len() as int;
    lemma_below_stops(owners, f, c, k, m);
    lemma_below_le_sum(owners, targets, c, k);
    assert forall|i: int| 0 <= i < k + 1 implies owners[i] < c + 1 by {
        if i < k {
            assert(owners[i] <= owners[k]);
        }
    }
    lemma_below_le_sum(owners, targets, c + 1, k + 1);
    assert(sum_prefix(f, k + 1) == sum_prefix(f, k) + f[k]);
    lemma_below_grows(owners, f, c + 1, k + 1, m);
}

/// Counts only grow with the prefix they count over.
proof fn lemma_below_grows(owners: Seq<u32>, flags: Seq<u32>, c: int, i: int, j: int)
    requires
        0 <= i <= j <= owners.len(),
        owners.len() == flags.len(),
    ensures
        count_below(owners, flags, c, i) <= count_below(owners, flags, c, j),
    decreases j - i,
{
    if i < j {
        lemma_below_grows(owners, flags, c, i, j - 1);
    }
}

/// Counts below a bound only grow with the bound.
pub proof fn lemma_below_monotone(owners: Seq<u32>, flags: Seq<u32>, lower: int, upper: int, u: int)
    requires
        lower <= upper,
        0 <= u <= owners.len(),
        owners.len() == flags.len(),
    ensures
        count_below(owners, flags, lower, u) <= count_below(owners, flags, upper, u),
    decreases u,
{
    if u > 0 {
        lemma_below_monotone(owners, flags, lower, upper, u - 1);
    }
}

/// The conditions under which compaction is examined: a compound-sorted
/// edge list over `coarse_node_count` nodes and the outputs of the kernels.
pub open spec fn compaction_inputs(
    owners: Seq<u32>,
    targets: Seq<u32>,
    coarse_node_count: nat,
    coarse_edge_ref_count: nat,
    offsets: Seq<u32>,
    coarse_edges: Seq<u32>,
) -> bool {
    &&& compound_sorted(owners, targets)
    &&& targets.len() < u32::MAX
    &&& coarse_node_count < MAX_NODES
    &&& coarse_node_count == 0 ==> targets.len() == 0
    &&& forall|k: int| 0 <= k < owners.len() ==> #[trigger] owners[k] < coarse_node_count
    &&& forall|k: int| 0 <= k < targets.len() ==> #[trigger] targets[k] < coarse_node_count
    &&& coarse_edge_ref_count == valid_before(owners, targets, targets.len() as int)
    &&& coarse_edges == compacted_edges(
        tagged_edges(owners, targets),
        inclusive_prefix_sum(validity_flags(owners, targets)),
        coarse_edge_ref_count,
        targets.len() as int,
    )
    &&& offsets == shifted_right(
        inclusive_prefix_sum(
            counted_edges(owners, validity_flags(owners, targets), coarse_node_count, owners.len() as int),
        ),
    )
}

/// Node `c`'s range runs from the count of valid edges owned below `c` to
/// the count owned below `c + 1`.
pub open spec fn ranges_are_counts(owners: Seq<u32>, targets: Seq<u32>, coarse_edge_ref_count: nat, offsets: Seq<u32>) -> bool {
    forall|c: int|
        0 <= c < offsets.len() ==> #[trigger] offsets[c] == count_below(
            owners,
            validity_flags(owners, targets),
            c,
            owners.len() as int,
        ) && range_end(offsets, coarse_edge_ref_count, c) == count_below(
            owners,
            validity_flags(owners, targets),
            c + 1,
            owners.len() as int,
        )
}

/// The offsets are the counts of valid edges owned below each node, and so
/// cut the coarse edges into ranges.
pub proof fn lemma_offsets_are_counts(
    owners: Seq<u32>,
    targets: Seq<u32>,
    coarse_node_count: nat,
    coarse_edge_ref_count: nat,
    offsets: Seq<u32>,
    coarse_edges: Seq<u32>,
)
    requires
        compaction_inputs(owners, targets, coarse_node_count, coarse_edge_ref_count, offsets, coarse_edges),
    ensures
        offsets.len() == coarse_node_count,
        coarse_edges.len() == coarse_edge_ref_count,
        offsets_well_formed(offsets, coarse_edge_ref_count),
        ranges_are_counts(owners, targets, coarse_edge_ref_count, offsets),
        forall|k: int| 0 <= k < targets.len() && is_valid_edge(owners, targets, k) ==>
            #[trigger] coarse_edges[valid_before(owners, targets, k)] == targets[k],
{
    let m = targets.len() as int;
    let nn = coarse_node_count;
    let f = validity_flags(owners, targets);
    let degrees = counted_edges(owners, f, nn, m);
    assert forall|k: int| 0 <= k < f.len() implies #[trigger] f[k] <= 1 by {
    }
    lemma_counted_is_owned(owners, f, nn, m);
    lemma_compacted_slots(owners, targets, coarse_edge_ref_count, m);
    lemma_below_le_sum(owners, targets, nn as int, m);
    lemma_flag_sum_nonneg(owners, targets, m);
    assert forall|c: int| 0 <= c <= nn implies #[trigger] sum_prefix(degrees, c) == count_below(owners, f, c, m) && 0
        <= count_below(owners, f, c, m) <= coarse_edge_ref_count by {
        lemma_range_sums(owners, f, nn, degrees, c);
        lemma_below_le_sum(owners, targets, c, m);
    }
    let inc = inclusive_prefix_sum(degrees);
    assert forall|c: int| 0 <= c < nn implies #[trigger] offsets[c] == count_below(owners, f, c, m) && range_end(
        offsets,
        coarse_edge_ref_count,
        c,
    ) == count_below(owners, f, c + 1, m) by {
        assert(sum_prefix(degrees, c) == count_below(owners, f, c, m));
        assert(sum_prefix(degrees, c + 1) == count_below(owners, f, c + 1, m));
        if c > 0 {
            assert(offsets[c] == inc[c - 1]);
        }
        if c + 1 < nn {
            assert(offsets[c + 1] == inc[c]);
        }
    }
    assert forall|c: int| 0 <= c < nn implies offsets[c] <= range_end(offsets, coarse_edge_ref_count, c) by {
        lemma_below_monotone(owners, f, c, c + 1, m);
    }
}

/// The slot `s` of node `c`'s range holds the valid edge returned, which `c`
/// owns.
pub proof fn lemma_slot_source(
    owners: Seq<u32>,
    targets: Seq<u32>,
    coarse_node_count: nat,
    coarse_edge_ref_count: nat,
    offsets: Seq<u32>,
    coarse_edges: Seq<u32>,
    c: int,
    s: int,
) -> (k: int)
    requires
        compaction_inputs(owners, targets, coarse_node_count, coarse_edge_ref_count, offsets, coarse_edges),
        ranges_are_counts(owners, targets, coarse_edge_ref_count, offsets),
        offsets.len() == coarse_node_count,
        0 <= c < coarse_node_count,
        offsets[c] <= s < range_end(offsets, coarse_edge_ref_count, c),
    ensures
        0 <= k < targets.len(),
        is_valid_edge(owners, targets, k),
        valid_before(owners, targets, k) == s,
        owners[k] == c,
{
    let m = targets.len() as int;
    let nn = coarse_node_count as int;
    let f = validity_flags(owners, targets);
    assert(offsets[c] == count_below(owners, f, c, m));
    lemma_below_monotone(owners, f, c + 1, nn, m);
    lemma_below_le_sum(owners, targets, nn, m);
    lemma_slot_has_edge(owners, targets, m, s);
    let k = choose|k: int| 0 <= k < m && is_valid_edge(owners, targets, k) && valid_before(owners, targets, k) == s;
    lemma_valid_edge_in_range(owners, targets, k);
    let d = owners[k] as int;
    if d < c {
        lemma_below_monotone(owners, f, d + 1, c, m);
    } else if d > c {
        lemma_below_monotone(owners, f, c + 1, d, m);
    }
    k
}

/// Compaction of a compound-sorted edge list yields a coarse graph: offsets
/// that cut the coarse edges into one range per coarse node, targets that
/// name coarse nodes, no self-loops, and strictly ascending (so duplicate
/// free) adjacency lists.
pub proof fn lemma_coarse_graph(
    owners: Seq<u32>,
    targets: Seq<u32>,
    coarse_node_count: nat,
    coarse_edge_ref_count: nat,
    offsets: Seq<u32>,
    coarse_edges: Seq<u32>,
)
    requires
        compaction_inputs(owners, targets, coarse_node_count, coarse_edge_ref_count, offsets, coarse_edges),
    ensures
        offsets.len() == coarse_node_count,
        coarse_edges.len() == coarse_edge_ref_count,
        offsets_well_formed(offsets, coarse_edge_ref_count),
        forall|s: int| 0 <= s < coarse_edges.len() ==> #[trigger] coarse_edges[s] < coarse_node_count,
        no_self_loops(offsets, coarse_edges),
        adjacency_strictly_ascending(offsets, coarse_edges),
{
    let m = targets.len() as int;
    lemma_offsets_are_counts(owners, targets, coarse_node_count, coarse_edge_ref_count, offsets, coarse_edges);
    assert forall|s: int| 0 <= s < coarse_edges.len() implies #[trigger] coarse_edges[s] < coarse_node_count by {
        lemma_slot_has_edge(owners, targets, m, s);
        let k = choose|k: int| 0 <= k < m && is_valid_edge(owners, targets, k) && valid_before(owners, targets, k) == s;
    }
    assert forall|c: int, s: int|
        #![trigger offsets[c], coarse_edges[s]]
        0 <= c < offsets.len() && offsets[c] <= s < range_end(offsets, coarse_edges.len(), c) implies coarse_edges[s] != c by {
        let k = lemma_slot_source(owners, targets, coarse_node_count, coarse_edge_ref_count, offsets, coarse_edges, c, s);
    }
    assert forall|c: int, s: int, t: int|
        #![trigger offsets[c], coarse_edges[s], coarse_edges[t]]
        0 <= c < offsets.len() && offsets[c] <= s < t < range_end(offsets, coarse_edges.len(), c) implies coarse_edges[s]
        < coarse_edges[t] by {
        let k = lemma_slot_source(owners, targets, coarse_node_count, coarse_edge_ref_count, offsets, coarse_edges, c, s);
        let l = lemma_slot_source(owners, targets, coarse_node_count, coarse_edge_ref_count, offsets, coarse_edges, c, t);
        if l <= k {
            lemma_valid_before_steps(owners, targets, l, k);
        } else {
            lemma_valid_edges_strictly_ordered(owners, targets, k, l);
        }
    }
}

/// A duplicate edge repeats the pair of a valid edge at or before it.
pub proof fn lemma_first_of_pair(owners: Seq<u32>, targets: Seq<u32>, k: int) -> (j: int)
    requires
        owners.len() == targets.len(),
        0 <= k < targets.len(),
        targets[k] != owners[k],
    ensures
        0 <= j <= k,
        is_valid_edge(owners, targets, j),
        owners[j] == owners[k],
        targets[j] == targets[k],
    decreases k,
{
    if is_valid_edge(owners, targets, k) {
        k
    } else {
        lemma_first_of_pair(owners, targets, k - 1)
    }
}

/// The pair of every edge that is not a self-loop appears in the coarse
/// graph: its target lies in its owner's range.
pub proof fn lemma_pair_in_adjacency(
    owners: Seq<u32>,
    targets: Seq<u32>,
    coarse_node_count: nat,
    coarse_edge_ref_count: nat,
    offsets: Seq<u32>,
    coarse_edges: Seq<u32>,
    k: int,
) -> (s: int)
    requires
        compaction_inputs(owners, targets, coarse_node_count, coarse_edge_ref_count, offsets, coarse_edges),
        0 <= k < targets.len(),
        targets[k] != owners[k],
    ensures
        offsets[owners[k] as int] <= s < range_end(offsets, coarse_edge_ref_count, owners[k] as int),
        coarse_edges[s] == targets[k],
{
    lemma_offsets_are_counts(owners, targets, coarse_node_count, coarse_edge_ref_count, offsets, coarse_edges);
    let j = lemma_first_of_pair(owners, targets, k);
    lemma_valid_edge_in_range(owners, targets, j);
    let c = owners[k] as int;
    assert(offsets[c] == count_below(owners, validity_flags(owners, targets), c, owners.len() as int));
    valid_before(owners, targets, j)
}

} // verus!
