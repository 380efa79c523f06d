//! The per-element kernels of graph contraction: owner lists, validity
//! marking, weight collection, edge compaction and coarse offsets.

use vstd::prelude::*;
use crate::csr::{lemma_offsets_ordered, node_range_end, offsets_well_formed, owns};
use crate::match_state::{MAX_NODES, PAYLOAD_MASK};

verus! {

/// Validity code of a mapped edge that points back at its own coarse node.
pub const SELF_LOOP: u32 = 0;

/// Validity code of a mapped edge equal to the one before it.
pub const DUPLICATE: u32 = 1;

/// Validity code of a mapped edge that survives into the coarse graph.
pub const VALID: u32 = 2;

/// A mapped edge word: the validity code in the two most significant bits
/// over the 30-bit coarse target.
#[verifier::opaque]
pub open spec fn tag_edge(code: u32, target: u32) -> u32 {
    (code << 30u32) | target
}

/// The validity code of a tagged edge word.
#[verifier::opaque]
pub open spec fn edge_code(word: u32) -> u32 {
    word >> 30u32
}

/// The coarse target of a tagged edge word.
#[verifier::opaque]
pub open spec fn edge_target(word: u32) -> u32 {
    word & 0x3FFF_FFFFu32
}

/// A tagged edge word gives back its code and target.
pub proof fn lemma_tag_edge(code: u32, target: u32)
    requires
        code < 4,
        target < MAX_NODES,
    ensures
        edge_code(tag_edge(code, target)) == code,
        edge_target(tag_edge(code, target)) == target,
{
    reveal(tag_edge);
    reveal(edge_code);
    reveal(edge_target);
    assert(((code << 30u32) | target) >> 30u32 == code) by (bit_vector)
        requires
            code < 4,
            target < 0x4000_0000u32,
    ;
    assert(((code << 30u32) | target) & 0x3FFF_FFFFu32 == target) by (bit_vector)
        requires
            code < 4,
            target < 0x4000_0000u32,
    ;
}

/// Packs a validity code over a coarse target.
fn tag_edge_exec(code: u32, target: u32) -> (r: u32)
    requires
        code < 4,
        target < MAX_NODES,
    ensures
        r == tag_edge(code, target),
{
    reveal(tag_edge);
    (code << 30) | target
}

/// The validity code of a tagged edge word.
fn edge_code_exec(word: u32) -> (r: u32)
    ensures
        r == edge_code(word),
{
    reveal(edge_code);
    word >> 30
}

/// The coarse target of a tagged edge word.
fn edge_target_exec(word: u32) -> (r: u32)
    ensures
        r == edge_target(word),
{
    reveal(edge_target);
    word & PAYLOAD_MASK
}

#[verifier::rlimit(40)]
/// For every edge-ref, the coarse node that owns it: `owners[k] =
/// fine_nodes_mapping[i]` for the fine node `i` whose range holds `k`.
pub fn gather_edge_owner_list(edge_offset: &Vec<u32>, m: usize, fine_nodes_mapping: &Vec<u32>) -> (r: Vec<u32>)
    requires
        offsets_well_formed(edge_offset@, m as nat),
        m <= u32::MAX,
        fine_nodes_mapping@.len() == edge_offset@.len(),
    ensures
        r@.len() == m,
        forall|i: int, k: int| owns(edge_offset@, m as nat, i, k) ==> r@[k] == fine_nodes_mapping@[i],
        forall|k: int| 0 <= k < m ==> fine_nodes_mapping@.contains(#[trigger] r@[k]),
{
    let n = edge_offset.len();
    let mut r: Vec<u32> = Vec::new();
    let mut i: usize = 0;
    while i < n
        invariant
            i <= n,
            n == edge_offset@.len(),
            offsets_well_formed(edge_offset@, m as nat),
            m <= u32::MAX,
            fine_nodes_mapping@.len() == n,
            i < n ==> r@.len() == edge_offset@[i as int],
            i == n ==> r@.len() == m,
            forall|a: int, k: int| 0 <= a < i && owns(edge_offset@, m as nat, a, k) ==> r@[k] == fine_nodes_mapping@[a],
            forall|k: int| 0 <= k < r@.len() ==> fine_nodes_mapping@.contains(#[trigger] r@[k]),
        decreases n - i,
    {
        let hi = node_range_end(edge_offset, m, i);
        let c = fine_nodes_mapping[i];
        let ghost before = r@;
        let mut k: u32 = edge_offset[i];
        while k < hi
            invariant
                edge_offset@[i as int] <= k <= hi,
                r@.len() == k,
                r@.take(edge_offset@[i as int] as int) == before,
                forall|j: int| edge_offset@[i as int] <= j < k ==> r@[j] == c,
            decreases hi - k,
        {
            r.push(c);
            proof {
                assert(r@.take(edge_offset@[i as int] as int) =~= before);
            }
            k = k + 1;
        }
        proof {
            let lo = edge_offset@[i as int] as int;
            assert forall|a: int, k: int| 0 <= a < i + 1 && owns(edge_offset@, m as nat, a, k) implies r@[k] == fine_nodes_mapping@[a] by {
                if a < i {
                    lemma_offsets_ordered(edge_offset@, m as nat, a, i as int);
                    assert(r@.take(lo)[k] == r@[k]);
                }
            }
            assert forall|j: int| 0 <= j < r@.len() implies fine_nodes_mapping@.contains(#[trigger] r@[j]) by {
                if j < lo {
                    assert(r@.take(lo)[j] == r@[j]);
                    assert(fine_nodes_mapping@.contains(before[j]));
                } else {
                    assert(fine_nodes_mapping@[i as int] == r@[j]);
                }
            }
        }
        i = i + 1;
    }
    r
}

/// The validity code of edge `k` in the compound order: a self-loop when it
/// points at its owner, a duplicate when it repeats the `(owner, target)`
/// pair before it, valid otherwise.
pub open spec fn validity_code(owners: Seq<u32>, targets: Seq<u32>, k: int) -> u32 {
    if targets[k] == owners[k] {
        SELF_LOOP
    } else if k > 0 && owners[k] == owners[k - 1] && targets[k] == targets[k - 1] {
        DUPLICATE
    } else {
        VALID
    }
}

/// One for each valid edge, zero for the others.
pub open spec fn validity_flags(owners: Seq<u32>, targets: Seq<u32>) -> Seq<u32> {
    Seq::new(targets.len(), |k: int| if validity_code(owners, targets, k) == VALID { 1u32 } else { 0u32 })
}

/// Each target tagged with its edge's validity code.
pub open spec fn tagged_edges(owners: Seq<u32>, targets: Seq<u32>) -> Seq<u32> {
    Seq::new(targets.len(), |k: int| tag_edge(validity_code(owners, targets, k), targets[k]))
}

/// Marks each edge of the compound order as a self-loop, a duplicate or
/// valid. Returns the valid flags (one per valid edge, for the prefix sum)
/// and the targets tagged with their code.
pub fn mark_coarse_edge_validity(owners: &Vec<u32>, targets: &Vec<u32>) -> (r: (Vec<u32>, Vec<u32>))
    requires
        owners@.len() == targets@.len(),
        forall|k: int| 0 <= k < targets@.len() ==> #[trigger] targets@[k] < MAX_NODES,
    ensures
        r.0@ == validity_flags(owners@, targets@),
        r.1@ == tagged_edges(owners@, targets@),
{
    let m = targets.len();
    let mut flags: Vec<u32> = Vec::new();
    let mut tagged: Vec<u32> = Vec::new();
    let mut k: usize = 0;
    while k < m
        invariant
            k <= m,
            m == targets@.len(),
            owners@.len() == m,
            forall|j: int| 0 <= j < targets@.len() ==> #[trigger] targets@[j] < MAX_NODES,
            flags@ == validity_flags(owners@, targets@).take(k as int),
            tagged@ == tagged_edges(owners@, targets@).take(k as int),
        decreases m - k,
    {
        let t = targets[k];
        let o = owners[k];
        let code: u32 = if t == o {
            SELF_LOOP
        } else if k > 0 && o == owners[k - 1] && t == targets[k - 1] {
            DUPLICATE
        } else {
            VALID
        };
        flags.push(if code == VALID { 1 } else { 0 });
        tagged.push(tag_edge_exec(code, t));
        proof {
            assert(flags@ =~= validity_flags(owners@, targets@).take(k + 1));
            assert(tagged@ =~= tagged_edges(owners@, targets@).take(k + 1));
        }
        k = k + 1;
    }
    proof {
        assert(flags@ =~= validity_flags(owners@, targets@));
        assert(tagged@ =~= tagged_edges(owners@, targets@));
    }
    (flags, tagged)
}

/// `len` zeros.
pub open spec fn zeros(len: nat) -> Seq<u32> {
    Seq::new(len, |i: int| 0u32)
}

/// Writes `len` zeros.
fn zeroed(len: usize) -> (r: Vec<u32>)
    ensures
        r@ == zeros(len as nat),
{
    let mut r: Vec<u32> = Vec::new();
    let mut i: usize = 0;
    while i < len
        invariant
            i <= len,
            r@ == zeros(i as nat),
        decreases len - i,
    {
        r.push(0);
        proof {
            assert(r@ =~= zeros((i + 1) as nat));
        }
        i = i + 1;
    }
    r
}

/// The coarse weights after the first `upto` tagged edges have been added
/// in: a duplicate or valid edge adds its weight (modulo 2^32) into slot
/// `prefix[k] - 1`; self-loops add nothing.
pub open spec fn collected_weights(
    tagged: Seq<u32>,
    weights: Seq<u32>,
    prefix: Seq<u32>,
    len: nat,
    upto: int,
) -> Seq<u32>
    decreases upto,
{
    if upto <= 0 {
        zeros(len)
    } else {
        let k = upto - 1;
        let acc = collected_weights(tagged, weights, prefix, len, k);
        let code = edge_code(tagged[k]);
        if (code == DUPLICATE || code == VALID) && 1 <= prefix[k] <= len {
            let s = prefix[k] - 1;
            acc.update(s, ((acc[s] + weights[k]) % 0x1_0000_0000) as u32)
        } else {
            acc
        }
    }
}

/// The collected weights keep their length.
pub proof fn lemma_collected_len(tagged: Seq<u32>, weights: Seq<u32>, prefix: Seq<u32>, len: nat, upto: int)
    ensures
        collected_weights(tagged, weights, prefix, len, upto).len() == len,
    decreases upto,
{
    if upto > 0 {
        lemma_collected_len(tagged, weights, prefix, len, upto - 1);
    }
}

/// Sums the weights of duplicate and valid edges into the slot of the valid
/// edge they belong to, given the inclusive prefix sum of the valid flags.
pub fn collect_coarse_nodes_edge_weights(
    tagged: &Vec<u32>,
    weights: &Vec<u32>,
    prefix: &Vec<u32>,
    coarse_edge_ref_count: u32,
) -> (r: Vec<u32>)
    requires
        weights@.len() == tagged@.len(),
        prefix@.len() == tagged@.len(),
    ensures
        r@ == collected_weights(tagged@, weights@, prefix@, coarse_edge_ref_count as nat, tagged@.len() as int),
{
    let m = tagged.len();
    let len = coarse_edge_ref_count as usize;
    let mut out = zeroed(len);
    let mut k: usize = 0;
    while k < m
        invariant
            k <= m,
            m == tagged@.len(),
            weights@.len() == m,
            prefix@.len() == m,
            len == coarse_edge_ref_count,
            out@ == collected_weights(tagged@, weights@, prefix@, len as nat, k as int),
        decreases m - k,
    {
        proof {
            lemma_collected_len(tagged@, weights@, prefix@, len as nat, k as int);
        }
        let code = edge_code_exec(tagged[k]);
        let s = prefix[k];
        if (code == DUPLICATE || code == VALID) && 1 <= s && (s as usize) <= len {
            let slot = (s - 1) as usize;
            let sum: u64 = (out[slot] as u64 + weights[k] as u64) % 0x1_0000_0000;
            out.set(slot, sum as u32);
        }
        k = k + 1;
    }
    out
}

/// The coarse edges after the first `upto` tagged edges: each valid edge
/// writes its target into slot `prefix[k] - 1`.
pub open spec fn compacted_edges(tagged: Seq<u32>, prefix: Seq<u32>, len: nat, upto: int) -> Seq<u32>
    decreases upto,
{
    if upto <= 0 {
        zeros(len)
    } else {
        let k = upto - 1;
        let acc = compacted_edges(tagged, prefix, len, k);
        if edge_code(tagged[k]) == VALID && 1 <= prefix[k] <= len {
            acc.update(prefix[k] - 1, edge_target(tagged[k]))
        } else {
            acc
        }
    }
}

/// The compacted edges keep their length.
pub proof fn lemma_compacted_len(tagged: Seq<u32>, prefix: Seq<u32>, len: nat, upto: int)
    ensures
        compacted_edges(tagged, prefix, len, upto).len() == len,
    decreases upto,
{
    if upto > 0 {
        lemma_compacted_len(tagged, prefix, len, upto - 1);
    }
}

/// Copies the target of each valid edge, without its validity bits, to its
/// compacted slot.
pub fn compact_coarse_edges(tagged: &Vec<u32>, prefix: &Vec<u32>, coarse_edge_ref_count: u32) -> (r: Vec<u32>)
    requires
        prefix@.len() == tagged@.len(),
    ensures
        r@ == compacted_edges(tagged@, prefix@, coarse_edge_ref_count as nat, tagged@.len() as int),
{
    let m = tagged.len();
    let len = coarse_edge_ref_count as usize;
    let mut out = zeroed(len);
    let mut k: usize = 0;
    while k < m
        invariant
            k <= m,
            m == tagged@.len(),
            prefix@.len() == m,
            len == coarse_edge_ref_count,
            out@ == compacted_edges(tagged@, prefix@, len as nat, k as int),
        decreases m - k,
    {
        proof {
            lemma_compacted_len(tagged@, prefix@, len as nat, k as int);
        }
        let code = edge_code_exec(tagged[k]);
        let s = prefix[k];
        if code == VALID && 1 <= s && (s as usize) <= len {
            out.set((s - 1) as usize, edge_target_exec(tagged[k]));
        }
        k = k + 1;
    }
    out
}

/// The number of coarse edge-refs: the last entry of the prefix sum, or zero
/// for an empty edge list.
pub open spec fn resolved_edge_ref_count(prefix: Seq<u32>) -> u32 {
    if prefix.len() == 0 {
        0
    } else {
        prefix[prefix.len() - 1]
    }
}

/// Reads the coarse edge-ref count off the validity prefix sum.
pub fn resolve_coarse_edge_ref_count(prefix: &Vec<u32>) -> (r: u32)
    ensures
        r == resolved_edge_ref_count(prefix@),
{
    if prefix.len() == 0 {
        0
    } else {
        prefix[prefix.len() - 1]
    }
}

/// The per-node counts after the first `upto` edges: edge `k` adds its flag
/// to the count of its owner.
pub open spec fn counted_edges(owners: Seq<u32>, flags: Seq<u32>, len: nat, upto: int) -> Seq<u32>
    decreases upto,
{
    if upto <= 0 {
        zeros(len)
    } else {
        let k = upto - 1;
        let acc = counted_edges(owners, flags, len, k);
        if owners[k] < len {
            acc.update(owners[k] as int, ((acc[owners[k] as int] + flags[k]) % 0x1_0000_0000) as u32)
        } else {
            acc
        }
    }
}

/// The per-node counts keep their length.
pub proof fn lemma_counted_len(owners: Seq<u32>, flags: Seq<u32>, len: nat, upto: int)
    ensures
        counted_edges(owners, flags, len, upto).len() == len,
    decreases upto,
{
    if upto > 0 {
        lemma_counted_len(owners, flags, len, upto - 1);
    }
}

/// Counts the valid edges of each coarse node.
pub fn count_coarse_node_edges(owners: &Vec<u32>, flags: &Vec<u32>, coarse_node_count: u32) -> (r: Vec<u32>)
    requires
        flags@.len() == owners@.len(),
    ensures
        r@ == counted_edges(owners@, flags@, coarse_node_count as nat, owners@.len() as int),
{
    let m = owners.len();
    let len = coarse_node_count as usize;
    let mut out = zeroed(len);
    let mut k: usize = 0;
    while k < m
        invariant
            k <= m,
            m == owners@.len(),
            flags@.len() == m,
            len == coarse_node_count,
            out@ == counted_edges(owners@, flags@, len as nat, k as int),
        decreases m - k,
    {
        proof {
            lemma_counted_len(owners@, flags@, len as nat, k as int);
        }
        let o = owners[k];
        if (o as usize) < len {
            let sum: u64 = (out[o as usize] as u64 + flags[k] as u64) % 0x1_0000_0000;
            out.set(o as usize, sum as u32);
        }
        k = k + 1;
    }
    out
}

/// The exclusive form of an inclusive prefix sum: zero, then every entry
/// but the last.
pub open spec fn shifted_right(inclusive: Seq<u32>) -> Seq<u32> {
    Seq::new(inclusive.len(), |c: int| if c == 0 { 0u32 } else { inclusive[c - 1] })
}

/// Coarse edge offsets from the inclusive prefix sum of the per-node counts:
/// node `c`'s range starts where the ranges of nodes `0..c` end.
pub fn finalize_coarse_nodes_edge_offset(inclusive_counts: &Vec<u32>) -> (r: Vec<u32>)
    ensures
        r@ == shifted_right(inclusive_counts@),
{
    let n = inclusive_counts.len();
    let mut out: Vec<u32> = Vec::new();
    let mut c: usize = 0;
    while c < n
        invariant
            c <= n,
            n == inclusive_counts@.len(),
            out@ == shifted_right(inclusive_counts@).take(c as int),
        decreases n - c,
    {
        if c == 0 {
            out.push(0);
        } else {
            out.push(inclusive_counts[c - 1]);
        }
        proof {
            assert(out@ =~= shifted_right(inclusive_counts@).take(c + 1));
        }
        c = c + 1;
    }
    proof {
        assert(out@ =~= shifted_right(inclusive_counts@));
    }
    out
}

} // verus!
