//! The data-parallel building blocks that the matching and contraction
//! pipelines are assembled from: index lists, gather and scatter through an
//! index list, inclusive prefix sums, run detection and a stable sort by key.

use vstd::prelude::*;

verus! {

/// `[0, 1, ..., count - 1]`.
pub open spec fn index_seq(count: nat) -> Seq<u32> {
    Seq::new(count, |i: int| i as u32)
}

/// Writes `0, 1, ..., count - 1`.
pub fn generate_index_list(count: u32) -> (r: Vec<u32>)
    ensures
        r@ == index_seq(count as nat),
{
    let mut r: Vec<u32> = Vec::new();
    let mut i: u32 = 0;
    while i < count
        invariant
            i <= count,
            r@ == index_seq(i as nat),
        decreases count - i,
    {
        r.push(i);
        proof {
            assert(r@ =~= index_seq((i + 1) as nat));
        }
        i = i + 1;
    }
    r
}

/// The first `len` entries of `v`.
pub fn take_prefix(v: &Vec<u32>, len: usize) -> (r: Vec<u32>)
    requires
        len <= v@.len(),
    ensures
        r@ == v@.take(len as int),
{
    let mut r: Vec<u32> = Vec::new();
    let mut i: usize = 0;
    while i < len
        invariant
            i <= len <= v@.len(),
            r@ == v@.take(i as int),
        decreases len - i,
    {
        r.push(v[i]);
        proof {
            assert(r@ =~= v@.take(i + 1));
        }
        i = i + 1;
    }
    r
}

/// Every entry of `idx` indexes into a sequence of length `len`.
pub open spec fn indices_in_bounds(idx: Seq<u32>, len: nat) -> bool {
    forall|i: int| 0 <= i < idx.len() ==> (#[trigger] idx[i]) < len
}

/// `dst[i] = src[idx[i]]`.
pub open spec fn gathered(src: Seq<u32>, idx: Seq<u32>) -> Seq<u32>
    recommends
        indices_in_bounds(idx, src.len()),
{
    Seq::new(idx.len(), |i: int| src[idx[i] as int])
}

/// Gather-by: `dst[i] = src[idx[i]]` for every `i` in `idx`.
pub fn gather_by(src: &Vec<u32>, idx: &Vec<u32>) -> (r: Vec<u32>)
    requires
        indices_in_bounds(idx@, src@.len()),
    ensures
        r@ == gathered(src@, idx@),
{
    let mut r: Vec<u32> = Vec::new();
    let mut i: usize = 0;
    while i < idx.len()
        invariant
            i <= idx@.len(),
            indices_in_bounds(idx@, src@.len()),
            r@ == gathered(src@, idx@).take(i as int),
        decreases idx@.len() - i,
    {
        let k = idx[i];
        r.push(src[k as usize]);
        proof {
            assert(r@ =~= gathered(src@, idx@).take(i + 1));
        }
        i = i + 1;
    }
    proof {
        assert(r@ =~= gathered(src@, idx@));
    }
    r
}

/// `idx` is a permutation of `[0, idx.len())`, witnessed by its inverse `inv`.
pub open spec fn is_permutation_with_inverse(idx: Seq<u32>, inv: Seq<int>) -> bool {
    &&& inv.len() == idx.len()
    &&& forall|i: int| 0 <= i < idx.len() ==> (#[trigger] idx[i]) < idx.len() && inv[idx[i] as int] == i
    &&& forall|x: int| 0 <= x < idx.len() ==> 0 <= (#[trigger] inv[x]) < idx.len() && idx[inv[x]] == x
}

/// `idx` is a permutation of `[0, idx.len())`.
pub open spec fn is_permutation(idx: Seq<u32>) -> bool {
    exists|inv: Seq<int>| is_permutation_with_inverse(idx, inv)
}

/// Scatter-by: `dst[idx[i]] = src[i]` for every `i`, where `idx` is a
/// permutation of the positions of `src`.
pub fn scatter_by(src: &Vec<u32>, idx: &Vec<u32>) -> (r: Vec<u32>)
    requires
        idx@.len() == src@.len(),
        is_permutation(idx@),
    ensures
        r@.len() == src@.len(),
        forall|i: int| 0 <= i < idx@.len() ==> r@[#[trigger] idx@[i] as int] == src@[i],
{
    let n = src.len();
    let ghost inv = choose|inv: Seq<int>| is_permutation_with_inverse(idx@, inv);
    let mut r: Vec<u32> = Vec::new();
    let mut j: usize = 0;
    while j < n
        invariant
            j <= n,
            n == src@.len(),
            r@.len() == j,
        decreases n - j,
    {
        r.push(0);
        j = j + 1;
    }
    let mut i: usize = 0;
    while i < n
        invariant
            i <= n,
            n == src@.len(),
            idx@.len() == n,
            r@.len() == n,
            is_permutation_with_inverse(idx@, inv),
            forall|k: int| 0 <= k < i ==> r@[#[trigger] idx@[k] as int] == src@[k],
        decreases n - i,
    {
        let k = idx[i];
        r.set(k as usize, src[i]);
        proof {
            assert forall|a: int| 0 <= a < i + 1 implies r@[#[trigger] idx@[a] as int] == src@[a] by {
                if a != i {
                    assert(inv[idx@[a] as int] == a);
                    assert(inv[idx@[i as int] as int] == i);
                }
            }
        }
        i = i + 1;
    }
    r
}

/// The sum of the first `k` entries of `s`, as an integer.
pub open spec fn sum_prefix(s: Seq<u32>, k: int) -> int
    decreases k,
{
    if k <= 0 {
        0
    } else {
        sum_prefix(s, k - 1) + s[k - 1]
    }
}

/// The sum of all entries of `s`, as an integer.
pub open spec fn sum_all(s: Seq<u32>) -> int {
    sum_prefix(s, s.len() as int)
}

/// The inclusive prefix sum of `s`, modulo 2^32: entry `i` is the sum of
/// entries `0..=i`.
pub open spec fn inclusive_prefix_sum(s: Seq<u32>) -> Seq<u32> {
    Seq::new(s.len(), |i: int| (sum_prefix(s, i + 1) % 0x1_0000_0000) as u32)
}

/// Inclusive prefix sum over `u32`; a total that does not fit wraps around.
pub fn prefix_sum_inclusive(data: &Vec<u32>) -> (r: Vec<u32>)
    ensures
        r@ == inclusive_prefix_sum(data@),
{
    let mut r: Vec<u32> = Vec::new();
    let mut acc: u32 = 0;
    let mut i: usize = 0;
    while i < data.len()
        invariant
            i <= data@.len(),
            acc as int == sum_prefix(data@, i as int) % 0x1_0000_0000,
            r@ == inclusive_prefix_sum(data@).take(i as int),
        decreases data@.len() - i,
    {
        let x = data[i];
        let next: u64 = (acc as u64 + x as u64) % 0x1_0000_0000;
        proof {
            let s = sum_prefix(data@, i as int);
            assert(sum_prefix(data@, i + 1) == s + x);
            assert((s % 0x1_0000_0000 + x as int) % 0x1_0000_0000 == (s + x as int) % 0x1_0000_0000)
                by (nonlinear_arith);
        }
        acc = next as u32;
        r.push(acc);
        proof {
            assert(r@ =~= inclusive_prefix_sum(data@).take(i + 1));
        }
        i = i + 1;
    }
    proof {
        assert(r@ =~= inclusive_prefix_sum(data@));
    }
    r
}

/// Position `i` of `keys` opens a run: it is the first position, or its key
/// differs from the one before.
pub open spec fn starts_run(keys: Seq<u32>, i: int) -> bool {
    0 <= i < keys.len() && (i == 0 || keys[i] != keys[i - 1])
}

/// The index of the run that position `i` of `keys` lies in: the number of
/// runs opened at positions `1..=i`.
pub open spec fn run_index(keys: Seq<u32>, i: int) -> nat
    decreases i,
{
    if i <= 0 {
        0
    } else {
        run_index(keys, i - 1) + if keys[i] != keys[i - 1] { 1nat } else { 0nat }
    }
}

/// The number of maximal runs of equal consecutive keys.
pub open spec fn run_count(keys: Seq<u32>) -> nat {
    if keys.len() == 0 {
        0
    } else {
        run_index(keys, keys.len() - 1) + 1
    }
}

/// What find-runs writes: the number of runs, the start of each run, and for
/// each position the index of its run.
pub struct FindRunsOutput {
    pub run_count: u32,
    pub run_starts: Vec<u32>,
    pub run_mapping: Vec<u32>,
}

/// Run indices never decrease, and grow by at most one per position.
pub proof fn lemma_run_index_bounds(keys: Seq<u32>, i: int, j: int)
    requires
        0 <= i <= j < keys.len(),
    ensures
        run_index(keys, i) <= run_index(keys, j) <= run_index(keys, i) + (j - i),
    decreases j - i,
{
    if i < j {
        lemma_run_index_bounds(keys, i, j - 1);
    }
}

/// Finds the maximal runs of equal consecutive keys.
pub fn find_runs(keys: &Vec<u32>) -> (r: FindRunsOutput)
    requires
        keys@.len() <= u32::MAX,
    ensures
        r.run_count as nat == run_count(keys@),
        r.run_mapping@ == Seq::new(keys@.len(), |i: int| run_index(keys@, i) as u32),
        r.run_starts@.len() == r.run_count,
        forall|i: int| #[trigger] starts_run(keys@, i) ==> r.run_starts@[run_index(keys@, i) as int] == i,
{
    let n = keys.len();
    let ghost ks = keys@;
    let mut run_mapping: Vec<u32> = Vec::new();
    let mut run_starts: Vec<u32> = Vec::new();
    let mut i: usize = 0;
    while i < n
        invariant
            i <= n,
            n == ks.len(),
            ks == keys@,
            n <= u32::MAX,
            run_mapping@ == Seq::new(i as nat, |k: int| run_index(ks, k) as u32),
            i == 0 ==> run_starts@.len() == 0,
            i > 0 ==> run_starts@.len() == run_index(ks, i - 1) + 1,
            forall|k: int| 0 <= k < i && #[trigger] starts_run(ks, k) ==> run_starts@[run_index(ks, k) as int] == k,
        decreases n - i,
    {
        let ghost before = run_starts@;
        proof {
            if i > 0 {
                lemma_run_index_bounds(ks, 0, i as int);
                lemma_run_index_bounds(ks, 0, i - 1);
                assert(run_index(ks, i as int) == run_index(ks, i - 1) + if ks[i as int] != ks[i - 1] { 1nat } else { 0nat });
            } else {
                assert(run_index(ks, 0) == 0);
            }
        }
        if i == 0 || keys[i] != keys[i - 1] {
            run_starts.push(i as u32);
        }
        let run: u32 = (run_starts.len() - 1) as u32;
        assert(run as int == run_index(ks, i as int));
        proof {
            assert forall|k: int| 0 <= k < i + 1 && #[trigger] starts_run(ks, k) implies run_starts@[run_index(ks, k) as int] == k by {
                if k < i {
                    lemma_run_index_bounds(ks, k, i - 1);
                    assert(before[run_index(ks, k) as int] == k);
                }
            }
        }
        run_mapping.push(run);
        proof {
            assert(run_mapping@ =~= Seq::new((i + 1) as nat, |k: int| run_index(ks, k) as u32));
        }
        i = i + 1;
    }
    proof {
        if n > 0 {
            lemma_run_index_bounds(ks, 0, n - 1);
        }
    }
    let count: u32 = run_starts.len() as u32;
    FindRunsOutput { run_count: count, run_starts, run_mapping }
}

/// `s` is in ascending order.
pub open spec fn sorted_ascending(s: Seq<u32>) -> bool {
    forall|a: int, b: int| 0 <= a < b < s.len() ==> s[a] <= s[b]
}

/// On positions `lo..hi`, `keys` ascends, and equal keys keep the order of
/// their origins in `p`.
pub open spec fn sorted_stable_range(keys: Seq<u32>, p: Seq<int>, lo: int, hi: int) -> bool {
    forall|a: int, b: int|
        lo <= a < b < hi ==> #[trigger] keys[a] <= #[trigger] keys[b] && (keys[a] == keys[b] ==> p[a] < p[b])
}

/// `p` maps each output position to the input position it came from, and `q`
/// is its inverse.
pub open spec fn is_permutation_pair(p: Seq<int>, q: Seq<int>, n: nat) -> bool {
    &&& p.len() == n
    &&& q.len() == n
    &&& forall|i: int| 0 <= i < n ==> 0 <= #[trigger] p[i] < n && q[p[i]] == i
    &&& forall|x: int| 0 <= x < n ==> 0 <= #[trigger] q[x] < n && p[q[x]] == x
}

/// `(keys1, values1)` is `(keys0, values0)` rearranged by `p` (with inverse
/// `q`) so that the keys ascend and pairs with equal keys keep their order.
pub open spec fn is_stable_sort_by(
    keys0: Seq<u32>,
    values0: Seq<u32>,
    keys1: Seq<u32>,
    values1: Seq<u32>,
    p: Seq<int>,
    q: Seq<int>,
) -> bool {
    &&& keys0.len() == values0.len()
    &&& keys1.len() == keys0.len()
    &&& values1.len() == keys0.len()
    &&& is_permutation_pair(p, q, keys0.len())
    &&& forall|i: int| 0 <= i < keys0.len() ==> keys1[i] == keys0[#[trigger] p[i]] && values1[i] == values0[p[i]]
    &&& sorted_stable_range(keys1, p, 0, keys0.len() as int)
}

/// `(keys1, values1)` is the stable sort of `(keys0, values0)` by key.
pub open spec fn is_stable_sort(keys0: Seq<u32>, values0: Seq<u32>, keys1: Seq<u32>, values1: Seq<u32>) -> bool {
    exists|p: Seq<int>, q: Seq<int>| is_stable_sort_by(keys0, values0, keys1, values1, p, q)
}

/// Stable sort of key/value pairs by key, ascending. Returns the sorted keys
/// and the values in the same order.
pub fn sort_by_key(keys: Vec<u32>, values: Vec<u32>) -> (r: (Vec<u32>, Vec<u32>))
    requires
        keys@.len() == values@.len(),
    ensures
        is_stable_sort(keys@, values@, r.0@, r.1@),
{
    let ghost k0 = keys@;
    let ghost v0 = values@;
    let n = keys.len();
    let mut k = keys;
    let mut v = values;
    let ghost mut p: Seq<int> = Seq::new(n as nat, |i: int| i);
    let ghost mut q: Seq<int> = Seq::new(n as nat, |i: int| i);
    if n == 0 {
        assert(is_stable_sort_by(k0, v0, k@, v@, p, q));
        return (k, v);
    }
    let mut i: usize = 1;
    while i < n
        invariant
            1 <= i <= n,
            n == k0.len(),
            k0.len() == v0.len(),
            k@.len() == n,
            v@.len() == n,
            is_permutation_pair(p, q, n as nat),
            forall|t: int| 0 <= t < n ==> k@[t] == k0[#[trigger] p[t]] && v@[t] == v0[p[t]],
            forall|t: int| i <= t < n ==> #[trigger] p[t] == t,
            forall|t: int| 0 <= t < i ==> #[trigger] p[t] < i,
            sorted_stable_range(k@, p, 0, i as int),
        decreases n - i,
    {
        let mut j: usize = i;
        while j > 0 && k[j - 1] > k[j]
            invariant
                0 <= j <= i < n,
                n == k0.len(),
                k@.len() == n,
                v@.len() == n,
                is_permutation_pair(p, q, n as nat),
                forall|t: int| 0 <= t < n ==> k@[t] == k0[#[trigger] p[t]] && v@[t] == v0[p[t]],
                forall|t: int| i < t < n ==> #[trigger] p[t] == t,
                p[j as int] == i,
                forall|t: int| 0 <= t <= i && t != j ==> #[trigger] p[t] < i,
                sorted_stable_range(k@, p, 0, j as int),
                sorted_stable_range(k@, p, j + 1, i + 1),
                forall|a: int, b: int| 0 <= a < j < b <= i ==> #[trigger] k@[a] <= #[trigger] k@[b] && (k@[a] == k@[b] ==> p[a] < p[b]),
                forall|b: int| j < b <= i ==> k@[j as int] < #[trigger] k@[b],
            decreases j,
        {
            let ghost pk = k@;
            let ghost pp = p;
            let ka = k[j - 1];
            let kb = k[j];
            k.set(j - 1, kb);
            k.set(j, ka);
            let va = v[j - 1];
            let vb = v[j];
            v.set(j - 1, vb);
            v.set(j, va);
            proof {
                let a = pp[j - 1];
                let b = pp[j as int];
                q = q.update(a, j as int).update(b, j - 1);
                p = pp.update(j - 1, b).update(j as int, a);
                assert forall|x: int, y: int| 0 <= x < y < j - 1 implies #[trigger] k@[x] <= #[trigger] k@[y] && (k@[x] == k@[y] ==> p[x] < p[y]) by {
                    assert(pk[x] <= pk[y]);
                }
                assert forall|x: int, y: int| j <= x < y <= i implies #[trigger] k@[x] <= #[trigger] k@[y] && (k@[x] == k@[y] ==> p[x] < p[y]) by {
                    if x == j {
                        assert(pk[j - 1] <= pk[y]);
                    } else {
                        assert(pk[x] <= pk[y]);
                    }
                }
                assert forall|x: int, y: int| 0 <= x < j - 1 < y <= i implies #[trigger] k@[x] <= #[trigger] k@[y] && (k@[x] == k@[y] ==> p[x] < p[y]) by {
                    if y == j {
                        assert(pk[x] <= pk[j - 1]);
                    } else if y == j - 1 {
                    } else {
                        assert(pk[x] <= pk[y]);
                    }
                }
            }
            j = j - 1;
        }
        proof {
            assert forall|x: int, y: int| 0 <= x < y < i + 1 implies #[trigger] k@[x] <= #[trigger] k@[y] && (k@[x] == k@[y] ==> p[x] < p[y]) by {
                if y == j && x < j {
                    assert(k@[x] <= k@[j - 1]);
                }
            }
            assert forall|t: int| 0 <= t < i + 1 implies #[trigger] p[t] < i + 1 by {
                if t != j {
                    assert(p[t] < i);
                }
            }
        }
        i = i + 1;
    }
    proof {
        assert(is_stable_sort_by(k0, v0, k@, v@, p, q));
    }
    (k, v)
}

} // verus!
