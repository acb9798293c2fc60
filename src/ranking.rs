//! Sort engine: turns a per-row rank into the sorted permutation of the rows
//! and its inverse, with equal ranks ordered by ascending row index.
use vstd::prelude::*;

verus! {

/// Number of rows among the first `n` whose key equals `k`.
pub open spec fn count_eq(keys: Seq<u32>, n: int, k: int) -> nat
    decreases n,
{
    if n <= 0 {
        0
    } else {
        count_eq(keys, n - 1, k) + (if keys[n - 1] == k { 1nat } else { 0nat })
    }
}

/// Number of rows among the first `n` whose key is below `k`.
pub open spec fn count_lt(keys: Seq<u32>, n: int, k: int) -> nat
    decreases n,
{
    if n <= 0 {
        0
    } else {
        count_lt(keys, n - 1, k) + (if keys[n - 1] < k { 1nat } else { 0nat })
    }
}

/// Row `x` comes before row `y`: a smaller key, or an equal key and a smaller index.
pub open spec fn precedes(keys: Seq<u32>, x: int, y: int) -> bool {
    keys[x] < keys[y] || (keys[x] == keys[y] && x < y)
}

/// The rank that row `j` takes in the sorted order.
pub open spec fn rank_of(keys: Seq<u32>, j: int) -> int {
    (count_lt(keys, keys.len() as int, keys[j] as int) + count_eq(keys, j, keys[j] as int)) as int
}

/// Every key is at most the number of rows.
pub open spec fn keys_bounded(keys: Seq<u32>) -> bool {
    forall|i: int| 0 <= i < keys.len() ==> keys[i] <= keys.len()
}

/// `idx` lists every row of `keys` once, in the order given by `precedes`.
pub open spec fn sorted_by_keys(keys: Seq<u32>, idx: Seq<usize>) -> bool {
    &&& idx.len() == keys.len()
    &&& forall|r: int| 0 <= r < idx.len() ==> idx[r] < keys.len()
    &&& forall|a: int, b: int|
        0 <= a < b < idx.len() ==> #[trigger] precedes(keys, idx[a] as int, idx[b] as int)
}

/// `orders` is the inverse permutation of `indices`.
pub open spec fn inverse_permutations(indices: Seq<usize>, orders: Seq<usize>) -> bool {
    &&& indices.len() == orders.len()
    &&& forall|r: int| 0 <= r < indices.len() ==> indices[r] < orders.len()
    &&& forall|i: int| 0 <= i < orders.len() ==> orders[i] < indices.len()
    &&& forall|r: int| 0 <= r < indices.len() ==> #[trigger] orders[indices[r] as int] == r
    &&& forall|i: int| 0 <= i < orders.len() ==> #[trigger] indices[orders[i] as int] == i
}

proof fn lemma_count_eq_le(keys: Seq<u32>, n: int, k: int)
    requires
        0 <= n <= keys.len(),
    ensures
        count_eq(keys, n, k) <= n,
    decreases n,
{
    if n > 0 {
        lemma_count_eq_le(keys, n - 1, k);
    }
}

proof fn lemma_count_lt_le(keys: Seq<u32>, n: int, k: int)
    requires
        0 <= n <= keys.len(),
    ensures
        count_lt(keys, n, k) <= n,
    decreases n,
{
    if n > 0 {
        lemma_count_lt_le(keys, n - 1, k);
    }
}

proof fn lemma_count_lt_step(keys: Seq<u32>, n: int, k: int)
    requires
        0 <= n <= keys.len(),
    ensures
        count_lt(keys, n, k + 1) == count_lt(keys, n, k) + count_eq(keys, n, k),
    decreases n,
{
    if n > 0 {
        lemma_count_lt_step(keys, n - 1, k);
    }
}

proof fn lemma_count_lt_zero(keys: Seq<u32>, n: int)
    requires
        0 <= n <= keys.len(),
    ensures
        count_lt(keys, n, 0) == 0,
    decreases n,
{
    if n > 0 {
        lemma_count_lt_zero(keys, n - 1);
    }
}

proof fn lemma_count_lt_all(keys: Seq<u32>, n: int, k: int)
    requires
        0 <= n <= keys.len(),
        forall|i: int| 0 <= i < n ==> keys[i] < k,
    ensures
        count_lt(keys, n, k) == n,
    decreases n,
{
    if n > 0 {
        lemma_count_lt_all(keys, n - 1, k);
    }
}

proof fn lemma_count_lt_mono(keys: Seq<u32>, n: int, k1: int, k2: int)
    requires
        0 <= n <= keys.len(),
        k1 <= k2,
    ensures
        count_lt(keys, n, k1) <= count_lt(keys, n, k2),
    decreases n,
{
    if n > 0 {
        lemma_count_lt_mono(keys, n - 1, k1, k2);
    }
}

proof fn lemma_count_eq_mono(keys: Seq<u32>, n1: int, n2: int, k: int)
    requires
        0 <= n1 <= n2 <= keys.len(),
    ensures
        count_eq(keys, n1, k) <= count_eq(keys, n2, k),
    decreases n2 - n1,
{
    if n1 < n2 {
        lemma_count_eq_mono(keys, n1, n2 - 1, k);
    }
}

/// Some row among the first `n` has key `k` and exactly `m` rows with key `k` before it.
proof fn lemma_count_eq_witness(keys: Seq<u32>, n: int, k: int, m: int) -> (j: int)
    requires
        0 <= n <= keys.len(),
        0 <= m < count_eq(keys, n, k),
    ensures
        0 <= j < n,
        keys[j] == k,
        count_eq(keys, j, k) == m,
    decreases n,
{
    if m < count_eq(keys, n - 1, k) {
        lemma_count_eq_witness(keys, n - 1, k, m)
    } else {
        n - 1
    }
}

/// The ranks of a row's key bucket are `count_lt(k)` up to `count_lt(k + 1)`.
proof fn lemma_rank_bounds(keys: Seq<u32>, j: int)
    requires
        0 <= j < keys.len(),
    ensures
        count_lt(keys, keys.len() as int, keys[j] as int) <= rank_of(keys, j),
        rank_of(keys, j) < count_lt(keys, keys.len() as int, keys[j] + 1),
        rank_of(keys, j) < keys.len(),
{
    let n = keys.len() as int;
    let k = keys[j] as int;
    lemma_count_lt_step(keys, n, k);
    lemma_count_eq_mono(keys, j + 1, n, k);
    lemma_count_lt_le(keys, n, k + 1);
}

/// Rows that precede one another take increasing ranks.
proof fn lemma_rank_strict(keys: Seq<u32>, x: int, y: int)
    requires
        0 <= x < keys.len(),
        0 <= y < keys.len(),
        precedes(keys, x, y),
    ensures
        rank_of(keys, x) < rank_of(keys, y),
{
    let n = keys.len() as int;
    lemma_rank_bounds(keys, x);
    lemma_rank_bounds(keys, y);
    if keys[x] < keys[y] {
        lemma_count_lt_mono(keys, n, keys[x] + 1, keys[y] as int);
    } else {
        lemma_count_eq_mono(keys, x + 1, y, keys[x] as int);
    }
}

/// Every rank below the number of rows is taken by some row.
proof fn lemma_rank_onto(keys: Seq<u32>, r: int) -> (j: int)
    requires
        keys_bounded(keys),
        0 <= r < keys.len(),
    ensures
        0 <= j < keys.len(),
        rank_of(keys, j) == r,
{
    let n = keys.len() as int;
    lemma_count_lt_zero(keys, n);
    lemma_count_lt_all(keys, n, n + 1);
    let k = lemma_find_bucket(keys, r, 0);
    lemma_count_lt_step(keys, n, k);
    lemma_count_eq_witness(keys, n, k, r - count_lt(keys, n, k))
}

proof fn lemma_find_bucket(keys: Seq<u32>, r: int, k: int) -> (b: int)
    requires
        0 <= k <= keys.len(),
        count_lt(keys, keys.len() as int, k) <= r,
        r < count_lt(keys, keys.len() as int, keys.len() + 1 as int),
    ensures
        k <= b <= keys.len(),
        count_lt(keys, keys.len() as int, b) <= r,
        r < count_lt(keys, keys.len() as int, b + 1),
    decreases keys.len() - k,
{
    if r < count_lt(keys, keys.len() as int, k + 1) {
        k
    } else {
        lemma_find_bucket(keys, r, k + 1)
    }
}


/// Read in rank order, the keys of a sorted permutation never decrease, and
/// rows with equal keys come by ascending row index.
pub proof fn lemma_sorted_order(keys: Seq<u32>, idx: Seq<usize>, a: int, b: int)
    requires
        sorted_by_keys(keys, idx),
        0 <= a < b < idx.len(),
    ensures
        keys[idx[a] as int] <= keys[idx[b] as int],
        keys[idx[a] as int] == keys[idx[b] as int] ==> idx[a] < idx[b],
{
    assert(precedes(keys, idx[a] as int, idx[b] as int));
}

/// The rank of each row is `rank_of`: the rows with a smaller key, plus the
/// rows with an equal key and a smaller index.
pub open spec fn ranked_by(keys: Seq<u32>, orders: Seq<usize>) -> bool {
    &&& orders.len() == keys.len()
    &&& forall|j: int| 0 <= j < keys.len() ==> #[trigger] orders[j] == rank_of(keys, j)
}

proof fn lemma_count_lt_none_below(keys: Seq<u32>, n: int, k: int)
    requires
        0 <= n <= keys.len(),
        forall|i: int| 0 <= i < n ==> keys[i] >= k,
    ensures
        count_lt(keys, n, k) == 0,
    decreases n,
{
    if n > 0 {
        lemma_count_lt_none_below(keys, n - 1, k);
    }
}

proof fn lemma_count_eq_gap(keys: Seq<u32>, a: int, b: int, k: int)
    requires
        0 <= a <= b <= keys.len(),
        forall|i: int| a <= i < b ==> keys[i] != k,
    ensures
        count_eq(keys, b, k) == count_eq(keys, a, k),
    decreases b - a,
{
    if a < b {
        lemma_count_eq_gap(keys, a, b - 1, k);
    }
}

/// Rows that share the least key take the first ranks, by ascending row
/// index: `rows` lists them in increasing order, and every other row has a
/// larger key.
pub proof fn lemma_least_key_rows_first(keys: Seq<u32>, rows: Seq<int>, res: SortResult)
    requires
        res.wf(),
        ranked_by(keys, res.orders()),
        0 < rows.len(),
        forall|t: int| 0 <= t < rows.len() ==> 0 <= #[trigger] rows[t] < keys.len(),
        forall|a: int, b: int| 0 <= a < b < rows.len() ==> #[trigger] rows[a] < #[trigger] rows[b],
        forall|t: int| 0 <= t < rows.len() ==> keys[#[trigger] rows[t]] == keys[rows[0]],
        forall|i: int|
            0 <= i < keys.len() && !rows.contains(i) ==> keys[i] > keys[rows[0]],
    ensures
        forall|t: int| 0 <= t < rows.len() ==> res.indices()[t] == #[trigger] rows[t],
{
    let n = keys.len() as int;
    let k = keys[rows[0]] as int;
    assert forall|i: int| 0 <= i < n implies keys[i] >= k by {
        if rows.contains(i) {
            let t = choose|t: int| 0 <= t < rows.len() && rows[t] == i;
        }
    }
    lemma_count_lt_none_below(keys, n, k);
    assert forall|t: int| 0 <= t < rows.len() implies count_eq(keys, #[trigger] rows[t], k) == t by {
        lemma_rows_counted(keys, rows, k, t);
    }
    assert forall|t: int| 0 <= t < rows.len() implies res.indices()[t] == #[trigger] rows[t] by {
        assert(res.orders()[rows[t]] == rank_of(keys, rows[t]));
    }
}

proof fn lemma_rows_counted(keys: Seq<u32>, rows: Seq<int>, k: int, t: int)
    requires
        0 <= t < rows.len(),
        forall|u: int| 0 <= u < rows.len() ==> 0 <= #[trigger] rows[u] < keys.len(),
        forall|a: int, b: int| 0 <= a < b < rows.len() ==> #[trigger] rows[a] < #[trigger] rows[b],
        forall|u: int| 0 <= u < rows.len() ==> keys[#[trigger] rows[u]] == k,
        forall|i: int| 0 <= i < keys.len() && !rows.contains(i) ==> keys[i] > k,
    ensures
        count_eq(keys, rows[t], k) == t,
    decreases t,
{
    let lo = if t == 0 { 0 } else { rows[t - 1] + 1 };
    assert forall|i: int| lo <= i < rows[t] implies keys[i] != k by {
        if rows.contains(i) {
            let u = choose|u: int| 0 <= u < rows.len() && rows[u] == i;
            if u < t {
                if u < t - 1 {
                    assert(rows[u] < rows[t - 1]);
                }
            } else if u > t {
                assert(rows[t] < rows[u]);
            }
        }
    }
    lemma_count_eq_gap(keys, lo, rows[t], k);
    if t > 0 {
        lemma_rows_counted(keys, rows, k, t - 1);
    } else {
        lemma_count_eq_gap(keys, 0, 0, k);
    }
}

/// The outcome of a sort: `record_indices` maps a rank to a row index and
/// `record_orders` maps a row index back to its rank.
#[derive(Debug)]
pub struct SortResult {
    record_indices: Vec<usize>,
    record_orders: Vec<usize>,
}

/// A vector of `n` zeros.
fn zeros(n: usize) -> (v: Vec<usize>)
    ensures
        v@.len() == n,
        forall|i: int| 0 <= i < n ==> v@[i] == 0,
{
    let mut v: Vec<usize> = Vec::new();
    while v.len() < n
        invariant
            v@.len() <= n,
            forall|i: int| 0 <= i < v@.len() ==> v@[i] == 0,
        decreases n - v@.len(),
    {
        v.push(0);
    }
    v
}

impl SortResult {
    /// Row indices in sorted order.
    pub closed spec fn indices(&self) -> Seq<usize> {
        self.record_indices@
    }

    /// Rank of each row.
    pub closed spec fn orders(&self) -> Seq<usize> {
        self.record_orders@
    }

    pub open spec fn wf(&self) -> bool {
        inverse_permutations(self.indices(), self.orders())
    }

    /// Number of rows.
    pub fn len(&self) -> (r: usize)
        ensures
            r == self.indices().len(),
    {
        self.record_indices.len()
    }

    /// The row that takes rank `rank`.
    pub fn index_at(&self, rank: usize) -> (r: usize)
        requires
            rank < self.indices().len(),
        ensures
            r == self.indices()[rank as int],
    {
        self.record_indices[rank]
    }

    /// The rank of row `row`.
    pub fn order_at(&self, row: usize) -> (r: usize)
        requires
            row < self.orders().len(),
        ensures
            r == self.orders()[row as int],
    {
        self.record_orders[row]
    }

    /// Sorts the rows by their rank, equal ranks by ascending row index.
    /// `ranks[i]` is the rank of row `i`: any key at most the number of rows
    /// that orders the rows as their values do (equal values, equal ranks).
    /// Ranks that exceed the number of rows are refused.
    pub fn from_ranks(ranks: &Vec<u32>) -> (res: Option<SortResult>)
        requires
            ranks@.len() < usize::MAX,
        ensures
            res.is_none() <==> !keys_bounded(ranks@),
            res matches Some(s) ==> s.wf() && sorted_by_keys(ranks@, s.indices()) && ranked_by(
                ranks@,
                s.orders(),
            ),
    {
        let n = ranks.len();
        let ghost keys = ranks@;
        let mut i: usize = 0;
        while i < n
            invariant
                i <= n,
                n == keys.len(),
                keys == ranks@,
                forall|j: int| 0 <= j < i ==> keys[j] <= n,
            decreases n - i,
        {
            if ranks[i] as usize > n {
                return None;
            }
            i += 1;
        }
        // How many rows hold each key.
        let mut counts = zeros(n + 1);
        let mut i: usize = 0;
        while i < n
            invariant
                i <= n,
                n == keys.len(),
                keys == ranks@,
                keys_bounded(keys),
                counts@.len() == n + 1,
                forall|k: int| 0 <= k <= n ==> counts@[k] == count_eq(keys, i as int, k),
            decreases n - i,
        {
            let k = ranks[i] as usize;
            proof {
                lemma_count_eq_le(keys, i as int, k as int);
            }
            let c = counts[k];
            counts.set(k, c + 1);
            assert forall|k2: int| 0 <= k2 <= n implies counts@[k2] == count_eq(
                keys,
                i + 1,
                k2,
            ) by {
                assert(count_eq(keys, i + 1, k2) == count_eq(keys, i as int, k2) + (if keys[i as int]
                    == k2 { 1nat } else { 0nat }));
            }
            i += 1;
        }
        // Where the bucket of each key begins.
        let mut next: Vec<usize> = Vec::new();
        let mut acc: usize = 0;
        let mut k: usize = 0;
        proof {
            lemma_count_lt_zero(keys, n as int);
        }
        while k <= n
            invariant
                k <= n + 1,
                n < usize::MAX,
                n == keys.len(),
                counts@.len() == n + 1,
                forall|k2: int| 0 <= k2 <= n ==> counts@[k2] == count_eq(keys, n as int, k2),
                acc == count_lt(keys, n as int, k as int),
                next@.len() == k,
                forall|k2: int| 0 <= k2 < k ==> next@[k2] == count_lt(keys, n as int, k2),
            decreases n + 1 - k,
        {
            next.push(acc);
            proof {
                lemma_count_lt_step(keys, n as int, k as int);
                lemma_count_lt_le(keys, n as int, k + 1);
            }
            acc = acc + counts[k];
            k += 1;
        }
        // Place each row at the next free slot of its bucket.
        let mut indices = zeros(n);
        let mut orders = zeros(n);
        let mut i: usize = 0;
        while i < n
            invariant
                i <= n,
                n == keys.len(),
                keys == ranks@,
                keys_bounded(keys),
                next@.len() == n + 1,
                indices@.len() == n,
                orders@.len() == n,
                forall|k2: int|
                    0 <= k2 <= n ==> next@[k2] == count_lt(keys, n as int, k2) + count_eq(
                        keys,
                        i as int,
                        k2,
                    ),
                forall|j: int| 0 <= j < i ==> orders@[j] == rank_of(keys, j),
                forall|j: int|
                    0 <= j < i ==> rank_of(keys, j) < n && indices@[rank_of(keys, j)] == j,
            decreases n - i,
        {
            let k = ranks[i] as usize;
            let p = next[k];
            proof {
                lemma_rank_bounds(keys, i as int);
                assert forall|j: int| 0 <= j < i implies rank_of(keys, j) != rank_of(
                    keys,
                    i as int,
                ) by {
                    if precedes(keys, j, i as int) {
                        lemma_rank_strict(keys, j, i as int);
                    } else {
                        lemma_rank_strict(keys, i as int, j);
                    }
                }
            }
            let ghost before = indices@;
            indices.set(p, i);
            orders.set(i, p);
            next.set(k, p + 1);
            assert forall|j: int| 0 <= j < i + 1 implies rank_of(keys, j) < n && indices@[rank_of(
                keys,
                j,
            )] == j by {
                if j < i {
                    assert(before[rank_of(keys, j)] == j);
                }
            }
            assert forall|k2: int| 0 <= k2 <= n implies next@[k2] == count_lt(keys, n as int, k2)
                + count_eq(keys, i + 1, k2) by {
                assert(count_eq(keys, i + 1, k2) == count_eq(keys, i as int, k2) + (if keys[i as int]
                    == k2 { 1nat } else { 0nat }));
            }
            i += 1;
        }
        proof {
            assert forall|j: int| 0 <= j < n implies orders@[j] < n && indices@[orders@[j] as int]
                == j by {
                lemma_rank_bounds(keys, j);
            }
            assert forall|r: int| 0 <= r < n implies indices@[r] < n && orders@[indices@[r] as int]
                == r by {
                let j = lemma_rank_onto(keys, r);
            }
            assert forall|a: int, b: int| 0 <= a < b < n implies #[trigger] precedes(
                keys,
                indices@[a] as int,
                indices@[b] as int,
            ) by {
                let x = indices@[a] as int;
                let y = indices@[b] as int;
                if !precedes(keys, x, y) {
                    lemma_rank_strict(keys, y, x);
                }
            }
        }
        assert(inverse_permutations(indices@, orders@));
        assert(sorted_by_keys(keys, indices@));
        assert(ranked_by(keys, orders@));
        Some(SortResult { record_indices: indices, record_orders: orders })
    }
}

} // verus!
