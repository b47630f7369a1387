//! Stable ranking by descending key: an entry's rank is the number of
//! entries that come before it, that is, entries with a larger key, or with
//! the same key and a smaller index.
use vstd::prelude::*;
use vstd::relations::injective_on;
use vstd::set_lib::*;

verus! {

/// Entry `k` comes before entry `j`.
pub open spec fn outranks(keys: Seq<int>, k: int, j: int) -> bool {
    keys[k] > keys[j] || (keys[k] == keys[j] && k < j)
}

/// The number of entries among the first `n` that come before entry `j`.
pub open spec fn rank_upto(keys: Seq<int>, j: int, n: int) -> nat
    decreases n,
{
    if n <= 0 {
        0
    } else {
        rank_upto(keys, j, n - 1) + if outranks(keys, n - 1, j) {
            1nat
        } else {
            0nat
        }
    }
}

/// The 0-based position of entry `j` once the entries are stably sorted by
/// descending key.
pub open spec fn rank_of(keys: Seq<int>, j: int) -> nat {
    rank_upto(keys, j, keys.len() as int)
}

pub open spec fn keys_of(keys: Seq<u64>) -> Seq<int> {
    keys.map_values(|x: u64| x as int)
}

/// Some entry has rank `p`.
pub open spec fn rank_taken(keys: Seq<int>, p: int) -> bool {
    exists|j: int| 0 <= j < keys.len() && rank_of(keys, j) == p
}

/// The entries of `items` placed in rank order.
pub open spec fn ranked_seq<T>(items: Seq<T>, keys: Seq<int>) -> Seq<T> {
    Seq::new(
        items.len(),
        |p: int| items[choose|j: int| 0 <= j < items.len() && rank_of(keys, j) == p],
    )
}

proof fn lemma_rank_upto_bound(keys: Seq<int>, j: int, n: int)
    requires
        0 <= n <= keys.len(),
    ensures
        rank_upto(keys, j, n) <= n,
        0 <= j < n ==> rank_upto(keys, j, n) < n,
    decreases n,
{
    if n > 0 {
        lemma_rank_upto_bound(keys, j, n - 1);
    }
}

proof fn lemma_rank_upto_lt(keys: Seq<int>, a: int, b: int, n: int)
    requires
        0 <= n <= keys.len(),
        0 <= a < keys.len(),
        0 <= b < keys.len(),
        outranks(keys, a, b),
    ensures
        rank_upto(keys, a, n) + (if a < n {
            1int
        } else {
            0int
        }) <= rank_upto(keys, b, n),
    decreases n,
{
    if n > 0 {
        lemma_rank_upto_lt(keys, a, b, n - 1);
    }
}

/// Ranks are below the number of entries, distinct, and every position below
/// the number of entries is the rank of some entry.
pub proof fn lemma_ranks_dense(keys: Seq<int>)
    ensures
        forall|j: int| 0 <= j < keys.len() ==> #[trigger] rank_of(keys, j) < keys.len(),
        forall|a: int, b: int|
            0 <= a < keys.len() && 0 <= b < keys.len() && a != b ==> #[trigger] rank_of(keys, a)
                != #[trigger] rank_of(keys, b),
        forall|a: int, b: int|
            0 <= a < keys.len() && 0 <= b < keys.len() && outranks(keys, a, b)
                ==> #[trigger] rank_of(keys, a) < #[trigger] rank_of(keys, b),
        forall|p: int| 0 <= p < keys.len() ==> #[trigger] rank_taken(keys, p),
{
    let n = keys.len() as int;
    assert forall|j: int| 0 <= j < n implies #[trigger] rank_of(keys, j) < n by {
        lemma_rank_upto_bound(keys, j, n);
    }
    assert forall|a: int, b: int|
        0 <= a < n && 0 <= b < n && outranks(keys, a, b) implies #[trigger] rank_of(keys, a)
        < #[trigger] rank_of(keys, b) by {
        lemma_rank_upto_lt(keys, a, b, n);
    }
    assert forall|a: int, b: int| 0 <= a < n && 0 <= b < n && a != b implies #[trigger] rank_of(
        keys,
        a,
    ) != #[trigger] rank_of(keys, b) by {
        if outranks(keys, a, b) {
            lemma_rank_upto_lt(keys, a, b, n);
        } else {
            lemma_rank_upto_lt(keys, b, a, n);
        }
    }
    let f = |j: int| rank_of(keys, j) as int;
    let x = set_int_range(0, n);
    let y = x.map(f);
    lemma_int_range(0, n);
    assert(injective_on(f, x));
    lemma_map_size(x, y, f);
    assert(y.subset_of(x));
    lemma_subset_equality(y, x);
    assert forall|p: int| 0 <= p < n implies #[trigger] rank_taken(keys, p) by {
        assert(x.contains(p));
        assert(y.contains(p));
    }
}

proof fn lemma_rank_upto_equal(keys: Seq<int>, j: int, n: int)
    requires
        0 <= n <= keys.len(),
        0 <= j < keys.len(),
        forall|a: int, b: int| 0 <= a < keys.len() && 0 <= b < keys.len() ==> keys[a] == keys[b],
    ensures
        rank_upto(keys, j, n) == if n < j {
            n
        } else {
            j
        },
    decreases n,
{
    if n > 0 {
        lemma_rank_upto_equal(keys, j, n - 1);
    }
}

/// Where all keys are equal, every entry keeps its place.
pub proof fn lemma_equal_keys_keep_order<T>(items: Seq<T>, keys: Seq<int>)
    requires
        items.len() == keys.len(),
        forall|a: int, b: int| 0 <= a < keys.len() && 0 <= b < keys.len() ==> keys[a] == keys[b],
    ensures
        forall|j: int| 0 <= j < keys.len() ==> #[trigger] rank_of(keys, j) == j,
        ranked_seq(items, keys) == items,
{
    assert forall|j: int| 0 <= j < keys.len() implies #[trigger] rank_of(keys, j) == j by {
        lemma_rank_upto_equal(keys, j, keys.len() as int);
    }
    lemma_ranks_dense(keys);
    assert forall|p: int| 0 <= p < items.len() implies ranked_seq(items, keys)[p] == items[p] by {
        assert(rank_taken(keys, p));
        let c = choose|j: int| 0 <= j < items.len() && rank_of(keys, j) == p;
        assert(rank_of(keys, c) == c);
    }
    assert(ranked_seq(items, keys) =~= items);
}

/// The rank of every entry.
pub fn rank_positions(keys: &Vec<u64>) -> (r: Vec<usize>)
    ensures
        r@.len() == keys@.len(),
        forall|j: int| 0 <= j < keys@.len() ==> r@[j] == rank_of(keys_of(keys@), j),
{
    let n = keys.len();
    let ghost ks = keys_of(keys@);
    let mut r: Vec<usize> = Vec::new();
    let mut j: usize = 0;
    while j < n
        invariant
            n == keys@.len(),
            ks == keys_of(keys@),
            j <= n,
            r@.len() == j,
            forall|i: int| 0 <= i < j ==> r@[i] == rank_of(ks, i),
        decreases n - j,
    {
        let mut count: usize = 0;
        let mut k: usize = 0;
        while k < n
            invariant
                n == keys@.len(),
                ks == keys_of(keys@),
                j < n,
                k <= n,
                count == rank_upto(ks, j as int, k as int),
                count <= k,
            decreases n - k,
        {
            if keys[k] > keys[j] || (keys[k] == keys[j] && k < j) {
                count = count + 1;
            }
            k = k + 1;
        }
        r.push(count);
        j = j + 1;
    }
    r
}

/// `items` placed in stable order of descending key.
pub fn order_by_rank<T: Copy>(items: &Vec<T>, keys: &Vec<u64>) -> (r: Vec<T>)
    requires
        items@.len() == keys@.len(),
    ensures
        r@ == ranked_seq(items@, keys_of(keys@)),
        forall|j: int| 0 <= j < items@.len() ==> r@[rank_of(keys_of(keys@), j) as int] == items@[j],
{
    let n = keys.len();
    let ghost ks = keys_of(keys@);
    proof {
        lemma_ranks_dense(ks);
    }
    let ranks = rank_positions(keys);
    let mut r: Vec<T> = Vec::new();
    let mut p: usize = 0;
    while p < n
        invariant
            n == keys@.len(),
            n == items@.len(),
            ks == keys_of(keys@),
            ks.len() == n,
            ranks@.len() == n,
            forall|j: int| 0 <= j < n ==> ranks@[j] == rank_of(ks, j),
            forall|a: int, b: int|
                0 <= a < n && 0 <= b < n && a != b ==> #[trigger] rank_of(ks, a)
                    != #[trigger] rank_of(ks, b),
            forall|q: int| 0 <= q < n ==> #[trigger] rank_taken(ks, q),
            p <= n,
            r@.len() == p,
            forall|q: int| 0 <= q < p ==> r@[q] == ranked_seq(items@, ks)[q],
        decreases n - p,
    {
        let mut k: usize = 0;
        let mut found: usize = n;
        while k < n
            invariant
                n == keys@.len(),
                ranks@.len() == n,
                p < n,
                k <= n,
                found == n || (found < n && ranks@[found as int] == p),
                found == n ==> forall|i: int| 0 <= i < k ==> ranks@[i] != p,
            decreases n - k,
        {
            if found == n && ranks[k] == p {
                found = k;
            }
            k = k + 1;
        }
        proof {
            assert(rank_taken(ks, p as int));
            if found == n {
                let j = choose|j: int| 0 <= j < n && rank_of(ks, j) == p;
                assert(ranks@[j] == p);
            }
            let c = choose|j: int| 0 <= j < n && rank_of(ks, j) == p as int;
            assert(rank_of(ks, found as int) == p);
            assert(c == found);
        }
        r.push(items[found]);
        p = p + 1;
    }
    proof {
        assert(r@ =~= ranked_seq(items@, ks));
        assert forall|j: int| 0 <= j < n implies r@[rank_of(ks, j) as int] == items@[j] by {
            let q = rank_of(ks, j) as int;
            let c = choose|i: int| 0 <= i < n && rank_of(ks, i) == q;
            assert(rank_of(ks, c) == q);
        }
    }
    r
}

} // verus!
