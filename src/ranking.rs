//! The trigram ranking of one text: each distinct trigram of the text mapped
//! to its rank, 0 for the most frequent, ties going to the trigram seen first.
use crate::order::{keys_of, lemma_ranks_dense, rank_of, rank_positions, rank_taken};
use crate::table::{table_contents, TrigramTable};
use crate::trigram::{
    chars_of, distinct_seen, lemma_distinct_seen, occurrences, seen_counts, windows, Trigram,
};
use vstd::prelude::*;

verus! {

/// The position of `t` in `d`.
pub open spec fn seen_index(d: Seq<Trigram>, t: Trigram) -> int {
    choose|j: int| 0 <= j < d.len() && d[j] == t
}

/// The rank of trigram `t` among the trigrams `w` of a text.
pub open spec fn text_rank(w: Seq<Trigram>, t: Trigram) -> nat {
    rank_of(seen_counts(w), seen_index(distinct_seen(w), t))
}

/// The ranking of the trigrams `w` of a text, as a map.
pub open spec fn ranking_map(w: Seq<Trigram>) -> Map<Trigram, usize> {
    Map::new(|t: Trigram| distinct_seen(w).contains(t), |t: Trigram| text_rank(w, t) as usize)
}

/// Some trigram of `m` has rank `p`.
pub open spec fn rank_held(m: Map<Trigram, usize>, p: int) -> bool {
    exists|t: Trigram| #[trigger] m.contains_key(t) && m[t] == p
}

/// A text's trigram ranking and its number of distinct trigrams.
pub struct TextRanking {
    pub ranks: TrigramTable,
    pub trigrams_count: usize,
}

impl TextRanking {
    /// The rank of a trigram of the text; `None` for one that the text does
    /// not hold.
    pub fn rank(&self, t: &Trigram) -> (r: Option<usize>)
        ensures
            r == (if table_contents(self.ranks).contains_key(*t) {
                Some(table_contents(self.ranks)[*t])
            } else {
                None
            }),
    {
        self.ranks.get(t)
    }
}

/// Ranks the distinct trigrams of `text` by descending number of
/// occurrences; of two trigrams that occur equally often, the one seen first
/// ranks first.
pub fn get_trigrams_with_positions(text: &str) -> (r: TextRanking)
    ensures
        table_contents(r.ranks) == ranking_map(windows(text@)),
        r.trigrams_count == distinct_seen(windows(text@)).len(),
{
    let chars = chars_of(text);
    let n = chars.len();
    let ghost w = windows(chars@);
    let m: usize = if n >= 3 {
        n - 2
    } else {
        0
    };
    proof {
        if n >= 3 {
            assert(w.len() == n - 2);
        } else {
            assert(w.len() == 0);
        }
    }
    let mut index = TrigramTable::new();
    let mut distinct: Vec<Trigram> = Vec::new();
    let mut counts: Vec<u64> = Vec::new();
    let mut i: usize = 0;
    while i < m
        invariant
            n == chars@.len(),
            w == windows(chars@),
            m == w.len(),
            n >= 3 ==> m == n - 2,
            i <= m,
            distinct@ == distinct_seen(w.take(i as int)),
            counts@.len() == distinct@.len(),
            forall|j: int|
                0 <= j < counts@.len() ==> #[trigger] counts@[j] == occurrences(
                    w.take(i as int),
                    distinct@[j],
                ),
            forall|j: int| 0 <= j < counts@.len() ==> #[trigger] counts@[j] <= i,
            forall|t: Trigram|
                #[trigger] table_contents(index).contains_key(t) <==> distinct@.contains(t),
            forall|j: int|
                0 <= j < distinct@.len() ==> table_contents(index)[#[trigger] distinct@[j]]
                    == j,
        decreases m - i,
    {
        let t: Trigram = (chars[i], chars[i + 1], chars[i + 2]);
        let ghost prev = w.take(i as int);
        let ghost next = w.take(i + 1);
        proof {
            assert(w[i as int] == t);
            assert(next.drop_last() =~= prev);
            assert(next.last() == t);
            lemma_distinct_seen(prev);
        }
        match index.get(&t) {
            Some(j) => {
                proof {
                    let k = choose|k: int| 0 <= k < distinct@.len() && distinct@[k] == t;
                    assert(distinct@[k] == t);
                    assert(distinct@.no_duplicates());
                    assert(k == j);
                }
                let c = counts[j];
                counts.set(j, c + 1);
            },
            None => {
                let ghost old_d = distinct@;
                proof {
                    assert(occurrences(prev, t) == 0);
                }
                index.insert(t, distinct.len());
                distinct.push(t);
                counts.push(1);
                proof {
                    assert forall|u: Trigram|
                        #[trigger] table_contents(index).contains_key(u) <==> distinct@.contains(
                            u,
                        ) by {
                        if u == t {
                            assert(distinct@[distinct@.len() - 1] == u);
                        } else {
                            if old_d.contains(u) {
                                let k = choose|k: int| 0 <= k < old_d.len() && old_d[k] == u;
                                assert(distinct@[k] == u);
                            }
                            if distinct@.contains(u) {
                                let k = choose|k: int| 0 <= k < distinct@.len() && distinct@[k] == u;
                                assert(old_d[k] == u);
                            }
                        }
                    }
                }
            },
        }
        i = i + 1;
        proof {
            assert forall|j: int|
                0 <= j < counts@.len() implies #[trigger] counts@[j] == occurrences(
                next,
                distinct@[j],
            ) by {}
        }
    }
    let ghost d = distinct_seen(w);
    proof {
        assert(w.take(m as int) =~= w);
        assert(keys_of(counts@) =~= seen_counts(w));
        lemma_distinct_seen(w);
        lemma_ranks_dense(seen_counts(w));
    }
    let ranks = rank_positions(&counts);
    let count = distinct.len();
    let mut table = TrigramTable::new();
    let mut j: usize = 0;
    while j < count
        invariant
            count == distinct@.len(),
            d == distinct@,
            d.no_duplicates(),
            ranks@.len() == count,
            forall|k: int| 0 <= k < count ==> ranks@[k] == rank_of(seen_counts(w), k),
            j <= count,
            forall|t: Trigram|
                #[trigger] table_contents(table).contains_key(t) <==> exists|k: int|
                    0 <= k < j && d[k] == t,
            forall|k: int| 0 <= k < j ==> table_contents(table)[#[trigger] d[k]] == ranks@[k],
        decreases count - j,
    {
        let t = distinct[j];
        let v = ranks[j];
        table.insert(t, v);
        proof {
            assert(d[j as int] == t);
            assert forall|t2: Trigram|
                #[trigger] table_contents(table).contains_key(t2) <==> exists|k: int|
                    0 <= k < j + 1 && d[k] == t2 by {
                if t2 == t {
                    assert(d[j as int] == t2);
                }
            }
        }
        j = j + 1;
    }
    proof {
        assert(chars@ == text@);
        assert forall|t: Trigram| #[trigger]
            table_contents(table).contains_key(t) <==> d.contains(t) by {
            if d.contains(t) {
                let k = choose|k: int| 0 <= k < d.len() && d[k] == t;
                assert(table_contents(table).contains_key(d[k]));
            }
        }
        assert forall|t: Trigram| #[trigger]
            table_contents(table).contains_key(t) implies table_contents(table)[t]
            == text_rank(w, t) as usize by {
            let k = choose|k: int| 0 <= k < d.len() && d[k] == t;
            assert(table_contents(table)[d[k]] == ranks@[k]);
            assert(seen_index(d, t) == k);
        }
        assert(table_contents(table) =~= ranking_map(w));
    }
    TextRanking { ranks: table, trigrams_count: count }
}

/// The ranking of a text's trigrams is dense, starts at 0, gives each
/// distinct trigram a rank of its own, and a trigram that occurs more often
/// ranks before one that occurs less often.
pub proof fn lemma_text_ranking_dense(text: Seq<char>)
    requires
        text.len() <= usize::MAX,
    ensures
        ({
            let w = windows(text);
            let m = ranking_map(w);
            &&& forall|t: Trigram| #[trigger]
                m.contains_key(t) ==> (m[t] as int) < distinct_seen(w).len()
            &&& forall|t: Trigram, u: Trigram|
                m.contains_key(t) && m.contains_key(u) && t != u ==> #[trigger] m[t]
                    != #[trigger] m[u]
            &&& forall|p: int| 0 <= p < distinct_seen(w).len() ==> #[trigger] rank_held(m, p)
            &&& forall|t: Trigram, u: Trigram|
                m.contains_key(t) && m.contains_key(u) && occurrences(w, t) > occurrences(w, u)
                    ==> #[trigger] m[t] < #[trigger] m[u]
        }),
{
    let w = windows(text);
    let d = distinct_seen(w);
    let ks = seen_counts(w);
    let m = ranking_map(w);
    lemma_distinct_seen(w);
    lemma_ranks_dense(ks);
    assert forall|t: Trigram| #[trigger] m.contains_key(t) implies 0 <= seen_index(d, t) < d.len()
        && d[seen_index(d, t)] == t && m[t] == rank_of(ks, seen_index(d, t)) by {
        assert(d.contains(t));
        let k = choose|k: int| 0 <= k < d.len() && d[k] == t;
        assert(d[k] == t);
        let j = seen_index(d, t);
        assert(0 <= j < d.len() && d[j] == t);
        assert(rank_of(ks, j) < d.len());
        assert(m[t] == text_rank(w, t) as usize);
    }
    assert forall|p: int| 0 <= p < d.len() implies #[trigger] rank_held(m, p) by {
        assert(rank_taken(ks, p));
        let j = choose|j: int| 0 <= j < ks.len() && rank_of(ks, j) == p;
        assert(d.contains(d[j]));
        assert(m.contains_key(d[j]));
        assert(seen_index(d, d[j]) == j);
    }
    assert forall|t: Trigram, u: Trigram|
        m.contains_key(t) && m.contains_key(u) && occurrences(w, t) > occurrences(w, u)
        implies #[trigger] m[t] < #[trigger] m[u] by {
        assert(ks[seen_index(d, t)] == occurrences(w, t));
        assert(ks[seen_index(d, u)] == occurrences(w, u));
    }
}

} // verus!
