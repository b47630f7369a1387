//! Trigrams and what a text holds of them.
use vstd::prelude::*;

verus! {

/// Three consecutive characters of a text.
pub type Trigram = (char, char, char);

/// The number of windows of three characters in a text of `n` characters.
pub open spec fn window_count(n: nat) -> nat {
    if n < 3 {
        0
    } else {
        (n - 2) as nat
    }
}

/// The trigrams of a text, one for each window of three consecutive characters.
pub open spec fn windows(s: Seq<char>) -> Seq<Trigram> {
    Seq::new(window_count(s.len()), |i: int| (s[i], s[i + 1], s[i + 2]))
}

/// How often `t` occurs in `w`.
pub open spec fn occurrences(w: Seq<Trigram>, t: Trigram) -> nat
    decreases w.len(),
{
    if w.len() == 0 {
        0
    } else {
        occurrences(w.drop_last(), t) + if w.last() == t {
            1nat
        } else {
            0nat
        }
    }
}

/// The distinct trigrams of `w`, in the order in which each is first seen.
pub open spec fn distinct_seen(w: Seq<Trigram>) -> Seq<Trigram>
    decreases w.len(),
{
    if w.len() == 0 {
        Seq::empty()
    } else {
        let d = distinct_seen(w.drop_last());
        if d.contains(w.last()) {
            d
        } else {
            d.push(w.last())
        }
    }
}

/// How often each distinct trigram of `w` occurs, in first-seen order.
pub open spec fn seen_counts(w: Seq<Trigram>) -> Seq<int> {
    distinct_seen(w).map_values(|t: Trigram| occurrences(w, t) as int)
}

pub proof fn lemma_distinct_seen(w: Seq<Trigram>)
    ensures
        distinct_seen(w).no_duplicates(),
        distinct_seen(w).len() <= w.len(),
        forall|t: Trigram| #[trigger] distinct_seen(w).contains(t) <==> occurrences(w, t) > 0,
    decreases w.len(),
{
    if w.len() > 0 {
        lemma_distinct_seen(w.drop_last());
        let d = distinct_seen(w.drop_last());
        if !d.contains(w.last()) {
            assert forall|t: Trigram| #[trigger] d.push(w.last()).contains(t) <==> occurrences(
                w,
                t,
            ) > 0 by {
                if t != w.last() {
                    if d.push(w.last()).contains(t) {
                        let k = choose|k: int| 0 <= k < d.len() + 1 && d.push(w.last())[k] == t;
                        assert(d[k] == t);
                    }
                    if d.contains(t) {
                        let k = choose|k: int| 0 <= k < d.len() && d[k] == t;
                        assert(d.push(w.last())[k] == t);
                    }
                } else {
                    assert(d.push(w.last())[d.len() as int] == t);
                }
            }
        }
    }
}

/// Whether two trigrams hold the same characters.
pub fn same_trigram(a: &Trigram, b: &Trigram) -> (r: bool)
    ensures
        r == (*a == *b),
{
    a.0 == b.0 && a.1 == b.1 && a.2 == b.2
}

/// Relies on str::chars: the characters of a string slice, in order.
#[verifier::external_body]
pub(crate) fn chars_of(s: &str) -> (r: Vec<char>)
    ensures
        r@ == s@,
{
    s.chars().collect()
}

} // verus!
