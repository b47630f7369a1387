//! Rank-distance scoring of the candidate languages of a text.
use crate::order::{keys_of, lemma_equal_keys_keep_order, order_by_rank, ranked_seq};
use crate::profile::{Lang, LangProfile, LangProfileList, MultiLangScript, Profiles};
use crate::ranking::{get_trigrams_with_positions, ranking_map};
use crate::table::{table_contents, TrigramTable};
use crate::trigram::{distinct_seen, windows, Trigram};
use vstd::prelude::*;

verus! {

/// The penalty of a profile trigram that the text does not hold.
pub const MAX_TRIGRAM_DISTANCE: u32 = 300;

/// The ceiling of a distance.
pub const MAX_TOTAL_DISTANCE: u32 = 90000;

/// The similarity of a text to a language: the score is
/// `similarity / MAX_TRIGRAM_DISTANCE`, so scores compare as their
/// similarities do.
#[derive(Clone, Copy, Debug, PartialEq, Eq, Structural)]
pub struct Score {
    pub similarity: u32,
}

/// The languages that may be reported.
pub enum AllowList {
    All,
    Only(Vec<Lang>),
}

impl AllowList {
    pub open spec fn allows(&self, lang: Lang) -> bool {
        match *self {
            AllowList::All => true,
            AllowList::Only(ref langs) => langs@.contains(lang),
        }
    }

    pub fn is_allowed(&self, lang: Lang) -> (r: bool)
        ensures
            r == self.allows(lang),
    {
        match self {
            AllowList::All => true,
            AllowList::Only(langs) => {
                let n = langs.len();
                let mut i: usize = 0;
                while i < n
                    invariant
                        n == langs@.len(),
                        self.allows(lang) == langs@.contains(lang),
                        i <= n,
                        forall|k: int| 0 <= k < i ==> langs@[k] != lang,
                    decreases n - i,
                {
                    if langs[i] == lang {
                        proof {
                            assert(langs@[i as int] == lang);
                            assert(langs@.contains(lang));
                        }
                        return true;
                    }
                    i = i + 1;
                }
                false
            },
        }
    }
}

/// What `str::to_lowercase` makes of a text.
pub uninterp spec fn lower_of(s: Seq<char>) -> Seq<char>;

/// Relies on str::to_lowercase: the result depends on the characters alone.
#[verifier::external_body]
fn to_lower(s: &str) -> (r: String)
    ensures
        r@ == lower_of(s@),
{
    s.to_lowercase()
}

/// A text to identify, which keeps its lower-case form once computed.
pub struct Text {
    raw: String,
    lowercased: Option<String>,
}

impl Text {
    #[verifier::type_invariant]
    spec fn cache_matches(&self) -> bool {
        match self.lowercased {
            Some(l) => l@ == lower_of(self.raw@),
            None => true,
        }
    }

    /// The text as given.
    pub closed spec fn source(&self) -> Seq<char> {
        self.raw@
    }

    pub fn new(raw: String) -> (r: Text)
        ensures
            r.source() == raw@,
    {
        Text { raw, lowercased: None }
    }

    /// The text in lower case, computed on the first call.
    pub fn lowercase(&mut self) -> (r: &str)
        ensures
            r@ == lower_of(old(self).source()),
            final(self).source() == old(self).source(),
    {
        if self.lowercased.is_none() {
            let l = to_lower(self.raw.as_str());
            self.lowercased = Some(l);
        }
        proof {
            use_type_invariant(&*self);
        }
        match &self.lowercased {
            Some(l) => l.as_str(),
            None => "",
        }
    }
}

/// A query: the text, the languages allowed, and the writing system that
/// the text was found to use.
pub struct InternalQuery {
    pub text: Text,
    pub allow_list: AllowList,
    pub multi_lang_script: MultiLangScript,
}

/// The candidates' scores, best first.
pub struct LangScores {
    pub scores: Vec<(Lang, Score)>,
}

impl LangScores {
    pub fn new(scores: Vec<(Lang, Score)>) -> (r: LangScores)
        ensures
            r.scores@ == scores@,
    {
        LangScores { scores }
    }
}

/// How sure a result is: certain where one language was a candidate; else
/// what the confidence formula takes, the two best scores and the number of
/// distinct trigrams of the text.
#[derive(Clone, Copy, Debug, PartialEq, Eq, Structural)]
pub enum Confidence {
    Certain,
    Contested { best: Score, second: Score, trigrams_count: usize },
}

/// The best language of a text, with its writing system and how sure it is.
#[derive(Clone, Copy, Debug, PartialEq, Eq, Structural)]
pub struct Info {
    pub script: MultiLangScript,
    pub lang: Lang,
    pub confidence: Confidence,
}

/// The number of distinct trigrams of a text, and the scores of its
/// candidate languages.
pub struct RawOutcome {
    pub trigrams_count: usize,
    pub lang_scores: LangScores,
}

/// The penalty of the profile trigram `t` at rank `i`.
pub open spec fn trigram_penalty(m: Map<Trigram, usize>, t: Trigram, i: int) -> int {
    if m.contains_key(t) {
        let n = m[t] as int;
        if n >= i {
            n - i
        } else {
            i - n
        }
    } else {
        MAX_TRIGRAM_DISTANCE as int
    }
}

/// The sum of the penalties of the trigrams of profile `p`.
pub open spec fn total_penalty(p: Seq<Trigram>, m: Map<Trigram, usize>) -> int
    decreases p.len(),
{
    if p.len() == 0 {
        0
    } else {
        total_penalty(p.drop_last(), m) + trigram_penalty(m, p.last(), p.len() - 1)
    }
}

/// The distance of profile `p` from a text ranked as `m`.
pub open spec fn distance_of(p: Seq<Trigram>, m: Map<Trigram, usize>) -> int {
    let total = total_penalty(p, m);
    if total < MAX_TOTAL_DISTANCE as int {
        total
    } else {
        MAX_TOTAL_DISTANCE as int
    }
}

/// The score of a distance.
pub open spec fn score_of(distance: int) -> Score {
    Score { similarity: (MAX_TOTAL_DISTANCE - distance) as u32 }
}

/// The allowed languages of a group, each with its distance, in the
/// group's order.
pub open spec fn candidates(list: Seq<(Lang, LangProfile)>, allow: AllowList, m: Map<
    Trigram,
    usize,
>) -> Seq<(Lang, int)>
    decreases list.len(),
{
    if list.len() == 0 {
        Seq::empty()
    } else {
        let rest = candidates(list.drop_last(), allow, m);
        let lang = list.last().0;
        if allow.allows(lang) {
            rest.push((lang, distance_of(list.last().1@, m)))
        } else {
            rest
        }
    }
}

pub open spec fn scored(c: Seq<(Lang, int)>) -> Seq<(Lang, Score)> {
    c.map_values(|e: (Lang, int)| (e.0, score_of(e.1)))
}

pub open spec fn score_keys(c: Seq<(Lang, int)>) -> Seq<int> {
    c.map_values(|e: (Lang, int)| MAX_TOTAL_DISTANCE - e.1)
}

/// The scores of the allowed languages of a group for a text, best first;
/// languages at the same distance keep the group's order.
pub open spec fn lang_scores_of(
    text: Seq<char>,
    allow: AllowList,
    list: Seq<(Lang, LangProfile)>,
) -> Seq<(Lang, Score)> {
    let c = candidates(list, allow, ranking_map(windows(text)));
    ranked_seq(scored(c), score_keys(c))
}

/// The number of distinct trigrams of a text.
pub open spec fn trigrams_count_of(text: Seq<char>) -> nat {
    distinct_seen(windows(text)).len()
}

/// `o` is the outcome for a text, an allow-list and a group.
pub open spec fn is_outcome_of(
    o: RawOutcome,
    text: Seq<char>,
    allow: AllowList,
    list: Seq<(Lang, LangProfile)>,
) -> bool {
    &&& o.trigrams_count == trigrams_count_of(text)
    &&& o.lang_scores.scores@ == lang_scores_of(text, allow, list)
}

/// The rank distance of a language profile from a text's trigram ranking.
pub fn calculate_distance(lang_trigrams: &LangProfile, text_trigrams: &TrigramTable) -> (r: u32)
    ensures
        r == distance_of(lang_trigrams@, table_contents(*text_trigrams)),
        r <= MAX_TOTAL_DISTANCE,
{
    let ghost m = table_contents(*text_trigrams);
    let ghost p = lang_trigrams@;
    let n = lang_trigrams.len();
    let mut total: u64 = 0;
    let mut i: usize = 0;
    while i < n
        invariant
            n == p.len(),
            m == table_contents(*text_trigrams),
            p == lang_trigrams@,
            i <= n,
            total <= MAX_TOTAL_DISTANCE,
            total == (if total_penalty(p.take(i as int), m) < MAX_TOTAL_DISTANCE as int {
                total_penalty(p.take(i as int), m)
            } else {
                MAX_TOTAL_DISTANCE as int
            }),
            total_penalty(p.take(i as int), m) >= 0,
        decreases n - i,
    {
        let trigram = lang_trigrams[i];
        let dist: u64 = match text_trigrams.get(&trigram) {
            Some(rank) => {
                if rank >= i {
                    (rank - i) as u64
                } else {
                    (i - rank) as u64
                }
            },
            None => MAX_TRIGRAM_DISTANCE as u64,
        };
        proof {
            assert(p.take(i + 1).drop_last() =~= p.take(i as int));
            assert(p.take(i + 1).last() == trigram);
            assert(dist == trigram_penalty(m, trigram, i as int));
        }
        if dist >= MAX_TOTAL_DISTANCE as u64 - total {
            total = MAX_TOTAL_DISTANCE as u64;
        } else {
            total = total + dist;
        }
        i = i + 1;
    }
    proof {
        assert(p.take(n as int) =~= p);
    }
    total as u32
}

/// The score of a distance: `MAX_TOTAL_DISTANCE - distance` over
/// `MAX_TRIGRAM_DISTANCE`.
pub fn distance_to_score(distance: u32) -> (r: Score)
    requires
        distance <= MAX_TOTAL_DISTANCE,
    ensures
        r == score_of(distance as int),
        r.similarity == MAX_TOTAL_DISTANCE - distance,
{
    Score { similarity: MAX_TOTAL_DISTANCE - distance }
}

/// Scores the allowed languages of a group against a lower-case text, best
/// first.
pub fn calculate_scores_in_profiles(
    text: &str,
    allow_list: &AllowList,
    lang_profile_list: &LangProfileList,
) -> (r: RawOutcome)
    ensures
        is_outcome_of(r, text@, *allow_list, lang_profile_list@),
{
    let trigrams = get_trigrams_with_positions(text);
    let trigrams_count = trigrams.trigrams_count;
    let ghost m = ranking_map(windows(text@));
    let ghost list = lang_profile_list@;
    let n = lang_profile_list.len();
    let mut items: Vec<(Lang, Score)> = Vec::new();
    let mut keys: Vec<u64> = Vec::new();
    let mut i: usize = 0;
    while i < n
        invariant
            n == list.len(),
            list == lang_profile_list@,
            m == table_contents(trigrams.ranks),
            i <= n,
            items@ == scored(candidates(list.take(i as int), *allow_list, m)),
            keys_of(keys@) == score_keys(candidates(list.take(i as int), *allow_list, m)),
        decreases n - i,
    {
        let ghost c = candidates(list.take(i as int), *allow_list, m);
        proof {
            assert(list.take(i + 1).drop_last() =~= list.take(i as int));
            assert(list.take(i + 1).last() == list[i as int]);
        }
        let lang = lang_profile_list[i].0;
        if allow_list.is_allowed(lang) {
            let dist = calculate_distance(&lang_profile_list[i].1, &trigrams.ranks);
            let score = distance_to_score(dist);
            let ghost old_keys = keys@;
            items.push((lang, score));
            keys.push(score.similarity as u64);
            proof {
                let e = (lang, dist as int);
                assert(candidates(list.take(i + 1), *allow_list, m) == c.push(e));
                assert(scored(c.push(e)) =~= scored(c).push((lang, score)));
                assert(keys@ == old_keys.push(score.similarity as u64));
                assert(keys_of(old_keys.push(score.similarity as u64)) =~= keys_of(old_keys).push(
                    score.similarity as int,
                ));
                assert(score_keys(c.push(e)) =~= score_keys(c).push(
                    MAX_TOTAL_DISTANCE - dist as int,
                ));
            }
        }
        i = i + 1;
    }
    proof {
        assert(list.take(n as int) =~= list);
    }
    let scores = order_by_rank(&items, &keys);
    RawOutcome { trigrams_count, lang_scores: LangScores::new(scores) }
}

/// Scores the candidate languages of the query's writing system.
pub fn raw_detect(iquery: &mut InternalQuery, profiles: &Profiles) -> (r: RawOutcome)
    ensures
        is_outcome_of(
            r,
            lower_of(old(iquery).text.source()),
            old(iquery).allow_list,
            profiles.group(old(iquery).multi_lang_script),
        ),
        final(iquery).text.source() == old(iquery).text.source(),
        final(iquery).allow_list == old(iquery).allow_list,
        final(iquery).multi_lang_script == old(iquery).multi_lang_script,
{
    let lang_profile_list = profiles.script_to_lang_profile_list(iquery.multi_lang_script);
    let lowercase = iquery.text.lowercase();
    calculate_scores_in_profiles(lowercase, &iquery.allow_list, lang_profile_list)
}

/// The result for scores ranked best first.
pub open spec fn assembled(
    scores: Seq<(Lang, Score)>,
    trigrams_count: usize,
    script: MultiLangScript,
) -> Option<Info> {
    if scores.len() == 0 {
        None
    } else {
        Some(
            Info {
                script,
                lang: scores[0].0,
                confidence: if scores.len() == 1 {
                    Confidence::Certain
                } else {
                    Confidence::Contested {
                        best: scores[0].1,
                        second: scores[1].1,
                        trigrams_count,
                    }
                },
            },
        )
    }
}

/// The best-ranked language of an outcome, if any.
pub fn assemble(raw_outcome: RawOutcome, script: MultiLangScript) -> (r: Option<Info>)
    ensures
        r == assembled(raw_outcome.lang_scores.scores@, raw_outcome.trigrams_count, script),
{
    let scores = &raw_outcome.lang_scores.scores;
    if scores.len() == 0 {
        None
    } else {
        let (lang, best) = scores[0];
        let confidence = if scores.len() == 1 {
            Confidence::Certain
        } else {
            Confidence::Contested {
                best,
                second: scores[1].1,
                trigrams_count: raw_outcome.trigrams_count,
            }
        };
        Some(Info { script, lang, confidence })
    }
}

/// The best language of the query's text among the allowed candidates of
/// its writing system, if any is allowed.
pub fn detect(iquery: &mut InternalQuery, profiles: &Profiles) -> (r: Option<Info>)
    ensures
        ({
            let text = lower_of(old(iquery).text.source());
            let script = old(iquery).multi_lang_script;
            r == assembled(
                lang_scores_of(text, old(iquery).allow_list, profiles.group(script)),
                trigrams_count_of(text) as usize,
                script,
            )
        }),
        final(iquery).text.source() == old(iquery).text.source(),
        final(iquery).allow_list == old(iquery).allow_list,
        final(iquery).multi_lang_script == old(iquery).multi_lang_script,
{
    let raw_outcome = raw_detect(iquery, profiles);
    assemble(raw_outcome, iquery.multi_lang_script)
}

proof fn lemma_total_penalty_nonnegative(p: Seq<Trigram>, m: Map<Trigram, usize>)
    ensures
        total_penalty(p, m) >= 0,
    decreases p.len(),
{
    if p.len() > 0 {
        lemma_total_penalty_nonnegative(p.drop_last(), m);
    }
}

/// A distance is never negative and never above `MAX_TOTAL_DISTANCE`.
pub proof fn lemma_distance_bounded(p: Seq<Trigram>, m: Map<Trigram, usize>)
    ensures
        0 <= distance_of(p, m) <= MAX_TOTAL_DISTANCE,
{
    lemma_total_penalty_nonnegative(p, m);
}

/// The score falls strictly as the distance grows.
pub proof fn lemma_score_decreasing(d1: int, d2: int)
    requires
        0 <= d1 < d2 <= MAX_TOTAL_DISTANCE,
    ensures
        score_of(d1).similarity > score_of(d2).similarity,
        score_of(0).similarity > score_of(MAX_TOTAL_DISTANCE as int).similarity,
{
}

/// Two outcomes of the same text, allow-list and group are the same.
pub proof fn lemma_outcome_deterministic(
    o1: RawOutcome,
    o2: RawOutcome,
    text: Seq<char>,
    allow: AllowList,
    list: Seq<(Lang, LangProfile)>,
)
    requires
        is_outcome_of(o1, text, allow, list),
        is_outcome_of(o2, text, allow, list),
    ensures
        o1.trigrams_count == o2.trigrams_count,
        o1.lang_scores.scores@ == o2.lang_scores.scores@,
{
}

proof fn lemma_total_penalty_absent(p: Seq<Trigram>)
    ensures
        total_penalty(p, Map::empty()) == p.len() * MAX_TRIGRAM_DISTANCE,
    decreases p.len(),
{
    if p.len() > 0 {
        lemma_total_penalty_absent(p.drop_last());
    }
}

/// A text of fewer than three characters has no trigrams, and every profile
/// is at its full penalty from it, up to the ceiling.
pub proof fn lemma_short_text_distance(text: Seq<char>, p: Seq<Trigram>)
    requires
        text.len() < 3,
    ensures
        trigrams_count_of(text) == 0,
        distance_of(p, ranking_map(windows(text))) == if p.len() * MAX_TRIGRAM_DISTANCE
            < MAX_TOTAL_DISTANCE {
            p.len() * MAX_TRIGRAM_DISTANCE
        } else {
            MAX_TOTAL_DISTANCE as int
        },
{
    let w = windows(text);
    assert(w.len() == 0);
    assert(distinct_seen(w) == Seq::<Trigram>::empty());
    assert(ranking_map(w) =~= Map::<Trigram, usize>::empty());
    lemma_total_penalty_absent(p);
}

proof fn lemma_candidates_at_distance(
    list: Seq<(Lang, LangProfile)>,
    allow: AllowList,
    m: Map<Trigram, usize>,
    d: int,
)
    requires
        forall|i: int| 0 <= i < list.len() ==> distance_of((#[trigger] list[i]).1@, m) == d,
    ensures
        forall|k: int|
            0 <= k < candidates(list, allow, m).len() ==> (#[trigger] candidates(
                list,
                allow,
                m,
            )[k]).1 == d,
    decreases list.len(),
{
    if list.len() > 0 {
        let rest = list.drop_last();
        assert forall|i: int| 0 <= i < rest.len() implies distance_of((#[trigger] rest[i]).1@, m)
            == d by {
            assert(rest[i] == list[i]);
        }
        lemma_candidates_at_distance(rest, allow, m, d);
        assert(list.last() == list[list.len() - 1]);
        let prev = candidates(rest, allow, m);
        let c = candidates(list, allow, m);
        assert forall|k: int| 0 <= k < c.len() implies (#[trigger] c[k]).1 == d by {
            if k < prev.len() {
                assert(c[k] == prev[k]);
            }
        }
    }
}

/// For a text of fewer than three characters and profiles of one length,
/// every allowed language gets the same score, and the scores keep the
/// group's order.
pub proof fn lemma_short_text_keeps_group_order(
    text: Seq<char>,
    allow: AllowList,
    list: Seq<(Lang, LangProfile)>,
    len: nat,
)
    requires
        text.len() < 3,
        forall|i: int| 0 <= i < list.len() ==> (#[trigger] list[i]).1@.len() == len,
    ensures
        ({
            let c = candidates(list, allow, ranking_map(windows(text)));
            let d = if len * MAX_TRIGRAM_DISTANCE < MAX_TOTAL_DISTANCE {
                len * MAX_TRIGRAM_DISTANCE
            } else {
                MAX_TOTAL_DISTANCE as int
            };
            &&& lang_scores_of(text, allow, list) == scored(c)
            &&& forall|k: int| 0 <= k < c.len() ==> (#[trigger] c[k]).1 == d
        }),
{
    let m = ranking_map(windows(text));
    let c = candidates(list, allow, m);
    let d = if len * MAX_TRIGRAM_DISTANCE < MAX_TOTAL_DISTANCE {
        len * MAX_TRIGRAM_DISTANCE
    } else {
        MAX_TOTAL_DISTANCE as int
    };
    assert forall|i: int| 0 <= i < list.len() implies distance_of((#[trigger] list[i]).1@, m)
        == d by {
        lemma_short_text_distance(text, list[i].1@);
    }
    lemma_candidates_at_distance(list, allow, m, d);
    let keys = score_keys(c);
    assert forall|a: int, b: int| 0 <= a < keys.len() && 0 <= b < keys.len() implies keys[a]
        == keys[b] by {
        assert(c[a].1 == d);
        assert(c[b].1 == d);
    }
    lemma_equal_keys_keep_order(scored(c), keys);
}

} // verus!
