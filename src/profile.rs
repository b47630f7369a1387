//! Languages, writing systems and the trigram profiles of each language.
use crate::ranking::seen_index;
use crate::trigram::{same_trigram, Trigram};
use vstd::prelude::*;

verus! {

/// A language that a profile can describe.
#[derive(Clone, Copy, Debug, PartialEq, Eq, Structural, Hash)]
pub enum Lang {
    Eng,
    Fra,
    Deu,
    Spa,
    Por,
    Ita,
    Nld,
    Pol,
    Rus,
    Ukr,
    Bel,
    Bul,
    Srp,
    Mkd,
    Ara,
    Pes,
    Urd,
    Hin,
    Mar,
    Nep,
    Heb,
    Yid,
}

/// A writing system shared by several languages.
#[derive(Clone, Copy, Debug, PartialEq, Eq, Structural, Hash)]
pub enum MultiLangScript {
    Latin,
    Cyrillic,
    Arabic,
    Devanagari,
    Hebrew,
}

/// The trigrams of a language, most frequent first: a trigram's index is
/// its rank.
pub type LangProfile = Vec<Trigram>;

/// The languages of one writing system, each with its profile.
pub type LangProfileList = Vec<(Lang, LangProfile)>;

/// The rank of each trigram of a profile.
pub open spec fn profile_ranks(p: Seq<Trigram>) -> Map<Trigram, int> {
    Map::new(|t: Trigram| p.contains(t), |t: Trigram| seen_index(p, t))
}

/// A profile holds each trigram once, and a group each language once.
pub open spec fn group_valid(list: Seq<(Lang, LangProfile)>) -> bool {
    &&& forall|i: int| 0 <= i < list.len() ==> (#[trigger] list[i]).1@.no_duplicates()
    &&& forall|i: int, j: int|
        0 <= i < list.len() && 0 <= j < list.len() && i != j ==> (#[trigger] list[i]).0
            != (#[trigger] list[j]).0
}

/// Some rank of a profile's map is `p`.
pub open spec fn profile_rank_held(m: Map<Trigram, int>, p: int) -> bool {
    exists|t: Trigram| #[trigger] m.contains_key(t) && m[t] == p
}

/// In a profile that holds each trigram once, each trigram's rank is its
/// index, and the ranks are exactly the integers from 0 to the profile's
/// length, each taken once.
pub proof fn lemma_profile_ranks_dense(p: Seq<Trigram>)
    requires
        p.no_duplicates(),
    ensures
        forall|i: int| 0 <= i < p.len() ==> #[trigger] profile_ranks(p)[p[i]] == i,
        forall|t: Trigram| #[trigger]
            profile_ranks(p).contains_key(t) ==> 0 <= profile_ranks(p)[t] < p.len(),
        forall|t: Trigram, u: Trigram|
            profile_ranks(p).contains_key(t) && profile_ranks(p).contains_key(u) && t != u
                ==> #[trigger] profile_ranks(p)[t] != #[trigger] profile_ranks(p)[u],
        forall|r: int| 0 <= r < p.len() ==> #[trigger] profile_rank_held(profile_ranks(p), r),
{
    let m = profile_ranks(p);
    assert forall|t: Trigram| #[trigger] m.contains_key(t) implies 0 <= seen_index(p, t) < p.len()
        && p[seen_index(p, t)] == t by {
        let k = choose|k: int| 0 <= k < p.len() && p[k] == t;
        assert(p[k] == t);
    }
    assert forall|i: int| 0 <= i < p.len() implies #[trigger] m[p[i]] == i by {
        assert(m.contains_key(p[i]));
    }
    assert forall|r: int| 0 <= r < p.len() implies #[trigger] profile_rank_held(m, r) by {
        assert(m.contains_key(p[r]));
        assert(m[p[r]] == r);
    }
}

/// Whether a profile holds each trigram once.
pub fn profile_is_valid(p: &LangProfile) -> (r: bool)
    ensures
        r == p@.no_duplicates(),
{
    let n = p.len();
    let mut i: usize = 0;
    while i < n
        invariant
            n == p@.len(),
            i <= n,
            forall|a: int, b: int| 0 <= a < i && 0 <= b < n && a != b ==> p@[a] != p@[b],
        decreases n - i,
    {
        let mut j: usize = 0;
        while j < n
            invariant
                n == p@.len(),
                i < n,
                j <= n,
                forall|b: int| 0 <= b < j && b != i ==> p@[i as int] != p@[b],
            decreases n - j,
        {
            if j != i && same_trigram(&p[i], &p[j]) {
                return false;
            }
            j = j + 1;
        }
        i = i + 1;
    }
    true
}

/// Whether every profile of a group holds each trigram once and the group
/// holds each language once.
pub fn group_is_valid(list: &LangProfileList) -> (r: bool)
    ensures
        r == group_valid(list@),
{
    let n = list.len();
    let mut i: usize = 0;
    while i < n
        invariant
            n == list@.len(),
            i <= n,
            forall|a: int| 0 <= a < i ==> (#[trigger] list@[a]).1@.no_duplicates(),
            forall|a: int, b: int|
                0 <= a < i && 0 <= b < n && a != b ==> (#[trigger] list@[a]).0
                    != (#[trigger] list@[b]).0,
        decreases n - i,
    {
        if !profile_is_valid(&list[i].1) {
            return false;
        }
        let mut j: usize = 0;
        while j < n
            invariant
                n == list@.len(),
                i < n,
                j <= n,
                forall|b: int| 0 <= b < j && b != i ==> list@[i as int].0 != (#[trigger] list@[b]).0,
            decreases n - j,
        {
            if j != i && list[i].0 == list[j].0 {
                return false;
            }
            j = j + 1;
        }
        i = i + 1;
    }
    true
}

/// The profile groups of all writing systems.
pub struct Profiles {
    pub latin: LangProfileList,
    pub cyrillic: LangProfileList,
    pub arabic: LangProfileList,
    pub devanagari: LangProfileList,
    pub hebrew: LangProfileList,
}

impl Profiles {
    /// The group of a writing system.
    pub open spec fn group(&self, script: MultiLangScript) -> Seq<(Lang, LangProfile)> {
        match script {
            MultiLangScript::Latin => self.latin@,
            MultiLangScript::Cyrillic => self.cyrillic@,
            MultiLangScript::Arabic => self.arabic@,
            MultiLangScript::Devanagari => self.devanagari@,
            MultiLangScript::Hebrew => self.hebrew@,
        }
    }

    pub open spec fn wf(&self) -> bool {
        &&& group_valid(self.latin@)
        &&& group_valid(self.cyrillic@)
        &&& group_valid(self.arabic@)
        &&& group_valid(self.devanagari@)
        &&& group_valid(self.hebrew@)
    }

    /// Checks the groups once, at load time: `None` where a profile holds a
    /// trigram twice or a group a language twice.
    pub fn new(
        latin: LangProfileList,
        cyrillic: LangProfileList,
        arabic: LangProfileList,
        devanagari: LangProfileList,
        hebrew: LangProfileList,
    ) -> (r: Option<Profiles>)
        ensures
            r is Some <==> (group_valid(latin@) && group_valid(cyrillic@) && group_valid(arabic@)
                && group_valid(devanagari@) && group_valid(hebrew@)),
            r matches Some(p) ==> p.wf() && p.latin@ == latin@ && p.cyrillic@ == cyrillic@
                && p.arabic@ == arabic@ && p.devanagari@ == devanagari@ && p.hebrew@ == hebrew@,
    {
        if group_is_valid(&latin) && group_is_valid(&cyrillic) && group_is_valid(&arabic)
            && group_is_valid(&devanagari) && group_is_valid(&hebrew) {
            Some(Profiles { latin, cyrillic, arabic, devanagari, hebrew })
        } else {
            None
        }
    }

    /// The candidate languages of a writing system.
    pub fn script_to_lang_profile_list(&self, script: MultiLangScript) -> (r: &LangProfileList)
        ensures
            r@ == self.group(script),
    {
        match script {
            MultiLangScript::Latin => &self.latin,
            MultiLangScript::Cyrillic => &self.cyrillic,
            MultiLangScript::Arabic => &self.arabic,
            MultiLangScript::Devanagari => &self.devanagari,
            MultiLangScript::Hebrew => &self.hebrew,
        }
    }
}

} // verus!
