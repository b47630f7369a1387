use trigram_detect::order::{order_by_rank, rank_positions};
use trigram_detect::{
    assemble, calculate_distance, calculate_scores_in_profiles, detect, distance_to_score,
    get_trigrams_with_positions, raw_detect, AllowList, Confidence, InternalQuery, Lang,
    LangProfileList, LangScores, MultiLangScript, Profiles, RawOutcome, Score, Text, TextRanking,
    Trigram, MAX_TOTAL_DISTANCE, MAX_TRIGRAM_DISTANCE,
};

fn tri(s: &str) -> Trigram {
    let c: Vec<char> = s.chars().collect();
    (c[0], c[1], c[2])
}

fn profile(words: &[&str]) -> Vec<Trigram> {
    words.iter().map(|w| tri(w)).collect()
}

fn latin_group() -> LangProfileList {
    vec![
        (Lang::Eng, profile(&["abc", "bca", "cab"])),
        (Lang::Fra, profile(&["cab", "abc", "bca"])),
        (Lang::Deu, profile(&["xyz", "yzx", "zxy"])),
    ]
}

fn profiles() -> Profiles {
    Profiles::new(
        latin_group(),
        vec![(Lang::Rus, profile(&["при", "рив", "иве"]))],
        vec![],
        vec![],
        vec![(Lang::Heb, profile(&["שלו", "לום"]))],
    )
    .unwrap()
}

fn query(text: &str, allow_list: AllowList, script: MultiLangScript) -> InternalQuery {
    InternalQuery {
        text: Text::new(text.to_string()),
        allow_list,
        multi_lang_script: script,
    }
}

fn rank_of(ranking: &TextRanking, s: &str) -> Option<usize> {
    ranking.rank(&tri(s))
}

#[test]
fn ranking_orders_by_count() {
    let r = get_trigrams_with_positions("abcabcabc");
    assert_eq!(r.trigrams_count, 3);
    assert_eq!(rank_of(&r, "abc"), Some(0));
    assert_eq!(rank_of(&r, "bca"), Some(1));
    assert_eq!(rank_of(&r, "cab"), Some(2));
    assert_eq!(rank_of(&r, "xyz"), None);
}

#[test]
fn ranking_breaks_ties_by_first_seen() {
    let r = get_trigrams_with_positions("xyzabcxyz");
    // xyz occurs twice; the others once, in the order yza, zab, abc, bcx, cxy
    assert_eq!(r.trigrams_count, 6);
    assert_eq!(rank_of(&r, "xyz"), Some(0));
    assert_eq!(rank_of(&r, "yza"), Some(1));
    assert_eq!(rank_of(&r, "zab"), Some(2));
    assert_eq!(rank_of(&r, "abc"), Some(3));
    assert_eq!(rank_of(&r, "bcx"), Some(4));
    assert_eq!(rank_of(&r, "cxy"), Some(5));
}

#[test]
fn ranking_counts_characters_not_bytes() {
    let r = get_trigrams_with_positions("éééé");
    assert_eq!(r.trigrams_count, 1);
    assert_eq!(rank_of(&r, "ééé"), Some(0));
}

#[test]
fn ranking_of_short_text_is_empty() {
    assert_eq!(get_trigrams_with_positions("ab").trigrams_count, 0);
    assert_eq!(get_trigrams_with_positions("").trigrams_count, 0);
    assert_eq!(get_trigrams_with_positions("abc").trigrams_count, 1);
}

#[test]
fn ranking_is_dense_for_a_longer_text() {
    let text = "the quick brown fox jumps over the lazy dog the end";
    let r = get_trigrams_with_positions(text);
    let chars: Vec<char> = text.chars().collect();
    let mut ranks: Vec<usize> = Vec::new();
    let mut seen: Vec<Trigram> = Vec::new();
    for i in 0..chars.len() - 2 {
        let t = (chars[i], chars[i + 1], chars[i + 2]);
        if !seen.contains(&t) {
            seen.push(t);
            ranks.push(r.rank(&t).unwrap());
        }
    }
    assert_eq!(seen.len(), r.trigrams_count);
    ranks.sort();
    assert_eq!(ranks, (0..r.trigrams_count).collect::<Vec<usize>>());
    assert_eq!(r.rank(&tri("the")), Some(0));
}

#[test]
fn distance_sums_rank_differences() {
    let r = get_trigrams_with_positions("abcabcabc");
    assert_eq!(calculate_distance(&profile(&["abc", "bca", "cab"]), &r.ranks), 0);
    assert_eq!(calculate_distance(&profile(&["cab", "abc", "bca"]), &r.ranks), 4);
    assert_eq!(calculate_distance(&profile(&["abc", "xyz", "cab"]), &r.ranks), 300);
    assert_eq!(calculate_distance(&vec![], &r.ranks), 0);
}

#[test]
fn distance_is_clamped() {
    let empty = get_trigrams_with_positions("");
    let long: Vec<Trigram> = (0..400u32)
        .map(|i| (char::from_u32(0x4e00 + i).unwrap(), 'a', 'b'))
        .collect();
    assert_eq!(calculate_distance(&long, &empty.ranks), MAX_TOTAL_DISTANCE);
    let exact: Vec<Trigram> = long[..300].to_vec();
    assert_eq!(calculate_distance(&exact, &empty.ranks), 90000);
    let below: Vec<Trigram> = long[..299].to_vec();
    assert_eq!(calculate_distance(&below, &empty.ranks), 89700);
}

#[test]
fn score_of_distance() {
    assert_eq!(distance_to_score(0), Score { similarity: 90000 });
    assert_eq!(distance_to_score(MAX_TOTAL_DISTANCE), Score { similarity: 0 });
    assert_eq!(distance_to_score(4), Score { similarity: 89996 });
    assert!(distance_to_score(10).similarity > distance_to_score(11).similarity);
    assert_eq!(MAX_TRIGRAM_DISTANCE, 300);
}

#[test]
fn abc_text_prefers_closer_profile() {
    let allow = AllowList::Only(vec![Lang::Eng, Lang::Fra]);
    let mut q = query("abcabcabc", allow, MultiLangScript::Latin);
    let out = raw_detect(&mut q, &profiles());
    assert_eq!(out.trigrams_count, 3);
    assert_eq!(
        out.lang_scores.scores,
        vec![
            (Lang::Eng, Score { similarity: 90000 }),
            (Lang::Fra, Score { similarity: 89996 }),
        ]
    );
    let info = detect(&mut q, &profiles()).unwrap();
    assert_eq!(info.lang, Lang::Eng);
    assert_eq!(info.script, MultiLangScript::Latin);
    assert_eq!(
        info.confidence,
        Confidence::Contested {
            best: Score { similarity: 90000 },
            second: Score { similarity: 89996 },
            trigrams_count: 3,
        }
    );
}

#[test]
fn allow_all_ranks_whole_group() {
    let mut q = query("cabcabcab", AllowList::All, MultiLangScript::Latin);
    let out = raw_detect(&mut q, &profiles());
    // cab 3, abc 2, bca 2
    let langs: Vec<Lang> = out.lang_scores.scores.iter().map(|e| e.0).collect();
    assert_eq!(langs, vec![Lang::Fra, Lang::Eng, Lang::Deu]);
    assert_eq!(out.lang_scores.scores[0].1, Score { similarity: 90000 });
    assert_eq!(out.lang_scores.scores[2].1, Score { similarity: 89100 });
}

#[test]
fn single_allowed_language_is_certain() {
    let mut q = query("zzzzzz", AllowList::Only(vec![Lang::Deu]), MultiLangScript::Latin);
    let info = detect(&mut q, &profiles()).unwrap();
    assert_eq!(info.lang, Lang::Deu);
    assert_eq!(info.confidence, Confidence::Certain);
    let mut q = query("abcabc", AllowList::Only(vec![Lang::Fra]), MultiLangScript::Latin);
    assert_eq!(detect(&mut q, &profiles()).unwrap().confidence, Confidence::Certain);
}

#[test]
fn empty_allow_list_gives_no_result() {
    let mut q = query("abcabcabc", AllowList::Only(vec![]), MultiLangScript::Latin);
    assert_eq!(detect(&mut q, &profiles()), None);
    let out = raw_detect(&mut q, &profiles());
    assert_eq!(out.trigrams_count, 3);
    assert!(out.lang_scores.scores.is_empty());
}

#[test]
fn allow_list_outside_group_gives_no_result() {
    let mut q = query("abcabcabc", AllowList::Only(vec![Lang::Rus]), MultiLangScript::Latin);
    assert_eq!(detect(&mut q, &profiles()), None);
}

#[test]
fn short_text_ties_in_group_order() {
    let mut q = query("ab", AllowList::All, MultiLangScript::Latin);
    let out = raw_detect(&mut q, &profiles());
    assert_eq!(out.trigrams_count, 0);
    let tie = distance_to_score(3 * MAX_TRIGRAM_DISTANCE);
    assert_eq!(
        out.lang_scores.scores,
        vec![(Lang::Eng, tie), (Lang::Fra, tie), (Lang::Deu, tie)]
    );
}

#[test]
fn raw_detect_is_deterministic() {
    let p = profiles();
    let mut q = query("bcabcaxyzx", AllowList::All, MultiLangScript::Latin);
    let a = raw_detect(&mut q, &p);
    let b = raw_detect(&mut q, &p);
    assert_eq!(a.trigrams_count, b.trigrams_count);
    assert_eq!(a.lang_scores.scores, b.lang_scores.scores);
}

#[test]
fn text_is_lowercased_before_scoring() {
    let mut text = Text::new("ABCabcABC".to_string());
    assert_eq!(text.lowercase(), "abcabcabc");
    assert_eq!(text.lowercase(), "abcabcabc");
    let mut q = query("ABCABCABC", AllowList::All, MultiLangScript::Latin);
    let info = detect(&mut q, &profiles()).unwrap();
    assert_eq!(info.lang, Lang::Eng);
}

#[test]
fn cyrillic_group_is_selected() {
    let mut q = query("привет", AllowList::All, MultiLangScript::Cyrillic);
    let info = detect(&mut q, &profiles()).unwrap();
    assert_eq!(info.lang, Lang::Rus);
    assert_eq!(info.script, MultiLangScript::Cyrillic);
    let mut q = query("привет", AllowList::All, MultiLangScript::Arabic);
    assert_eq!(detect(&mut q, &profiles()), None);
}

#[test]
fn scores_in_profiles_from_lowercase_text() {
    let out = calculate_scores_in_profiles("abcabcabc", &AllowList::All, &latin_group());
    assert_eq!(out.trigrams_count, 3);
    assert_eq!(out.lang_scores.scores[0], (Lang::Eng, Score { similarity: 90000 }));
    assert_eq!(out.lang_scores.scores[1], (Lang::Fra, Score { similarity: 89996 }));
    assert_eq!(out.lang_scores.scores[2], (Lang::Deu, Score { similarity: 89100 }));
}

#[test]
fn assemble_picks_best() {
    let out = RawOutcome {
        trigrams_count: 7,
        lang_scores: LangScores::new(vec![(Lang::Spa, Score { similarity: 5 })]),
    };
    let info = assemble(out, MultiLangScript::Latin).unwrap();
    assert_eq!(info.lang, Lang::Spa);
    assert_eq!(info.confidence, Confidence::Certain);
    let empty = RawOutcome { trigrams_count: 0, lang_scores: LangScores::new(vec![]) };
    assert_eq!(assemble(empty, MultiLangScript::Hebrew), None);
}

#[test]
fn profiles_reject_repeated_trigram() {
    let bad = vec![(Lang::Eng, profile(&["abc", "bcd", "abc"]))];
    assert!(Profiles::new(bad, vec![], vec![], vec![], vec![]).is_none());
    let twice = vec![(Lang::Eng, profile(&["abc"])), (Lang::Eng, profile(&["bcd"]))];
    assert!(Profiles::new(vec![], twice, vec![], vec![], vec![]).is_none());
    assert!(Profiles::new(latin_group(), vec![], vec![], vec![], vec![]).is_some());
}

#[test]
fn allow_list_membership() {
    let only = AllowList::Only(vec![Lang::Eng, Lang::Pol]);
    assert!(only.is_allowed(Lang::Pol));
    assert!(!only.is_allowed(Lang::Fra));
    assert!(AllowList::All.is_allowed(Lang::Yid));
}

#[test]
fn stable_order_by_descending_key() {
    let keys: Vec<u64> = vec![2, 5, 2, 9];
    assert_eq!(rank_positions(&keys), vec![2, 1, 3, 0]);
    let items = vec!['a', 'b', 'c', 'd'];
    assert_eq!(order_by_rank(&items, &keys), vec!['d', 'b', 'a', 'c']);
}
