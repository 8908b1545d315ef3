use polysearch::{
    align, damerau_levenshtein, expand, Alignment, AlignmentKind, Config, CorrectionIndex, Entry, Field, Index,
    MatchLength, NormalizedText, Rank, Terms, TokenMatch, ALIAS, PRIMARY_NAME,
};

fn chars(text: &str) -> Vec<char> {
    text.chars().collect()
}

fn field_entry(id: u64, field: u32, text: &str) -> Entry {
    Entry { id, fields: vec![Field { id: field, role: PRIMARY_NAME, text: text.to_string() }] }
}

#[test]
fn config_defaults_allow_two_edits_and_correction_without_a_candidate_cap() {
    let config = Config::default();
    assert_eq!(config.max_edits, 2);
    assert!(config.enable_correction);
    assert_eq!(config.max_candidates, usize::MAX);
}

#[test]
fn normalization_lowercases_and_collapses_separators() {
    let text = NormalizedText::new("  Hello--World/ÄB  ");
    assert_eq!(text.as_str(), "hello world äb");
    assert_eq!(text.chars(), chars("helloworldäb").as_slice());
    assert_eq!(text.match_key(), "helloworldäb");
    assert_eq!(text.len(), 12);
    assert!(!text.is_empty());
    assert!(NormalizedText::new(" /-_ . ").is_empty());
    assert_eq!(NormalizedText::new("Org.Gnome·Files").as_str(), "org gnome files");
}

#[test]
fn terms_keep_one_term_per_text_within_their_limits() {
    let mut terms = Terms::new("Files", 32, 4096);
    assert_eq!(terms.values.len(), 1);
    assert_eq!(terms.values[0].text.as_str(), "files");
    assert_eq!(terms.values[0].cost, 0);

    terms.add("FILES", 5);
    assert_eq!(terms.values.len(), 1);
    assert_eq!(terms.values[0].cost, 0);

    terms.add("Folder", 7);
    assert_eq!(terms.values.len(), 2);
    assert_eq!(terms.values[1].text.as_str(), "folder");
    assert_eq!(terms.values[1].cost, 7);

    let mut full = Terms::new("a", 1, 4096);
    full.add("b", 1);
    assert_eq!(full.values.len(), 1);

    let mut short = Terms::new("abc", 32, 4);
    short.add("de", 1);
    assert_eq!(short.values.len(), 1);
    assert!(Terms::new(" - ", 32, 4096).values.is_empty());
}

#[test]
fn damerau_levenshtein_counts_transpositions_and_keeps_one_edit_per_three_characters() {
    assert_eq!(damerau_levenshtein(&chars("weixni"), &chars("weixin"), 2, MatchLength::Full), Some((1, 6)));
    assert_eq!(damerau_levenshtein(&chars("ab"), &chars("ba"), 2, MatchLength::Full), None);
    assert_eq!(damerau_levenshtein(&chars("kitten"), &chars("sitting"), 3, MatchLength::Full), None);
    assert_eq!(
        damerau_levenshtein(&chars("bisyalatudio"), &chars("visualstudio"), 3, MatchLength::Full),
        Some((3, 12))
    );
    assert_eq!(
        damerau_levenshtein(&chars("algormusix"), &chars("algermusicplayer"), 2, MatchLength::Prefix),
        Some((2, 10))
    );
    assert_eq!(damerau_levenshtein(&chars("agle"), &chars("algermusicplayer"), 2, MatchLength::Prefix), Some((1, 4)));
    assert_eq!(damerau_levenshtein(&chars("abc"), &chars("abc"), 0, MatchLength::Full), Some((0, 3)));
}

#[test]
fn alignment_prefers_substrings_then_subsequences_then_fuzzy_prefixes() {
    let candidate = chars("visualstudiocode");
    let starts = [0u16, 6, 12];

    let substring = align(&chars("studio"), &candidate, &starts, 2).unwrap();
    assert_eq!(substring.start, 6);
    assert_eq!(substring.edits, 0);
    assert_eq!(substring.gaps, 10);
    assert!(substring.is_contiguous());
    assert!(!substring.crosses_token_boundary());

    let initials = align(&chars("vsc"), &candidate, &starts, 2).unwrap();
    assert!(!initials.is_contiguous());
    assert!(initials.crosses_token_boundary());
    assert!(initials.token_starts());
    assert!(initials.token_progression());
    assert_eq!(initials.edits, 0);

    let fuzzy = align(&chars("algormusix"), &chars("algermusicplayer"), &[0], 2).unwrap();
    assert_eq!(fuzzy.kind, AlignmentKind::Fuzzy);
    assert_eq!(fuzzy.edits, 2);
    assert_eq!(fuzzy.gaps, 6);
    assert_eq!(fuzzy.start, 0);

    assert_eq!(align(&chars("alxormusix"), &chars("algermusicplayer"), &[0], 2), None);
}

#[test]
fn alignment_flags_follow_the_kind() {
    let fuzzy = Alignment { edits: 1, gaps: 0, start: 0, kind: AlignmentKind::Fuzzy };
    assert!(!fuzzy.is_contiguous());
    assert!(!fuzzy.crosses_token_boundary());
    assert!(!fuzzy.token_progression());
    let contiguous = Alignment {
        edits: 0,
        gaps: 2,
        start: 1,
        kind: AlignmentKind::Contiguous { crosses_token_boundary: true, token_starts: false },
    };
    assert!(contiguous.is_contiguous());
    assert!(contiguous.crosses_token_boundary());
    assert!(contiguous.token_progression());
    assert!(!contiguous.token_starts());
}

#[test]
fn ranks_order_by_role_then_edits_then_the_remaining_fields() {
    let base = Rank {
        role_penalty: 0,
        edit_cost: 1,
        candidate_cost: 0,
        gap_cost: 0,
        start: 0,
        frequency_penalty: 0,
        stable_id: 2,
    };
    let fewer_edits = Rank { edit_cost: 0, candidate_cost: 9, stable_id: 3, ..base };
    let worse_role = Rank { role_penalty: 1, edit_cost: 0, ..base };
    assert!(fewer_edits.lt(&base));
    assert!(!base.lt(&fewer_edits));
    assert!(base.lt(&worse_role));
    assert!(Rank { stable_id: 1, ..base }.lt(&base));
    assert!(!base.lt(&base));
    assert!(fewer_edits.is_strong());
    assert!(!base.is_strong());
}

#[test]
fn corrections_pick_the_single_closest_word() {
    let corrector = CorrectionIndex::new(&["weixin", "weixing", "small"], 2);
    assert_eq!(corrector.correct(&chars("weixni")), Some(("weixin", 1)));
    assert_eq!(corrector.correct(&chars("weixin")), Some(("weixing", 1)));
    assert_eq!(corrector.correct(&chars("weixinn")), None);
    assert_eq!(corrector.correct(&chars("smal")), Some(("small", 1)));

    let tied = CorrectionIndex::new(&["sxs", "sns"], 2);
    assert_eq!(tied.correct(&chars("sms")), None);

    let single = CorrectionIndex::new(&["visualstudio"], 1);
    assert_eq!(single.correct(&chars("bisyalatudio")), None);
    let scanning = CorrectionIndex::new(&["visualstudio"], 3);
    assert_eq!(scanning.correct(&chars("bisyalatudio")), Some(("visualstudio", 3)));
}

#[test]
fn the_vocabulary_holds_term_and_token_keys_in_order() {
    let index = Index::new(vec![Entry {
        id: 1,
        fields: vec![
            Field { id: 1, role: PRIMARY_NAME, text: "File Manager".to_string() },
            Field { id: 2, role: ALIAS, text: "Files".to_string() },
        ],
    }]);
    assert_eq!(index.vocabulary(), vec!["file", "filemanager", "files", "manager"]);
}

#[test]
fn candidates_are_bounded_and_led_by_prefix_matches() {
    let index = Index::new(vec![
        field_entry(1, 1, "Files"),
        field_entry(2, 2, "Firefox"),
        field_entry(3, 3, "Calculator"),
    ]);
    let query = NormalizedText::new("fi");
    let found = index.candidates(&query, 10);
    let entries: Vec<u64> = found.iter().map(|candidate| candidate.term.entry).collect();
    assert_eq!(entries, vec![1, 2]);
    assert_eq!(index.candidates(&query, 1).len(), 1);
    assert_eq!(index.candidates(&query, 1)[0].term.entry, 1);
}

#[test]
fn candidates_fall_back_to_shared_pairs_most_shared_first() {
    let index = Index::new(vec![
        field_entry(1, 1, "abxcd"),
        field_entry(2, 2, "zzabcd"),
        field_entry(3, 3, "cdab"),
        field_entry(4, 4, "qrst"),
    ]);
    let found = index.candidates(&NormalizedText::new("abcd"), 10);
    let entries: Vec<u64> = found.iter().map(|candidate| candidate.term.entry).collect();
    assert_eq!(entries, vec![2, 1, 3]);
    assert!(found.iter().all(|candidate| candidate.token.is_none()));
    let limited = index.candidates(&NormalizedText::new("abcd"), 2);
    let entries: Vec<u64> = limited.iter().map(|candidate| candidate.term.entry).collect();
    assert_eq!(entries, vec![2, 1]);
}

#[test]
fn candidates_of_short_queries_hold_all_their_characters() {
    let index = Index::new(vec![
        field_entry(1, 1, "Files"),
        field_entry(2, 2, "Firefox"),
        field_entry(3, 3, "Calculator"),
    ]);
    let found = index.candidates(&NormalizedText::new("xf"), 10);
    let entries: Vec<u64> = found.iter().map(|candidate| candidate.term.entry).collect();
    assert_eq!(entries, vec![2]);
}

#[test]
fn candidates_report_how_a_token_matched() {
    let index = Index::new(vec![field_entry(1, 1, "Visual Studio Code")]);
    let exact = index.candidates(&NormalizedText::new("studio"), 10);
    assert_eq!(exact.len(), 1);
    assert_eq!(exact[0].token, Some(TokenMatch::Exact));
    let prefix = index.candidates(&NormalizedText::new("stu"), 10);
    assert_eq!(prefix.len(), 1);
    assert_eq!(prefix[0].token, Some(TokenMatch::Prefix));
}

#[test]
fn pinyin_expansion_adds_full_readings_and_initials() {
    let mut terms = Terms::new("银行", 32, 4096);
    expand("银行", &mut terms);
    let texts: Vec<(String, u16)> =
        terms.values.iter().map(|term| (term.text.match_key(), term.cost)).collect();
    assert!(texts.contains(&("银行".to_string(), 0)));
    assert!(texts.contains(&("yinhang".to_string(), 18)));
    assert!(texts.contains(&("yh".to_string(), 28)));
    assert!(texts.iter().any(|(text, _)| text == "yinxing"));

    let mut latin = Terms::new("Files", 32, 4096);
    expand("Files", &mut latin);
    assert_eq!(latin.values.len(), 1);
}

#[test]
fn a_larger_edit_budget_keeps_an_accepted_distance_and_end() {
    let left = chars("weixni");
    let right = chars("weixinapp");
    let small = damerau_levenshtein(&left, &right, 1, MatchLength::Prefix);
    assert_eq!(small, Some((1, 6)));
    for budget in 2..6 {
        assert_eq!(damerau_levenshtein(&left, &right, budget, MatchLength::Prefix), small);
    }
}

#[test]
fn terms_spend_the_character_budget_term_by_term() {
    let mut terms = Terms::new("abc", 32, 5);
    terms.add("de", 1);
    assert_eq!(terms.values.len(), 2);
    terms.add("f", 1);
    assert_eq!(terms.values.len(), 2);
    terms.add("abc", 0);
    assert_eq!(terms.values.len(), 2);
}

#[test]
fn ascii_text_normalizes_by_its_letters_and_spaces() {
    assert_eq!(NormalizedText::new("ABC xyz").as_str(), "abc xyz");
    assert_eq!(NormalizedText::new("A\tB\r\nC\u{0B}D\u{0C}E").as_str(), "a b c d e");
    assert_eq!(NormalizedText::new("Q1 2!").as_str(), "q1 2!");
    assert_eq!(NormalizedText::new("no\u{A0}break").as_str(), "no break");
}

#[test]
fn an_empty_query_ranks_nothing() {
    let entry = field_entry(1, 1, "Files");
    let index = Index::new(vec![entry]);
    let query = Terms::new("", 1, 16);
    assert!(query.values.is_empty());
    let term = Terms::new("files", 1, 16);
    let candidates = index.candidates(&term.values[0].text, 8);
    assert!(!candidates.is_empty());
    let empty = polysearch::Term { text: NormalizedText::new(""), cost: 0 };
    assert_eq!(Rank::for_candidate(&empty, &candidates[0], 0, &Config::default()), None);
}

#[test]
fn a_typed_prefix_needs_no_edits() {
    let text = chars("visual");
    for budget in 0..4 {
        assert_eq!(damerau_levenshtein(&text, &text, budget, MatchLength::Full), Some((0, 6)));
        assert_eq!(damerau_levenshtein(&text, &chars("visualstudio"), budget, MatchLength::Prefix), Some((0, 6)));
    }
}

#[test]
fn normalized_text_normalizes_to_itself() {
    for input in ["  Visual -- Studio/Code  ", "org.gnome.Files", "A\tB", "___", ""] {
        let once = NormalizedText::new(input);
        let twice = NormalizedText::new(once.as_str());
        assert_eq!(twice.as_str(), once.as_str());
        assert_eq!(twice.chars(), once.chars());
        assert_eq!(once.match_key(), once.as_str().replace(' ', ""));
        assert!(!once.as_str().starts_with(' ') && !once.as_str().ends_with(' '));
        assert!(!once.as_str().contains("  "));
        assert_eq!(once.is_empty(), input.chars().all(|c| c.is_whitespace() || "/\\_-.·".contains(c)));
    }
}

#[test]
fn a_correction_index_is_built_when_its_symbols_suffice() {
    assert!(CorrectionIndex::try_new(&["weixin", "weixing"], 2).is_some());
    assert!(CorrectionIndex::try_new(&["weixin"], 5).is_some());
    assert!(CorrectionIndex::try_new(&[], 1).is_some());
}

#[test]
fn alignment_flags_agree_with_the_kind() {
    let candidate = chars("visualstudiocode");
    let starts = [0u16, 6, 12];
    let substring = align(&chars("studio"), &candidate, &starts, 2).unwrap();
    assert!(substring.is_contiguous() && substring.token_progression());
    let initials = align(&chars("vsc"), &candidate, &starts, 2).unwrap();
    assert!(initials.token_progression() && starts.contains(&initials.start));
    let single = align(&chars("vsc"), &candidate, &[0], 2).unwrap();
    assert!(!single.is_contiguous() && !single.token_progression());
    let fuzzy = align(&chars("algormusix"), &chars("algermusicplayer"), &[0], 2).unwrap();
    assert!(fuzzy.edits > 0 && !fuzzy.token_progression() && !fuzzy.token_starts() && !fuzzy.crosses_token_boundary());
}

#[test]
fn indexes_are_built_when_their_ids_suffice() {
    let index = Index::try_new(vec![field_entry(1, 1, "Files"), field_entry(2, 2, "银行")]);
    assert!(index.is_some());
    let searcher = polysearch::Searcher::try_new(vec![field_entry(1, 1, "Files")], Config::default()).unwrap();
    assert_eq!(searcher.search("files", 5).len(), 1);
}
