use polysearch::{Config, Entry, EntryId, Field, FieldId, Role, Searcher, IDENTIFIER, KEYWORD, PRIMARY_NAME};

fn entry(id: EntryId, fields: Vec<(FieldId, Role, &str)>) -> Entry {
    Entry {
        id,
        fields: fields
            .into_iter()
            .map(|(field_id, role, text)| Field { id: field_id, role, text: text.into() })
            .collect(),
    }
}

fn apps() -> Vec<Entry> {
    vec![
        entry(1, vec![(1, PRIMARY_NAME, "Editor"), (2, IDENTIFIER, "org.example.editor")]),
        entry(2, vec![(3, PRIMARY_NAME, "Code Editor"), (4, KEYWORD, "editor")]),
        entry(3, vec![(5, IDENTIFIER, "editor")]),
        entry(4, vec![(6, PRIMARY_NAME, "Edit Pad")]),
    ]
}

#[test]
fn results_are_unique_per_entry_bounded_and_keep_the_best_field() {
    let searcher = Searcher::new(apps(), Config::default());
    let results = searcher.search("editor", 10);
    let ids: Vec<EntryId> = results.iter().map(|result| result.entry).collect();
    assert_eq!(ids, vec![1, 2, 4, 3]);
    assert_eq!(results[0].field, 1);
    assert_eq!(results[1].field, 3);
    assert_eq!(results[2].field, 6);
    assert_eq!(results[3].field, 5);
    for limit in 0..6 {
        let limited = searcher.search("editor", limit);
        assert_eq!(limited.len(), limit.min(4));
        assert!(limited.iter().zip(results.iter()).all(|(a, b)| a.entry == b.entry && a.field == b.field));
    }
}

#[test]
fn empty_and_overlong_queries_find_nothing() {
    let searcher = Searcher::new(apps(), Config::default());
    assert!(searcher.search("", 10).is_empty());
    assert!(searcher.search("  .-_/ ", 10).is_empty());
    let long = "e".repeat(513);
    assert!(searcher.search(&long, 10).is_empty());
    assert!(searcher.search("editor", 0).is_empty());
}

#[test]
fn a_zero_candidate_cap_finds_nothing() {
    let searcher = Searcher::new(apps(), Config { max_candidates: 0, ..Config::default() });
    assert!(searcher.search("editor", 10).is_empty());
}

#[test]
fn queries_are_matched_case_and_separator_insensitively() {
    let searcher = Searcher::new(apps(), Config::default());
    let upper: Vec<EntryId> = searcher.search("EDITOR", 10).iter().map(|result| result.entry).collect();
    assert_eq!(upper, vec![1, 2, 4, 3]);
    let spaced: Vec<EntryId> = searcher.search("code-editor", 10).iter().map(|result| result.entry).collect();
    assert_eq!(spaced, vec![2]);
}

#[test]
fn without_an_edit_budget_only_exact_matches_remain() {
    let searcher = Searcher::new(apps(), Config { max_edits: 0, ..Config::default() });
    assert!(searcher.search("edtior", 10).is_empty());
    let fuzzy = Searcher::new(apps(), Config::default());
    assert!(!fuzzy.search("edtior", 10).is_empty());
}

#[test]
fn disabling_correction_keeps_direct_fuzzy_matching() {
    let searcher = Searcher::new(
        vec![entry(1, vec![(1, IDENTIFIER, "weixin")])],
        Config { enable_correction: false, ..Config::default() },
    );
    assert!(searcher.search("weixni", 5).is_empty());
    let correcting = Searcher::new(vec![entry(1, vec![(1, IDENTIFIER, "weixin")])], Config::default());
    let ids: Vec<EntryId> = correcting.search("weixni", 5).iter().map(|result| result.entry).collect();
    assert_eq!(ids, vec![1]);
}

#[test]
fn the_same_search_gives_the_same_results() {
    let searcher = Searcher::new(apps(), Config::default());
    for query in ["editor", "edit", "eidtor", "code", "ed"] {
        assert_eq!(searcher.search(query, 10), searcher.search(query, 10));
    }
}
