use polysearch::{Config, Entry, EntryId, Field, FieldId, Role, Searcher, IDENTIFIER, KEYWORD, PRIMARY_NAME};

fn entry(id: EntryId, fields: Vec<(FieldId, Role, &str)>) -> Entry {
    Entry {
        id,
        fields: fields
            .into_iter()
            .map(|(field_id, role, text)| Field { id: field_id, role, text: text.into() })
            .collect(),
    }
}

fn entries(names: &[&str]) -> Vec<Entry> {
    names
        .iter()
        .enumerate()
        .map(|(index, name)| entry(index as EntryId + 1, vec![(index as FieldId + 1, PRIMARY_NAME, name)]))
        .collect()
}

fn result_ids(searcher: &Searcher, query: &str, limit: usize) -> Vec<EntryId> {
    searcher.search(query, limit).into_iter().map(|result| result.entry).collect()
}

#[test]
fn identifier_tokens_are_accepted_but_inside_token_substrings_are_rejected() {
    let searcher = Searcher::new(
        vec![entry(1, vec![(1, IDENTIFIER, "org.gnome.Nautilus")]), entry(2, vec![(2, IDENTIFIER, "xfoo foo")])],
        Config { enable_correction: false, ..Config::default() },
    );

    assert_eq!(result_ids(&searcher, "nautilus", 5), [1]);
    assert!(searcher.search("autilus", 5).is_empty());
    assert_eq!(result_ids(&searcher, "foo", 5), [2]);
}

#[test]
fn names_rank_by_full_length_before_identifiers() {
    let searcher = Searcher::new(
        vec![
            entry(1, vec![(1, PRIMARY_NAME, "Code Editor")]),
            entry(2, vec![(2, IDENTIFIER, "editor")]),
            entry(3, vec![(3, PRIMARY_NAME, "Editor")]),
        ],
        Config::default(),
    );

    assert_eq!(result_ids(&searcher, "editor", 5), [3, 1, 2]);
    assert_eq!(result_ids(&searcher, "e", 5), [3, 1]);
}

#[test]
fn fuzzy_prefixes_keep_exact_matches_first_and_respect_edit_limits() {
    for (max_edits, expected) in [(0, vec![]), (1, vec![2]), (2, vec![2, 1])] {
        let searcher = Searcher::new(
            entries(&["algermusicplayer", "algormusicplayer"]),
            Config { enable_correction: false, max_edits, ..Config::default() },
        );

        assert_eq!(searcher.search("algormusic", 5)[0].entry, 2);
        assert_eq!(result_ids(&searcher, "algormusix", 5), expected, "max_edits={max_edits}");
    }
}

#[test]
fn complete_typo_matches_rank_before_equivalent_prefix_completions() {
    let searcher = Searcher::new(entries(&["amdbuild", "amdbase", "amdb"]), Config::default());

    assert_eq!(result_ids(&searcher, "amdm", 5), [3, 2, 1]);
}

#[test]
fn spelling_quality_ranks_before_name_frequency() {
    let searcher = Searcher::new(
        entries(&["algermusicplayer", "algomusicplayer", "algomusicplayer"]),
        Config::default(),
    );

    assert_eq!(result_ids(&searcher, "algo", 5), [2, 3, 1]);
}

#[test]
fn fuzzy_ranking_uses_the_consumed_prefix_length() {
    let searcher = Searcher::new(
        entries(&["abcefg", "abcyef", "abcef"]),
        Config { enable_correction: false, ..Config::default() },
    );

    assert_eq!(result_ids(&searcher, "abcxef", 5), [2, 3, 1]);
}

#[test]
fn corrections_do_not_use_broad_keyword_fields() {
    let searcher = Searcher::new(
        vec![entry(
            1,
            vec![(1, PRIMARY_NAME, "KDE Connect SMS"), (2, KEYWORD, "Read and send SMS messages")],
        )],
        Config::default(),
    );

    assert!(searcher.search("amd", 5).is_empty());
}

#[test]
fn short_substrings_and_near_pairs_do_not_allow_arbitrary_subsequences() {
    let searcher = Searcher::new(entries(&["zed", "oopz"]), Config::default());

    assert_eq!(result_ids(&searcher, "zd", 5), [1]);
    assert_eq!(result_ids(&searcher, "op", 5), [2]);
    assert!(searcher.search("oz", 5).is_empty());
}
