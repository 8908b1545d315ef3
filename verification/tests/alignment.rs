use polysearch::{Config, Entry, EntryId, Field, FieldId, Searcher, PRIMARY_NAME};

fn entries(names: &[&str]) -> Vec<Entry> {
    names
        .iter()
        .enumerate()
        .map(|(index, name)| Entry {
            id: index as EntryId + 1,
            fields: vec![Field { id: index as FieldId + 1, role: PRIMARY_NAME, text: name.to_string() }],
        })
        .collect()
}

fn result_ids(searcher: &Searcher, query: &str, limit: usize) -> Vec<EntryId> {
    searcher.search(query, limit).into_iter().map(|result| result.entry).collect()
}

#[test]
fn misspelled_prefixes_match_unfinished_long_names() {
    for name in ["algermusicplayer", "Alger Music Player"] {
        let searcher = Searcher::new(entries(&[name]), Config { enable_correction: false, ..Config::default() });

        for query in [
            "agle",
            "axlg",
            "axg",
            "algerxmusic",
            "algrmusic",
            "algormusix",
            "algermusicx",
            "qlgermusic",
        ] {
            assert_eq!(result_ids(&searcher, query, 5), [1], "query={query}, name={name}");
        }

        for end in 1..="algormusicplayer".len() {
            let query = &"algormusicplayer"[..end];

            assert_eq!(result_ids(&searcher, query, 5), [1], "query={query}, name={name}");
        }

        assert!(searcher.search("alxormusix", 5).is_empty());
    }
}

#[test]
fn cross_word_subsequences_must_follow_token_initials() {
    let searcher = Searcher::new(
        entries(&["Visual Studio Code", "Wine Windows Program Loader"]),
        Config { enable_correction: false, max_edits: 0, ..Config::default() },
    );

    assert_eq!(result_ids(&searcher, "vsc", 5), [1]);
    assert_eq!(result_ids(&searcher, "vscd", 5), [1]);
    assert!(searcher.search("amd", 5).is_empty());
}

#[test]
fn acronyms_enter_each_token_at_its_first_character() {
    let candidate: Vec<char> = "xwindowsystem".chars().collect();
    let query: Vec<char> = "xws".chars().collect();
    let alignment = polysearch::align(&query, &candidate, &[0, 1, 7], 2).unwrap();
    assert_eq!(alignment.edits, 0);
    assert_eq!(alignment.start, 0);
    assert_eq!(alignment.gaps, 5);
    assert!(!alignment.is_contiguous());
    assert!(alignment.crosses_token_boundary());
    assert!(alignment.token_starts());
    assert!(alignment.token_progression());

    let searcher = Searcher::new(
        entries(&["X Window System", "Wine Windows Program Loader"]),
        Config { enable_correction: false, max_edits: 0, ..Config::default() },
    );
    assert_eq!(result_ids(&searcher, "xws", 5), [1]);
}
