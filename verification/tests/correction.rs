use polysearch::{Config, Entry, EntryId, Field, FieldId, Role, Searcher, IDENTIFIER};

fn entry(id: EntryId, fields: Vec<(FieldId, Role, &str)>) -> Entry {
    Entry {
        id,
        fields: fields
            .into_iter()
            .map(|(field_id, role, text)| Field { id: field_id, role, text: text.into() })
            .collect(),
    }
}

fn result_ids(searcher: &Searcher, query: &str, limit: usize) -> Vec<EntryId> {
    searcher.search(query, limit).into_iter().map(|result| result.entry).collect()
}

#[test]
fn correction_does_not_turn_a_token_into_a_prefix_query() {
    for names in [["amdb", "amdbuild", "amdbase"], ["org.amdb.amdbuild", "org.amdbuild", "org.amdbase"]] {
        let entries = names
            .into_iter()
            .zip(1u32..)
            .map(|(name, id)| entry(u64::from(id), vec![(id, IDENTIFIER, name)]))
            .collect();
        let searcher = Searcher::new(entries, Config::default());

        assert_eq!(result_ids(&searcher, "amdm", 5), [1], "names={names:?}");
    }
}

#[test]
fn ambiguous_corrections_do_not_expand_results() {
    let searcher = Searcher::new(
        vec![
            entry(1, vec![(1, IDENTIFIER, "small")]),
            entry(2, vec![(2, IDENTIFIER, "smart")]),
            entry(3, vec![(3, IDENTIFIER, "sxs")]),
            entry(4, vec![(4, IDENTIFIER, "sns")]),
        ],
        Config::default(),
    );

    assert_eq!(result_ids(&searcher, "sma", 10), [1, 2]);
    assert!(searcher.search("sms", 10).is_empty());
}

#[test]
fn correction_budget_can_exceed_the_deletion_index_depth() {
    for (max_edits, expected) in [(2, vec![]), (3, vec![1])] {
        let searcher = Searcher::new(
            vec![entry(1, vec![(1, IDENTIFIER, "Visual Studio")])],
            Config { max_edits, ..Config::default() },
        );

        assert_eq!(result_ids(&searcher, "bisyalatudio", 5), expected);
    }
}
