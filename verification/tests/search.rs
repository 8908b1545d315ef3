use polysearch::{Config, Entry, EntryId, Field, FieldId, Role, Searcher, IDENTIFIER, PRIMARY_NAME};

fn entry(id: EntryId, fields: Vec<(FieldId, Role, &str)>) -> Entry {
    Entry {
        id,
        fields: fields
            .into_iter()
            .map(|(field_id, role, text)| Field { id: field_id, role, text: text.into() })
            .collect(),
    }
}

fn entries(names: &[&str]) -> Vec<Entry> {
    names
        .iter()
        .enumerate()
        .map(|(index, name)| entry(index as EntryId + 1, vec![(index as FieldId + 1, PRIMARY_NAME, name)]))
        .collect()
}

fn result_ids(searcher: &Searcher, query: &str, limit: usize) -> Vec<EntryId> {
    searcher.search(query, limit).into_iter().map(|result| result.entry).collect()
}

#[test]
fn correction_and_direct_alignment_use_the_same_edit_cost() {
    let searcher = Searcher::new(entries(&["woixon", "Messenger Weixni"]), Config::default());

    assert_eq!(result_ids(&searcher, "weixin", 5), [2, 1]);
}

#[test]
fn corrections_do_not_expand_an_exact_result() {
    let searcher = Searcher::new(
        vec![entry(1, vec![(1, IDENTIFIER, "weixni")]), entry(2, vec![(2, IDENTIFIER, "weixin")])],
        Config::default(),
    );

    assert_eq!(result_ids(&searcher, "weixni", 5), [1]);
}

#[test]
fn default_search_only_limits_results_at_the_callers_request() {
    let searcher = Searcher::new(
        (1..=600u32).map(|id| entry(u64::from(id), vec![(id, PRIMARY_NAME, "xapp")])).collect(),
        Config::default(),
    );

    for query in ["xapp", "app"] {
        for limit in [0, 1, 20, 600, 1_000] {
            assert_eq!(searcher.search(query, limit).len(), limit.min(600));
        }
    }
    assert!(searcher.search(" /-_ ", 10).is_empty());
}

#[test]
fn zero_edits_disables_direct_fuzzy_and_dictionary_correction() {
    for role in [PRIMARY_NAME, IDENTIFIER] {
        let searcher = Searcher::new(
            vec![entry(1, vec![(1, role, "weixin")])],
            Config { max_edits: 0, ..Config::default() },
        );

        assert!(searcher.search("weixni", 5).is_empty());
        assert_eq!(result_ids(&searcher, "weixin", 5), [1]);
    }
}
