use polysearch::{Config, Entry, EntryId, Field, FieldId, Role, Searcher, ALIAS, PRIMARY_NAME};

fn entry(id: EntryId, fields: Vec<(FieldId, Role, &str)>) -> Entry {
    Entry {
        id,
        fields: fields
            .into_iter()
            .map(|(field_id, role, text)| Field { id: field_id, role, text: text.into() })
            .collect(),
    }
}

fn result_ids(searcher: &Searcher, query: &str, limit: usize) -> Vec<EntryId> {
    searcher.search(query, limit).into_iter().map(|result| result.entry).collect()
}

#[test]
fn frequency_counts_distinct_entries_separately_for_each_role() {
    for duplicate_entry in [false, true] {
        let mut entries = vec![
            entry(1, vec![(1, PRIMARY_NAME, "Firefox"), (2, PRIMARY_NAME, "Firefox")]),
            entry(2, vec![(3, PRIMARY_NAME, "Firefax")]),
            entry(3, vec![(4, ALIAS, "Firefox")]),
        ];

        if duplicate_entry {
            entries.push(entry(4, vec![(5, PRIMARY_NAME, "Firefox")]));
        }

        let config = Config { enable_correction: false, ..Config::default() };
        let searcher = Searcher::new(entries, config);

        assert_eq!(
            result_ids(&searcher, "firef", 5),
            if duplicate_entry { vec![2, 1, 4, 3] } else { vec![1, 2, 3] },
        );
    }
}
