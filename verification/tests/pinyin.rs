use polysearch::{Config, Entry, EntryId, Field, FieldId, Searcher, PRIMARY_NAME};

fn entries(names: &[&str]) -> Vec<Entry> {
    names
        .iter()
        .enumerate()
        .map(|(index, name)| Entry {
            id: index as EntryId + 1,
            fields: vec![Field { id: index as FieldId + 1, role: PRIMARY_NAME, text: name.to_string() }],
        })
        .collect()
}

fn result_ids(searcher: &Searcher, query: &str, limit: usize) -> Vec<EntryId> {
    searcher.search(query, limit).into_iter().map(|result| result.entry).collect()
}

#[test]
fn alternative_readings_are_searchable() {
    let searcher = Searcher::new(
        entries(&["银行"]),
        Config { max_edits: 0, enable_correction: false, ..Config::default() },
    );

    for query in ["yinhang", "yinxing"] {
        assert_eq!(result_ids(&searcher, query, 5), [1], "query={query}");
    }
}

#[test]
fn mixed_names_preserve_non_chinese_content() {
    let searcher = Searcher::new(
        entries(&["文档助手 Beta"]),
        Config { max_edits: 0, enable_correction: false, ..Config::default() },
    );

    for query in ["wendangzhushoubeta", "wdzsbeta"] {
        assert_eq!(result_ids(&searcher, query, 5), [1], "query={query}");
    }
}
