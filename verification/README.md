# polysearch

An in-memory fuzzy search library for launchers, command palettes and local
search, written and proved with Verus: prefixes, substrings, abbreviations,
pinyin readings of Chinese names and common typos.

Build a `Searcher` once from entries, each with fields of a fixed role, and
query it: results come best first, one per matching entry, with its best
field.

## Layout

- `src/text.rs`: normalization of text into lower-case tokens.
- `src/terms.rs`: the small, sorted set of terms of one field.
- `src/pinyin.rs`: pinyin readings of names with Han characters.
- `src/index.rs`, `src/index/candidates.rs`: the index of terms and its
  postings, and the retrieval channels that find candidate terms.
- `src/distance.rs`, `src/alignment.rs`, `src/subsequence.rs`: bounded edit
  distance and the alignment of a query with a term.
- `src/matching.rs`: acceptance and ranking of a candidate.
- `src/correction.rs`: dictionary correction through deletion keys.
- `src/search.rs`: the searcher, which combines the above.
- `src/outside.rs`: the outside collections the library uses, behind
  trusted wrappers whose contracts state what their documentation promises.

Each public function states its result in its contract; the laws that span
functions (one result per entry with its best field, strictly ranked
results, one outcome per search, the meaning of the postings) are proof
functions next to the code they speak of.

The term and token dictionaries are sorted vectors of keys with their
postings, searched by binary search. A `BTreeMap` keyed by `String` would
carry no statement about the order of its keys or its ranges that a proof
could use, so the dictionaries keep their keys in order themselves and
state it as part of the index's well-formedness.
