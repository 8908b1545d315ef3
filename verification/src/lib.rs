//! An in-memory fuzzy search library for launchers, command palettes and
//! local search: prefixes, substrings, abbreviations, pinyin readings and
//! common typos.
//!
//! Build a `Searcher` once from entries and reuse it for queries. Each entry
//! has fields with a role; results come best first, one per matching entry,
//! with its best field.

mod alignment;
mod config;
mod correction;
mod distance;
mod index;
mod matching;
mod model;
mod outside;
mod pinyin;
mod search;
mod subsequence;
mod terms;
mod text;

pub use alignment::{align, Alignment, AlignmentKind};
pub use config::Config;
pub use correction::CorrectionIndex;
pub use distance::{damerau_levenshtein, MatchLength};
pub use index::{Candidate, Index, IndexedTerm, TokenMatch};
pub use matching::Rank;
pub use model::{Entry, EntryId, Field, FieldId, Role, ALIAS, IDENTIFIER, KEYWORD, LOCALIZED_NAME, PRIMARY_NAME};
pub use pinyin::expand;
pub use search::{SearchResult, Searcher};
pub use terms::{Term, Terms};
pub use text::NormalizedText;
