//! The search index: the terms of every field and the postings that find them.
use vstd::prelude::*;
use crate::model::{Entry, EntryId, FieldId, Role};
use crate::outside::{token_starts_view, TokenStarts};
use crate::terms::{chars_equal, lemma_text_order_antisymmetric, lemma_text_order_total, lemma_text_order_transitive, text_le, text_le_exec};
use crate::text::chars_to_string;
use crate::outside::{id_map_get, id_map_insert, id_map_new, id_map_view, posting_map_get, posting_map_new, posting_map_push, posting_map_view, token_starts_new, token_starts_push};
use crate::terms::{has_exact_term, spec_add, Term, TermView, Terms};
use crate::pinyin::{has_han, pinyin_terms};
use crate::model::Field;
use crate::text::normalize;
use rapidhash::RapidHashMap;

mod candidates;

pub use candidates::{law_retrieved_unique, primary_limit, retrieved, token_matches, token_of, token_ok};

verus! {

/// An indexed term with the source and frequency needed to evaluate it.
pub struct IndexedTerm {
    pub entry: EntryId,
    pub field: FieldId,
    pub role: Role,
    pub chars: Vec<char>,
    pub token_starts: TokenStarts,
    pub cost: u16,
    pub frequency: u32,
}

impl IndexedTerm {
    /// At most 4096 characters; token starts that begin at zero when there
    /// are characters, increase, and lie inside the characters.
    pub open spec fn wf(&self) -> bool {
        let starts = token_starts_view(self.token_starts);
        &&& self.chars@.len() <= 4096
        &&& self.chars@.len() > 0 ==> starts.len() > 0 && starts[0] == 0
        &&& forall|i: int| 0 <= i < starts.len() ==> #[trigger] starts[i] < self.chars@.len()
        &&& forall|i: int, j: int| #![trigger starts[i], starts[j]] 0 <= i < j < starts.len() ==> starts[i] < starts[j]
    }
}

/// How a candidate was found through the token dictionary.
#[derive(Clone, Copy, Debug, PartialEq, Eq, Structural)]
pub enum TokenMatch {
    /// One of its tokens starts with the query.
    Prefix,
    /// One of its tokens equals the query.
    Exact,
}

/// A term retrieved for a query.
pub struct Candidate<'a> {
    pub term: &'a IndexedTerm,
    pub token: Option<TokenMatch>,
}

} // verus!

verus! {

/// A key of the sorted dictionaries, with the term ids filed under it.
pub struct KeyPostings {
    pub key: Vec<char>,
    pub text: String,
    pub ids: Vec<u32>,
}

/// Keys are in strictly increasing text order; each key's text spells it;
/// ids are below `n` and non-decreasing (strictly increasing when `strict`).
pub open spec fn key_list_ok(list: Seq<KeyPostings>, n: nat, strict: bool) -> bool {
    &&& forall|i: int, j: int|
        #![trigger list[i], list[j]]
        0 <= i < j < list.len() ==> text_le(list[i].key@, list[j].key@) && list[i].key@
            != list[j].key@
    &&& forall|i: int| #![trigger list[i]] 0 <= i < list.len() ==> list[i].text@ == list[i].key@
    &&& forall|i: int| #![trigger list[i]] 0 <= i < list.len() ==> list[i].ids@.len() > 0
    &&& forall|i: int, j: int|
        #![trigger list[i].ids@[j]]
        0 <= i < list.len() && 0 <= j < list[i].ids@.len() ==> list[i].ids@[j] < n
    &&& forall|i: int, j: int, k: int|
        #![trigger list[i].ids@[j], list[i].ids@[k]]
        0 <= i < list.len() && 0 <= j < k < list[i].ids@.len() ==> if strict {
            list[i].ids@[j] < list[i].ids@[k]
        } else {
            list[i].ids@[j] <= list[i].ids@[k]
        }
}

/// Every key of the list has at most 4096 characters.
pub open spec fn keys_short(list: Seq<KeyPostings>) -> bool {
    forall|i: int| 0 <= i < list.len() ==> (#[trigger] list[i]).key@.len() <= 4096
}

/// Whether `id` is filed under `key` in `list`.
pub open spec fn filed(list: Seq<KeyPostings>, key: Seq<char>, id: u32) -> bool {
    exists|i: int, j: int|
        0 <= i < list.len() && 0 <= j < list[i].ids@.len() && list[i].key@ == key
            && #[trigger] list[i].ids@[j] == id
}

/// Files `id` under `key`: appended to the key's ids, or under a new key at
/// its place in the order.
fn file_key(list: &mut Vec<KeyPostings>, key: &[char], id: u32, Ghost(strict): Ghost<bool>)
    requires
        key_list_ok(old(list)@, if strict {
            id as nat
        } else {
            id as nat + 1
        }, strict),
    ensures
        key_list_ok(final(list)@, id as nat + 1, strict),
        filed(final(list)@, key@, id),
        forall|k: Seq<char>, other: u32| filed(old(list)@, k, other) ==> filed(final(list)@, k, other),
        forall|k: Seq<char>, other: u32|
            filed(final(list)@, k, other) ==> filed(old(list)@, k, other) || (k == key@ && other == id),
{
    let ghost before = list@;
    let mut position: usize = 0;
    while position < list.len() && !text_le_exec(key, list[position].key.as_slice())
        invariant
            position <= list@.len(),
            before == list@,
            forall|i: int| 0 <= i < position ==> !text_le(key@, #[trigger] list@[i].key@),
        decreases list@.len() - position,
    {
        position = position + 1;
    }
    if position < list.len() && chars_equal(list[position].key.as_slice(), key) {
        let mut entry = list.remove(position);
        entry.ids.push(id);
        list.insert(position, entry);
        proof {
            assert forall|i: int| #![trigger list@[i]] 0 <= i < list@.len() && i != position implies list@[i] == before[i] by {}
            assert(list@[position as int].key@ == before[position as int].key@);
            assert(list@[position as int].ids@ == before[position as int].ids@.push(id));
            assert(key_list_ok(list@, id as nat + 1, strict));
            assert(list@[position as int].ids@[before[position as int].ids@.len() as int] == id);
            assert forall|k: Seq<char>, other: u32| filed(before, k, other) implies filed(list@, k, other) by {
                let (i, j) = choose|i: int, j: int|
                    0 <= i < before.len() && 0 <= j < before[i].ids@.len() && before[i].key@ == k
                        && #[trigger] before[i].ids@[j] == other;
                if i == position {
                    assert(list@[i].ids@[j] == other);
                } else {
                    assert(list@[i] == before[i]);
                }
            }
            assert forall|k: Seq<char>, other: u32| filed(list@, k, other) implies filed(before, k, other) || (k == key@ && other == id) by {
                let (i, j) = choose|i: int, j: int|
                    0 <= i < list@.len() && 0 <= j < list@[i].ids@.len() && list@[i].key@ == k
                        && #[trigger] list@[i].ids@[j] == other;
                if i == position {
                    if j < before[i].ids@.len() {
                        assert(before[i].ids@[j] == other);
                    }
                } else {
                    assert(list@[i] == before[i]);
                }
            }
        }
    } else {
        let mut ids: Vec<u32> = Vec::new();
        ids.push(id);
        let mut owned: Vec<char> = Vec::new();
        let mut index: usize = 0;
        while index < key.len()
            invariant
                index <= key@.len(),
                owned@ == key@.take(index as int),
            decreases key@.len() - index,
        {
            owned.push(key[index]);
            index = index + 1;
        }
        assert(key@.take(key@.len() as int) =~= key@);
        let text = chars_to_string(owned.as_slice());
        list.insert(position, KeyPostings { key: owned, text, ids });
        proof {
            if position < before.len() {
                lemma_text_order_total(key@, before[position as int].key@);
                assert(text_le(key@, before[position as int].key@));
                assert(key@ != before[position as int].key@);
            }
            assert forall|i: int, j: int|
                #![trigger list@[i], list@[j]]
                0 <= i < j < list@.len() implies text_le(list@[i].key@, list@[j].key@) && list@[i].key@
                    != list@[j].key@ by {
                let oi = if i < position { i } else { i - 1 };
                let oj = if j < position { j } else { j - 1 };
                if i < position && j == position {
                    lemma_text_order_total(key@, before[oi].key@);
                } else if i == position && j > position {
                    assert(list@[j] == before[oj]);
                    if oj > position {
                        lemma_text_order_transitive(key@, before[position as int].key@, before[oj].key@);
                        if key@ == before[oj].key@ {
                            lemma_text_order_antisymmetric(before[position as int].key@, before[oj].key@);
                        }
                    }
                } else if i < position && j < position {
                    assert(list@[i] == before[oi] && list@[j] == before[oj]);
                } else {
                    assert(list@[i] == before[oi] && list@[j] == before[oj]);
                }
            }
            assert(key_list_ok(list@, id as nat + 1, strict)) by {
                assert forall|i: int| #![trigger list@[i]] 0 <= i < list@.len() && i != position implies list@[i]
                    == before[if i < position { i } else { i - 1 }] by {}
            }
            assert(list@[position as int].ids@[0] == id);
            assert forall|k: Seq<char>, other: u32| filed(before, k, other) implies filed(list@, k, other) by {
                let (i, j) = choose|i: int, j: int|
                    0 <= i < before.len() && 0 <= j < before[i].ids@.len() && before[i].key@ == k
                        && #[trigger] before[i].ids@[j] == other;
                let ni = if i < position { i } else { i + 1 };
                assert(list@[ni] == before[i]);
                assert(list@[ni].ids@[j] == other);
            }
            assert forall|k: Seq<char>, other: u32| filed(list@, k, other) implies filed(before, k, other) || (k == key@ && other == id) by {
                let (i, j) = choose|i: int, j: int|
                    0 <= i < list@.len() && 0 <= j < list@[i].ids@.len() && list@[i].key@ == k
                        && #[trigger] list@[i].ids@[j] == other;
                if i != position {
                    let oi = if i < position { i } else { i - 1 };
                    assert(list@[i] == before[oi]);
                    assert(before[oi].ids@[j] == other);
                }
            }
        }
    }
}

} // verus!

verus! {

/// How many times `v` occurs in `s`.
pub open spec fn occurrences(s: Seq<u32>, v: u32) -> nat
    decreases s.len(),
{
    if s.len() == 0 {
        0
    } else {
        occurrences(s.drop_last(), v) + if s.last() == v {
            1nat
        } else {
            0nat
        }
    }
}

/// The postings under `k`, empty when the key is absent.
pub open spec fn posts(m: Map<u64, Seq<u32>>, k: u64) -> Seq<u32> {
    if m.contains_key(k) {
        m[k]
    } else {
        Seq::empty()
    }
}

/// The most times one term is posted under one key: a term has at most 4096
/// characters and posts at most two pairs from each.
pub open spec fn max_repeats() -> nat {
    8192
}

/// Postings hold ids below `n`, in non-decreasing order, each id at most
/// `max_repeats()` times under a key.
pub open spec fn posting_ok(m: Map<u64, Seq<u32>>, n: nat) -> bool {
    &&& forall|k: u64, j: int|
        #![trigger m[k][j]]
        m.contains_key(k) && 0 <= j < m[k].len() ==> m[k][j] < n
    &&& forall|k: u64, i: int, j: int|
        #![trigger m[k][i], m[k][j]]
        m.contains_key(k) && 0 <= i < j < m[k].len() ==> m[k][i] <= m[k][j]
    &&& forall|k: u64, v: u32|
        #![trigger occurrences(m[k], v)]
        m.contains_key(k) ==> occurrences(m[k], v) <= max_repeats()
}

/// Whether `k` is the key of a character of `chars`.
pub open spec fn has_char(chars: Seq<char>, k: u64) -> bool {
    exists|j: int| 0 <= j < chars.len() && #[trigger] char_key(chars[j]) == k
}

/// The character postings file each term under the key of each of its
/// characters, and nothing else.
pub open spec fn characters_posted(m: Map<u64, Seq<u32>>, terms: Seq<IndexedTerm>) -> bool {
    forall|k: u64, x: u32| #[trigger] posts(m, k).contains(x) <==> x < terms.len() && has_char(terms[x as int].chars@, k)
}

/// Each key's postings are strictly increasing: no id is posted twice.
pub open spec fn strictly_posted(m: Map<u64, Seq<u32>>) -> bool {
    forall|k: u64, i: int, j: int|
        #![trigger m[k][i], m[k][j]]
        m.contains_key(k) && 0 <= i < j < m[k].len() ==> m[k][i] < m[k][j]
}

proof fn lemma_occurrences_push(s: Seq<u32>, x: u32, v: u32)
    ensures
        occurrences(s.push(x), v) == occurrences(s, v) + if x == v {
            1nat
        } else {
            0nat
        },
{
    assert(s.push(x).drop_last() =~= s);
}

proof fn lemma_occurrences_absent(s: Seq<u32>, v: u32)
    requires
        forall|j: int| 0 <= j < s.len() ==> s[j] < v,
    ensures
        occurrences(s, v) == 0,
    decreases s.len(),
{
    if s.len() > 0 {
        lemma_occurrences_absent(s.drop_last(), v);
    }
}

/// A new id is not yet posted anywhere.
proof fn lemma_posting_fresh(m: Map<u64, Seq<u32>>, id: u32)
    requires
        posting_ok(m, id as nat),
    ensures
        posting_ok(m, id as nat + 1),
        forall|k: u64| #[trigger] occurrences(posts(m, k), id) == 0,
{
    assert forall|k: u64| #[trigger] occurrences(posts(m, k), id) == 0 by {
        if m.contains_key(k) {
            assert forall|j: int| 0 <= j < m[k].len() implies m[k][j] < id by {
                assert(m[k][j] < id);
            }
            lemma_occurrences_absent(m[k], id);
        }
    }
}

/// Appends `id` to the postings of `key`; with `distinct`, not when the
/// postings already end with it.
fn push_posting(m: &mut RapidHashMap<u64, Vec<u32>>, key: u64, id: u32, distinct: bool)
    requires
        posting_ok(posting_map_view(*old(m)), id as nat + 1),
        occurrences(posts(posting_map_view(*old(m)), key), id) < max_repeats(),
    ensures
        posting_ok(posting_map_view(*final(m)), id as nat + 1),
        posting_map_view(*final(m)).contains_key(key),
        posting_map_view(*final(m))[key].contains(id),
        distinct && strictly_posted(posting_map_view(*old(m))) ==> strictly_posted(posting_map_view(*final(m))),
        posts(posting_map_view(*final(m)), key) == if distinct && posts(posting_map_view(*old(m)), key).len() > 0 && posts(
            posting_map_view(*old(m)),
            key,
        ).last() == id {
            posts(posting_map_view(*old(m)), key)
        } else {
            posts(posting_map_view(*old(m)), key).push(id)
        },
        forall|k: u64| k != key ==> #[trigger] posts(posting_map_view(*final(m)), k) == posts(posting_map_view(*old(m)), k),
        forall|k: u64|
            #[trigger] occurrences(posts(posting_map_view(*final(m)), k), id) <= occurrences(
                posts(posting_map_view(*old(m)), k),
                id,
            ) + if k == key {
                1nat
            } else {
                0nat
            },
{
    let skip = match posting_map_get(m, key) {
        Some(postings) => distinct && postings.len() > 0 && postings[postings.len() - 1] == id,
        None => false,
    };
    if skip {
        let ghost v = posting_map_view(*m)[key];
        assert(v[v.len() - 1] == id);
        return;
    }
    proof {
        let v = posting_map_view(*m);
        if distinct && posts(v, key).len() > 0 {
            assert(posts(v, key).last() != id);
        }
    }
    let ghost before = posting_map_view(*m);
    posting_map_push(m, key, id);
    proof {
        let after = posting_map_view(*m);
        let old_list = posts(before, key);
        assert(after[key] == old_list.push(id));
        assert(after[key][old_list.len() as int] == id);
        assert forall|k: u64, j: int| #![trigger after[k][j]] after.contains_key(k) && 0 <= j < after[k].len() implies after[k][j] < id as nat + 1 by {
            if k != key {
                assert(after[k] == before[k]);
            } else if j < old_list.len() {
                assert(after[k][j] == before[k][j]);
            }
        }
        assert forall|k: u64, i: int, j: int| #![trigger after[k][i], after[k][j]] after.contains_key(k) && 0 <= i < j < after[k].len() implies after[k][i] <= after[k][j] by {
            if k != key {
                assert(after[k] == before[k]);
            } else {
                if j < old_list.len() {
                    assert(after[k][i] == before[k][i] && after[k][j] == before[k][j]);
                } else {
                    assert(after[k][i] == before[k][i]);
                }
            }
        }
        if distinct && strictly_posted(before) {
            assert forall|k: u64, i: int, j: int| #![trigger after[k][i], after[k][j]] after.contains_key(k) && 0 <= i < j < after[k].len() implies after[k][i] < after[k][j] by {
                if k != key {
                    assert(after[k] == before[k]);
                } else if j < old_list.len() {
                    assert(after[k][i] == before[k][i] && after[k][j] == before[k][j]);
                } else {
                    assert(after[k][i] == before[k][i]);
                    assert(old_list[old_list.len() - 1] != id);
                    assert(old_list[old_list.len() - 1] < id);
                    if i < old_list.len() - 1 {
                        assert(before[k][i] < before[k][old_list.len() - 1]);
                    }
                }
            }
        }
        assert forall|k: u64, v: u32| #![trigger occurrences(after[k], v)] after.contains_key(k) implies occurrences(after[k], v) <= max_repeats() by {
            if k != key {
                assert(after[k] == before[k]);
            } else {
                lemma_occurrences_push(old_list, id, v);
                if before.contains_key(key) {
                    assert(occurrences(before[key], v) <= max_repeats());
                }
            }
        }
        assert forall|k: u64|
            #[trigger] occurrences(posts(after, k), id) <= occurrences(posts(before, k), id) + if k == key {
                1nat
            } else {
                0nat
            } by {
            if k != key {
                assert(posts(after, k) == posts(before, k));
            } else {
                lemma_occurrences_push(old_list, id, id);
            }
        }
    }
}

proof fn lemma_posting_ok_grow(m: Map<u64, Seq<u32>>, n: nat)
    requires
        posting_ok(m, n),
    ensures
        posting_ok(m, n + 1),
{
}

/// The posting key of a character.
pub open spec fn char_key(c: char) -> u64 {
    c as u64
}

/// The posting key of an ordered character pair.
pub open spec fn pair_key(a: char, b: char) -> u64 {
    (a as u64 * 4294967296 + b as u64) as u64
}

fn char_key_exec(c: char) -> (k: u64)
    ensures
        k == char_key(c),
{
    c as u64
}

fn pair_key_exec(a: char, b: char) -> (k: u64)
    ensures
        k == pair_key(a, b),
{
    (a as u64) * 4294967296 + (b as u64)
}

} // verus!

verus! {

/// The terms of all fields, the dictionaries of their texts and tokens, and
/// the postings of their characters, token initials and character pairs.
pub struct Index {
    terms: Vec<IndexedTerm>,
    sorted_terms: Vec<KeyPostings>,
    bigrams: RapidHashMap<u64, Vec<u32>>,
    near_pairs: RapidHashMap<u64, Vec<u32>>,
    characters: RapidHashMap<u64, Vec<u32>>,
    token_initials: RapidHashMap<u64, Vec<u32>>,
    tokens: Vec<KeyPostings>,
}

/// Whether `terms` hold the term of a field's own text: its characters at
/// cost zero, with the field's entry, id and role.
pub open spec fn has_field_term(
    terms: Seq<IndexedTerm>,
    entry: EntryId,
    field: FieldId,
    role: Role,
    chars: Seq<char>,
) -> bool {
    exists|id: int|
        0 <= id < terms.len() && #[trigger] terms[id].chars@ == chars && terms[id].entry == entry
            && terms[id].field == field && terms[id].role == role && terms[id].cost == 0
}

/// Whether `k` is the key of the first character of a token that starts at
/// one of `starts`.
pub open spec fn has_initial(chars: Seq<char>, starts: Seq<u16>, k: u64) -> bool {
    exists|i: int| 0 <= i < starts.len() && #[trigger] char_key(chars[starts[i] as int]) == k
}

/// The characters of the token that starts at `starts[i]`: up to the next
/// start, or to the end.
pub open spec fn token_at(chars: Seq<char>, starts: Seq<u16>, i: int) -> Seq<char> {
    chars.subrange(starts[i] as int, if i + 1 < starts.len() {
        starts[i + 1] as int
    } else {
        chars.len() as int
    })
}

/// The first 32 tokens longer than one character among the first `i`
/// tokens, in order.
pub open spec fn kept_tokens(chars: Seq<char>, starts: Seq<u16>, i: int) -> Seq<Seq<char>>
    decreases i,
{
    if i <= 0 {
        Seq::empty()
    } else {
        let before = kept_tokens(chars, starts, i - 1);
        let t = token_at(chars, starts, i - 1);
        if t.len() > 1 && before.len() < 32 {
            before.push(t)
        } else {
            before
        }
    }
}

/// The token-initial postings file each term under the key of the first
/// character of each of its tokens, and nothing else.
pub open spec fn initials_posted(m: Map<u64, Seq<u32>>, terms: Seq<IndexedTerm>) -> bool {
    forall|k: u64, x: u32|
        #[trigger] posts(m, k).contains(x) <==> x < terms.len() && has_initial(
            terms[x as int].chars@,
            token_starts_view(terms[x as int].token_starts),
            k,
        )
}

/// The token dictionary files each term of cost zero under each of its kept
/// tokens, and nothing else.
pub open spec fn tokens_filed(list: Seq<KeyPostings>, terms: Seq<IndexedTerm>) -> bool {
    forall|k: Seq<char>, x: u32|
        #[trigger] filed(list, k, x) <==> x < terms.len() && terms[x as int].cost == 0 && kept_tokens(
            terms[x as int].chars@,
            token_starts_view(terms[x as int].token_starts),
            token_starts_view(terms[x as int].token_starts).len() as int,
        ).contains(k)
}

/// Files the tokens of a term: their starts, their initials and, for a term of
/// cost zero, up to 32 of its tokens longer than one character.
fn post_tokens(
    tokens: &mut Vec<KeyPostings>,
    initials: &mut RapidHashMap<u64, Vec<u32>>,
    chars: &Vec<char>,
    starts: &[usize],
    exact: bool,
    id: u32,
) -> (token_starts: TokenStarts)
    requires
        0 < chars@.len() <= 4096,
        crate::text::token_starts_ok(starts@.map_values(|s: usize| s as int), chars@.len()),
        key_list_ok(old(tokens)@, id as nat + 1, false),
        keys_short(old(tokens)@),
        forall|kk: Seq<char>| !filed(old(tokens)@, kk, id),
        posting_ok(posting_map_view(*old(initials)), id as nat),
        strictly_posted(posting_map_view(*old(initials))),
    ensures
        key_list_ok(final(tokens)@, id as nat + 1, false),
        keys_short(final(tokens)@),
        posting_ok(posting_map_view(*final(initials)), id as nat + 1),
        strictly_posted(posting_map_view(*final(initials))),
        forall|x: int|
            0 <= x < token_starts_view(token_starts).len() ==> #[trigger] token_starts_view(
                token_starts,
            )[x] < chars@.len(),
        token_starts_view(token_starts) == starts@.map_values(|s: usize| s as u16),
        forall|k: u64, x: u32|
            x != id ==> (#[trigger] posts(posting_map_view(*final(initials)), k).contains(x) <==> posts(
                posting_map_view(*old(initials)),
                k,
            ).contains(x)),
        forall|k: u64|
            #[trigger] posts(posting_map_view(*final(initials)), k).contains(id) <==> has_initial(
                chars@,
                token_starts_view(token_starts),
                k,
            ),
        forall|kk: Seq<char>, x: u32| x != id ==> (#[trigger] filed(final(tokens)@, kk, x) <==> filed(old(tokens)@, kk, x)),
        forall|kk: Seq<char>|
            #[trigger] filed(final(tokens)@, kk, id) <==> exact && kept_tokens(
                chars@,
                token_starts_view(token_starts),
                token_starts_view(token_starts).len() as int,
            ).contains(kk),
{
    proof {
        lemma_posting_fresh(posting_map_view(*initials), id);
    }
    let ghost su = starts@.map_values(|s: usize| s as u16);
    let ghost si = starts@.map_values(|s: usize| s as int);
    let ghost init_start = posting_map_view(*initials);
    let ghost tokens_start = tokens@;
    let len = chars.len();
    let mut token_starts = token_starts_new();
    let mut retained: usize = 0;
    let mut k: usize = 0;
    while k < starts.len()
        invariant
            k <= starts@.len(),
            len == chars@.len(),
            0 < len <= 4096,
            crate::text::token_starts_ok(si, len as nat),
            si == starts@.map_values(|s: usize| s as int),
            su == starts@.map_values(|s: usize| s as u16),
            token_starts_view(token_starts).len() == k,
            forall|x: int| 0 <= x < k ==> #[trigger] token_starts_view(token_starts)[x] < len,
            token_starts_view(token_starts) == su.take(k as int),
            key_list_ok(tokens@, id as nat + 1, false),
            keys_short(tokens@),
            posting_ok(posting_map_view(*initials), id as nat + 1),
            strictly_posted(posting_map_view(*initials)),
            forall|key: u64| #[trigger] occurrences(posts(posting_map_view(*initials), key), id) <= k,
            forall|key: u64, x: u32|
                x != id ==> (#[trigger] posts(posting_map_view(*initials), key).contains(x) <==> posts(init_start, key).contains(x)),
            forall|key: u64| #[trigger] posts(posting_map_view(*initials), key).contains(id) <==> has_initial(chars@, su.take(k as int), key),
            forall|kk: Seq<char>, x: u32| x != id ==> (#[trigger] filed(tokens@, kk, x) <==> filed(tokens_start, kk, x)),
            forall|kk: Seq<char>| #[trigger] filed(tokens@, kk, id) <==> exact && kept_tokens(chars@, su, k as int).contains(kk),
            exact ==> retained == kept_tokens(chars@, su, k as int).len(),
        decreases starts@.len() - k,
    {
        proof {
            assert(si[k as int] == starts@[k as int] as int);
            crate::text::lemma_start_at_least(si, len as nat, k as int);
        }
        let start = starts[k];
        let end = if k + 1 < starts.len() {
            starts[k + 1]
        } else {
            len
        };
        proof {
            if k + 1 < starts@.len() {
                assert(si[k + 1] == starts@[k + 1] as int);
                assert(su[k + 1] == starts@[k + 1] as u16);
            }
            assert(su[k as int] == start as u16);
            assert(start < 4096);
            assert((start as u16) as int == start as int);
            if k + 1 < starts@.len() {
                assert((starts@[k + 1] as u16) as int == starts@[k + 1] as int);
            }
            assert(token_at(chars@, su, k as int) == chars@.subrange(start as int, end as int));
        }
        let ghost before_starts = token_starts_view(token_starts);
        token_starts_push(&mut token_starts, start as u16);
        assert(token_starts_view(token_starts)[k as int] == start as u16);
        let ghost init_before = posting_map_view(*initials);
        let key = char_key_exec(chars[start]);
        push_posting(initials, key, id, true);
        proof {
            lemma_push_posted(init_before, posting_map_view(*initials), key, id, true);
            assert(token_starts_view(token_starts) =~= su.take(k + 1));
            assert forall|kk: u64| #[trigger] posts(posting_map_view(*initials), kk).contains(id) <==> has_initial(chars@, su.take(k + 1), kk) by {
                let t1 = su.take(k + 1);
                let t0 = su.take(k as int);
                assert(t1[k as int] == su[k as int]);
                assert(char_key(chars@[t1[k as int] as int]) == key);
                if has_initial(chars@, t1, kk) && kk != key {
                    let i = choose|i: int| 0 <= i < t1.len() && #[trigger] char_key(chars@[t1[i] as int]) == kk;
                    assert(i != k);
                    assert(t0[i] == t1[i]);
                }
                if has_initial(chars@, t0, kk) {
                    let i = choose|i: int| 0 <= i < t0.len() && #[trigger] char_key(chars@[t0[i] as int]) == kk;
                    assert(t1[i] == t0[i]);
                }
            }
        }
        let ghost tokens_before = tokens@;
        if exact && end - start > 1 && retained < 32 {
            let mut token: Vec<char> = Vec::new();
            let mut p = start;
            while p < end
                invariant
                    start <= p <= end,
                    end <= chars@.len(),
                    token@ == chars@.subrange(start as int, p as int),
                decreases end - p,
            {
                token.push(chars[p]);
                proof {
                    assert(chars@.subrange(start as int, p + 1) =~= chars@.subrange(start as int, p as int).push(chars@[p as int]));
                }
                p = p + 1;
            }
            file_key(tokens, token.as_slice(), id, Ghost(false));
            proof {
                assert forall|i: int| 0 <= i < tokens@.len() implies (#[trigger] tokens@[i]).key@.len() <= 4096 by {
                    let k = tokens@[i].key@;
                    assert(filed(tokens@, k, tokens@[i].ids@[0]));
                    if filed(tokens_before, k, tokens@[i].ids@[0]) {
                        let (a, b) = choose|a: int, b: int|
                            0 <= a < tokens_before.len() && 0 <= b < tokens_before[a].ids@.len() && tokens_before[a].key@ == k
                                && #[trigger] tokens_before[a].ids@[b] == tokens@[i].ids@[0];
                    }
                }
            }
            retained = retained + 1;
        }
        proof {
            assert forall|x: int| 0 <= x < k + 1 implies #[trigger] token_starts_view(token_starts)[x] < len by {
                if x < k {
                    assert(token_starts_view(token_starts)[x] == before_starts[x]);
                }
            }
            let kept0 = kept_tokens(chars@, su, k as int);
            let kept1 = kept_tokens(chars@, su, k + 1);
            let t = token_at(chars@, su, k as int);
            assert(kept1 == if t.len() > 1 && kept0.len() < 32 { kept0.push(t) } else { kept0 });
            assert forall|kk: Seq<char>| #[trigger] filed(tokens@, kk, id) <==> exact && kept1.contains(kk) by {
                if kept1.contains(kk) && !kept0.contains(kk) {
                    let w = choose|w: int| 0 <= w < kept1.len() && kept1[w] == kk;
                    if w < kept0.len() {
                        assert(kept0[w] == kk);
                    }
                }
                if kept0.contains(kk) {
                    let w = choose|w: int| 0 <= w < kept0.len() && kept0[w] == kk;
                    if kept1 != kept0 {
                        assert(kept1[w] == kk);
                    }
                }
                if kept1 != kept0 {
                    assert(kept1[kept0.len() as int] == t);
                }
            }
        }
        k = k + 1;
    }
    proof {
        assert(su.take(starts@.len() as int) =~= su);
    }
    token_starts
}

/// How many of the adjacent pairs of `chars` that start before position
/// `i - 1`, inclusive, have the key `k`.
pub open spec fn pair_count(chars: Seq<char>, k: u64, i: int) -> nat
    decreases i,
{
    if i <= 0 {
        0
    } else {
        pair_count(chars, k, i - 1) + if i < chars.len() && pair_key(chars[i - 1], chars[i]) == k {
            1nat
        } else {
            0nat
        }
    }
}

/// The bigram postings file each term under the key of each adjacent pair
/// of its characters, once per occurrence, and nothing else.
pub open spec fn bigrams_posted(m: Map<u64, Seq<u32>>, terms: Seq<IndexedTerm>) -> bool {
    forall|k: u64, x: u32|
        #[trigger] occurrences(posts(m, k), x) == if x < terms.len() {
            pair_count(terms[x as int].chars@, k, terms[x as int].chars@.len() as int)
        } else {
            0
        }
}

/// Posts every adjacent character pair of a term.
fn post_bigrams(m: &mut RapidHashMap<u64, Vec<u32>>, chars: &Vec<char>, id: u32)
    requires
        chars@.len() <= 4096,
        posting_ok(posting_map_view(*old(m)), id as nat),
    ensures
        posting_ok(posting_map_view(*final(m)), id as nat + 1),
        forall|k: u64, x: u32|
            x != id ==> #[trigger] occurrences(posts(posting_map_view(*final(m)), k), x) == occurrences(posts(posting_map_view(*old(m)), k), x),
        forall|k: u64| #[trigger] occurrences(posts(posting_map_view(*final(m)), k), id) == pair_count(chars@, k, chars@.len() as int),
{
    proof {
        lemma_posting_fresh(posting_map_view(*m), id);
    }
    let ghost start = posting_map_view(*m);
    let len = chars.len();
    let mut i: usize = 0;
    while i + 1 < len
        invariant
            i <= len,
            len == chars@.len(),
            len <= 4096,
            posting_ok(posting_map_view(*m), id as nat + 1),
            forall|k: u64| #[trigger] occurrences(posts(posting_map_view(*m), k), id) <= i,
            forall|k: u64, x: u32|
                x != id ==> #[trigger] occurrences(posts(posting_map_view(*m), k), x) == occurrences(posts(start, k), x),
            forall|k: u64| #[trigger] occurrences(posts(posting_map_view(*m), k), id) == pair_count(chars@, k, i as int),
        decreases len - i,
    {
        let ghost before = posting_map_view(*m);
        let key = pair_key_exec(chars[i], chars[i + 1]);
        push_posting(m, key, id, false);
        proof {
            let after = posting_map_view(*m);
            lemma_occurrences_push(posts(before, key), id, id);
            assert forall|k: u64, x: u32| x != id implies #[trigger] occurrences(posts(after, k), x) == occurrences(posts(start, k), x) by {
                if k == key {
                    lemma_occurrences_push(posts(before, key), id, x);
                }
            }
            assert forall|k: u64| #[trigger] occurrences(posts(after, k), id) == pair_count(chars@, k, i + 1) by {
                if k == key {
                    assert(pair_key(chars@[i as int], chars@[i + 1]) == k);
                }
            }
        }
        i = i + 1;
    }
    proof {
        if len > 0 {
            assert forall|k: u64| #[trigger] occurrences(posts(posting_map_view(*m), k), id) == pair_count(chars@, k, len as int) by {
                assert(pair_count(chars@, k, len as int) == pair_count(chars@, k, len - 1));
            }
        }
    }
}

/// After `id` is posted under `key`, every other id is posted where it was,
/// and `id` where it was and under `key`.
proof fn lemma_push_posted(before: Map<u64, Seq<u32>>, after: Map<u64, Seq<u32>>, key: u64, id: u32, distinct: bool)
    requires
        posts(after, key) == if distinct && posts(before, key).len() > 0 && posts(before, key).last() == id {
            posts(before, key)
        } else {
            posts(before, key).push(id)
        },
        forall|k: u64| k != key ==> #[trigger] posts(after, k) == posts(before, k),
    ensures
        forall|k: u64, x: u32| x != id ==> (#[trigger] posts(after, k).contains(x) <==> posts(before, k).contains(x)),
        forall|k: u64| #[trigger] posts(after, k).contains(id) <==> posts(before, k).contains(id) || k == key,
{
    let b = posts(before, key);
    let a = posts(after, key);
    assert forall|k: u64, x: u32| x != id implies (#[trigger] posts(after, k).contains(x) <==> posts(before, k).contains(x)) by {
        if k == key {
            if a.contains(x) {
                let w = choose|w: int| 0 <= w < a.len() && a[w] == x;
                if w < b.len() {
                    assert(b[w] == x);
                }
            }
            if b.contains(x) {
                let w = choose|w: int| 0 <= w < b.len() && b[w] == x;
                assert(a[w] == x);
            }
        }
    }
    assert forall|k: u64| #[trigger] posts(after, k).contains(id) <==> posts(before, k).contains(id) || k == key by {
        if k == key {
            if b.len() > 0 && b.last() == id && distinct {
                assert(a[a.len() - 1] == id);
            } else {
                assert(a[b.len() as int] == id);
                if b.contains(id) {
                    let w = choose|w: int| 0 <= w < b.len() && b[w] == id;
                    assert(a[w] == id);
                }
            }
        }
    }
}

/// Whether `k` is the key of an ordered pair of characters of `chars` at
/// most two apart.
pub open spec fn has_near_pair(chars: Seq<char>, k: u64) -> bool {
    exists|f: int, r: int| 0 <= f < r < chars.len() && r <= f + 2 && #[trigger] pair_key(chars[f], chars[r]) == k
}

/// Whether `k` is the key of a pair of `chars` at most two apart that starts
/// before `first`, or starts at `first` and ends before `right`.
pub open spec fn near_pair_before(chars: Seq<char>, k: u64, first: int, right: int) -> bool {
    exists|f: int, r: int|
        0 <= f < r < chars.len() && r <= f + 2 && (f < first || (f == first && r < right)) && #[trigger] pair_key(chars[f], chars[r])
            == k
}

/// The near-pair postings file each term of cost zero under the key of each
/// ordered pair of its characters at most two apart, and nothing else.
pub open spec fn near_pairs_posted(m: Map<u64, Seq<u32>>, terms: Seq<IndexedTerm>) -> bool {
    forall|k: u64, x: u32|
        #[trigger] posts(m, k).contains(x) <==> x < terms.len() && terms[x as int].cost == 0 && has_near_pair(terms[x as int].chars@, k)
}

/// Posts every ordered pair of a term's characters at most two apart, once.
fn post_near_pairs(m: &mut RapidHashMap<u64, Vec<u32>>, chars: &Vec<char>, id: u32)
    requires
        chars@.len() <= 4096,
        posting_ok(posting_map_view(*old(m)), id as nat),
        strictly_posted(posting_map_view(*old(m))),
    ensures
        posting_ok(posting_map_view(*final(m)), id as nat + 1),
        strictly_posted(posting_map_view(*final(m))),
        forall|k: u64, x: u32|
            x != id ==> (#[trigger] posts(posting_map_view(*final(m)), k).contains(x) <==> posts(posting_map_view(*old(m)), k).contains(x)),
        forall|k: u64| #[trigger] posts(posting_map_view(*final(m)), k).contains(id) <==> has_near_pair(chars@, k),
{
    proof {
        lemma_posting_fresh(posting_map_view(*m), id);
    }
    let ghost start = posting_map_view(*m);
    let len = chars.len();
    let mut first: usize = 0;
    while first < len
        invariant
            first <= len,
            len == chars@.len(),
            len <= 4096,
            posting_ok(posting_map_view(*m), id as nat + 1),
            strictly_posted(posting_map_view(*m)),
            forall|k: u64| #[trigger] occurrences(posts(posting_map_view(*m), k), id) <= 2 * first,
            forall|k: u64, x: u32|
                x != id ==> (#[trigger] posts(posting_map_view(*m), k).contains(x) <==> posts(start, k).contains(x)),
            forall|k: u64| #[trigger] posts(posting_map_view(*m), k).contains(id) <==> near_pair_before(chars@, k, first as int, first as int),
        decreases len - first,
    {
        let mut right = first + 1;
        while right < len && right <= first + 2
            invariant
                first < len,
                first + 1 <= right <= first + 3,
                right <= len,
                len == chars@.len(),
                len <= 4096,
                posting_ok(posting_map_view(*m), id as nat + 1),
                strictly_posted(posting_map_view(*m)),
                forall|k: u64| #[trigger] occurrences(posts(posting_map_view(*m), k), id) <= 2 * first + (right - first - 1),
                forall|k: u64, x: u32|
                    x != id ==> (#[trigger] posts(posting_map_view(*m), k).contains(x) <==> posts(start, k).contains(x)),
                forall|k: u64| #[trigger] posts(posting_map_view(*m), k).contains(id) <==> near_pair_before(chars@, k, first as int, right as int),
            decreases len - right,
        {
            let ghost before = posting_map_view(*m);
            let key = pair_key_exec(chars[first], chars[right]);
            push_posting(m, key, id, true);
            proof {
                let after = posting_map_view(*m);
                lemma_push_posted(before, after, key, id, true);
                assert forall|k: u64| #[trigger] posts(after, k).contains(id) <==> near_pair_before(chars@, k, first as int, right + 1) by {
                    if k == key {
                        assert(pair_key(chars@[first as int], chars@[right as int]) == k);
                    }
                    if near_pair_before(chars@, k, first as int, right + 1) && k != key {
                        let (f, r) = choose|f: int, r: int|
                            0 <= f < r < chars@.len() && r <= f + 2 && (f < first || (f == first && r < right + 1)) && #[trigger] pair_key(chars@[f], chars@[r])
                                == k;
                        assert(r != right || f != first);
                        assert(near_pair_before(chars@, k, first as int, right as int));
                    }
                }
            }
            right = right + 1;
        }
        proof {
            assert forall|k: u64| #[trigger] posts(posting_map_view(*m), k).contains(id) <==> near_pair_before(chars@, k, first + 1, first + 1) by {
                if near_pair_before(chars@, k, first + 1, first + 1) {
                    let (f, r) = choose|f: int, r: int|
                        0 <= f < r < chars@.len() && r <= f + 2 && (f < first + 1 || (f == first + 1 && r < first + 1)) && #[trigger] pair_key(chars@[f], chars@[r])
                            == k;
                    assert(near_pair_before(chars@, k, first as int, right as int));
                }
                if near_pair_before(chars@, k, first as int, right as int) {
                    let (f, r) = choose|f: int, r: int|
                        0 <= f < r < chars@.len() && r <= f + 2 && (f < first || (f == first && r < right)) && #[trigger] pair_key(chars@[f], chars@[r])
                            == k;
                    assert(near_pair_before(chars@, k, first + 1, first + 1));
                }
            }
        }
        first = first + 1;
    }
    proof {
        assert forall|k: u64| #[trigger] posts(posting_map_view(*m), k).contains(id) <==> has_near_pair(chars@, k) by {
            if has_near_pair(chars@, k) {
                let (f, r) = choose|f: int, r: int| 0 <= f < r < chars@.len() && r <= f + 2 && #[trigger] pair_key(chars@[f], chars@[r]) == k;
                assert(near_pair_before(chars@, k, first as int, first as int));
            }
        }
    }
}

/// Posts every character of a term, once.
fn post_characters(m: &mut RapidHashMap<u64, Vec<u32>>, chars: &Vec<char>, id: u32)
    requires
        chars@.len() <= 4096,
        posting_ok(posting_map_view(*old(m)), id as nat),
        strictly_posted(posting_map_view(*old(m))),
    ensures
        posting_ok(posting_map_view(*final(m)), id as nat + 1),
        strictly_posted(posting_map_view(*final(m))),
        forall|k: u64, x: u32|
            x != id ==> (#[trigger] posts(posting_map_view(*final(m)), k).contains(x) <==> posts(posting_map_view(*old(m)), k).contains(x)),
        forall|k: u64| #[trigger] posts(posting_map_view(*final(m)), k).contains(id) <==> has_char(chars@, k),
{
    proof {
        lemma_posting_fresh(posting_map_view(*m), id);
    }
    let ghost start = posting_map_view(*m);
    let len = chars.len();
    let mut i: usize = 0;
    while i < len
        invariant
            i <= len,
            len == chars@.len(),
            len <= 4096,
            posting_ok(posting_map_view(*m), id as nat + 1),
            strictly_posted(posting_map_view(*m)),
            forall|k: u64| #[trigger] occurrences(posts(posting_map_view(*m), k), id) <= i,
            forall|k: u64, x: u32|
                x != id ==> (#[trigger] posts(posting_map_view(*m), k).contains(x) <==> posts(start, k).contains(x)),
            forall|k: u64| #[trigger] posts(posting_map_view(*m), k).contains(id) <==> has_char(chars@.take(i as int), k),
        decreases len - i,
    {
        let ghost before = posting_map_view(*m);
        let key = char_key_exec(chars[i]);
        push_posting(m, key, id, true);
        proof {
            let after = posting_map_view(*m);
            assert forall|k: u64, x: u32| x != id implies (#[trigger] posts(after, k).contains(x) <==> posts(start, k).contains(x)) by {
                if k == key {
                    if posts(after, k).contains(x) {
                        let w = choose|w: int| 0 <= w < posts(after, k).len() && posts(after, k)[w] == x;
                        if w < posts(before, k).len() {
                            assert(posts(before, k)[w] == x);
                        }
                    }
                    if posts(before, k).contains(x) {
                        let w = choose|w: int| 0 <= w < posts(before, k).len() && posts(before, k)[w] == x;
                        assert(posts(after, k)[w] == x);
                    }
                }
            }
            assert forall|k: u64| #[trigger] posts(after, k).contains(id) <==> has_char(chars@.take(i + 1), k) by {
                let t = chars@.take(i + 1);
                if k == key {
                    assert(t[i as int] == chars@[i as int]);
                    assert(char_key(t[i as int]) == k);
                    if posts(before, k).len() > 0 && posts(before, k).last() == id {
                        assert(posts(after, k)[posts(after, k).len() - 1] == id);
                    } else {
                        assert(posts(after, k)[posts(before, k).len() as int] == id);
                    }
                } else {
                    if has_char(t, k) {
                        let j = choose|j: int| 0 <= j < t.len() && #[trigger] char_key(t[j]) == k;
                        assert(j != i);
                        assert(chars@.take(i as int)[j] == t[j]);
                        assert(has_char(chars@.take(i as int), k));
                    }
                    if has_char(chars@.take(i as int), k) {
                        let j = choose|j: int| 0 <= j < i && #[trigger] char_key(chars@.take(i as int)[j]) == k;
                        assert(t[j] == chars@.take(i as int)[j]);
                    }
                }
            }
        }
        i = i + 1;
    }
    assert(chars@.take(len as int) =~= chars@);
}

impl Index {
    pub closed spec fn spec_terms(&self) -> Seq<IndexedTerm> {
        self.terms@
    }

    pub closed spec fn spec_sorted_terms(&self) -> Seq<KeyPostings> {
        self.sorted_terms@
    }

    pub closed spec fn spec_tokens(&self) -> Seq<KeyPostings> {
        self.tokens@
    }

    pub closed spec fn spec_bigrams(&self) -> Map<u64, Seq<u32>> {
        posting_map_view(self.bigrams)
    }

    pub closed spec fn spec_near_pairs(&self) -> Map<u64, Seq<u32>> {
        posting_map_view(self.near_pairs)
    }

    pub closed spec fn spec_characters(&self) -> Map<u64, Seq<u32>> {
        posting_map_view(self.characters)
    }

    pub closed spec fn spec_token_initials(&self) -> Map<u64, Seq<u32>> {
        posting_map_view(self.token_initials)
    }

    /// Every term is well formed and non-empty and has an id that fits `u32`;
    /// the term dictionary files each term exactly under its characters; the
    /// token dictionary and the postings hold only known ids, in order.
    pub closed spec fn wf(&self) -> bool {
        let n = self.terms@.len();
        &&& n <= u32::MAX
        &&& forall|i: int| 0 <= i < n ==> (#[trigger] self.terms@[i]).wf() && self.terms@[i].chars@.len() > 0
        &&& key_list_ok(self.sorted_terms@, n, true)
        &&& forall|k: Seq<char>, id: u32| filed(self.sorted_terms@, k, id) ==> self.terms@[id as int].chars@ == k
        &&& forall|id: int| 0 <= id < n ==> filed(self.sorted_terms@, self.terms@[id].chars@, id as u32)
        &&& key_list_ok(self.tokens@, n, false)
        &&& keys_short(self.tokens@)
        &&& posting_ok(posting_map_view(self.bigrams), n)
        &&& posting_ok(posting_map_view(self.near_pairs), n)
        &&& posting_ok(posting_map_view(self.characters), n)
        &&& posting_ok(posting_map_view(self.token_initials), n)
        &&& strictly_posted(posting_map_view(self.near_pairs))
        &&& strictly_posted(posting_map_view(self.characters))
        &&& strictly_posted(posting_map_view(self.token_initials))
        &&& characters_posted(posting_map_view(self.characters), self.terms@)
        &&& near_pairs_posted(posting_map_view(self.near_pairs), self.terms@)
        &&& initials_posted(posting_map_view(self.token_initials), self.terms@)
        &&& tokens_filed(self.tokens@, self.terms@)
        &&& bigrams_posted(posting_map_view(self.bigrams), self.terms@)
    }

    /// What the dictionaries and postings of a well-formed index hold, term
    /// by term, and nothing else: the term dictionary files each term under
    /// its characters; the character, token-initial and adjacent-pair
    /// postings file it under each of its characters, token initials and
    /// adjacent pairs (once per occurrence); the near-pair postings and the
    /// token dictionary file each term of cost zero under its near pairs and
    /// kept tokens. Postings follow term ids in increasing order.
    pub proof fn lemma_postings(&self)
        requires
            self.wf(),
        ensures
            forall|k: Seq<char>, x: u32|
                #[trigger] filed(self.spec_sorted_terms(), k, x) <==> x < self.spec_terms().len() && self.spec_terms()[x as int].chars@
                    == k,
            characters_posted(self.spec_characters(), self.spec_terms()),
            initials_posted(self.spec_token_initials(), self.spec_terms()),
            bigrams_posted(self.spec_bigrams(), self.spec_terms()),
            near_pairs_posted(self.spec_near_pairs(), self.spec_terms()),
            tokens_filed(self.spec_tokens(), self.spec_terms()),
            posting_ok(self.spec_bigrams(), self.spec_terms().len()),
            strictly_posted(self.spec_characters()),
            strictly_posted(self.spec_token_initials()),
            strictly_posted(self.spec_near_pairs()),
    {
        assert forall|k: Seq<char>, x: u32|
            #[trigger] filed(self.spec_sorted_terms(), k, x) <==> x < self.spec_terms().len() && self.spec_terms()[x as int].chars@ == k by {
            if filed(self.sorted_terms@, k, x) {
                let (i, j) = choose|i: int, j: int|
                    0 <= i < self.sorted_terms@.len() && 0 <= j < self.sorted_terms@[i].ids@.len() && self.sorted_terms@[i].key@ == k
                        && #[trigger] self.sorted_terms@[i].ids@[j] == x;
                assert(self.sorted_terms@[i].ids@[j] < self.terms@.len());
            }
            if x < self.terms@.len() && self.terms@[x as int].chars@ == k {
                assert(filed(self.sorted_terms@, self.terms@[x as int].chars@, x));
            }
        }
    }

    /// Every indexed term has from one to 4096 characters, and token starts
    /// that begin at zero, increase and lie inside its characters.
    pub proof fn law_indexed_term_shape(&self, id: int)
        requires
            self.wf(),
            0 <= id < self.spec_terms().len(),
        ensures
            ({
                let t = self.spec_terms()[id];
                let starts = token_starts_view(t.token_starts);
                &&& 1 <= t.chars@.len() <= 4096
                &&& starts.len() > 0 && starts[0] == 0
                &&& forall|i: int| 0 <= i < starts.len() ==> #[trigger] starts[i] < t.chars@.len()
                &&& forall|i: int, j: int| #![trigger starts[i], starts[j]] 0 <= i < j < starts.len() ==> starts[i] < starts[j]
            }),
    {
    }

    /// Each term of a well-formed index is well formed.
    pub proof fn lemma_term_wf(&self, id: int)
        requires
            self.wf(),
            0 <= id < self.spec_terms().len(),
        ensures
            self.spec_terms()[id].wf(),
            self.spec_terms()[id].chars@.len() > 0,
    {
    }

    fn empty() -> (index: Self)
        ensures
            index.wf(),
            index.spec_terms().len() == 0,
    {
        Index {
            terms: Vec::new(),
            sorted_terms: Vec::new(),
            bigrams: posting_map_new(),
            near_pairs: posting_map_new(),
            characters: posting_map_new(),
            token_initials: posting_map_new(),
            tokens: Vec::new(),
        }
    }

    /// Indexes one term of a field under the next id.
    fn add_term(&mut self, entry: EntryId, field: FieldId, role: Role, value: &Term)
        requires
            old(self).wf(),
            old(self).spec_terms().len() < u32::MAX,
            value.text.wf(),
            value@.chars.len() > 0,
            value@.chars.len() <= 4096,
        ensures
            final(self).wf(),
            final(self).spec_terms().len() == old(self).spec_terms().len() + 1,
            forall|i: int| 0 <= i < old(self).spec_terms().len() ==> final(self).spec_terms()[i] == old(self).spec_terms()[i],
            ({
                let t = final(self).spec_terms()[old(self).spec_terms().len() as int];
                &&& t.entry == entry
                &&& t.field == field
                &&& t.role == role
                &&& t.chars@ == value@.chars
                &&& t.cost == value.cost
                &&& token_starts_view(t.token_starts) == value@.token_starts.map_values(|s: int| s as u16)
            }),
    {
        let ghost n = self.terms@.len();
        let id = self.terms.len() as u32;
        let source = value.text.chars();
        let len = source.len();
        let mut chars: Vec<char> = Vec::new();
        let mut i: usize = 0;
        while i < len
            invariant
                i <= len,
                len == source@.len(),
                chars@ == source@.take(i as int),
            decreases len - i,
        {
            chars.push(source[i]);
            i = i + 1;
        }
        assert(source@.take(len as int) =~= source@);

        let ghost terms_before = self.terms@;
        file_key(&mut self.sorted_terms, source, id, Ghost(true));

        proof {
            value.text.lemma_wf();
        }
        let ghost initials_before = posting_map_view(self.token_initials);
        let ghost tokens_before = self.tokens@;
        let starts = value.text.token_starts();
        let token_starts = post_tokens(
            &mut self.tokens,
            &mut self.token_initials,
            &chars,
            starts,
            value.cost == 0,
            id,
        );
        proof {
            assert(token_starts_view(token_starts) =~= value@.token_starts.map_values(|s: int| s as u16)) by {
                assert forall|i: int| 0 <= i < starts@.len() implies #[trigger] token_starts_view(token_starts)[i]
                    == value@.token_starts.map_values(|s: int| s as u16)[i] by {
                    assert(starts@.map_values(|s: usize| s as int)[i] == starts@[i] as int);
                }
            }
            let vs = value@.token_starts;
            let ts = token_starts_view(token_starts);
            assert forall|i: int| 0 <= i < ts.len() implies #[trigger] ts[i] as int == vs[i] by {
                assert(0 <= vs[i] < value@.chars.len());
            }
            if value@.chars.len() > 0 {
                assert(ts[0] as int == vs[0]);
            }
            assert forall|i: int, j: int| #![trigger ts[i], ts[j]] 0 <= i < j < ts.len() implies ts[i] < ts[j] by {
                assert(ts[i] as int == vs[i]);
                assert(ts[j] as int == vs[j]);
                assert(vs[i] < vs[j]);
            }
            assert forall|i: int| 0 <= i < ts.len() implies #[trigger] ts[i] < value@.chars.len() by {
                assert(ts[i] as int == vs[i]);
            }
        }
        let ghost bigrams_before = posting_map_view(self.bigrams);
        post_bigrams(&mut self.bigrams, &chars, id);
        let ghost near_before = posting_map_view(self.near_pairs);
        if value.cost == 0 {
            post_near_pairs(&mut self.near_pairs, &chars, id);
        } else {
            proof {
                lemma_posting_ok_grow(posting_map_view(self.near_pairs), n);
                assert forall|k: u64| !(#[trigger] posts(near_before, k).contains(id)) by {
                    if posts(near_before, k).contains(id) {
                        let w = choose|w: int| 0 <= w < posts(near_before, k).len() && posts(near_before, k)[w] == id;
                        assert(near_before[k][w] < n);
                    }
                }
            }
        }
        let ghost characters_before = posting_map_view(self.characters);
        post_characters(&mut self.characters, &chars, id);
        self.terms.push(
            IndexedTerm {
                entry,
                field,
                role,
                chars,
                token_starts,
                cost: value.cost,
                frequency: 0,
            },
        );
        proof {
            let m = n + 1;
            assert forall|i: int| 0 <= i < m implies (#[trigger] self.terms@[i]).wf() && self.terms@[i].chars@.len() > 0 by {
                if i < n {
                    assert(self.terms@[i] == terms_before[i]);
                }
            }
            assert forall|kk: Seq<char>, x: u32| filed(self.sorted_terms@, kk, x) implies self.terms@[x as int].chars@ == kk by {
                if x != id {
                    assert(self.terms@[x as int] == terms_before[x as int]);
                }
            }
            assert forall|x: int| 0 <= x < m implies filed(self.sorted_terms@, self.terms@[x].chars@, x as u32) by {
                if x < n {
                    assert(self.terms@[x] == terms_before[x]);
                }
            }
            let cm = posting_map_view(self.characters);
            assert forall|k: u64, x: u32| #[trigger] posts(cm, k).contains(x) <==> x < m && has_char(self.terms@[x as int].chars@, k) by {
                if x != id {
                    assert(posts(cm, k).contains(x) <==> posts(characters_before, k).contains(x));
                    if x < n {
                        assert(self.terms@[x as int] == terms_before[x as int]);
                    }
                }
            }
            let nm = posting_map_view(self.near_pairs);
            assert forall|k: u64, x: u32|
                #[trigger] posts(nm, k).contains(x) <==> x < m && self.terms@[x as int].cost == 0 && has_near_pair(self.terms@[x as int].chars@, k) by {
                if x != id {
                    assert(posts(nm, k).contains(x) <==> posts(near_before, k).contains(x));
                    if x < n {
                        assert(self.terms@[x as int] == terms_before[x as int]);
                    }
                }
            }
            let bm = posting_map_view(self.bigrams);
            assert forall|k: u64, x: u32|
                #[trigger] occurrences(posts(bm, k), x) == if x < m {
                    pair_count(self.terms@[x as int].chars@, k, self.terms@[x as int].chars@.len() as int)
                } else {
                    0
                } by {
                if x != id {
                    assert(occurrences(posts(bm, k), x) == occurrences(posts(bigrams_before, k), x));
                    if x < n {
                        assert(self.terms@[x as int] == terms_before[x as int]);
                    }
                }
            }
            let im = posting_map_view(self.token_initials);
            assert forall|k: u64, x: u32|
                #[trigger] posts(im, k).contains(x) <==> x < m && has_initial(
                    self.terms@[x as int].chars@,
                    token_starts_view(self.terms@[x as int].token_starts),
                    k,
                ) by {
                if x != id {
                    assert(posts(im, k).contains(x) <==> posts(initials_before, k).contains(x));
                    if x < n {
                        assert(self.terms@[x as int] == terms_before[x as int]);
                    }
                }
            }
            assert forall|kk: Seq<char>, x: u32|
                #[trigger] filed(self.tokens@, kk, x) <==> x < m && self.terms@[x as int].cost == 0 && kept_tokens(
                    self.terms@[x as int].chars@,
                    token_starts_view(self.terms@[x as int].token_starts),
                    token_starts_view(self.terms@[x as int].token_starts).len() as int,
                ).contains(kk) by {
                if x != id {
                    assert(filed(self.tokens@, kk, x) <==> filed(tokens_before, kk, x));
                    if x < n {
                        assert(self.terms@[x as int] == terms_before[x as int]);
                    }
                }
            }
        }
    }
}

/// The most terms that a field can add to the index: the term of its text,
/// and for text with Han characters up to 32 terms with its readings.
pub open spec fn field_capacity(field: Field) -> nat {
    if has_han(field.text@) {
        32
    } else {
        1
    }
}

/// The most terms that `fields` can add to the index.
pub open spec fn fields_capacity(fields: Seq<Field>) -> nat
    decreases fields.len(),
{
    if fields.len() == 0 {
        0
    } else {
        fields_capacity(fields.drop_last()) + field_capacity(fields.last())
    }
}

/// The most terms that `entries` can add to the index.
pub open spec fn term_capacity(entries: Seq<Entry>) -> nat
    decreases entries.len(),
{
    if entries.len() == 0 {
        0
    } else {
        term_capacity(entries.drop_last()) + fields_capacity(entries.last().fields@)
    }
}

/// Entry ids are unique, and field ids are unique across all entries.
pub open spec fn ids_unique(entries: Seq<Entry>) -> bool {
    &&& forall|i: int, j: int|
        #![trigger entries[i].id, entries[j].id]
        0 <= i < j < entries.len() ==> entries[i].id != entries[j].id
    &&& forall|i: int, a: int, j: int, b: int|
        #![trigger entries[i].fields@[a].id, entries[j].fields@[b].id]
        0 <= i < entries.len() && 0 <= j < entries.len() && 0 <= a < entries[i].fields@.len() && 0
            <= b < entries[j].fields@.len() && (i != j || a != b) ==> entries[i].fields@[a].id
            != entries[j].fields@[b].id
}

/// Whether `t` records a field of `entries`: its entry id, field id and role.
pub open spec fn from_some_field(entries: Seq<Entry>, t: IndexedTerm) -> bool {
    exists|i: int, a: int|
        0 <= i < entries.len() && 0 <= a < entries[i].fields@.len() && #[trigger] entries[i].fields@[a].id
            == t.field && entries[i].id == t.entry && entries[i].fields@[a].role == t.role
}

/// A field's own text is indexed when its normalization is neither empty nor
/// longer than the per-field character budget.
pub open spec fn indexable(text: Seq<char>) -> bool {
    0 < normalize(text).chars.len() <= 4096
}

/// The last entry counted and the count of entries of `role` along `ids`:
/// the count grows whenever the entry changes.
pub open spec fn role_count(terms: Seq<IndexedTerm>, ids: Seq<u32>, role: Role) -> (Option<EntryId>, nat)
    decreases ids.len(),
{
    if ids.len() == 0 {
        (None, 0)
    } else {
        let (last, count) = role_count(terms, ids.drop_last(), role);
        let t = terms[ids.last() as int];
        if t.role != role || last == Some(t.entry) {
            (last, count)
        } else {
            (Some(t.entry), count + 1)
        }
    }
}

/// The terms of one entry are consecutive: a term between two terms of an
/// entry belongs to it too.
pub open spec fn entries_grouped(terms: Seq<IndexedTerm>) -> bool {
    forall|i: int, j: int, k: int|
        0 <= i < j < k < terms.len() && #[trigger] terms[i].entry == #[trigger] terms[k].entry ==> #[trigger] terms[j].entry
            == terms[i].entry
}

/// Whether `t` belongs to one of the first `e` entries.
pub open spec fn from_entry_before(entries: Seq<Entry>, t: IndexedTerm, e: int) -> bool {
    exists|p: int| 0 <= p < e && #[trigger] entries[p].id == t.entry
}

/// The ids filed under `key`.
pub open spec fn ids_under(list: Seq<KeyPostings>, key: Seq<char>) -> Seq<u32> {
    if exists|i: int| 0 <= i < list.len() && #[trigger] list[i].key@ == key {
        list[choose|i: int| 0 <= i < list.len() && #[trigger] list[i].key@ == key].ids@
    } else {
        Seq::empty()
    }
}

/// What an indexed term records, its frequency aside.
pub struct TermRecord {
    pub entry: EntryId,
    pub field: FieldId,
    pub role: Role,
    pub chars: Seq<char>,
    pub token_starts: Seq<u16>,
    pub cost: u16,
}

/// The record of an indexed term.
pub open spec fn record_of(t: IndexedTerm) -> TermRecord {
    TermRecord {
        entry: t.entry,
        field: t.field,
        role: t.role,
        chars: t.chars@,
        token_starts: token_starts_view(t.token_starts),
        cost: t.cost,
    }
}

/// The record of the term `v` of a field of an entry.
pub open spec fn field_record(entry: EntryId, field: Field, v: TermView) -> TermRecord {
    TermRecord {
        entry,
        field: field.id,
        role: field.role,
        chars: v.chars,
        token_starts: v.token_starts.map_values(|s: int| s as u16),
        cost: v.cost,
    }
}

/// The records of the terms of `fields`, field by field: the terms
/// `values[g]` of field `g`, in order.
pub open spec fn expected_records(fields: Seq<(EntryId, Field)>, values: Seq<Seq<TermView>>) -> Seq<TermRecord>
    decreases fields.len(),
{
    if fields.len() == 0 || values.len() == 0 {
        Seq::empty()
    } else {
        expected_records(fields.drop_last(), values.drop_last()) + values.last().map_values(
            |v: TermView| field_record(fields.last().0, fields.last().1, v),
        )
    }
}

/// The fields of `entries` in order, each with its entry's id.
pub open spec fn all_fields(entries: Seq<Entry>) -> Seq<(EntryId, Field)>
    decreases entries.len(),
{
    if entries.len() == 0 {
        Seq::empty()
    } else {
        all_fields(entries.drop_last()) + entries.last().fields@.map_values(|f: Field| (entries.last().id, f))
    }
}

/// Whether `values` can be the terms of a field with the text `text`: the
/// terms of its own text (see `Terms::new`), with its pinyin readings (see
/// `pinyin_terms`).
pub open spec fn field_terms(text: Seq<char>, values: Seq<TermView>) -> bool {
    exists|remaining: nat| #[trigger] pinyin_terms(text, spec_add(Seq::empty(), 4096, 32, text, 0), 32, (values, remaining))
}

/// Whether `terms` hold, field by field in order, the terms `values[g]` of
/// each field `g` of `fields`, which the field can have.
pub open spec fn fields_laid_out(terms: Seq<IndexedTerm>, fields: Seq<(EntryId, Field)>, values: Seq<Seq<TermView>>) -> bool {
    &&& values.len() == fields.len()
    &&& forall|g: int| 0 <= g < fields.len() ==> field_terms(fields[g].1.text@, #[trigger] values[g])
    &&& terms.map_values(|t: IndexedTerm| record_of(t)) == expected_records(fields, values)
}

proof fn lemma_expected_push(fields: Seq<(EntryId, Field)>, values: Seq<Seq<TermView>>, f: (EntryId, Field), v: Seq<TermView>)
    ensures
        expected_records(fields.push(f), values.push(v)) == expected_records(fields, values) + v.map_values(
            |x: TermView| field_record(f.0, f.1, x),
        ),
{
    assert(fields.push(f).drop_last() =~= fields);
    assert(values.push(v).drop_last() =~= values);
}

proof fn lemma_all_fields_step(entries: Seq<Entry>, e: int)
    requires
        0 <= e < entries.len(),
    ensures
        all_fields(entries.take(e + 1)) == all_fields(entries.take(e)) + entries[e].fields@.map_values(|f: Field| (entries[e].id, f)),
{
    assert(entries.take(e + 1).drop_last() =~= entries.take(e));
}

/// Whether `index` indexes `entries`: each term records a field of them;
/// each field whose own text is indexable has its term of cost zero; the
/// terms of an entry are consecutive; and each term's frequency is the
/// number of entries that hold its characters in a field of its role.
pub open spec fn indexes(index: Index, entries: Seq<Entry>) -> bool {
    let terms = index.spec_terms();
    let sorted = index.spec_sorted_terms();
    &&& forall|id: int| 0 <= id < terms.len() ==> from_some_field(entries, #[trigger] terms[id])
    &&& forall|i: int, a: int|
        0 <= i < entries.len() && 0 <= a < entries[i].fields@.len() && indexable(#[trigger] entries[i].fields@[a].text@)
            ==> has_field_term(
            terms,
            entries[i].id,
            entries[i].fields@[a].id,
            entries[i].fields@[a].role,
            normalize(entries[i].fields@[a].text@).chars,
        )
    &&& entries_grouped(terms)
    &&& forall|i: int, x: int|
        0 <= i < sorted.len() && 0 <= x < sorted[i].ids@.len() ==> (#[trigger] terms[sorted[i].ids@[x] as int]).frequency
            == role_entries(terms, sorted[i].ids@, terms[sorted[i].ids@[x] as int].role).len()
    &&& exists|values: Seq<Seq<TermView>>| #[trigger] fields_laid_out(terms, all_fields(entries), values)
}

/// What indexing `entries` builds: a well-formed index of their fields
/// (see `indexes`), whose terms come from the fields, with a term for each
/// indexable field text, term frequencies counted by entry and role, and the
/// terms of each entry together.
pub open spec fn built_index(index: Index, entries: Seq<Entry>) -> bool {
    &&& index.wf()
    &&& indexes(index, entries)
    &&& forall|id: int|
        0 <= id < index.spec_terms().len() ==> from_some_field(entries, #[trigger] index.spec_terms()[id])
    &&& forall|i: int, a: int|
        0 <= i < entries.len() && 0 <= a < entries[i].fields@.len() && indexable(
            #[trigger] entries[i].fields@[a].text@,
        ) ==> has_field_term(
            index.spec_terms(),
            entries[i].id,
            entries[i].fields@[a].id,
            entries[i].fields@[a].role,
            normalize(entries[i].fields@[a].text@).chars,
        )
    &&& forall|i: int, x: int|
        0 <= i < index.spec_sorted_terms().len() && 0 <= x < index.spec_sorted_terms()[i].ids@.len()
            ==> (#[trigger] index.spec_terms()[index.spec_sorted_terms()[i].ids@[x] as int]).frequency
            == role_count(
            index.spec_terms(),
            index.spec_sorted_terms()[i].ids@,
            index.spec_terms()[index.spec_sorted_terms()[i].ids@[x] as int].role,
        ).1
    &&& entries_grouped(index.spec_terms())
    &&& forall|i: int, x: int|
        0 <= i < index.spec_sorted_terms().len() && 0 <= x < index.spec_sorted_terms()[i].ids@.len()
            ==> (#[trigger] index.spec_terms()[index.spec_sorted_terms()[i].ids@[x] as int]).frequency
            == role_entries(
            index.spec_terms(),
            index.spec_sorted_terms()[i].ids@,
            index.spec_terms()[index.spec_sorted_terms()[i].ids@[x] as int].role,
        ).len()
}

impl Index {
    /// Indexes the fields of `entries`: the terms of each field's text, and
    /// of its pinyin readings, field by field (see `indexes`); the postings
    /// hold what `lemma_postings` states. The fields must not be able to add
    /// more terms than `u32` ids can number (see `term_capacity`).
    pub fn new(entries: Vec<Entry>) -> (index: Self)
        requires
            ids_unique(entries@),
            term_capacity(entries@) <= u32::MAX,
        ensures
            built_index(index, entries@),
    {
        match Self::try_new(entries) {
            Some(index) => index,
            None => Index::empty(),
        }
    }

    /// Indexes the fields of `entries` as `new` does, or `None` when their
    /// terms run out of `u32` ids, which can only happen when the fields
    /// could add more terms than that.
    pub fn try_new(entries: Vec<Entry>) -> (built: Option<Self>)
        requires
            ids_unique(entries@),
        ensures
            built is None ==> term_capacity(entries@) > u32::MAX,
            built matches Some(index) ==> built_index(index, entries@),
    {
        let mut index = Index::empty();
        let ghost mut vals: Seq<Seq<TermView>> = Seq::empty();
        proof {
            assert(all_fields(entries@.take(0)) =~= Seq::<(EntryId, Field)>::empty());
            assert(index.spec_terms().map_values(|t: IndexedTerm| record_of(t)) =~= Seq::<TermRecord>::empty());
        }
        let mut e: usize = 0;
        while e < entries.len()
            invariant
                e <= entries@.len(),
                fields_laid_out(index.spec_terms(), all_fields(entries@.take(e as int)), vals),
                index.wf(),
                index.spec_terms().len() <= term_capacity(entries@.take(e as int)),
                ids_unique(entries@),
                entries_grouped(index.spec_terms()),
                forall|id: int|
                    0 <= id < index.spec_terms().len() ==> from_entry_before(entries@, #[trigger] index.spec_terms()[id], e as int),
                forall|id: int|
                    0 <= id < index.spec_terms().len() ==> from_some_field(entries@, #[trigger] index.spec_terms()[id]),
                forall|i: int, a: int|
                    0 <= i < e && 0 <= a < entries@[i].fields@.len() && indexable(
                        #[trigger] entries@[i].fields@[a].text@,
                    ) ==> has_field_term(
                        index.spec_terms(),
                        entries@[i].id,
                        entries@[i].fields@[a].id,
                        entries@[i].fields@[a].role,
                        normalize(entries@[i].fields@[a].text@).chars,
                    ),
            decreases entries@.len() - e,
        {
            let entry = &entries[e];
            let ghost start = index.spec_terms().len();
            proof {
                assert(entries@.take(e + 1).drop_last() =~= entries@.take(e as int));
                lemma_term_capacity_prefix(entries@, e as int + 1);
            }
            proof {
                assert(all_fields(entries@.take(e as int)) + entry.fields@.take(0).map_values(|x: Field| (entry.id, x))
                    =~= all_fields(entries@.take(e as int)));
            }
            let mut f: usize = 0;
            while f < entry.fields.len()
                invariant
                    e < entries@.len(),
                    fields_laid_out(
                        index.spec_terms(),
                        all_fields(entries@.take(e as int)) + entry.fields@.take(f as int).map_values(|x: Field| (entry.id, x)),
                        vals,
                    ),
                    *entry == entries@[e as int],
                    f <= entry.fields@.len(),
                    index.wf(),
                    term_capacity(entries@.take(e as int)) + fields_capacity(entry.fields@) <= term_capacity(entries@),
                    index.spec_terms().len() <= term_capacity(entries@.take(e as int)) + fields_capacity(
                        entry.fields@.take(f as int),
                    ),
                    ids_unique(entries@),
                    entries_grouped(index.spec_terms()),
                    start <= index.spec_terms().len(),
                    forall|id: int|
                        0 <= id < start ==> from_entry_before(entries@, #[trigger] index.spec_terms()[id], e as int),
                    forall|id: int| start <= id < index.spec_terms().len() ==> (#[trigger] index.spec_terms()[id]).entry == entry.id,
                    forall|id: int|
                        0 <= id < index.spec_terms().len() ==> from_some_field(entries@, #[trigger] index.spec_terms()[id]),
                    forall|i: int, a: int|
                        ((0 <= i < e && 0 <= a < entries@[i].fields@.len()) || (i == e && 0 <= a < f))
                            && indexable(#[trigger] entries@[i].fields@[a].text@) ==> has_field_term(
                            index.spec_terms(),
                            entries@[i].id,
                            entries@[i].fields@[a].id,
                            entries@[i].fields@[a].role,
                            normalize(entries@[i].fields@[a].text@).chars,
                        ),
                decreases entry.fields@.len() - f,
            {
                let field = &entry.fields[f];
                let text = field.text.as_str();
                let mut terms = Terms::new(text, 32, 4096);
                proof {
                    let n = normalize(text@);
                    if indexable(text@) {
                        let x = crate::terms::term_of(n, 0);
                        assert(!crate::terms::has_chars(Seq::empty(), n.chars));
                        assert(terms.spec_values() == crate::terms::insert_sorted(Seq::empty(), x));
                        assert(terms.spec_values()[0] == x);
                        assert(terms.spec_values()[0].chars == n.chars);
                        assert(has_exact_term(terms.spec_values(), n.chars));
                    }
                }
                let ghost own = (terms.spec_values(), terms.spec_remaining());
                crate::pinyin::expand(text, &mut terms);
                proof {
                    assert(pinyin_terms(text@, own, 32, (terms.spec_values(), terms.spec_remaining())));
                    assert(field_terms(field.text@, terms.spec_values()));
                    terms.lemma_values();
                    assert(terms.spec_max_chars() == 4096);
                    assert forall|x: int|
                        0 <= x < terms.values@.len() implies {
                            &&& #[trigger] terms.values@[x].text.wf()
                            &&& terms.values@[x]@.chars.len() > 0
                            &&& terms.spec_values()[x] == terms.values@[x]@
                            &&& terms.values@[x]@.chars.len() <= 4096
                        } by {
                        assert(terms.values@[x].text.wf());
                        assert(terms.values@[x]@.chars.len() <= terms.spec_max_chars());
                    }
                }
                let count = terms.values.len();
                let ghost base = index.spec_terms().len();
                proof {
                    lemma_fields_capacity_prefix(entry.fields@, f + 1);
                    assert(entry.fields@[f as int] == *field);
                    if !has_han(text@) {
                        assert(terms.spec_values() == own.0);
                        assert(own.0.len() <= 1);
                    }
                    assert(count <= field_capacity(*field));
                }
                let ghost fs = all_fields(entries@.take(e as int)) + entry.fields@.take(f as int).map_values(|x: Field| (entry.id, x));
                proof {
                    assert(terms.spec_values().take(0).map_values(|v: TermView| field_record(entry.id, *field, v)) =~= Seq::<TermRecord>::empty());
                    assert(expected_records(fs, vals) + Seq::<TermRecord>::empty() =~= expected_records(fs, vals));
                }
                let mut k: usize = 0;
                while k < count
                    invariant
                        e < entries@.len(),
                        vals.len() == fs.len(),
                        forall|g: int| 0 <= g < fs.len() ==> field_terms(fs[g].1.text@, #[trigger] vals[g]),
                        field_terms(field.text@, terms.spec_values()),
                        fs == all_fields(entries@.take(e as int)) + entry.fields@.take(f as int).map_values(|x: Field| (entry.id, x)),
                        index.spec_terms().map_values(|t: IndexedTerm| record_of(t)) == expected_records(fs, vals)
                            + terms.spec_values().take(k as int).map_values(|v: TermView| field_record(entry.id, *field, v)),
                        *entry == entries@[e as int],
                        f < entry.fields@.len(),
                        *field == entry.fields@[f as int],
                        k <= count,
                        count == terms.values@.len(),
                        count <= 32,
                        terms.wf(),
                        terms.spec_max_chars() == 4096,
                        forall|x: int|
                            0 <= x < terms.values@.len() ==> {
                                &&& #[trigger] terms.values@[x].text.wf()
                                &&& terms.values@[x]@.chars.len() > 0
                                &&& terms.spec_values()[x] == terms.values@[x]@
                                &&& terms.values@[x]@.chars.len() <= 4096
                            },
                        index.wf(),
                        term_capacity(entries@.take(e as int)) + fields_capacity(entry.fields@) <= term_capacity(entries@),
                        fields_capacity(entry.fields@.take(f + 1)) <= fields_capacity(entry.fields@),
                        base + count <= term_capacity(entries@.take(e as int)) + fields_capacity(entry.fields@.take(f + 1)),
                        index.spec_terms().len() == base + k,
                        ids_unique(entries@),
                        entries_grouped(index.spec_terms()),
                        start <= base,
                        forall|id: int|
                            0 <= id < start ==> from_entry_before(entries@, #[trigger] index.spec_terms()[id], e as int),
                        forall|id: int| start <= id < index.spec_terms().len() ==> (#[trigger] index.spec_terms()[id]).entry == entry.id,
                        forall|id: int|
                            0 <= id < index.spec_terms().len() ==> from_some_field(entries@, #[trigger] index.spec_terms()[id]),
                        forall|i: int, a: int|
                            ((0 <= i < e && 0 <= a < entries@[i].fields@.len()) || (i == e && 0 <= a < f))
                                && indexable(#[trigger] entries@[i].fields@[a].text@) ==> has_field_term(
                                index.spec_terms(),
                                entries@[i].id,
                                entries@[i].fields@[a].id,
                                entries@[i].fields@[a].role,
                                normalize(entries@[i].fields@[a].text@).chars,
                            ),
                        forall|x: int|
                            0 <= x < k ==> #[trigger] index.spec_terms()[base + x].chars@ == terms.values@[x]@.chars
                                && index.spec_terms()[base + x].cost == terms.values@[x].cost
                                && index.spec_terms()[base + x].entry == entry.id
                                && index.spec_terms()[base + x].field == field.id
                                && index.spec_terms()[base + x].role == field.role,
                    decreases count - k,
                {
                    let ghost before = index.spec_terms();
                    if index.terms.len() >= u32::MAX as usize {
                        proof {
                            assert(term_capacity(entries@) > u32::MAX);
                        }
                        return None;
                    }
                    assert(terms.values@[k as int].text.wf());
                    index.add_term(entry.id, field.id, field.role, &terms.values[k]);
                    proof {
                        assert(from_some_field(entries@, index.spec_terms()[before.len() as int])) by {
                            assert(entries@[e as int].fields@[f as int].id == field.id);
                        }
                        assert forall|id: int| 0 <= id < index.spec_terms().len() implies from_some_field(entries@, #[trigger] index.spec_terms()[id]) by {
                            if id < before.len() {
                                assert(index.spec_terms()[id] == before[id]);
                            }
                        }
                        assert forall|id: int| 0 <= id < start implies from_entry_before(entries@, #[trigger] index.spec_terms()[id], e as int) by {
                            assert(index.spec_terms()[id] == before[id]);
                        }
                        assert forall|id: int| start <= id < index.spec_terms().len() implies (#[trigger] index.spec_terms()[id]).entry == entry.id by {
                            if id < before.len() {
                                assert(index.spec_terms()[id] == before[id]);
                            }
                        }
                        lemma_grouped_push(before, index.spec_terms(), entries@, start as int, e as int);
                        assert forall|i: int, a: int|
                            ((0 <= i < e && 0 <= a < entries@[i].fields@.len()) || (i == e && 0 <= a < f))
                                && indexable(#[trigger] entries@[i].fields@[a].text@) implies has_field_term(
                                index.spec_terms(),
                                entries@[i].id,
                                entries@[i].fields@[a].id,
                                entries@[i].fields@[a].role,
                                normalize(entries@[i].fields@[a].text@).chars,
                            ) by {
                            let chars = normalize(entries@[i].fields@[a].text@).chars;
                            let id = choose|id: int|
                                0 <= id < before.len() && #[trigger] before[id].chars@ == chars && before[id].entry == entries@[i].id
                                    && before[id].field == entries@[i].fields@[a].id && before[id].role == entries@[i].fields@[a].role && before[id].cost == 0;
                            assert(index.spec_terms()[id] == before[id]);
                        }
                        assert forall|x: int| 0 <= x < k + 1 implies #[trigger] index.spec_terms()[base + x].chars@ == terms.values@[x]@.chars
                                && index.spec_terms()[base + x].cost == terms.values@[x].cost
                                && index.spec_terms()[base + x].entry == entry.id
                                && index.spec_terms()[base + x].field == field.id
                                && index.spec_terms()[base + x].role == field.role by {
                            if x < k {
                                assert(index.spec_terms()[base + x] == before[base + x]);
                            }
                        }
                        terms.lemma_values();
                        let cur = terms.spec_values();
                        let fr = |v: TermView| field_record(entry.id, *field, v);
                        assert(cur[k as int] == terms.values@[k as int]@);
                        assert(record_of(index.spec_terms()[before.len() as int]) == fr(cur[k as int]));
                        assert(cur.take(k + 1).map_values(fr) =~= cur.take(k as int).map_values(fr).push(fr(cur[k as int])));
                        assert(index.spec_terms().map_values(|t: IndexedTerm| record_of(t)) =~= before.map_values(|t: IndexedTerm| record_of(t)).push(
                            record_of(index.spec_terms()[before.len() as int]),
                        ));
                    }
                    k = k + 1;
                }
                proof {
                    let cur = terms.spec_values();
                    assert(cur.take(count as int) =~= cur);
                    lemma_expected_push(fs, vals, (entry.id, *field), cur);
                    assert(entry.fields@.take(f + 1).map_values(|x: Field| (entry.id, x)) =~= entry.fields@.take(f as int).map_values(
                        |x: Field| (entry.id, x),
                    ).push((entry.id, *field)));
                    assert(fs.push((entry.id, *field)) =~= all_fields(entries@.take(e as int)) + entry.fields@.take(f + 1).map_values(
                        |x: Field| (entry.id, x),
                    ));
                    assert forall|g: int| 0 <= g < fs.len() + 1 implies field_terms(fs.push((entry.id, *field))[g].1.text@, #[trigger] vals.push(cur)[g]) by {
                        if g < fs.len() {
                            assert(vals.push(cur)[g] == vals[g]);
                        }
                    }
                    vals = vals.push(cur);
                }
                proof {
                    let n = normalize(text@);
                    if indexable(text@) {
                        let x = choose|x: int| 0 <= x < terms.spec_values().len() && #[trigger] terms.spec_values()[x].chars == n.chars && terms.spec_values()[x].cost == 0;
                        assert(terms.values@[x].text.wf());
                        assert(index.spec_terms()[base + x].chars@ == terms.values@[x]@.chars);
                        assert(index.spec_terms()[base + x].chars@ == n.chars);
                        assert(index.spec_terms()[base + x].cost == 0);
                        assert(has_field_term(index.spec_terms(), entry.id, field.id, field.role, n.chars));
                    }
                }
                f = f + 1;
            }
            proof {
                lemma_all_fields_step(entries@, e as int);
                assert(entry.fields@.take(f as int) =~= entry.fields@);
                lemma_term_capacity_prefix(entries@, e as int + 1);
                assert forall|id: int| 0 <= id < index.spec_terms().len() implies from_entry_before(entries@, #[trigger] index.spec_terms()[id], e + 1) by {
                    if id < start {
                        let p = choose|p: int| 0 <= p < e && #[trigger] entries@[p].id == index.spec_terms()[id].entry;
                    } else {
                        assert(entries@[e as int].id == index.spec_terms()[id].entry);
                    }
                }
            }
            e = e + 1;
        }
        assert(entries@.take(entries@.len() as int) =~= entries@);
        let ghost unweighted = index.terms@;
        compute_frequencies(&mut index.terms, &index.sorted_terms);
        proof {
            let n = unweighted.len();
            assert(index.terms@.map_values(|t: IndexedTerm| record_of(t)) =~= unweighted.map_values(|t: IndexedTerm| record_of(t))) by {
                assert forall|i: int| 0 <= i < n implies record_of(#[trigger] index.terms@[i]) == record_of(unweighted[i]) by {
                    assert(same_but_frequency(index.terms@[i], unweighted[i]));
                }
            }
            assert(fields_laid_out(index.spec_terms(), all_fields(entries@), vals));
            assert forall|i: int| 0 <= i < n implies (#[trigger] index.terms@[i]).wf() && index.terms@[i].chars@.len() > 0 by {
                assert(same_but_frequency(index.terms@[i], unweighted[i]));
            }
            assert forall|k: Seq<char>, id: u32| filed(index.sorted_terms@, k, id) implies index.terms@[id as int].chars@ == k by {
                assert(same_but_frequency(index.terms@[id as int], unweighted[id as int]));
            }
            assert forall|id: int| 0 <= id < n implies filed(index.sorted_terms@, index.terms@[id].chars@, id as u32) by {
                assert(same_but_frequency(index.terms@[id], unweighted[id]));
            }
            let cm = posting_map_view(index.characters);
            assert forall|k: u64, x: u32| #[trigger] posts(cm, k).contains(x) <==> x < n && has_char(index.terms@[x as int].chars@, k) by {
                if x < n {
                    assert(same_but_frequency(index.terms@[x as int], unweighted[x as int]));
                }
            }
            let nm = posting_map_view(index.near_pairs);
            assert forall|k: u64, x: u32|
                #[trigger] posts(nm, k).contains(x) <==> x < n && index.terms@[x as int].cost == 0 && has_near_pair(index.terms@[x as int].chars@, k) by {
                if x < n {
                    assert(same_but_frequency(index.terms@[x as int], unweighted[x as int]));
                }
            }
            let bm = posting_map_view(index.bigrams);
            assert forall|k: u64, x: u32|
                #[trigger] occurrences(posts(bm, k), x) == if x < n {
                    pair_count(index.terms@[x as int].chars@, k, index.terms@[x as int].chars@.len() as int)
                } else {
                    0
                } by {
                if x < n {
                    assert(same_but_frequency(index.terms@[x as int], unweighted[x as int]));
                }
            }
            let im = posting_map_view(index.token_initials);
            assert forall|k: u64, x: u32|
                #[trigger] posts(im, k).contains(x) <==> x < n && has_initial(
                    index.terms@[x as int].chars@,
                    token_starts_view(index.terms@[x as int].token_starts),
                    k,
                ) by {
                if x < n {
                    assert(same_but_frequency(index.terms@[x as int], unweighted[x as int]));
                }
            }
            assert forall|kk: Seq<char>, x: u32|
                #[trigger] filed(index.tokens@, kk, x) <==> x < n && index.terms@[x as int].cost == 0 && kept_tokens(
                    index.terms@[x as int].chars@,
                    token_starts_view(index.terms@[x as int].token_starts),
                    token_starts_view(index.terms@[x as int].token_starts).len() as int,
                ).contains(kk) by {
                if x < n {
                    assert(same_but_frequency(index.terms@[x as int], unweighted[x as int]));
                }
            }
            assert forall|id: int| 0 <= id < n implies from_some_field(entries@, #[trigger] index.spec_terms()[id]) by {
                assert(same_but_frequency(index.terms@[id], unweighted[id]));
                assert(from_some_field(entries@, unweighted[id]));
            }
            assert forall|i: int, x: int|
                0 <= i < index.sorted_terms@.len() && 0 <= x < index.sorted_terms@[i].ids@.len() implies
                    (#[trigger] index.terms@[index.sorted_terms@[i].ids@[x] as int]).frequency
                    == role_entries(index.terms@, index.sorted_terms@[i].ids@, index.terms@[index.sorted_terms@[i].ids@[x] as int].role).len() by {
                let ids = index.sorted_terms@[i].ids@;
                let role = index.terms@[ids[x] as int].role;
                lemma_role_count_same(unweighted, index.terms@, ids, role);
                assert(same_but_frequency(index.terms@[ids[x] as int], unweighted[ids[x] as int]));
                assert forall|a: int, b: int| 0 <= a < b < ids.len() implies ids[a] < ids[b] by {
                    assert(index.sorted_terms@[i].ids@[a] < index.sorted_terms@[i].ids@[b]);
                }
                lemma_grouped_same(unweighted, index.terms@);
                law_frequency_counts_entries(index.terms@, ids, role);
            }
            assert forall|i: int, j: int, k: int|
                0 <= i < j < k < n && #[trigger] index.terms@[i].entry == #[trigger] index.terms@[k].entry implies #[trigger] index.terms@[j].entry
                    == index.terms@[i].entry by {
                assert(same_but_frequency(index.terms@[i], unweighted[i]));
                assert(same_but_frequency(index.terms@[j], unweighted[j]));
                assert(same_but_frequency(index.terms@[k], unweighted[k]));
                assert(unweighted[i].entry == unweighted[k].entry);
            }
            assert forall|i: int, a: int|
                0 <= i < entries@.len() && 0 <= a < entries@[i].fields@.len() && indexable(
                    #[trigger] entries@[i].fields@[a].text@,
                ) implies has_field_term(
                    index.spec_terms(),
                    entries@[i].id,
                    entries@[i].fields@[a].id,
                    entries@[i].fields@[a].role,
                    normalize(entries@[i].fields@[a].text@).chars,
                ) by {
                let chars = normalize(entries@[i].fields@[a].text@).chars;
                assert(has_field_term(unweighted, entries@[i].id, entries@[i].fields@[a].id, entries@[i].fields@[a].role, chars));
                let id = choose|id: int|
                    0 <= id < unweighted.len() && #[trigger] unweighted[id].chars@ == chars && unweighted[id].entry == entries@[i].id
                        && unweighted[id].field == entries@[i].fields@[a].id && unweighted[id].role == entries@[i].fields@[a].role && unweighted[id].cost == 0;
                assert(same_but_frequency(index.terms@[id], unweighted[id]));
            }
            assert forall|i: int, x: int|
                0 <= i < index.sorted_terms@.len() && 0 <= x < index.sorted_terms@[i].ids@.len() implies
                    (#[trigger] index.terms@[index.sorted_terms@[i].ids@[x] as int]).frequency
                    == role_count(index.terms@, index.sorted_terms@[i].ids@, index.terms@[index.sorted_terms@[i].ids@[x] as int].role).1 by {
                let ids = index.sorted_terms@[i].ids@;
                lemma_role_count_same(unweighted, index.terms@, ids, index.terms@[ids[x] as int].role);
                assert(same_but_frequency(index.terms@[ids[x] as int], unweighted[ids[x] as int]));
            }
        }
        Some(index)
    }
}



/// The entries of the terms of `role` among `ids`.
pub open spec fn role_entries(terms: Seq<IndexedTerm>, ids: Seq<u32>, role: Role) -> Set<EntryId> {
    Set::new(
        |x: EntryId|
            exists|i: int| 0 <= i < ids.len() && terms[ids[i] as int].role == role && #[trigger] terms[ids[i] as int].entry == x,
    )
}

/// Whether position `b` of `ids` holds the last term of `role`.
pub open spec fn last_of_role(terms: Seq<IndexedTerm>, ids: Seq<u32>, role: Role, b: int) -> bool {
    &&& 0 <= b < ids.len()
    &&& terms[ids[b] as int].role == role
    &&& forall|c: int| b < c < ids.len() ==> #[trigger] terms[ids[c] as int].role != role
}

proof fn lemma_role_count_last(terms: Seq<IndexedTerm>, ids: Seq<u32>, role: Role)
    ensures
        role_count(terms, ids, role).0 matches Some(x) ==> exists|b: int|
            last_of_role(terms, ids, role, b) && #[trigger] terms[ids[b] as int].entry == x,
        role_count(terms, ids, role).0 is None ==> forall|c: int| 0 <= c < ids.len() ==> #[trigger] terms[ids[c] as int].role != role,
    decreases ids.len(),
{
    if ids.len() > 0 {
        let rest = ids.drop_last();
        lemma_role_count_last(terms, rest, role);
        let t = terms[ids.last() as int];
        let n = ids.len() - 1;
        assert(ids[n] == ids.last());
        if t.role == role {
            assert(last_of_role(terms, ids, role, n));
        } else {
            match role_count(terms, rest, role).0 {
                Some(x) => {
                    let b = choose|b: int| last_of_role(terms, rest, role, b) && #[trigger] terms[rest[b] as int].entry == x;
                    assert(rest[b] == ids[b]);
                    assert forall|c: int| b < c < ids.len() implies #[trigger] terms[ids[c] as int].role != role by {
                        if c < n {
                            assert(rest[c] == ids[c]);
                        }
                    }
                    assert(last_of_role(terms, ids, role, b));
                },
                None => {
                    assert forall|c: int| 0 <= c < ids.len() implies #[trigger] terms[ids[c] as int].role != role by {
                        if c < n {
                            assert(rest[c] == ids[c]);
                        }
                    }
                },
            }
        }
    }
}

/// Frequencies count entries: along increasing ids of terms kept grouped by
/// entry, the count of a role is the number of distinct entries of that role.
pub proof fn law_frequency_counts_entries(terms: Seq<IndexedTerm>, ids: Seq<u32>, role: Role)
    requires
        entries_grouped(terms),
        forall|i: int, j: int| 0 <= i < j < ids.len() ==> ids[i] < ids[j],
        forall|i: int| 0 <= i < ids.len() ==> ids[i] < terms.len(),
    ensures
        role_entries(terms, ids, role).finite(),
        role_count(terms, ids, role).1 == role_entries(terms, ids, role).len(),
    decreases ids.len(),
{
    let set = role_entries(terms, ids, role);
    if ids.len() == 0 {
        assert(set =~= Set::<EntryId>::empty());
    } else {
        let rest = ids.drop_last();
        let n = ids.len() - 1;
        law_frequency_counts_entries(terms, rest, role);
        lemma_role_count_last(terms, rest, role);
        let before = role_entries(terms, rest, role);
        let t = terms[ids.last() as int];
        assert(ids[n] == ids.last());
        if t.role != role {
            assert(set =~= before) by {
                assert forall|x: EntryId| set.contains(x) implies before.contains(x) by {
                    let i = choose|i: int| 0 <= i < ids.len() && terms[ids[i] as int].role == role && #[trigger] terms[ids[i] as int].entry == x;
                    assert(i < n);
                    assert(rest[i] == ids[i]);
                }
                assert forall|x: EntryId| before.contains(x) implies set.contains(x) by {
                    let i = choose|i: int| 0 <= i < rest.len() && terms[rest[i] as int].role == role && #[trigger] terms[rest[i] as int].entry == x;
                    assert(rest[i] == ids[i]);
                }
            }
        } else {
            assert(set =~= before.insert(t.entry)) by {
                assert forall|x: EntryId| set.contains(x) implies before.insert(t.entry).contains(x) by {
                    let i = choose|i: int| 0 <= i < ids.len() && terms[ids[i] as int].role == role && #[trigger] terms[ids[i] as int].entry == x;
                    if i < n {
                        assert(rest[i] == ids[i]);
                    }
                }
                assert forall|x: EntryId| before.insert(t.entry).contains(x) implies set.contains(x) by {
                    if x == t.entry {
                        assert(terms[ids[n] as int].entry == x);
                    } else {
                        let i = choose|i: int| 0 <= i < rest.len() && terms[rest[i] as int].role == role && #[trigger] terms[rest[i] as int].entry == x;
                        assert(rest[i] == ids[i]);
                    }
                }
            }
            match role_count(terms, rest, role).0 {
                Some(x) => {
                    let b = choose|b: int| last_of_role(terms, rest, role, b) && #[trigger] terms[rest[b] as int].entry == x;
                    if x == t.entry {
                        assert(before.contains(t.entry)) by {
                            assert(terms[rest[b] as int].entry == t.entry);
                        }
                    } else {
                        assert(!before.contains(t.entry)) by {
                            if before.contains(t.entry) {
                                let a = choose|a: int| 0 <= a < rest.len() && terms[rest[a] as int].role == role && #[trigger] terms[rest[a] as int].entry == t.entry;
                                assert(a <= b);
                                if a < b {
                                    assert(rest[a] == ids[a] && rest[b] == ids[b]);
                                    assert(ids[a] < ids[b] && ids[b] < ids[n]);
                                    assert(terms[ids[b] as int].entry == terms[ids[a] as int].entry);
                                }
                            }
                        }
                    }
                },
                None => {
                    assert(!before.contains(t.entry)) by {
                        if before.contains(t.entry) {
                            let a = choose|a: int| 0 <= a < rest.len() && terms[rest[a] as int].role == role && #[trigger] terms[rest[a] as int].entry == t.entry;
                        }
                    }
                },
            }
        }
    }
}


proof fn lemma_grouped_same(a: Seq<IndexedTerm>, b: Seq<IndexedTerm>)
    requires
        entries_grouped(a),
        a.len() == b.len(),
        forall|id: int| 0 <= id < a.len() ==> same_but_frequency(#[trigger] b[id], a[id]),
    ensures
        entries_grouped(b),
{
    assert forall|i: int, j: int, k: int|
        0 <= i < j < k < b.len() && #[trigger] b[i].entry == #[trigger] b[k].entry implies #[trigger] b[j].entry == b[i].entry by {
        assert(same_but_frequency(b[i], a[i]) && same_but_frequency(b[j], a[j]) && same_but_frequency(b[k], a[k]));
        assert(a[i].entry == a[k].entry);
    }
}

/// Adding a term of the current entry keeps the terms grouped by entry.
proof fn lemma_grouped_push(before: Seq<IndexedTerm>, after: Seq<IndexedTerm>, entries: Seq<Entry>, start: int, e: int)
    requires
        entries_grouped(before),
        ids_unique(entries),
        0 <= e < entries.len(),
        0 <= start <= before.len(),
        after.len() == before.len() + 1,
        forall|id: int| 0 <= id < before.len() ==> after[id] == before[id],
        forall|id: int| 0 <= id < start ==> from_entry_before(entries, #[trigger] before[id], e),
        forall|id: int| start <= id < after.len() ==> (#[trigger] after[id]).entry == entries[e].id,
    ensures
        entries_grouped(after),
{
    assert forall|i: int, j: int, k: int|
        0 <= i < j < k < after.len() && #[trigger] after[i].entry == #[trigger] after[k].entry implies #[trigger] after[j].entry
            == after[i].entry by {
        if k < before.len() {
            assert(after[i] == before[i] && after[j] == before[j] && after[k] == before[k]);
        } else if i >= start {
        } else {
            assert(after[i] == before[i]);
            let p = choose|p: int| 0 <= p < e && #[trigger] entries[p].id == before[i].entry;
            assert(entries[p].id != entries[e].id);
        }
    }
}

proof fn lemma_term_capacity_prefix(entries: Seq<Entry>, k: int)
    requires
        0 <= k <= entries.len(),
    ensures
        term_capacity(entries.take(k)) <= term_capacity(entries),
        k > 0 ==> term_capacity(entries.take(k)) == term_capacity(entries.take(k - 1)) + fields_capacity(
            entries[k - 1].fields@,
        ),
    decreases entries.len() - k,
{
    if k > 0 {
        assert(entries.take(k).drop_last() =~= entries.take(k - 1));
    }
    if k < entries.len() {
        lemma_term_capacity_prefix(entries, k + 1);
        assert(entries.take(k + 1).drop_last() =~= entries.take(k));
    } else {
        assert(entries.take(k) =~= entries);
    }
}

proof fn lemma_fields_capacity_prefix(fields: Seq<Field>, k: int)
    requires
        0 <= k <= fields.len(),
    ensures
        fields_capacity(fields.take(k)) <= fields_capacity(fields),
        k > 0 ==> fields_capacity(fields.take(k)) == fields_capacity(fields.take(k - 1)) + field_capacity(
            fields[k - 1],
        ),
    decreases fields.len() - k,
{
    if k > 0 {
        assert(fields.take(k).drop_last() =~= fields.take(k - 1));
    }
    if k < fields.len() {
        lemma_fields_capacity_prefix(fields, k + 1);
        assert(fields.take(k + 1).drop_last() =~= fields.take(k));
    } else {
        assert(fields.take(k) =~= fields);
    }
}

/// Whether two terms agree on everything but their frequency.
pub open spec fn same_but_frequency(a: IndexedTerm, b: IndexedTerm) -> bool {
    &&& a.entry == b.entry
    &&& a.field == b.field
    &&& a.role == b.role
    &&& a.chars == b.chars
    &&& a.token_starts == b.token_starts
    &&& a.cost == b.cost
}

pub open spec fn role_key(role: Role) -> u64 {
    role.spec_priority() as u64
}

proof fn lemma_role_key_injective(a: Role, b: Role)
    ensures
        role_key(a) == role_key(b) ==> a == b,
{
}

/// The per-role counters after `ids`: present exactly for roles counted.
pub open spec fn counters_match(
    terms: Seq<IndexedTerm>,
    ids: Seq<u32>,
    last: Map<u64, u64>,
    count: Map<u64, u64>,
) -> bool {
    forall|role: Role|
        {
            let (l, c) = #[trigger] role_count(terms, ids, role);
            &&& (l is Some <==> last.contains_key(role_key(role)))
            &&& (l matches Some(x) ==> last[role_key(role)] == x)
            &&& (c > 0 <==> count.contains_key(role_key(role)))
            &&& (c > 0 ==> count[role_key(role)] == c)
            &&& c <= ids.len()
        }
}

proof fn lemma_role_count_some(terms: Seq<IndexedTerm>, ids: Seq<u32>, role: Role)
    ensures
        (role_count(terms, ids, role).0 is Some) <==> role_count(terms, ids, role).1 > 0,
        role_count(terms, ids, role).1 <= ids.len(),
    decreases ids.len(),
{
    if ids.len() > 0 {
        lemma_role_count_some(terms, ids.drop_last(), role);
    }
}

proof fn lemma_role_count_counts_self(terms: Seq<IndexedTerm>, ids: Seq<u32>, j: int)
    requires
        0 <= j < ids.len(),
    ensures
        role_count(terms, ids, terms[ids[j] as int].role).1 > 0,
    decreases ids.len(),
{
    let role = terms[ids[j] as int].role;
    lemma_role_count_some(terms, ids, role);
    lemma_role_count_some(terms, ids.drop_last(), role);
    if j < ids.len() - 1 {
        lemma_role_count_counts_self(terms, ids.drop_last(), j);
    }
}

proof fn lemma_role_count_same(a: Seq<IndexedTerm>, b: Seq<IndexedTerm>, ids: Seq<u32>, role: Role)
    requires
        a.len() == b.len(),
        forall|id: int| 0 <= id < a.len() ==> same_but_frequency(#[trigger] a[id], b[id]),
        forall|i: int| 0 <= i < ids.len() ==> ids[i] < a.len(),
    ensures
        role_count(a, ids, role) == role_count(b, ids, role),
    decreases ids.len(),
{
    if ids.len() > 0 {
        lemma_role_count_same(a, b, ids.drop_last(), role);
        assert(same_but_frequency(a[ids.last() as int], b[ids.last() as int]));
    }
}

proof fn lemma_increasing_len(s: Seq<u32>, n: nat)
    requires
        forall|i: int, j: int| 0 <= i < j < s.len() ==> s[i] < s[j],
        forall|i: int| 0 <= i < s.len() ==> s[i] < n,
    ensures
        s.len() <= n,
    decreases s.len(),
{
    if s.len() > 0 {
        let t = s.drop_last();
        assert forall|i: int| 0 <= i < t.len() implies t[i] < s.last() by {
            assert(t[i] == s[i]);
        }
        lemma_increasing_len(t, s.last() as nat);
    }
}

/// Sets each term's frequency: the number of entries of its role among the
/// terms filed under its characters, counted as entry changes along their ids.
fn compute_frequencies(terms: &mut Vec<IndexedTerm>, list: &Vec<KeyPostings>)
    requires
        old(terms)@.len() <= u32::MAX,
        key_list_ok(list@, old(terms)@.len(), true),
        forall|k: Seq<char>, id: u32| filed(list@, k, id) ==> old(terms)@[id as int].chars@ == k,
    ensures
        final(terms)@.len() == old(terms)@.len(),
        forall|id: int|
            0 <= id < old(terms)@.len() ==> same_but_frequency(
                #[trigger] final(terms)@[id],
                old(terms)@[id],
            ),
        forall|i: int, x: int|
            0 <= i < list@.len() && 0 <= x < list@[i].ids@.len() ==> (#[trigger] final(terms)@[list@[i].ids@[x] as int]).frequency
                == role_count(old(terms)@, list@[i].ids@, old(terms)@[list@[i].ids@[x] as int].role).1,
{
    let ghost original = terms@;
    let ghost n = original.len();
    let mut l: usize = 0;
    while l < list.len()
        invariant
            l <= list@.len(),
            terms@.len() == n,
            n == original.len(),
            n <= u32::MAX,
            key_list_ok(list@, n, true),
            forall|k: Seq<char>, id: u32| filed(list@, k, id) ==> original[id as int].chars@ == k,
            forall|id: int| 0 <= id < n ==> same_but_frequency(#[trigger] terms@[id], original[id]),
            forall|i: int, j: int|
                0 <= i < l && 0 <= j < list@[i].ids@.len() ==> (#[trigger] terms@[list@[i].ids@[j] as int]).frequency
                    == role_count(original, list@[i].ids@, original[list@[i].ids@[j] as int].role).1,
        decreases list@.len() - l,
    {
        let ids = &list[l].ids;
        let mut last = id_map_new();
        let mut count = id_map_new();
        let mut j: usize = 0;
        while j < ids.len()
            invariant
                l < list@.len(),
                *ids == list@[l as int].ids,
                j <= ids@.len(),
                terms@.len() == n,
                n <= u32::MAX,
                key_list_ok(list@, n, true),
                forall|id: int| 0 <= id < n ==> same_but_frequency(#[trigger] terms@[id], original[id]),
                counters_match(original, ids@.take(j as int), id_map_view(last), id_map_view(count)),
            decreases ids@.len() - j,
        {
            let id = ids[j];
            assert(list@[l as int].ids@[j as int] < n);
            let term = &terms[id as usize];
            let key = term.role.priority() as u64;
            let entry = term.entry;
            let previous = id_map_get(&last, key);
            let counted = id_map_get(&count, key);
            let ghost prefix = ids@.take(j as int);
            let ghost next_prefix = ids@.take(j + 1);
            proof {
                assert(next_prefix.drop_last() =~= prefix);
                assert(next_prefix.last() == id);
                assert(same_but_frequency(terms@[id as int], original[id as int]));
            }
            if previous != Some(entry) {
                id_map_insert(&mut last, key, entry);
                let c = match counted {
                    Some(c) => c,
                    None => 0,
                };
                proof {
                    let (pl, pc) = role_count(original, prefix, term.role);
                    assert(pc <= prefix.len());
                }
                id_map_insert(&mut count, key, c + 1);
            }
            proof {
                assert forall|role: Role| {
                    let (pl, pc) = #[trigger] role_count(original, next_prefix, role);
                    &&& (pl is Some <==> id_map_view(last).contains_key(role_key(role)))
                    &&& (pl matches Some(x) ==> id_map_view(last)[role_key(role)] == x)
                    &&& (pc > 0 <==> id_map_view(count).contains_key(role_key(role)))
                    &&& (pc > 0 ==> id_map_view(count)[role_key(role)] == pc)
                    &&& pc <= next_prefix.len()
                } by {
                    lemma_role_key_injective(role, term.role);
                    let _ = role_count(original, prefix, role);
                }
            }
            j = j + 1;
        }
        proof {
            assert(ids@.take(ids@.len() as int) =~= ids@);
        }
        let ghost counters = id_map_view(count);
        let mut j: usize = 0;
        while j < ids.len()
            invariant
                l < list@.len(),
                *ids == list@[l as int].ids,
                j <= ids@.len(),
                terms@.len() == n,
                n <= u32::MAX,
                key_list_ok(list@, n, true),
                forall|k: Seq<char>, id: u32| filed(list@, k, id) ==> original[id as int].chars@ == k,
                counters == id_map_view(count),
                counters_match(original, ids@, id_map_view(last), counters),
                forall|id: int| 0 <= id < n ==> same_but_frequency(#[trigger] terms@[id], original[id]),
                forall|i: int, x: int|
                    0 <= i < l && 0 <= x < list@[i].ids@.len() ==> (#[trigger] terms@[list@[i].ids@[x] as int]).frequency
                        == role_count(original, list@[i].ids@, original[list@[i].ids@[x] as int].role).1,
                forall|x: int|
                    0 <= x < j ==> (#[trigger] terms@[list@[l as int].ids@[x] as int]).frequency
                        == role_count(original, ids@, original[list@[l as int].ids@[x] as int].role).1,
            decreases ids@.len() - j,
        {
            let id = ids[j] as usize;
            assert(list@[l as int].ids@[j as int] < n);
            let key = terms[id].role.priority() as u64;
            let frequency = match id_map_get(&count, key) {
                Some(c) => c as u32,
                None => 0,
            };
            proof {
                lemma_role_count_counts_self(original, ids@, j as int);
                assert(same_but_frequency(terms@[id as int], original[id as int]));
                let _ = role_count(original, ids@, original[id as int].role);
            }
            let ghost before = terms@;
            terms[id].frequency = frequency;
            proof {
                assert forall|x: int| 0 <= x < n implies same_but_frequency(#[trigger] terms@[x], original[x]) by {
                    if x != id {
                        assert(terms@[x] == before[x]);
                    }
                }
                assert forall|i: int, x: int|
                    0 <= i < l && 0 <= x < list@[i].ids@.len() implies (#[trigger] terms@[list@[i].ids@[x] as int]).frequency
                        == role_count(original, list@[i].ids@, original[list@[i].ids@[x] as int].role).1 by {
                    if list@[i].ids@[x] == id {
                        assert(filed(list@, list@[i].key@, list@[i].ids@[x]));
                        assert(filed(list@, list@[l as int].key@, list@[l as int].ids@[j as int]));
                        assert(list@[i].key@ != list@[l as int].key@);
                    } else {
                        assert(terms@[list@[i].ids@[x] as int] == before[list@[i].ids@[x] as int]);
                    }
                }
                assert forall|x: int| 0 <= x < j + 1 implies (#[trigger] terms@[list@[l as int].ids@[x] as int]).frequency
                        == role_count(original, ids@, original[list@[l as int].ids@[x] as int].role).1 by {
                    if x < j {
                        assert(list@[l as int].ids@[x] < list@[l as int].ids@[j as int]);
                        assert(terms@[list@[l as int].ids@[x] as int] == before[list@[l as int].ids@[x] as int]);
                    } else {
                        let role = original[id as int].role;
                        assert(role_key(role) == key);
                        let c = role_count(original, ids@, role).1;
                        assert(c > 0);
                        assert(counters[key] == c);
                        assert(c <= n) by {
                            lemma_increasing_len(ids@, n);
                            lemma_role_count_some(original, ids@, role);
                        }
                        assert(frequency == c);
                    }
                }
            }
            j = j + 1;
        }
        l = l + 1;
    }
}


/// Whether `key` is one of the keys of `list`.
pub open spec fn has_key(list: Seq<KeyPostings>, key: Seq<char>) -> bool {
    exists|i: int| 0 <= i < list.len() && #[trigger] list[i].key@ == key
}

/// The matching keys of the term and token dictionaries.
pub open spec fn vocabulary_set(index: Index) -> Set<Seq<char>> {
    Set::new(|w: Seq<char>| has_key(index.spec_sorted_terms(), w) || has_key(index.spec_tokens(), w))
}

/// Whether one of `words` spells `key`.
pub open spec fn lists_word(words: Seq<&str>, key: Seq<char>) -> bool {
    exists|a: int| 0 <= a < words.len() && #[trigger] words[a]@ == key
}

/// Strict text order.
pub open spec fn text_lt(a: Seq<char>, b: Seq<char>) -> bool {
    text_le(a, b) && a != b
}

proof fn lemma_text_lt_trans(a: Seq<char>, b: Seq<char>, c: Seq<char>)
    requires
        text_le(a, b),
        text_le(b, c),
        a != b || b != c,
    ensures
        text_lt(a, c),
{
    lemma_text_order_transitive(a, b, c);
    if a == c {
        lemma_text_order_antisymmetric(a, b);
    }
}

impl Index {
    /// Distinct matching keys of the terms and tokens retained in the index,
    /// in increasing text order.
    pub fn vocabulary(&self) -> (words: Vec<&str>)
        requires
            self.wf(),
        ensures
            forall|a: int, b: int|
                0 <= a < b < words@.len() ==> text_lt(#[trigger] words@[a]@, #[trigger] words@[b]@),
            forall|a: int|
                0 <= a < words@.len() ==> has_key(self.spec_sorted_terms(), #[trigger] words@[a]@)
                    || has_key(self.spec_tokens(), words@[a]@),
            forall|a: int| 0 <= a < words@.len() ==> (#[trigger] words@[a])@.len() <= usize::MAX / 8,
            forall|i: int|
                0 <= i < self.spec_sorted_terms().len() ==> lists_word(words@, #[trigger] self.spec_sorted_terms()[i].key@),
            forall|i: int|
                0 <= i < self.spec_tokens().len() ==> lists_word(words@, #[trigger] self.spec_tokens()[i].key@),
            words@.len() == vocabulary_set(*self).len(),
    {
        let first = &self.sorted_terms;
        let second = &self.tokens;
        let ghost n = self.terms@.len();
        let mut words: Vec<&str> = Vec::new();
        let mut i: usize = 0;
        let mut j: usize = 0;
        while i < first.len() || j < second.len()
            invariant
                i <= first@.len(),
                j <= second@.len(),
                key_list_ok(first@, n, true),
                key_list_ok(second@, n, false),
                forall|a: int, b: int|
                    0 <= a < b < words@.len() ==> text_lt(#[trigger] words@[a]@, #[trigger] words@[b]@),
                forall|a: int, k: int|
                    0 <= a < words@.len() && i <= k < first@.len() ==> text_lt(#[trigger] words@[a]@, #[trigger] first@[k].key@),
                forall|a: int, k: int|
                    0 <= a < words@.len() && j <= k < second@.len() ==> text_lt(#[trigger] words@[a]@, #[trigger] second@[k].key@),
                forall|a: int|
                    0 <= a < words@.len() ==> has_key(first@, #[trigger] words@[a]@) || has_key(second@, words@[a]@),
                forall|k: int| 0 <= k < i ==> lists_word(words@, #[trigger] first@[k].key@),
                forall|k: int| 0 <= k < j ==> lists_word(words@, #[trigger] second@[k].key@),
            decreases first@.len() + second@.len() - i - j,
        {
            let take_first = if i == first.len() {
                false
            } else if j == second.len() {
                true
            } else {
                text_le_exec(first[i].key.as_slice(), second[j].key.as_slice())
            };
            let ghost before = words@;
            if take_first {
                let both = j < second.len() && chars_equal(first[i].key.as_slice(), second[j].key.as_slice());
                let word = first[i].text.as_str();
                words.push(word);
                proof {
                    let w = first@[i as int].key@;
                    assert(words@[before.len() as int]@ == w);
                    assert forall|k: int| i < k < first@.len() implies text_lt(w, #[trigger] first@[k].key@) by {
                        assert(text_le(first@[i as int].key@, first@[k].key@));
                    }
                    assert forall|k: int| (if both { j + 1 } else { j as int }) <= k < second@.len() implies text_lt(w, #[trigger] second@[k].key@) by {
                        if j < k {
                            assert(text_le(second@[j as int].key@, second@[k].key@) && second@[j as int].key@ != second@[k].key@);
                            lemma_text_lt_trans(w, second@[j as int].key@, second@[k].key@);
                        }
                    }
                    assert forall|a: int, b: int| 0 <= a < b < words@.len() implies text_lt(#[trigger] words@[a]@, #[trigger] words@[b]@) by {
                        if b == before.len() {
                            assert(words@[a] == before[a]);
                        }
                    }
                    assert(has_key(first@, words@[before.len() as int]@));
                    assert forall|a: int| 0 <= a < words@.len() implies has_key(first@, #[trigger] words@[a]@) || has_key(second@, words@[a]@) by {
                        if a < before.len() {
                            assert(words@[a] == before[a]);
                        }
                    }
                    assert forall|k: int| 0 <= k < i + 1 implies lists_word(words@, #[trigger] first@[k].key@) by {
                        if k < i {
                            let a = choose|a: int| 0 <= a < before.len() && #[trigger] before[a]@ == first@[k].key@;
                            assert(lists_word(before, first@[k].key@));
                            assert(words@[a] == before[a]);
                        } else {
                            assert(words@[before.len() as int]@ == first@[k].key@);
                        }
                    }
                    assert forall|k: int| 0 <= k < (if both { j + 1 } else { j as int }) implies lists_word(words@, #[trigger] second@[k].key@) by {
                        if k < j {
                            let a = choose|a: int| 0 <= a < before.len() && #[trigger] before[a]@ == second@[k].key@;
                            assert(words@[a] == before[a]);
                        } else {
                            assert(words@[before.len() as int]@ == second@[k].key@);
                        }
                    }
                }
                i = i + 1;
                if both {
                    j = j + 1;
                }
            } else {
                let word = second[j].text.as_str();
                words.push(word);
                proof {
                    let w = second@[j as int].key@;
                    assert(words@[before.len() as int]@ == w);
                    assert forall|k: int| j < k < second@.len() implies text_lt(w, #[trigger] second@[k].key@) by {
                        assert(text_le(second@[j as int].key@, second@[k].key@));
                    }
                    assert forall|k: int| i <= k < first@.len() implies text_lt(w, #[trigger] first@[k].key@) by {
                        lemma_text_order_total(first@[i as int].key@, w);
                        if i < k {
                            assert(text_le(first@[i as int].key@, first@[k].key@) && first@[i as int].key@ != first@[k].key@);
                            lemma_text_lt_trans(w, first@[i as int].key@, first@[k].key@);
                        } else if w == first@[k].key@ {
                            lemma_text_order_total(w, w);
                        }
                    }
                    assert forall|a: int, b: int| 0 <= a < b < words@.len() implies text_lt(#[trigger] words@[a]@, #[trigger] words@[b]@) by {
                        if b == before.len() {
                            assert(words@[a] == before[a]);
                        }
                    }
                    assert(has_key(second@, words@[before.len() as int]@));
                    assert forall|a: int| 0 <= a < words@.len() implies has_key(first@, #[trigger] words@[a]@) || has_key(second@, words@[a]@) by {
                        if a < before.len() {
                            assert(words@[a] == before[a]);
                        }
                    }
                    assert forall|k: int| 0 <= k < i implies lists_word(words@, #[trigger] first@[k].key@) by {
                        let a = choose|a: int| 0 <= a < before.len() && #[trigger] before[a]@ == first@[k].key@;
                            assert(lists_word(before, first@[k].key@));
                        assert(words@[a] == before[a]);
                    }
                    assert forall|k: int| 0 <= k < j + 1 implies lists_word(words@, #[trigger] second@[k].key@) by {
                        if k < j {
                            let a = choose|a: int| 0 <= a < before.len() && #[trigger] before[a]@ == second@[k].key@;
                            assert(words@[a] == before[a]);
                        } else {
                            assert(words@[before.len() as int]@ == second@[k].key@);
                        }
                    }
                }
                j = j + 1;
            }
        }
        proof {
            assert forall|k: int|
                0 <= k < self.spec_sorted_terms().len() implies lists_word(words@, #[trigger] self.spec_sorted_terms()[k].key@) by {
                assert(first@[k] == self.spec_sorted_terms()[k]);
            }
            assert forall|k: int|
                0 <= k < self.spec_tokens().len() implies lists_word(words@, #[trigger] self.spec_tokens()[k].key@) by {
                assert(second@[k] == self.spec_tokens()[k]);
            }
            assert forall|a: int| 0 <= a < words@.len() implies (#[trigger] words@[a])@.len() <= usize::MAX / 8 by {
                let w = words@[a]@;
                if has_key(first@, w) {
                    let i = choose|i: int| 0 <= i < first@.len() && #[trigger] first@[i].key@ == w;
                    let id = first@[i].ids@[0];
                    assert(filed(first@, w, id));
                    assert(id < n);
                    assert(self.terms@[id as int].wf());
                } else {
                    let i = choose|i: int| 0 <= i < second@.len() && #[trigger] second@[i].key@ == w;
                    assert(second@[i].key@.len() <= 4096);
                }
            }
            let ws = words@.map_values(|w: &str| w@);
            assert(ws.no_duplicates()) by {
                assert forall|a: int, b: int| 0 <= a < ws.len() && 0 <= b < ws.len() && a != b implies ws[a] != ws[b] by {
                    if a < b {
                        assert(text_lt(words@[a]@, words@[b]@));
                    } else {
                        assert(text_lt(words@[b]@, words@[a]@));
                    }
                }
            }
            ws.unique_seq_to_set();
            assert(ws.to_set() =~= vocabulary_set(*self)) by {
                assert forall|w: Seq<char>| ws.to_set().contains(w) implies vocabulary_set(*self).contains(w) by {
                    let a = choose|a: int| 0 <= a < ws.len() && ws[a] == w;
                    assert(words@[a]@ == w);
                }
                assert forall|w: Seq<char>| vocabulary_set(*self).contains(w) implies ws.to_set().contains(w) by {
                    if has_key(self.spec_sorted_terms(), w) {
                        let i = choose|i: int| 0 <= i < self.spec_sorted_terms().len() && #[trigger] self.spec_sorted_terms()[i].key@ == w;
                        assert(lists_word(words@, self.spec_sorted_terms()[i].key@));
                    } else {
                        let i = choose|i: int| 0 <= i < self.spec_tokens().len() && #[trigger] self.spec_tokens()[i].key@ == w;
                        assert(lists_word(words@, self.spec_tokens()[i].key@));
                    }
                    let a = choose|a: int| 0 <= a < words@.len() && #[trigger] words@[a]@ == w;
                    assert(ws[a] == w);
                }
            }
        }
        words
    }
}

} // verus!
