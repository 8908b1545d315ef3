//! The searcher: retrieval, ranking and correction of a query, best match
//! per entry.
use vstd::prelude::*;
use crate::config::Config;
use crate::correction::{fits_symbols, unique_best, vocabulary_words, CorrectionIndex};
use crate::index::{term_capacity, has_key, ids_unique, indexes, primary_limit, retrieved, token_matches, token_of, token_ok, vocabulary_set, Candidate, Index, IndexedTerm, TokenMatch};
use crate::matching::{candidate_rank, rank_lt, Rank};
use crate::model::{Entry, EntryId, FieldId};
use crate::outside::{id_map_get, id_map_insert, id_map_new, id_map_view};
use crate::terms::Term;
use crate::text::{normalize, NormalizedText};
use rapidhash::RapidHashMap;

verus! {

/// A matching entry and the field that matched it best.
#[derive(Clone, Copy, Debug, PartialEq, Eq, Structural)]
pub struct SearchResult {
    pub entry: EntryId,
    pub field: FieldId,
}

/// A ranked match.
pub type Ranked = (Rank, SearchResult);

/// Adds a match: it becomes its entry's match when the entry has none yet
/// or a worse one.
pub open spec fn offer(slots: Seq<Ranked>, ranked: Ranked) -> Seq<Ranked> {
    if exists|i: int| 0 <= i < slots.len() && #[trigger] slots[i].1.entry == ranked.1.entry {
        let i = choose|i: int| 0 <= i < slots.len() && #[trigger] slots[i].1.entry == ranked.1.entry;
        if rank_lt(ranked.0, slots[i].0) {
            slots.update(i, ranked)
        } else {
            slots
        }
    } else {
        slots.push(ranked)
    }
}

/// Offers the accepted matches in order.
pub open spec fn offer_all(slots: Seq<Ranked>, offers: Seq<Option<Ranked>>) -> Seq<Ranked>
    decreases offers.len(),
{
    if offers.len() == 0 {
        slots
    } else {
        let before = offer_all(slots, offers.drop_last());
        match offers.last() {
            Some(ranked) => offer(before, ranked),
            None => before,
        }
    }
}

/// One match per entry, each rank naming its entry.
pub open spec fn slots_ok(slots: Seq<Ranked>) -> bool {
    &&& forall|i: int| 0 <= i < slots.len() ==> (#[trigger] slots[i]).0.stable_id == slots[i].1.entry
    &&& forall|i: int, j: int| 0 <= i < j < slots.len() ==> (#[trigger] slots[i]).1.entry != (#[trigger] slots[j]).1.entry
}

/// The best match found so far for each entry, with the position of each
/// entry's match.
struct Best {
    slots: Vec<Ranked>,
    by_entry: RapidHashMap<u64, u64>,
}

impl Best {
    spec fn wf(&self) -> bool {
        let m = id_map_view(self.by_entry);
        &&& slots_ok(self.slots@)
        &&& forall|e: u64| #[trigger] m.contains_key(e) <==> exists|i: int| 0 <= i < self.slots@.len() && #[trigger] self.slots@[i].1.entry == e
        &&& forall|e: u64| #[trigger] m.contains_key(e) ==> m[e] < self.slots@.len() && self.slots@[m[e] as int].1.entry == e
    }

    fn new() -> (best: Self)
        ensures
            best.wf(),
            best.slots@ == Seq::<Ranked>::empty(),
    {
        Best { slots: Vec::new(), by_entry: id_map_new() }
    }

    /// Offers one accepted match.
    fn offer(&mut self, rank: Rank, result: SearchResult)
        requires
            old(self).wf(),
            rank.stable_id == result.entry,
        ensures
            final(self).wf(),
            final(self).slots@ == offer(old(self).slots@, (rank, result)),
    {
        let ghost slots = self.slots@;
        let count = self.slots.len();
        match id_map_get(&self.by_entry, result.entry) {
            Some(position) => {
                proof {
                    assert(id_map_view(self.by_entry).contains_key(result.entry));
                    assert(position < self.slots@.len());
                }
                let i = position as usize;
                proof {
                    assert(i as int == position as int);
                    assert(slots[position as int].1.entry == result.entry);
                    assert(slots[i as int].1.entry == result.entry);
                    assert forall|j: int| 0 <= j < slots.len() && #[trigger] slots[j].1.entry == result.entry implies j == i by {
                        if j < i {
                            assert(slots[j].1.entry != slots[i as int].1.entry);
                        } else if j > i {
                            assert(slots[i as int].1.entry != slots[j].1.entry);
                        }
                    }
                }
                if rank.lt(&self.slots[i].0) {
                    self.slots.set(i, (rank, result));
                    proof {
                        assert forall|i2: int, j: int| 0 <= i2 < j < self.slots@.len() implies (#[trigger] self.slots@[i2]).1.entry != (#[trigger] self.slots@[j]).1.entry by {
                            assert(slots[i2].1.entry != slots[j].1.entry);
                        }
                        assert forall|e: u64| #[trigger] id_map_view(self.by_entry).contains_key(e) <==> exists|k: int| 0 <= k < self.slots@.len() && #[trigger] self.slots@[k].1.entry == e by {
                            if exists|k: int| 0 <= k < slots.len() && #[trigger] slots[k].1.entry == e {
                                let k = choose|k: int| 0 <= k < slots.len() && #[trigger] slots[k].1.entry == e;
                                assert(self.slots@[k].1.entry == e);
                            }
                            if exists|k: int| 0 <= k < self.slots@.len() && #[trigger] self.slots@[k].1.entry == e {
                                let k = choose|k: int| 0 <= k < self.slots@.len() && #[trigger] self.slots@[k].1.entry == e;
                                assert(slots[k].1.entry == e);
                            }
                        }
                    }
                }
            },
            None => {
                let ghost before = self.slots@;
                id_map_insert(&mut self.by_entry, result.entry, self.slots.len() as u64);
                self.slots.push((rank, result));
                proof {
                    assert(!exists|j: int| 0 <= j < slots.len() && #[trigger] slots[j].1.entry == result.entry);
                    assert forall|i2: int, j: int| 0 <= i2 < j < self.slots@.len() implies (#[trigger] self.slots@[i2]).1.entry != (#[trigger] self.slots@[j]).1.entry by {
                        if j == slots.len() {
                            assert(self.slots@[i2] == slots[i2]);
                        } else {
                            assert(self.slots@[i2] == slots[i2] && self.slots@[j] == slots[j]);
                        }
                    }
                    assert forall|e: u64| #[trigger] id_map_view(self.by_entry).contains_key(e) <==> exists|k: int| 0 <= k < self.slots@.len() && #[trigger] self.slots@[k].1.entry == e by {
                        if exists|k: int| 0 <= k < slots.len() && #[trigger] slots[k].1.entry == e {
                            let k = choose|k: int| 0 <= k < slots.len() && #[trigger] slots[k].1.entry == e;
                            assert(self.slots@[k].1.entry == e);
                        }
                        if exists|k: int| 0 <= k < self.slots@.len() && #[trigger] self.slots@[k].1.entry == e {
                            let k = choose|k: int| 0 <= k < self.slots@.len() && #[trigger] self.slots@[k].1.entry == e;
                            if k < slots.len() {
                                assert(slots[k].1.entry == e);
                            }
                        }
                        if e == result.entry {
                            assert(self.slots@[slots.len() as int].1.entry == e);
                        }
                    }
                    assert forall|e: u64| #[trigger] id_map_view(self.by_entry).contains_key(e) implies id_map_view(self.by_entry)[e] < self.slots@.len()
                        && self.slots@[id_map_view(self.by_entry)[e] as int].1.entry == e by {
                        if e != result.entry {
                            let p = id_map_view(self.by_entry)[e];
                            assert(self.slots@[p as int] == slots[p as int]);
                        }
                    }
                }
            },
        }
    }

}


/// Ranks are strictly ordered: no rank precedes itself, the order is
/// transitive and asymmetric, and of two ranks of different entries one
/// precedes the other.
pub proof fn lemma_rank_order(a: Rank, b: Rank, c: Rank)
    ensures
        !rank_lt(a, a),
        a.stable_id != b.stable_id ==> rank_lt(a, b) || rank_lt(b, a),
        rank_lt(a, b) && rank_lt(b, c) ==> rank_lt(a, c),
        rank_lt(a, b) ==> !rank_lt(b, a),
{
}

/// Whether `chosen` are the `limit` best matches of `slots`, best first.
pub open spec fn is_top(slots: Seq<Ranked>, limit: nat, chosen: Seq<Ranked>) -> bool {
    &&& chosen.len() == if limit < slots.len() {
        limit
    } else {
        slots.len()
    }
    &&& forall|i: int, j: int| 0 <= i < j < chosen.len() ==> rank_lt((#[trigger] chosen[i]).0, (#[trigger] chosen[j]).0)
    &&& forall|i: int| 0 <= i < chosen.len() ==> slots.contains(#[trigger] chosen[i])
    &&& forall|k: int, i: int|
        0 <= k < slots.len() && !chosen.contains(slots[k]) && 0 <= i < chosen.len() ==> rank_lt(
            (#[trigger] chosen[i]).0,
            (#[trigger] slots[k]).0,
        )
}

/// The `limit` best matches, best first.
fn top(slots: Vec<Ranked>, limit: usize) -> (chosen: Vec<Ranked>)
    requires
        slots_ok(slots@),
    ensures
        is_top(slots@, limit as nat, chosen@),
{
    let ghost original = slots@;
    let mut rest = slots;
    let mut chosen: Vec<Ranked> = Vec::new();
    while chosen.len() < limit && rest.len() > 0
        invariant
            chosen@.len() + rest@.len() == original.len(),
            chosen@.len() <= limit,
            slots_ok(original),
            forall|i: int| 0 <= i < rest@.len() ==> (#[trigger] rest@[i]).0.stable_id == rest@[i].1.entry,
            forall|i: int, j: int| 0 <= i < j < rest@.len() ==> (#[trigger] rest@[i]).1.entry != (#[trigger] rest@[j]).1.entry,
            forall|x: Ranked| original.contains(x) <==> (chosen@.contains(x) || rest@.contains(x)),
            forall|x: Ranked| !(chosen@.contains(x) && rest@.contains(x)),
            forall|i: int, j: int| 0 <= i < j < chosen@.len() ==> rank_lt((#[trigger] chosen@[i]).0, (#[trigger] chosen@[j]).0),
            forall|i: int, k: int|
                0 <= i < chosen@.len() && 0 <= k < rest@.len() ==> rank_lt((#[trigger] chosen@[i]).0, (#[trigger] rest@[k]).0),
        decreases rest@.len(),
    {
        let mut best: usize = 0;
        let mut i: usize = 1;
        while i < rest.len()
            invariant
                0 <= best < rest@.len(),
                best < i <= rest@.len(),
                forall|x: int| 0 <= x < rest@.len() ==> (#[trigger] rest@[x]).0.stable_id == rest@[x].1.entry,
                forall|x: int, y: int| 0 <= x < y < rest@.len() ==> (#[trigger] rest@[x]).1.entry != (#[trigger] rest@[y]).1.entry,
                forall|x: int| 0 <= x < i && x != best ==> rank_lt(rest@[best as int].0, (#[trigger] rest@[x]).0),
            decreases rest@.len() - i,
        {
            if rest[i].0.lt(&rest[best].0) {
                proof {
                    assert forall|x: int| 0 <= x < i + 1 && x != i implies rank_lt(rest@[i as int].0, (#[trigger] rest@[x]).0) by {
                        lemma_rank_order(rest@[i as int].0, rest@[best as int].0, rest@[x].0);
                    }
                }
                best = i;
            } else {
                proof {
                    lemma_rank_order(rest@[best as int].0, rest@[i as int].0, rest@[best as int].0);
                    if best < i {
                        assert(rest@[best as int].1.entry != rest@[i as int].1.entry);
                    }
                }
            }
            i = i + 1;
        }
        let ghost before_chosen = chosen@;
        let ghost before_rest = rest@;
        let item = rest.remove(best);
        chosen.push(item);
        proof {
            assert forall|x: Ranked| original.contains(x) <==> (chosen@.contains(x) || rest@.contains(x)) by {
                assert(original.contains(x) <==> (before_chosen.contains(x) || before_rest.contains(x)));
                if before_chosen.contains(x) {
                    let k = choose|k: int| 0 <= k < before_chosen.len() && before_chosen[k] == x;
                    assert(chosen@[k] == x);
                }
                if before_rest.contains(x) {
                    let k = choose|k: int| 0 <= k < before_rest.len() && before_rest[k] == x;
                    if k < best {
                        assert(rest@[k] == x);
                    } else if k > best {
                        assert(rest@[k - 1] == x);
                    } else {
                        assert(chosen@[chosen@.len() - 1] == x);
                    }
                }
                if chosen@.contains(x) {
                    let k = choose|k: int| 0 <= k < chosen@.len() && chosen@[k] == x;
                    if k < before_chosen.len() {
                        assert(before_chosen[k] == x);
                    } else {
                        assert(before_rest[best as int] == x);
                    }
                }
                if rest@.contains(x) {
                    let k = choose|k: int| 0 <= k < rest@.len() && rest@[k] == x;
                    if k < best {
                        assert(before_rest[k] == x);
                    } else {
                        assert(before_rest[k + 1] == x);
                    }
                }
            }
            assert forall|x: Ranked| !(chosen@.contains(x) && rest@.contains(x)) by {
                if chosen@.contains(x) && rest@.contains(x) {
                    let k = choose|k: int| 0 <= k < rest@.len() && rest@[k] == x;
                    let r = if k < best { k } else { k + 1 };
                    assert(before_rest[r] == x);
                    let a = choose|a: int| 0 <= a < chosen@.len() && chosen@[a] == x;
                    if a < before_chosen.len() {
                        assert(before_chosen[a] == x);
                        assert(before_chosen.contains(x) && before_rest.contains(x));
                    } else {
                        assert(before_rest[best as int] == x);
                        assert(before_rest[r].1.entry == before_rest[best as int].1.entry);
                    }
                }
            }
            assert forall|a: int, b: int| 0 <= a < b < chosen@.len() implies rank_lt((#[trigger] chosen@[a]).0, (#[trigger] chosen@[b]).0) by {
                if b == before_chosen.len() {
                    assert(chosen@[a] == before_chosen[a]);
                    assert(rank_lt(before_chosen[a].0, before_rest[best as int].0));
                } else {
                    assert(chosen@[a] == before_chosen[a] && chosen@[b] == before_chosen[b]);
                }
            }
            assert forall|a: int, k: int|
                0 <= a < chosen@.len() && 0 <= k < rest@.len() implies rank_lt((#[trigger] chosen@[a]).0, (#[trigger] rest@[k]).0) by {
                let r = if k < best { k } else { k + 1 };
                assert(rest@[k] == before_rest[r]);
                if a < before_chosen.len() {
                    assert(chosen@[a] == before_chosen[a]);
                } else {
                    assert(r != best);
                    assert(rank_lt(before_rest[best as int].0, before_rest[r].0));
                }
            }
            assert forall|a: int, b: int| 0 <= a < b < rest@.len() implies (#[trigger] rest@[a]).1.entry != (#[trigger] rest@[b]).1.entry by {
                let ra = if a < best { a } else { a + 1 };
                let rb = if b < best { b } else { b + 1 };
                assert(rest@[a] == before_rest[ra] && rest@[b] == before_rest[rb]);
            }
            assert forall|a: int| 0 <= a < rest@.len() implies (#[trigger] rest@[a]).0.stable_id == rest@[a].1.entry by {
                let ra = if a < best { a } else { a + 1 };
                assert(rest@[a] == before_rest[ra]);
            }
        }
    }
    proof {
        if chosen@.len() < limit {
            assert(rest@.len() == 0);
        }
        assert forall|k: int, i: int|
            0 <= k < original.len() && !chosen@.contains(original[k]) && 0 <= i < chosen@.len() implies rank_lt(
                (#[trigger] chosen@[i]).0,
                (#[trigger] original[k]).0,
            ) by {
            assert(original.contains(original[k]));
            let r = choose|r: int| 0 <= r < rest@.len() && rest@[r] == original[k];
        }
        assert forall|i: int| 0 <= i < chosen@.len() implies original.contains(#[trigger] chosen@[i]) by {
            assert(chosen@.contains(chosen@[i]));
        }
    }
    chosen
}


/// The longest query that is searched.
pub const MAX_QUERY_CHARS: usize = 512;

/// The longest corrected query that is searched: pair counts of a longer one
/// could overflow their `u32` counters.
pub const MAX_CORRECTED_CHARS: usize = 131071;

/// What one candidate offers: its rank for the query, with its entry and
/// field, or nothing when it is not accepted.
pub open spec fn offer_of(
    term: IndexedTerm,
    query: Seq<char>,
    cost: u16,
    token: Option<TokenMatch>,
    original_len: nat,
    max_edits: u16,
    offered: Option<Ranked>,
) -> bool {
    &&& candidate_rank(
        query,
        cost,
        term,
        token,
        original_len,
        max_edits,
        match offered {
            Some(x) => Some(x.0),
            None => None,
        },
    )
    &&& offered matches Some(x) ==> x.1 == SearchResult { entry: term.entry, field: term.field } && x.0.edit_cost
        <= max_edits && x.0.stable_id == term.entry
}

/// The matches that one retrieval pass offers for the retrieved `ids` and
/// their token matches, candidate by candidate.
pub open spec fn offers_for(
    index: Index,
    query: Seq<char>,
    cost: u16,
    original_len: nat,
    config: Config,
    offers: Seq<Option<Ranked>>,
    ids: Seq<u32>,
    tokens: Seq<Option<TokenMatch>>,
) -> bool {
    &&& retrieved(index, query, config.max_candidates as nat, ids)
    &&& ids.len() == offers.len()
    &&& tokens.len() == offers.len()
    &&& forall|i: int|
        0 <= i < ids.len() ==> token_ok(index, query, ids[i], tokens[i]) && tokens[i] == token_of(
            token_matches(index, query, primary_limit(config.max_candidates as nat, query.len())),
            ids[i],
        ) && offer_of(
            index.spec_terms()[ids[i] as int],
            query,
            cost,
            tokens[i],
            original_len,
            config.max_edits,
            #[trigger] offers[i],
        )
}

/// The matches that one retrieval pass offers, candidate by candidate.
pub open spec fn pass_offers(
    index: Index,
    query: Seq<char>,
    cost: u16,
    original_len: nat,
    config: Config,
    offers: Seq<Option<Ranked>>,
) -> bool {
    exists|ids: Seq<u32>, tokens: Seq<Option<TokenMatch>>|
        #[trigger] offers_for(index, query, cost, original_len, config, offers, ids, tokens)
}

/// A search index over entries, with its dictionary corrector and settings.
pub struct Searcher {
    index: Index,
    corrector: Option<CorrectionIndex>,
    config: Config,
}

/// What building a searcher from `entries` with `config` gives: a
/// well-formed searcher with that configuration over an index of the
/// entries, with correction exactly when the configuration asks for it and
/// the vocabulary fits the symbols of a correction index, over the whole
/// vocabulary.
pub open spec fn built_searcher(searcher: Searcher, entries: Seq<Entry>, config: Config) -> bool {
    &&& searcher.wf()
    &&& searcher.spec_config() == config
    &&& indexes(searcher.spec_index(), entries)
    &&& searcher.spec_corrector() is Some <==> config.enable_correction && config.max_edits > 0 && fits_symbols(
        vocabulary_set(searcher.spec_index()),
        config.max_edits,
    )
    &&& searcher.spec_corrector() matches Some(c) ==> forall|w: Seq<char>|
        c.spec_terms().contains(w) <==> vocabulary_set(searcher.spec_index()).contains(w)
}

impl Searcher {
    pub closed spec fn spec_index(&self) -> Index {
        self.index
    }

    pub closed spec fn spec_corrector(&self) -> Option<CorrectionIndex> {
        self.corrector
    }

    pub closed spec fn spec_config(&self) -> Config {
        self.config
    }

    /// The index is well formed; a corrector exists only with correction
    /// enabled and a positive edit budget, and corrects to the index
    /// vocabulary within that budget.
    pub closed spec fn wf(&self) -> bool {
        &&& self.index.wf()
        &&& match self.corrector {
            Some(c) => {
                &&& c.wf()
                &&& c.spec_max_edits() == self.config.max_edits
                &&& self.config.enable_correction
                &&& self.config.max_edits > 0
                &&& forall|w: Seq<char>|
                    c.spec_terms().contains(w) ==> has_key(self.index.spec_sorted_terms(), w) || has_key(
                        self.index.spec_tokens(),
                        w,
                    )
            },
            None => true,
        }
    }

    /// Builds an index with token matching and bounded edit correction.
    /// Entry ids and field ids must be unique, and the fields must not be
    /// able to add more terms than `u32` ids can number (see
    /// `term_capacity`). Correction is built when the configuration asks for
    /// it, unless the vocabulary or its deletion keys run out of the `u32`
    /// symbols of a correction index (see `fits_symbols`).
    pub fn new(entries: Vec<Entry>, config: Config) -> (searcher: Self)
        requires
            ids_unique(entries@),
            term_capacity(entries@) <= u32::MAX,
        ensures
            built_searcher(searcher, entries@, config),
    {
        let ghost source = entries@;
        let index = Index::new(entries);
        Self::with_index(index, config, Ghost(source))
    }

    /// Builds the searcher as `new` does, or `None` when the terms of the
    /// entries run out of `u32` ids, which can only happen when their fields
    /// could add more terms than that.
    pub fn try_new(entries: Vec<Entry>, config: Config) -> (built: Option<Self>)
        requires
            ids_unique(entries@),
        ensures
            built is None ==> term_capacity(entries@) > u32::MAX,
            built matches Some(searcher) ==> built_searcher(searcher, entries@, config),
    {
        let ghost source = entries@;
        match Index::try_new(entries) {
            Some(index) => Some(Self::with_index(index, config, Ghost(source))),
            None => None,
        }
    }

    /// Adds correction to an index of `entries`.
    fn with_index(index: Index, config: Config, Ghost(entries): Ghost<Seq<Entry>>) -> (searcher: Self)
        requires
            crate::index::built_index(index, entries),
        ensures
            built_searcher(searcher, entries, config),
    {
        let corrector = if config.enable_correction && config.max_edits > 0 {
            let vocabulary = index.vocabulary();
            proof {
                assert(vocabulary_words(vocabulary@) =~= vocabulary_set(index)) by {
                    assert forall|w: Seq<char>| vocabulary_set(index).contains(w) implies vocabulary_words(vocabulary@).contains(w) by {
                        if has_key(index.spec_sorted_terms(), w) {
                            let i = choose|i: int| 0 <= i < index.spec_sorted_terms().len() && #[trigger] index.spec_sorted_terms()[i].key@ == w;
                            assert(crate::index::lists_word(vocabulary@, index.spec_sorted_terms()[i].key@));
                        } else {
                            let i = choose|i: int| 0 <= i < index.spec_tokens().len() && #[trigger] index.spec_tokens()[i].key@ == w;
                            assert(crate::index::lists_word(vocabulary@, index.spec_tokens()[i].key@));
                        }
                        let a = choose|a: int| 0 <= a < vocabulary@.len() && #[trigger] vocabulary@[a]@ == w;
                    }
                    assert forall|w: Seq<char>| vocabulary_words(vocabulary@).contains(w) implies vocabulary_set(index).contains(w) by {
                        let i = choose|i: int| 0 <= i < vocabulary@.len() && (#[trigger] vocabulary@[i])@ == w;
                    }
                }
            }
            let built = CorrectionIndex::try_new(vocabulary.as_slice(), config.max_edits);
            proof {
                if built is Some {
                    let c = built->0;
                    assert forall|w: Seq<char>| c.spec_terms().contains(w) <==> vocabulary_set(index).contains(w) by {
                        assert(vocabulary_words(vocabulary@).contains(w) <==> exists|i: int| 0 <= i < vocabulary@.len() && (#[trigger] vocabulary@[i])@ == w);
                    }
                    assert forall|w: Seq<char>| c.spec_terms().contains(w) implies has_key(index.spec_sorted_terms(), w) || has_key(
                        index.spec_tokens(),
                        w,
                    ) by {
                        assert(vocabulary_set(index).contains(w));
                    }
                }
            }
            built
        } else {
            None
        };
        Searcher { index, corrector, config }
    }
}


proof fn lemma_offer_all_push(slots: Seq<Ranked>, offers: Seq<Option<Ranked>>, x: Option<Ranked>)
    ensures
        offer_all(slots, offers.push(x)) == match x {
            Some(r) => offer(offer_all(slots, offers), r),
            None => offer_all(slots, offers),
        },
{
    assert(offers.push(x).drop_last() =~= offers);
}

impl Searcher {
    /// Offers the accepted candidates of one retrieval pass.
    fn collect_matches(&self, query: &Term, original_len: usize, best: &mut Best)
        requires
            self.wf(),
            old(best).wf(),
            query.text.wf(),
            0 < query@.chars.len() <= MAX_CORRECTED_CHARS,
            query.cost <= self.config.max_edits,
        ensures
            final(best).wf(),
            exists|offers: Seq<Option<Ranked>>|
                pass_offers(self.index, query@.chars, query.cost, original_len as nat, self.config, offers)
                    && final(best).slots@ == offer_all(old(best).slots@, offers),
    {
        proof {
            assert(4 * crate::index::max_repeats() * query@.chars.len() <= u32::MAX) by (nonlinear_arith)
                requires
                    query@.chars.len() <= MAX_CORRECTED_CHARS,
                    crate::index::max_repeats() == 8192,
            ;
        }
        let found = self.index.candidates(&query.text, self.config.max_candidates);
        let ghost q = query@.chars;
        let ghost ids = choose|ids: Seq<u32>|
            {
                &&& retrieved(self.index, q, self.config.max_candidates as nat, ids)
                &&& ids.len() == found@.len()
                &&& forall|a: int|
                    0 <= a < ids.len() ==> *(#[trigger] found@[a]).term == self.index.spec_terms()[ids[a] as int]
                        && token_ok(self.index, q, ids[a], found@[a].token) && found@[a].token == token_of(
                        token_matches(self.index, q, primary_limit(self.config.max_candidates as nat, q.len())),
                        ids[a],
                    )
            };
        let ghost tokens = found@.map_values(|c: Candidate| c.token);
        let ghost start = best.slots@;
        let ghost mut offers: Seq<Option<Ranked>> = Seq::empty();
        let mut a: usize = 0;
        while a < found.len()
            invariant
                a <= found@.len(),
                self.wf(),
                best.wf(),
                query.text.wf(),
                q == query@.chars,
                0 < q.len() <= MAX_CORRECTED_CHARS,
                query.cost <= self.config.max_edits,
                retrieved(self.index, q, self.config.max_candidates as nat, ids),
                ids.len() == found@.len(),
                tokens == found@.map_values(|c: Candidate| c.token),
                forall|i: int|
                    0 <= i < ids.len() ==> *(#[trigger] found@[i]).term == self.index.spec_terms()[ids[i] as int]
                        && token_ok(self.index, q, ids[i], found@[i].token) && found@[i].token == token_of(
                        token_matches(self.index, q, primary_limit(self.config.max_candidates as nat, q.len())),
                        ids[i],
                    ),
                offers.len() == a,
                best.slots@ == offer_all(start, offers),
                forall|i: int|
                    0 <= i < a ==> offer_of(
                        self.index.spec_terms()[ids[i] as int],
                        q,
                        query.cost,
                        tokens[i],
                        original_len as nat,
                        self.config.max_edits,
                        #[trigger] offers[i],
                    ),
            decreases found@.len() - a,
        {
            let candidate = &found[a];
            proof {
                assert(ids[a as int] < self.index.spec_terms().len());
                self.index.lemma_term_wf(ids[a as int] as int);
            }
            let rank = Rank::for_candidate(query, candidate, original_len, &self.config);
            let ghost before = offers;
            match rank {
                Some(r) => {
                    let result = SearchResult { entry: candidate.term.entry, field: candidate.term.field };
                    best.offer(r, result);
                    proof {
                        lemma_offer_all_push(start, offers, Some((r, result)));
                        offers = offers.push(Some((r, result)));
                    }
                },
                None => {
                    proof {
                        lemma_offer_all_push(start, offers, None);
                        offers = offers.push(None);
                    }
                },
            }
            proof {
                assert forall|i: int|
                    0 <= i < a + 1 implies offer_of(
                        self.index.spec_terms()[ids[i] as int],
                        q,
                        query.cost,
                        tokens[i],
                        original_len as nat,
                        self.config.max_edits,
                        #[trigger] offers[i],
                    ) by {
                    if i < a {
                        assert(offers[i] == before[i]);
                    }
                }
            }
            a = a + 1;
        }
        proof {
            assert(retrieved(self.index, q, self.config.max_candidates as nat, ids));
            assert forall|i: int|
                0 <= i < ids.len() implies token_ok(self.index, q, ids[i], tokens[i]) && tokens[i] == token_of(
                    token_matches(self.index, q, primary_limit(self.config.max_candidates as nat, q.len())),
                    ids[i],
                ) && offer_of(
                    self.index.spec_terms()[ids[i] as int],
                    q,
                    query.cost,
                    tokens[i],
                    original_len as nat,
                    self.config.max_edits,
                    #[trigger] offers[i],
                ) by {
                assert(tokens[i] == found@[i].token);
            }
            assert(offers_for(self.index, q, query.cost, original_len as nat, self.config, offers, ids, tokens));
        }
    }
}


/// Whether some entry's best match needed no edit.
pub open spec fn has_strong(slots: Seq<Ranked>) -> bool {
    exists|i: int| 0 <= i < slots.len() && (#[trigger] slots[i]).0.edit_cost == 0
}

/// The second retrieval pass: when no entry's best match needed no edit and
/// the corrector proposes a word whose normalization has between one and
/// `MAX_CORRECTED_CHARS` characters, the pass for that word at its cost;
/// otherwise none.
pub open spec fn corrected_pass(s: Searcher, q: Seq<char>, slots: Seq<Ranked>, offers: Seq<Option<Ranked>>) -> bool {
    match s.spec_corrector() {
        Some(c) => if !has_strong(slots) && exists|w: Seq<char>, cost: nat|
            unique_best(q, c.spec_max_edits(), c.considered(q), w, cost) {
            let (w, cost) = choose|w: Seq<char>, cost: nat| unique_best(q, c.spec_max_edits(), c.considered(q), w, cost);
            let n = normalize(w).chars;
            if 0 < n.len() <= MAX_CORRECTED_CHARS {
                pass_offers(s.spec_index(), n, cost as u16, q.len(), s.spec_config(), offers)
            } else {
                offers.len() == 0
            }
        } else {
            offers.len() == 0
        },
        None => offers.len() == 0,
    }
}

/// Whether `results` are what a search for the normalized query `q` gives,
/// through the offers of a first retrieval pass for `q` and of the
/// corrected pass: the best match per entry, the `limit` best of them, best
/// first.
pub open spec fn outcome_with(
    s: Searcher,
    q: Seq<char>,
    limit: nat,
    results: Seq<SearchResult>,
    first: Seq<Option<Ranked>>,
    second: Seq<Option<Ranked>>,
    chosen: Seq<Ranked>,
) -> bool {
    let slots = offer_all(Seq::empty(), first);
    &&& pass_offers(s.spec_index(), q, 0, q.len(), s.spec_config(), first)
    &&& corrected_pass(s, q, slots, second)
    &&& is_top(offer_all(slots, second), limit, chosen)
    &&& forall|i: int| 0 <= i < chosen.len() ==> (#[trigger] chosen[i]).0.edit_cost <= s.spec_config().max_edits
    &&& results == chosen.map_values(|x: Ranked| x.1)
}

/// Whether `results` are what a search for the normalized query `q` gives.
pub open spec fn search_outcome(s: Searcher, q: Seq<char>, limit: nat, results: Seq<SearchResult>) -> bool {
    exists|first: Seq<Option<Ranked>>, second: Seq<Option<Ranked>>, chosen: Seq<Ranked>|
        #[trigger] outcome_with(s, q, limit, results, first, second, chosen)
}

/// A correction is unique: two words that are each the only best one are
/// the same word, at the same cost.
pub proof fn lemma_unique_best_unique(q: Seq<char>, max_edits: u16, words: Set<Seq<char>>, t1: Seq<char>, c1: nat, t2: Seq<char>, c2: nat)
    requires
        unique_best(q, max_edits, words, t1, c1),
        unique_best(q, max_edits, words, t2, c2),
    ensures
        t1 == t2 && c1 == c2,
{
    if t1 != t2 {
        assert(crate::correction::beaten(q, t2, max_edits, c1));
        assert(crate::correction::beaten(q, t1, max_edits, c2));
    }
}

impl Best {
    /// Whether some entry's best match needed no edit.
    fn has_strong(&self) -> (r: bool)
        ensures
            r == has_strong(self.slots@),
    {
        let mut i: usize = 0;
        while i < self.slots.len()
            invariant
                i <= self.slots@.len(),
                forall|j: int| 0 <= j < i ==> (#[trigger] self.slots@[j]).0.edit_cost != 0,
            decreases self.slots@.len() - i,
        {
            if self.slots[i].0.is_strong() {
                return true;
            }
            i = i + 1;
        }
        false
    }
}

impl Searcher {
    /// Searches for `input`: the best field of each matching entry, at most
    /// `limit` of them, best first. A query that normalizes to nothing, or
    /// to more than `MAX_QUERY_CHARS` characters, finds nothing.
    pub fn search(&self, input: &str, limit: usize) -> (results: Vec<SearchResult>)
        requires
            self.wf(),
        ensures
            results@.len() <= limit,
            forall|i: int, j: int| 0 <= i < j < results@.len() ==> results@[i].entry != results@[j].entry,
            limit == 0 || self.spec_config().max_candidates == 0 ==> results@.len() == 0,
            ({
                let q = normalize(input@).chars;
                (q.len() == 0 || q.len() > MAX_QUERY_CHARS) ==> results@.len() == 0
            }),
            ({
                let q = normalize(input@).chars;
                !(limit == 0 || self.spec_config().max_candidates == 0 || q.len() == 0 || q.len() > MAX_QUERY_CHARS)
                    ==> search_outcome(*self, q, limit as nat, results@)
            }),
    {
        if limit == 0 || self.config.max_candidates == 0 {
            return Vec::new();
        }
        let text = NormalizedText::new(input);
        if text.is_empty() || text.len() > MAX_QUERY_CHARS {
            return Vec::new();
        }
        let ghost q = text@.chars;
        let original = Term { text, cost: 0 };
        let original_len = original.text.len();
        let mut best = Best::new();
        self.collect_matches(&original, original_len, &mut best);
        let ghost first = choose|offers: Seq<Option<Ranked>>|
            pass_offers(self.index, q, 0, original_len as nat, self.config, offers)
                && best.slots@ == offer_all(Seq::<Ranked>::empty(), offers);
        let ghost slots1 = best.slots@;
        let ghost mut second: Seq<Option<Ranked>> = Seq::empty();
        if !best.has_strong() {
            match &self.corrector {
                Some(corrector) => {
                    match corrector.correct(original.text.chars()) {
                        Some((word, cost)) => {
                            let corrected = Term { text: NormalizedText::new(word), cost };
                            proof {
                                let (w, c) = choose|w: Seq<char>, c: nat|
                                    unique_best(q, corrector.spec_max_edits(), corrector.considered(q), w, c);
                                lemma_unique_best_unique(q, corrector.spec_max_edits(), corrector.considered(q), w, c, word@, cost as nat);
                                assert(crate::correction::correction_cost(q, word@, corrector.spec_max_edits()) == Some(cost as nat));
                            }
                            if corrected.text.len() > 0 && corrected.text.len() <= MAX_CORRECTED_CHARS {
                                let ghost before = best.slots@;
                                self.collect_matches(&corrected, original_len, &mut best);
                                proof {
                                    second = choose|offers: Seq<Option<Ranked>>|
                                        pass_offers(self.index, corrected@.chars, cost, original_len as nat, self.config, offers)
                                            && best.slots@ == offer_all(before, offers);
                                }
                            }
                        },
                        None => {},
                    }
                },
                None => {},
            }
        }
        let Best { slots, by_entry } = best;
        let ghost all = slots@;
        let chosen = top(slots, limit);
        let mut results: Vec<SearchResult> = Vec::new();
        let mut i: usize = 0;
        while i < chosen.len()
            invariant
                i <= chosen@.len(),
                results@ == chosen@.take(i as int).map_values(|x: Ranked| x.1),
            decreases chosen@.len() - i,
        {
            results.push(chosen[i].1);
            proof {
                assert(chosen@.take(i + 1) =~= chosen@.take(i as int).push(chosen@[i as int]));
                assert(chosen@.take(i + 1).map_values(|x: Ranked| x.1) =~= chosen@.take(i as int).map_values(|x: Ranked| x.1).push(chosen@[i as int].1));
            }
            i = i + 1;
        }
        proof {
            assert(chosen@.take(chosen@.len() as int) =~= chosen@);
            let final_slots = offer_all(slots1, second);
            assert(all == final_slots);
            lemma_offer_all_members(Seq::empty(), first);
            lemma_offer_all_members(slots1, second);
            let config = self.config;
            assert forall|i: int| 0 <= i < chosen@.len() implies (#[trigger] chosen@[i]).0.edit_cost <= config.max_edits by {
                let x = chosen@[i];
                assert(all.contains(x));
                if slots1.contains(x) {
                    let k = choose|k: int| 0 <= k < first.len() && first[k] == Some(x);
                    lemma_offers_bound(self.index, q, 0, q.len(), config, first, k);
                } else {
                    let k = choose|k: int| 0 <= k < second.len() && second[k] == Some(x);
                    lemma_corrected_bound(*self, q, slots1, second, k);
                }
            }
            assert forall|a: int, b: int| 0 <= a < b < results@.len() implies results@[a].entry != results@[b].entry by {
                let x = chosen@[a];
                let y = chosen@[b];
                assert(rank_lt(x.0, y.0));
                assert(all.contains(x) && all.contains(y));
                let ka = choose|k: int| 0 <= k < all.len() && all[k] == x;
                let kb = choose|k: int| 0 <= k < all.len() && all[k] == y;
                if ka != kb {
                    if ka < kb {
                        assert(all[ka].1.entry != all[kb].1.entry);
                    } else {
                        assert(all[kb].1.entry != all[ka].1.entry);
                    }
                }
                assert(results@[a] == x.1 && results@[b] == y.1);
            }
            assert(corrected_pass(*self, q, slots1, second));
            assert(outcome_with(*self, q, limit as nat, results@, first, second, chosen@));
        }
        results
    }
}


/// Each entry's match after offers is one it had or one that was offered.
pub proof fn lemma_offer_all_members(slots: Seq<Ranked>, offers: Seq<Option<Ranked>>)
    ensures
        forall|x: Ranked|
            #[trigger] offer_all(slots, offers).contains(x) ==> slots.contains(x) || exists|k: int|
                0 <= k < offers.len() && offers[k] == Some(x),
    decreases offers.len(),
{
    if offers.len() > 0 {
        let rest = offers.drop_last();
        lemma_offer_all_members(slots, rest);
        let before = offer_all(slots, rest);
        assert forall|x: Ranked| #[trigger] offer_all(slots, offers).contains(x) implies slots.contains(x) || exists|k: int|
            0 <= k < offers.len() && offers[k] == Some(x) by {
            let after = offer_all(slots, offers);
            let j = choose|j: int| 0 <= j < after.len() && after[j] == x;
            match offers.last() {
                Some(r) => {
                    if j < before.len() && before[j] == x {
                        assert(before.contains(x));
                        if !slots.contains(x) {
                            let k = choose|k: int| 0 <= k < rest.len() && rest[k] == Some(x);
                            assert(offers[k] == Some(x));
                        }
                    } else {
                        assert(x == r);
                        assert(offers[offers.len() - 1] == Some(x));
                    }
                },
                None => {
                    assert(before.contains(x));
                    if !slots.contains(x) {
                        let k = choose|k: int| 0 <= k < rest.len() && rest[k] == Some(x);
                        assert(offers[k] == Some(x));
                    }
                },
            }
        }
    }
}

/// The edits of an offered match.
pub open spec fn offered_edits(offered: Option<Ranked>) -> int {
    match offered {
        Some(x) => x.0.edit_cost as int,
        None => 0,
    }
}

proof fn lemma_offers_bound(index: Index, q: Seq<char>, cost: u16, len: nat, config: Config, offers: Seq<Option<Ranked>>, k: int)
    requires
        pass_offers(index, q, cost, len, config, offers),
        0 <= k < offers.len(),
        offers[k] is Some,
    ensures
        offered_edits(offers[k]) <= config.max_edits,
{
    let (ids, tokens) = choose|ids: Seq<u32>, tokens: Seq<Option<TokenMatch>>| #[trigger] offers_for(index, q, cost, len, config, offers, ids, tokens);
    assert(offer_of(index.spec_terms()[ids[k] as int], q, cost, tokens[k], len, config.max_edits, offers[k]));
}

proof fn lemma_corrected_bound(s: Searcher, q: Seq<char>, slots: Seq<Ranked>, offers: Seq<Option<Ranked>>, k: int)
    requires
        corrected_pass(s, q, slots, offers),
        0 <= k < offers.len(),
        offers[k] is Some,
    ensures
        offered_edits(offers[k]) <= s.spec_config().max_edits,
{
    let c = s.spec_corrector()->0;
    let (w, cost) = choose|w: Seq<char>, cost: nat| unique_best(q, c.spec_max_edits(), c.considered(q), w, cost);
    lemma_offers_bound(s.spec_index(), normalize(w).chars, cost as u16, q.len(), s.spec_config(), offers, k);
}


/// Whether every offered match carries its entry in its rank.
pub open spec fn offers_ok(offers: Seq<Option<Ranked>>) -> bool {
    forall|k: int| 0 <= k < offers.len() ==> match #[trigger] offers[k] {
        Some(x) => x.0.stable_id == x.1.entry,
        None => true,
    }
}

/// Whether `slots` hold, for the entry of `x`, a match that ranks no worse
/// than `x`.
pub open spec fn covers(slots: Seq<Ranked>, x: Ranked) -> bool {
    exists|i: int| 0 <= i < slots.len() && (#[trigger] slots[i]).1.entry == x.1.entry && !rank_lt(x.0, slots[i].0)
}

/// Each entry appears once with its best match: after offers, the matches
/// keep one per entry, and each offered match, like each match held
/// before, is covered by its entry's match, which ranks no worse.
pub proof fn law_best_per_entry(slots: Seq<Ranked>, offers: Seq<Option<Ranked>>)
    requires
        slots_ok(slots),
        offers_ok(offers),
    ensures
        slots_ok(offer_all(slots, offers)),
        forall|k: int| 0 <= k < offers.len() ==> match #[trigger] offers[k] {
            Some(x) => covers(offer_all(slots, offers), x),
            None => true,
        },
        forall|i: int| 0 <= i < slots.len() ==> covers(offer_all(slots, offers), #[trigger] slots[i]),
    decreases offers.len(),
{
    if offers.len() > 0 {
        let rest = offers.drop_last();
        assert forall|k: int| 0 <= k < rest.len() implies match #[trigger] rest[k] {
            Some(x) => x.0.stable_id == x.1.entry,
            None => true,
        } by {
            assert(rest[k] == offers[k]);
        }
        law_best_per_entry(slots, rest);
        let before = offer_all(slots, rest);
        let after = offer_all(slots, offers);
        match offers.last() {
            None => {
                assert forall|k: int| 0 <= k < offers.len() implies match #[trigger] offers[k] {
                    Some(y) => covers(after, y),
                    None => true,
                } by {
                    if k < rest.len() {
                        assert(offers[k] == rest[k]);
                    }
                }
            },
            Some(x) => {
                assert(offers[offers.len() - 1] == Some(x));
                lemma_offer_step(before, x);
                assert forall|k: int| 0 <= k < offers.len() implies match #[trigger] offers[k] {
                    Some(y) => covers(after, y),
                    None => true,
                } by {
                    if k < rest.len() {
                        assert(offers[k] == rest[k]);
                    }
                }
                assert forall|i: int| 0 <= i < slots.len() implies covers(after, #[trigger] slots[i]) by {
                    assert(covers(before, slots[i]));
                }
            },
        }
    }
}

/// One offer keeps one match per entry, covers the offered match, and keeps
/// covering what was covered.
proof fn lemma_offer_step(before: Seq<Ranked>, x: Ranked)
    requires
        slots_ok(before),
        x.0.stable_id == x.1.entry,
    ensures
        slots_ok(offer(before, x)),
        covers(offer(before, x), x),
        forall|y: Ranked| covers(before, y) ==> covers(offer(before, x), y),
{
    let after = offer(before, x);
    if exists|i: int| 0 <= i < before.len() && #[trigger] before[i].1.entry == x.1.entry {
        let i = choose|i: int| 0 <= i < before.len() && #[trigger] before[i].1.entry == x.1.entry;
        if rank_lt(x.0, before[i].0) {
            lemma_rank_order(x.0, x.0, x.0);
            assert(after[i] == x);
            assert forall|a: int, b: int| 0 <= a < b < after.len() implies (#[trigger] after[a]).1.entry != (#[trigger] after[b]).1.entry by {
                assert(before[a].1.entry != before[b].1.entry);
            }
            assert forall|y: Ranked| covers(before, y) implies covers(after, y) by {
                let j = choose|j: int| 0 <= j < before.len() && (#[trigger] before[j]).1.entry == y.1.entry && !rank_lt(y.0, before[j].0);
                if j == i {
                    lemma_rank_order(y.0, x.0, before[i].0);
                    assert(after[i].1.entry == y.1.entry);
                } else {
                    assert(after[j] == before[j]);
                }
            }
        } else {
            assert(covers(after, x));
        }
    } else {
        assert(after[before.len() as int] == x);
        lemma_rank_order(x.0, x.0, x.0);
        assert forall|a: int, b: int| 0 <= a < b < after.len() implies (#[trigger] after[a]).1.entry != (#[trigger] after[b]).1.entry by {
            if b == before.len() {
                assert(after[a] == before[a]);
            } else {
                assert(after[a] == before[a] && after[b] == before[b]);
            }
        }
        assert forall|y: Ranked| covers(before, y) implies covers(after, y) by {
            let j = choose|j: int| 0 <= j < before.len() && (#[trigger] before[j]).1.entry == y.1.entry && !rank_lt(y.0, before[j].0);
            assert(after[j] == before[j]);
        }
    }
}

/// With no edit budget, nothing is corrected and every result needed no
/// edit.
pub proof fn law_zero_edits(
    s: Searcher,
    q: Seq<char>,
    limit: nat,
    results: Seq<SearchResult>,
    first: Seq<Option<Ranked>>,
    second: Seq<Option<Ranked>>,
    chosen: Seq<Ranked>,
)
    requires
        s.wf(),
        s.spec_config().max_edits == 0,
        outcome_with(s, q, limit, results, first, second, chosen),
    ensures
        s.spec_corrector() is None,
        second.len() == 0,
        forall|i: int| 0 <= i < chosen.len() ==> (#[trigger] chosen[i]).0.edit_cost == 0,
{
}


/// A retrieval pass offers one list of matches.
pub proof fn lemma_pass_offers_unique(
    index: Index,
    q: Seq<char>,
    cost: u16,
    len: nat,
    config: Config,
    a: Seq<Option<Ranked>>,
    b: Seq<Option<Ranked>>,
)
    requires
        pass_offers(index, q, cost, len, config, a),
        pass_offers(index, q, cost, len, config, b),
    ensures
        a == b,
{
    let (ids_a, tokens_a) = choose|ids: Seq<u32>, tokens: Seq<Option<TokenMatch>>| #[trigger] offers_for(index, q, cost, len, config, a, ids, tokens);
    let (ids_b, tokens_b) = choose|ids: Seq<u32>, tokens: Seq<Option<TokenMatch>>| #[trigger] offers_for(index, q, cost, len, config, b, ids, tokens);
    crate::index::law_retrieved_unique(index, q, config.max_candidates as nat, ids_a, ids_b);
    assert forall|i: int| 0 <= i < a.len() implies a[i] == b[i] by {
        let term = index.spec_terms()[ids_a[i] as int];
        assert(offer_of(term, q, cost, tokens_a[i], len, config.max_edits, a[i]));
        assert(offer_of(term, q, cost, tokens_b[i], len, config.max_edits, b[i]));
        assert(tokens_a[i] == tokens_b[i]);
        let ra = match a[i] {
            Some(x) => Some(x.0),
            None => None,
        };
        let rb = match b[i] {
            Some(x) => Some(x.0),
            None => None,
        };
        crate::matching::lemma_candidate_rank_unique(q, cost, term, tokens_a[i], len, config.max_edits, ra, rb);
    }
    assert(a =~= b);
}

/// Two lists sorted by rank with the same matches are the same list.
proof fn lemma_ranked_matches_unique(a: Seq<Ranked>, b: Seq<Ranked>)
    requires
        forall|i: int, j: int| 0 <= i < j < a.len() ==> rank_lt((#[trigger] a[i]).0, (#[trigger] a[j]).0),
        forall|i: int, j: int| 0 <= i < j < b.len() ==> rank_lt((#[trigger] b[i]).0, (#[trigger] b[j]).0),
        forall|x: Ranked| a.contains(x) <==> b.contains(x),
    ensures
        a == b,
    decreases a.len() + b.len(),
{
    if a.len() == 0 || b.len() == 0 {
        if a.len() > 0 {
            assert(a.contains(a[0]));
        }
        if b.len() > 0 {
            assert(b.contains(b[0]));
        }
        assert(a =~= b);
    } else {
        assert(a.contains(a[0]) && b.contains(b[0]));
        let j = choose|j: int| 0 <= j < b.len() && b[j] == a[0];
        let i = choose|i: int| 0 <= i < a.len() && a[i] == b[0];
        if i != 0 && j != 0 {
            assert(rank_lt(a[0].0, a[i].0));
            assert(rank_lt(b[0].0, b[j].0));
            lemma_rank_order(a[0].0, b[0].0, a[0].0);
        }
        let a1 = a.drop_first();
        let b1 = b.drop_first();
        assert forall|x: Ranked| a1.contains(x) <==> b1.contains(x) by {
            if a1.contains(x) {
                let w = choose|w: int| 0 <= w < a1.len() && a1[w] == x;
                assert(a[w + 1] == x && rank_lt(a[0].0, a[w + 1].0));
                lemma_rank_order(a[0].0, a[0].0, a[0].0);
                assert(a.contains(x));
                let v = choose|v: int| 0 <= v < b.len() && b[v] == x;
                assert(v != 0);
                assert(b1[v - 1] == x);
            }
            if b1.contains(x) {
                let w = choose|w: int| 0 <= w < b1.len() && b1[w] == x;
                assert(b[w + 1] == x && rank_lt(b[0].0, b[w + 1].0));
                lemma_rank_order(b[0].0, b[0].0, b[0].0);
                assert(b.contains(x));
                let v = choose|v: int| 0 <= v < a.len() && a[v] == x;
                assert(v != 0);
                assert(a1[v - 1] == x);
            }
        }
        lemma_ranked_matches_unique(a1, b1);
        assert forall|w: int| 0 <= w < a.len() implies a[w] == b[w] by {
            if w > 0 {
                assert(a[w] == a1[w - 1] && b[w] == b1[w - 1]);
            }
        }
        assert(a =~= b);
    }
}

/// A list sorted by rank holds no match twice.
proof fn lemma_ranked_matches_no_duplicates(a: Seq<Ranked>)
    requires
        forall|i: int, j: int| 0 <= i < j < a.len() ==> rank_lt((#[trigger] a[i]).0, (#[trigger] a[j]).0),
    ensures
        a.no_duplicates(),
{
    assert forall|i: int, j: int| 0 <= i < a.len() && 0 <= j < a.len() && i != j implies a[i] != a[j] by {
        lemma_rank_order(a[i].0, a[i].0, a[i].0);
        if i < j {
            assert(rank_lt(a[i].0, a[j].0));
        } else {
            assert(rank_lt(a[j].0, a[i].0));
        }
    }
}

/// A match of one list of the best matches is in any other.
proof fn lemma_top_covers(slots: Seq<Ranked>, limit: nat, a: Seq<Ranked>, b: Seq<Ranked>, x: Ranked)
    requires
        is_top(slots, limit, a),
        is_top(slots, limit, b),
        a.contains(x),
    ensures
        b.contains(x),
{
    if !b.contains(x) {
        let i = choose|i: int| 0 <= i < a.len() && a[i] == x;
        assert(slots.contains(a[i]));
        let kx = choose|k: int| 0 <= k < slots.len() && slots[k] == x;
        assert forall|y: Ranked| b.contains(y) implies a.contains(y) by {
            if !a.contains(y) {
                let v = choose|v: int| 0 <= v < b.len() && b[v] == y;
                assert(slots.contains(b[v]));
                let ky = choose|k: int| 0 <= k < slots.len() && slots[k] == y;
                assert(rank_lt(a[i].0, slots[ky].0));
                assert(rank_lt(b[v].0, slots[kx].0));
                lemma_rank_order(x.0, y.0, x.0);
            }
        }
        lemma_ranked_matches_no_duplicates(a);
        lemma_ranked_matches_no_duplicates(b);
        a.unique_seq_to_set();
        b.unique_seq_to_set();
        let rest = a.to_set().remove(x);
        assert(b.to_set().subset_of(rest)) by {
            assert forall|y: Ranked| b.to_set().contains(y) implies rest.contains(y) by {
                assert(b.contains(y));
                assert(a.contains(y));
            }
        }
        assert(a.to_set().contains(x));
        vstd::set_lib::lemma_len_subset(b.to_set(), rest);
    }
}

/// The `limit` best matches form one list.
pub proof fn lemma_top_unique(slots: Seq<Ranked>, limit: nat, a: Seq<Ranked>, b: Seq<Ranked>)
    requires
        is_top(slots, limit, a),
        is_top(slots, limit, b),
    ensures
        a == b,
{
    assert forall|x: Ranked| a.contains(x) implies b.contains(x) by {
        lemma_top_covers(slots, limit, a, b, x);
    }
    assert forall|x: Ranked| b.contains(x) implies a.contains(x) by {
        lemma_top_covers(slots, limit, b, a, x);
    }
    lemma_ranked_matches_unique(a, b);
}

/// Two searches for the same query offer the same matches.
proof fn lemma_outcome_offers(
    s: Searcher,
    q: Seq<char>,
    f1: Seq<Option<Ranked>>,
    s1: Seq<Option<Ranked>>,
    f2: Seq<Option<Ranked>>,
    s2: Seq<Option<Ranked>>,
)
    requires
        pass_offers(s.spec_index(), q, 0, q.len(), s.spec_config(), f1),
        pass_offers(s.spec_index(), q, 0, q.len(), s.spec_config(), f2),
        corrected_pass(s, q, offer_all(Seq::empty(), f1), s1),
        corrected_pass(s, q, offer_all(Seq::empty(), f2), s2),
    ensures
        f1 == f2,
        s1 == s2,
{
    lemma_pass_offers_unique(s.spec_index(), q, 0, q.len(), s.spec_config(), f1, f2);
    let slots = offer_all(Seq::empty(), f1);
    match s.spec_corrector() {
        Some(c) => {
            if !has_strong(slots) && exists|w: Seq<char>, cost: nat| unique_best(q, c.spec_max_edits(), c.considered(q), w, cost) {
                let (w, cost) = choose|w: Seq<char>, cost: nat| unique_best(q, c.spec_max_edits(), c.considered(q), w, cost);
                let n = normalize(w).chars;
                if 0 < n.len() <= MAX_CORRECTED_CHARS {
                    lemma_pass_offers_unique(s.spec_index(), n, cost as u16, q.len(), s.spec_config(), s1, s2);
                } else {
                    assert(s1 =~= s2);
                }
            } else {
                assert(s1 =~= s2);
            }
        },
        None => {
            assert(s1 =~= s2);
        },
    }
}

/// A search has one outcome: the searcher, the normalized query and the
/// limit determine the results.
pub proof fn law_search_unique(s: Searcher, q: Seq<char>, limit: nat, r1: Seq<SearchResult>, r2: Seq<SearchResult>)
    requires
        search_outcome(s, q, limit, r1),
        search_outcome(s, q, limit, r2),
    ensures
        r1 == r2,
{
    let (f1, s1, c1) = choose|first: Seq<Option<Ranked>>, second: Seq<Option<Ranked>>, chosen: Seq<Ranked>|
        #[trigger] outcome_with(s, q, limit, r1, first, second, chosen);
    let (f2, s2, c2) = choose|first: Seq<Option<Ranked>>, second: Seq<Option<Ranked>>, chosen: Seq<Ranked>|
        #[trigger] outcome_with(s, q, limit, r2, first, second, chosen);
    lemma_outcome_offers(s, q, f1, s1, f2, s2);
    let slots = offer_all(Seq::empty(), f1);
    lemma_top_unique(offer_all(slots, s1), limit, c1, c2);
}


/// The limit only truncates: a search with a smaller limit gives the first
/// results of a search with a larger one.
pub proof fn law_limit_truncates(s: Searcher, q: Seq<char>, small: nat, large: nat, r1: Seq<SearchResult>, r2: Seq<SearchResult>)
    requires
        small <= large,
        search_outcome(s, q, small, r1),
        search_outcome(s, q, large, r2),
    ensures
        r1.len() <= r2.len(),
        r1 == r2.take(r1.len() as int),
{
    let (f1, s1, c1) = choose|first: Seq<Option<Ranked>>, second: Seq<Option<Ranked>>, chosen: Seq<Ranked>|
        #[trigger] outcome_with(s, q, small, r1, first, second, chosen);
    let (f2, s2, c2) = choose|first: Seq<Option<Ranked>>, second: Seq<Option<Ranked>>, chosen: Seq<Ranked>|
        #[trigger] outcome_with(s, q, large, r2, first, second, chosen);
    lemma_outcome_offers(s, q, f1, s1, f2, s2);
    let slots = offer_all(Seq::empty(), f1);
    let all = offer_all(slots, s1);
    let m = c1.len() as int;
    let t = c2.take(m);
    assert forall|k: int, i: int|
        0 <= k < all.len() && !t.contains(all[k]) && 0 <= i < t.len() implies rank_lt((#[trigger] t[i]).0, (#[trigger] all[k]).0) by {
        assert(t[i] == c2[i]);
        if c2.contains(all[k]) {
            let j = choose|j: int| 0 <= j < c2.len() && c2[j] == all[k];
            if j < m {
                assert(t[j] == all[k]);
            }
            assert(rank_lt(c2[i].0, c2[j].0));
        }
    }
    assert forall|i: int| 0 <= i < t.len() implies all.contains(#[trigger] t[i]) by {
        assert(t[i] == c2[i]);
    }
    assert(is_top(all, small, t));
    lemma_top_unique(all, small, c1, t);
    assert(r1 =~= r2.take(m));
}

} // verus!
