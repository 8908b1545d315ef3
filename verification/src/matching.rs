//! Acceptance and ranking of a candidate term for a query.
use vstd::prelude::*;
use crate::alignment::{align, is_align_result, Alignment};
use crate::config::Config;
use crate::index::{Candidate, IndexedTerm, TokenMatch};
use crate::model::{EntryId, Role};
use crate::outside::{token_starts_slice, token_starts_view};
use crate::terms::Term;

verus! {

/// An accepted match's sorting key; a smaller key ranks first. Fewer edits
/// rank before cheaper representations.
#[derive(Clone, Copy, Debug, PartialEq, Eq, Structural)]
pub struct Rank {
    pub role_penalty: u16,
    pub edit_cost: u16,
    pub candidate_cost: u16,
    pub gap_cost: u16,
    pub start: u16,
    pub frequency_penalty: u16,
    pub stable_id: EntryId,
}

/// Whether the query cannot match the term before any alignment: too short
/// for the role, or a corrected query that the role refuses or that is not
/// the whole term or one whole token of it.
pub open spec fn rejected_before_alignment(
    query: Seq<char>,
    query_cost: u16,
    term_chars: Seq<char>,
    role: Role,
    token: Option<TokenMatch>,
    original_query_len: nat,
) -> bool {
    ||| (if original_query_len < query.len() {
        original_query_len
    } else {
        query.len()
    }) < role.spec_min_query_chars()
    ||| query_cost > 0 && !role.spec_allow_correction()
    ||| query_cost > 0 && term_chars != query && token != Some(TokenMatch::Exact)
}

/// Whether an alignment is acceptable for the role and query.
pub open spec fn accepts(
    alignment: Alignment,
    query_len: nat,
    original_query_len: nat,
    role: Role,
    token: Option<TokenMatch>,
) -> bool {
    let contiguous = alignment.spec_is_contiguous();
    let substring = alignment.start > 0 && token is None;
    let fuzzy = alignment.edits > 0;
    let acronym = alignment.spec_crosses_token_boundary() && alignment.spec_token_starts()
        && alignment.spec_token_progression();
    let near_subsequence = !alignment.spec_crosses_token_boundary() && alignment.start == 0
        && alignment.gaps <= 1;
    &&& !(alignment.spec_crosses_token_boundary() && !alignment.spec_token_progression())
    &&& (original_query_len < 3 && !contiguous) ==> (acronym || near_subsequence)
    &&& (substring || !contiguous) ==> role.spec_allow_substring()
    &&& fuzzy ==> role.spec_allow_fuzzy() && query_len >= 3
}

pub open spec fn rank_of(alignment: Alignment, query_cost: u16, term: IndexedTerm) -> Rank {
    Rank {
        role_penalty: term.role.spec_priority() as u16,
        edit_cost: (query_cost + alignment.edits) as u16,
        candidate_cost: term.cost,
        gap_cost: alignment.gaps,
        start: alignment.start,
        frequency_penalty: if term.frequency < u16::MAX {
            term.frequency as u16
        } else {
            u16::MAX
        },
        stable_id: term.entry,
    }
}

/// The rank of a candidate, given the alignment of the query with it.
pub open spec fn rank_for_alignment(
    alignment: Option<Alignment>,
    query: Seq<char>,
    query_cost: u16,
    candidate_term: IndexedTerm,
    token: Option<TokenMatch>,
    original_query_len: nat,
) -> Option<Rank> {
    match alignment {
        None => None,
        Some(a) => if accepts(a, query.len(), original_query_len, candidate_term.role, token) {
            Some(rank_of(a, query_cost, candidate_term))
        } else {
            None
        },
    }
}

/// The ranking of a candidate: none when the query cannot match the term
/// before alignment; else the rank of the alignment of the query with the
/// term, within the edits that the query's own cost leaves.
pub open spec fn candidate_rank(
    query: Seq<char>,
    cost: u16,
    term: IndexedTerm,
    token: Option<TokenMatch>,
    original_query_len: nat,
    max_edits: u16,
    result: Option<Rank>,
) -> bool {
    if rejected_before_alignment(query, cost, term.chars@, term.role, token, original_query_len) {
        result is None
    } else {
        exists|alignment: Option<Alignment>|
            {
                &&& is_align_result(
                    query,
                    term.chars@,
                    token_starts_view(term.token_starts),
                    (max_edits - cost) as nat,
                    alignment,
                )
                &&& result == rank_for_alignment(alignment, query, cost, term, token, original_query_len)
            }
    }
}

/// Lexicographic order of ranks, field by field.
pub open spec fn rank_lt(a: Rank, b: Rank) -> bool {
    ||| a.role_penalty < b.role_penalty
    ||| a.role_penalty == b.role_penalty && a.edit_cost < b.edit_cost
    ||| a.role_penalty == b.role_penalty && a.edit_cost == b.edit_cost && a.candidate_cost
        < b.candidate_cost
    ||| a.role_penalty == b.role_penalty && a.edit_cost == b.edit_cost && a.candidate_cost
        == b.candidate_cost && a.gap_cost < b.gap_cost
    ||| a.role_penalty == b.role_penalty && a.edit_cost == b.edit_cost && a.candidate_cost
        == b.candidate_cost && a.gap_cost == b.gap_cost && a.start < b.start
    ||| a.role_penalty == b.role_penalty && a.edit_cost == b.edit_cost && a.candidate_cost
        == b.candidate_cost && a.gap_cost == b.gap_cost && a.start == b.start
        && a.frequency_penalty < b.frequency_penalty
    ||| a.role_penalty == b.role_penalty && a.edit_cost == b.edit_cost && a.candidate_cost
        == b.candidate_cost && a.gap_cost == b.gap_cost && a.start == b.start
        && a.frequency_penalty == b.frequency_penalty && a.stable_id < b.stable_id
}

impl Rank {
    /// Ranks `candidate` for `query`, or `None` when it is not an acceptable
    /// match.
    pub fn for_candidate(
        query: &Term,
        candidate: &Candidate<'_>,
        original_query_len: usize,
        config: &Config,
    ) -> (result: Option<Self>)
        requires
            query.text.wf(),
            query@.chars.len() <= usize::MAX / 8,
            query.cost <= config.max_edits,
            candidate.term.wf(),
        ensures
            candidate_rank(
                query@.chars,
                query.cost,
                *candidate.term,
                candidate.token,
                original_query_len as nat,
                config.max_edits,
                result,
            ),
            result matches Some(r) ==> {
                &&& query.cost <= r.edit_cost <= config.max_edits
                &&& r.role_penalty == candidate.term.role.spec_priority() as u16
                &&& r.candidate_cost == candidate.term.cost
                &&& r.stable_id == candidate.term.entry
            },
            query@.chars.len() == 0 ==> result is None,
    {
        let term = candidate.term;
        let role = term.role;
        let query_len = query.text.len();
        let shorter = if original_query_len < query_len {
            original_query_len
        } else {
            query_len
        };
        if shorter < role.min_query_chars() as usize {
            return None;
        }
        if query.cost > 0 {
            if !role.allow_correction() {
                return None;
            }
            if !crate::terms::chars_equal(term.chars.as_slice(), query.text.chars())
                && candidate.token != Some(TokenMatch::Exact) {
                return None;
            }
        }
        let alignment = align(
            query.text.chars(),
            term.chars.as_slice(),
            token_starts_slice(&term.token_starts),
            config.max_edits - query.cost,
        );
        let ghost found = alignment;
        let ghost max = (config.max_edits - query.cost) as nat;
        assert(is_align_result(
            query@.chars,
            term.chars@,
            token_starts_view(term.token_starts),
            max,
            found,
        ));
        let alignment = match alignment {
            Some(a) => a,
            None => {
                assert(rank_for_alignment(
                    found,
                    query@.chars,
                    query.cost,
                    *term,
                    candidate.token,
                    original_query_len as nat,
                ) is None);
                return None;
            },
        };
        if alignment.crosses_token_boundary() && !alignment.token_progression() {
            return None;
        }
        let contiguous = alignment.is_contiguous();
        let substring = alignment.start > 0 && candidate.token.is_none();
        let fuzzy = alignment.edits > 0;
        if original_query_len < 3 && !contiguous {
            let acronym = alignment.crosses_token_boundary() && alignment.token_starts()
                && alignment.token_progression();
            let near_subsequence = !alignment.crosses_token_boundary() && alignment.start == 0
                && alignment.gaps <= 1;
            if !acronym && !near_subsequence {
                return None;
            }
        }
        if (substring || !contiguous) && !role.allow_substring() {
            return None;
        }
        if fuzzy && (!role.allow_fuzzy() || query_len < 3) {
            return None;
        }
        let edit_cost = query.cost as u32 + alignment.edits as u32;
        let rank = Rank {
                role_penalty: role.priority() as u16,
                edit_cost: edit_cost as u16,
                candidate_cost: term.cost,
                gap_cost: alignment.gaps,
                start: alignment.start,
                frequency_penalty: if term.frequency < u16::MAX as u32 {
                    term.frequency as u16
                } else {
                    u16::MAX
                },
                stable_id: term.entry,
            };
        assert(rank_for_alignment(
            found,
            query@.chars,
            query.cost,
            *term,
            candidate.token,
            original_query_len as nat,
        ) == Some(rank));
        Some(rank)
    }

    /// Whether the match needed no edits.
    pub fn is_strong(&self) -> (r: bool)
        ensures
            r == (self.edit_cost == 0),
    {
        self.edit_cost == 0
    }

    /// Whether `self` ranks strictly before `other`.
    pub fn lt(&self, other: &Rank) -> (r: bool)
        ensures
            r == rank_lt(*self, *other),
    {
        if self.role_penalty != other.role_penalty {
            return self.role_penalty < other.role_penalty;
        }
        if self.edit_cost != other.edit_cost {
            return self.edit_cost < other.edit_cost;
        }
        if self.candidate_cost != other.candidate_cost {
            return self.candidate_cost < other.candidate_cost;
        }
        if self.gap_cost != other.gap_cost {
            return self.gap_cost < other.gap_cost;
        }
        if self.start != other.start {
            return self.start < other.start;
        }
        if self.frequency_penalty != other.frequency_penalty {
            return self.frequency_penalty < other.frequency_penalty;
        }
        self.stable_id < other.stable_id
    }
}


/// A candidate has one ranking for a query.
pub proof fn lemma_candidate_rank_unique(
    query: Seq<char>,
    cost: u16,
    term: IndexedTerm,
    token: Option<TokenMatch>,
    original_query_len: nat,
    max_edits: u16,
    r1: Option<Rank>,
    r2: Option<Rank>,
)
    requires
        candidate_rank(query, cost, term, token, original_query_len, max_edits, r1),
        candidate_rank(query, cost, term, token, original_query_len, max_edits, r2),
    ensures
        r1 == r2,
{
    if !rejected_before_alignment(query, cost, term.chars@, term.role, token, original_query_len) {
        let ts = token_starts_view(term.token_starts);
        let m = (max_edits - cost) as nat;
        let a1 = choose|alignment: Option<Alignment>|
            {
                &&& is_align_result(query, term.chars@, ts, m, alignment)
                &&& r1 == rank_for_alignment(alignment, query, cost, term, token, original_query_len)
            };
        let a2 = choose|alignment: Option<Alignment>|
            {
                &&& is_align_result(query, term.chars@, ts, m, alignment)
                &&& r2 == rank_for_alignment(alignment, query, cost, term, token, original_query_len)
            };
        crate::alignment::lemma_align_unique(query, term.chars@, ts, m, a1, a2);
    }
}

} // verus!
