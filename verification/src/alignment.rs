//! How a query lines up with the characters of an indexed term.
use vstd::prelude::*;
use crate::distance::{damerau_levenshtein, end_qualifies, is_best_end, MatchLength};
use crate::subsequence::{is_greedy_result, spec_token_align};

verus! {

/// The shape of an alignment.
#[derive(Clone, Copy, Debug, PartialEq, Eq, Structural)]
pub enum AlignmentKind {
    /// The query occurs as a substring.
    Contiguous { crosses_token_boundary: bool, token_starts: bool },
    /// The query occurs as a subsequence.
    Subsequence { crosses_token_boundary: bool, token_starts: bool, token_progression: bool },
    /// The query matches a prefix with edits.
    Fuzzy,
}

/// How a query lines up with a term: its edits; its gaps, the term
/// characters that the match leaves out (those beside the query for a
/// substring, those between its characters for a subsequence, those after
/// the consumed prefix for a fuzzy match), capped; where the match starts;
/// and its shape.
#[derive(Clone, Copy, Debug, PartialEq, Eq, Structural)]
pub struct Alignment {
    pub edits: u16,
    pub gaps: u16,
    pub start: u16,
    pub kind: AlignmentKind,
}

impl Alignment {
    pub open spec fn spec_is_contiguous(self) -> bool {
        self.kind is Contiguous
    }

    pub open spec fn spec_crosses_token_boundary(self) -> bool {
        match self.kind {
            AlignmentKind::Contiguous { crosses_token_boundary, .. } => crosses_token_boundary,
            AlignmentKind::Subsequence { crosses_token_boundary, .. } => crosses_token_boundary,
            AlignmentKind::Fuzzy => false,
        }
    }

    pub open spec fn spec_token_starts(self) -> bool {
        match self.kind {
            AlignmentKind::Contiguous { token_starts, .. } => token_starts,
            AlignmentKind::Subsequence { token_starts, .. } => token_starts,
            AlignmentKind::Fuzzy => false,
        }
    }

    pub open spec fn spec_token_progression(self) -> bool {
        match self.kind {
            AlignmentKind::Contiguous { .. } => true,
            AlignmentKind::Subsequence { token_progression, .. } => token_progression,
            AlignmentKind::Fuzzy => false,
        }
    }

    /// Whether the query occurs as a substring.
    pub fn is_contiguous(&self) -> (r: bool)
        ensures
            r == self.spec_is_contiguous(),
    {
        matches!(self.kind, AlignmentKind::Contiguous { .. })
    }

    /// Whether the matched characters span more than one token.
    pub fn crosses_token_boundary(&self) -> (r: bool)
        ensures
            r == self.spec_crosses_token_boundary(),
    {
        match self.kind {
            AlignmentKind::Contiguous { crosses_token_boundary, .. } => crosses_token_boundary,
            AlignmentKind::Subsequence { crosses_token_boundary, .. } => crosses_token_boundary,
            AlignmentKind::Fuzzy => false,
        }
    }

    /// Whether every matched character starts a token.
    pub fn token_starts(&self) -> (r: bool)
        ensures
            r == self.spec_token_starts(),
    {
        match self.kind {
            AlignmentKind::Contiguous { token_starts, .. } => token_starts,
            AlignmentKind::Subsequence { token_starts, .. } => token_starts,
            AlignmentKind::Fuzzy => false,
        }
    }

    /// Whether the match enters each later token at its first character.
    pub fn token_progression(&self) -> (r: bool)
        ensures
            r == self.spec_token_progression(),
    {
        match self.kind {
            AlignmentKind::Contiguous { .. } => true,
            AlignmentKind::Subsequence { token_progression, .. } => token_progression,
            AlignmentKind::Fuzzy => false,
        }
    }
}

/// A count or position saturated to `u16`.
pub open spec fn spec_capped(value: int) -> u16 {
    if value < u16::MAX {
        value as u16
    } else {
        u16::MAX
    }
}

pub fn capped(value: usize) -> (r: u16)
    ensures
        r == spec_capped(value as int),
{
    if value < u16::MAX as usize {
        value as u16
    } else {
        u16::MAX
    }
}

/// Whether `position` is recorded as the start of a token (positions are
/// recorded saturated to `u16`).
pub open spec fn is_token_start(token_starts: Seq<u16>, position: int) -> bool {
    token_starts.contains(spec_capped(position))
}

pub fn contains_start(token_starts: &[u16], position: usize) -> (r: bool)
    ensures
        r == is_token_start(token_starts@, position as int),
{
    let target = capped(position);
    let mut index: usize = 0;
    while index < token_starts.len()
        invariant
            index <= token_starts@.len(),
            target == spec_capped(position as int),
            forall|x: int| 0 <= x < index ==> token_starts@[x] != target,
        decreases token_starts@.len() - index,
    {
        if token_starts[index] == target {
            assert(token_starts@[index as int] == target);
            return true;
        }
        index = index + 1;
    }
    false
}

/// `query` occurs in `candidate` at `start`.
pub open spec fn occurs_at(query: Seq<char>, candidate: Seq<char>, start: int) -> bool {
    &&& 0 <= start
    &&& start + query.len() <= candidate.len()
    &&& candidate.subrange(start, start + query.len()) == query
}

/// `start` is the first position at which `query` occurs in `candidate`.
pub open spec fn is_first_occurrence(query: Seq<char>, candidate: Seq<char>, start: int) -> bool {
    &&& occurs_at(query, candidate, start)
    &&& forall|other: int| 0 <= other < start ==> !occurs_at(query, candidate, other)
}

/// The alignment of a substring match at `start`.
pub open spec fn contiguous_alignment(
    query_len: int,
    candidate_len: int,
    token_starts: Seq<u16>,
    start: int,
) -> Alignment {
    Alignment {
        edits: 0,
        gaps: spec_capped(candidate_len - query_len),
        start: spec_capped(start),
        kind: AlignmentKind::Contiguous {
            crosses_token_boundary: (exists|i: int|
                0 <= i < token_starts.len() && start < (#[trigger] token_starts[i] as int) && (
                token_starts[i] as int) < start + query_len),
            token_starts: (forall|position: int|
                start <= position < start + query_len ==> #[trigger] is_token_start(
                    token_starts,
                    position,
                )),
        },
    }
}

/// The subsequence alignment: leftmost for a term with at most one token,
/// token-aware otherwise.
pub open spec fn is_subsequence_result(
    query: Seq<char>,
    candidate: Seq<char>,
    token_starts: Seq<u16>,
    result: Option<Alignment>,
) -> bool {
    if token_starts.len() <= 1 {
        is_greedy_result(query, candidate, token_starts, result)
    } else {
        result == spec_token_align(query, candidate, token_starts)
    }
}

/// The fuzzy prefix alignment: the best bounded-edit prefix of `candidate`.
pub open spec fn is_fuzzy_result(
    query: Seq<char>,
    candidate: Seq<char>,
    max_edits: nat,
    result: Option<Alignment>,
) -> bool {
    match result {
        None => forall|e: nat| !end_qualifies(query, candidate, max_edits, MatchLength::Prefix, e),
        Some(alignment) => exists|end: nat|
            {
                &&& is_best_end(
                    query,
                    candidate,
                    max_edits,
                    MatchLength::Prefix,
                    alignment.edits as nat,
                    end,
                )
                &&& alignment == Alignment {
                    edits: alignment.edits,
                    gaps: spec_capped(candidate.len() - end),
                    start: 0,
                    kind: AlignmentKind::Fuzzy,
                }
            },
    }
}

/// What `align` returns: see its documentation.
pub open spec fn is_align_result(
    query: Seq<char>,
    candidate: Seq<char>,
    token_starts: Seq<u16>,
    max_edits: nat,
    result: Option<Alignment>,
) -> bool {
    &&& forall|start: int|
            is_first_occurrence(query, candidate, start) ==> {
                let contiguous = Some(
                    contiguous_alignment(
                        query.len() as int,
                        candidate.len() as int,
                        token_starts,
                        start,
                    ),
                );
                if start == 0 || token_starts.len() <= 1 {
                    result == contiguous
                } else {
                    let subsequence = spec_token_align(query, candidate, token_starts);
                    result == if subsequence matches Some(s) && s.spec_crosses_token_boundary()
                        && s.spec_token_progression() {
                        subsequence
                    } else {
                        contiguous
                    }
                }
            }
    &&& (forall|start: int| !occurs_at(query, candidate, start)) ==> {
            ||| result is Some && is_subsequence_result(query, candidate, token_starts, result)
            ||| is_subsequence_result(query, candidate, token_starts, None) && is_fuzzy_result(
                query,
                candidate,
                max_edits,
                result,
            )
        }
}

/// Finds the first occurrence of `query` in `candidate`.
fn find_substring(query: &[char], candidate: &[char]) -> (result: Option<usize>)
    requires
        query@.len() > 0,
    ensures
        match result {
            Some(start) => is_first_occurrence(query@, candidate@, start as int),
            None => forall|start: int| !occurs_at(query@, candidate@, start),
        },
{
    if query.len() > candidate.len() {
        return None;
    }
    let last_start = candidate.len() - query.len();
    let mut start: usize = 0;
    while start <= last_start
        invariant
            last_start == candidate@.len() - query@.len(),
            query@.len() <= candidate@.len(),
            query@.len() > 0,
            candidate@.len() <= usize::MAX,
            forall|other: int| 0 <= other < start ==> !occurs_at(query@, candidate@, other),
        decreases last_start + 1 - start,
    {
        let mut offset: usize = 0;
        let mut matching = true;
        while matching && offset < query.len()
            invariant
                offset <= query@.len(),
                query@.len() <= candidate@.len(),
                query@.len() > 0,
                candidate@.len() <= usize::MAX,
                start <= last_start,
                start + query@.len() <= candidate@.len(),
                last_start == candidate@.len() - query@.len(),
                forall|x: int| 0 <= x < offset ==> candidate@[start + x] == query@[x],
                !matching ==> offset < query@.len() && candidate@[start + offset] != query@[offset as int],
            decreases query@.len() - offset + if matching {
                1int
            } else {
                0int
            },
        {
            if candidate[start + offset] == query[offset] {
                offset = offset + 1;
            } else {
                matching = false;
            }
        }
        if matching {
            assert(candidate@.subrange(start as int, start + query@.len()) =~= query@);
            return Some(start);
        }
        assert(candidate@.subrange(start as int, start + query@.len())[offset as int]
            != query@[offset as int]);
        start = start + 1;
    }
    None
}

/// Aligns a non-empty query with a candidate term: the first substring match,
/// unless a later token-initial path crosses tokens in a term with several
/// tokens; otherwise a subsequence match; otherwise a fuzzy prefix match
/// within `max_edits`.
pub fn align(query: &[char], candidate: &[char], token_starts: &[u16], max_edits: u16) -> (result:
    Option<Alignment>)
    requires
        query@.len() > 0,
        query@.len() <= usize::MAX / 8,
        candidate@.len() <= usize::MAX / 8,
        token_starts@.len() > 1 && !occurs_at(query@, candidate@, 0) ==> forall|i: int|
            0 <= i < token_starts@.len() ==> #[trigger] token_starts@[i] < candidate@.len(),
    ensures
        is_align_result(query@, candidate@, token_starts@, max_edits as nat, result),
        result matches Some(a) ==> a.edits <= max_edits,
{
    let query_len = query.len();
    if let Some(start) = find_substring(query, candidate) {
        let mut crosses = false;
        let mut index: usize = 0;
        while index < token_starts.len()
            invariant
                index <= token_starts@.len(),
                query_len == query@.len(),
                start + query_len <= candidate@.len(),
                crosses == exists|i: int|
                    0 <= i < index && start < (#[trigger] token_starts@[i] as int) && (
                    token_starts@[i] as int) < start + query_len,
            decreases token_starts@.len() - index,
        {
            let boundary = token_starts[index] as usize;
            if boundary > start && boundary - start < query_len {
                crosses = true;
            }
            index = index + 1;
        }
        let mut all_starts = true;
        let end = start + query_len;
        let mut position = start;
        while position < end
            invariant
                start <= position <= start + query_len,
                end == start + query_len,
                query_len == query@.len(),
                start + query_len <= candidate@.len(),
                all_starts == forall|p: int|
                    start <= p < position ==> #[trigger] is_token_start(token_starts@, p),
            decreases start + query_len - position,
        {
            if !contains_start(token_starts, position) {
                all_starts = false;
            }
            position = position + 1;
        }
        let contiguous = Alignment {
            edits: 0,
            gaps: capped(candidate.len() - query_len),
            start: capped(start),
            kind: AlignmentKind::Contiguous { crosses_token_boundary: crosses, token_starts: all_starts },
        };
        proof {
            assert forall|other: int| is_first_occurrence(query@, candidate@, other) implies other
                == start by {
                if other < start {
                } else if other > start {
                }
            }
        }
        if start == 0 || token_starts.len() <= 1 {
            return Some(contiguous);
        }
        if let Some(subsequence) = crate::subsequence::align(query, candidate, token_starts) {
            if subsequence.crosses_token_boundary() && subsequence.token_progression() {
                return Some(subsequence);
            }
        }
        return Some(contiguous);
    }
    if let Some(alignment) = crate::subsequence::align(query, candidate, token_starts) {
        return Some(alignment);
    }
    match damerau_levenshtein(query, candidate, max_edits, MatchLength::Prefix) {
        None => None,
        Some((edits, end)) => Some(
            Alignment {
                edits,
                gaps: capped(candidate.len() - end),
                start: 0,
                kind: AlignmentKind::Fuzzy,
            },
        ),
    }
}


/// The fuzzy prefix alignment is one alignment.
pub proof fn lemma_fuzzy_unique(query: Seq<char>, candidate: Seq<char>, max_edits: nat, r1: Option<Alignment>, r2: Option<Alignment>)
    requires
        is_fuzzy_result(query, candidate, max_edits, r1),
        is_fuzzy_result(query, candidate, max_edits, r2),
    ensures
        r1 == r2,
{
    match (r1, r2) {
        (Some(a1), Some(a2)) => {
            let end1 = choose|end: nat|
                {
                    &&& is_best_end(query, candidate, max_edits, MatchLength::Prefix, a1.edits as nat, end)
                    &&& a1 == Alignment {
                        edits: a1.edits,
                        gaps: spec_capped(candidate.len() - end),
                        start: 0,
                        kind: AlignmentKind::Fuzzy,
                    }
                };
            let end2 = choose|end: nat|
                {
                    &&& is_best_end(query, candidate, max_edits, MatchLength::Prefix, a2.edits as nat, end)
                    &&& a2 == Alignment {
                        edits: a2.edits,
                        gaps: spec_capped(candidate.len() - end),
                        start: 0,
                        kind: AlignmentKind::Fuzzy,
                    }
                };
            crate::distance::lemma_best_end_unique(query, candidate, max_edits, MatchLength::Prefix, a1.edits as nat, end1, a2.edits as nat, end2);
        },
        (Some(a1), None) => {
            let end1 = choose|end: nat|
                {
                    &&& is_best_end(query, candidate, max_edits, MatchLength::Prefix, a1.edits as nat, end)
                    &&& a1 == Alignment {
                        edits: a1.edits,
                        gaps: spec_capped(candidate.len() - end),
                        start: 0,
                        kind: AlignmentKind::Fuzzy,
                    }
                };
            assert(end_qualifies(query, candidate, max_edits, MatchLength::Prefix, end1));
        },
        (None, Some(a2)) => {
            let end2 = choose|end: nat|
                {
                    &&& is_best_end(query, candidate, max_edits, MatchLength::Prefix, a2.edits as nat, end)
                    &&& a2 == Alignment {
                        edits: a2.edits,
                        gaps: spec_capped(candidate.len() - end),
                        start: 0,
                        kind: AlignmentKind::Fuzzy,
                    }
                };
            assert(end_qualifies(query, candidate, max_edits, MatchLength::Prefix, end2));
        },
        (None, None) => {},
    }
}


/// A query that occurs in a candidate has a first occurrence.
proof fn lemma_first_occurrence(query: Seq<char>, candidate: Seq<char>, start: int)
    requires
        occurs_at(query, candidate, start),
    ensures
        exists|first: int| is_first_occurrence(query, candidate, first),
    decreases start,
{
    if exists|other: int| 0 <= other < start && occurs_at(query, candidate, other) {
        let other = choose|other: int| 0 <= other < start && occurs_at(query, candidate, other);
        lemma_first_occurrence(query, candidate, other);
    } else {
        assert(is_first_occurrence(query, candidate, start));
    }
}

/// `align` gives one alignment: two results that both satisfy its
/// description are equal.
pub proof fn lemma_align_unique(
    query: Seq<char>,
    candidate: Seq<char>,
    token_starts: Seq<u16>,
    max_edits: nat,
    r1: Option<Alignment>,
    r2: Option<Alignment>,
)
    requires
        is_align_result(query, candidate, token_starts, max_edits, r1),
        is_align_result(query, candidate, token_starts, max_edits, r2),
    ensures
        r1 == r2,
{
    if exists|start: int| occurs_at(query, candidate, start) {
        let start = choose|start: int| occurs_at(query, candidate, start);
        lemma_first_occurrence(query, candidate, start);
        let first = choose|first: int| is_first_occurrence(query, candidate, first);
        assert(is_first_occurrence(query, candidate, first));
    } else {
        if token_starts.len() > 1 {
            assert(is_subsequence_result(query, candidate, token_starts, r1) || is_subsequence_result(query, candidate, token_starts, None));
        }
        if r1 is Some && is_subsequence_result(query, candidate, token_starts, r1) {
            if r2 is Some && is_subsequence_result(query, candidate, token_starts, r2) {
                lemma_subsequence_unique(query, candidate, token_starts, r1, r2);
            } else {
                lemma_subsequence_unique(query, candidate, token_starts, r1, None);
            }
        } else {
            if r2 is Some && is_subsequence_result(query, candidate, token_starts, r2) {
                lemma_subsequence_unique(query, candidate, token_starts, r2, None);
            } else {
                lemma_fuzzy_unique(query, candidate, max_edits, r1, r2);
            }
        }
    }
}

/// The subsequence alignment is one alignment.
proof fn lemma_subsequence_unique(query: Seq<char>, candidate: Seq<char>, token_starts: Seq<u16>, r1: Option<Alignment>, r2: Option<Alignment>)
    requires
        is_subsequence_result(query, candidate, token_starts, r1),
        is_subsequence_result(query, candidate, token_starts, r2),
    ensures
        r1 == r2,
{
    if token_starts.len() <= 1 {
        crate::subsequence::lemma_greedy_unique(query, candidate, token_starts, r1, r2);
    }
}

} // verus!

verus! {

/// What the flags of an alignment tell: a substring always follows the
/// tokens; an alignment with edits is a fuzzy one and carries no flag; with
/// at most one token start, only a substring follows the tokens; and a
/// subsequence that follows the tokens starts at a listed token start.
pub proof fn law_alignment_flags(
    query: Seq<char>,
    candidate: Seq<char>,
    token_starts: Seq<u16>,
    max_edits: nat,
    a: Alignment,
)
    requires
        query.len() > 0,
        candidate.len() < usize::MAX,
        is_align_result(query, candidate, token_starts, max_edits, Some(a)),
    ensures
        a.spec_is_contiguous() ==> a.spec_token_progression(),
        a.edits > 0 ==> a.kind is Fuzzy && !a.spec_token_progression() && !a.spec_token_starts()
            && !a.spec_crosses_token_boundary(),
        token_starts.len() <= 1 && !a.spec_is_contiguous() ==> !a.spec_token_progression(),
        a.spec_token_progression() && !a.spec_is_contiguous() ==> token_starts.contains(a.start),
{
    crate::subsequence::lemma_token_align_sound(query, candidate, token_starts);
    if token_starts.len() > 1 {
        let found = spec_token_align(query, candidate, token_starts);
        if found is Some {
            let s = found->0;
            let positions = choose|positions: Seq<int>|
                {
                    &&& #[trigger] crate::subsequence::is_embedding(query, candidate, positions)
                    &&& s == crate::subsequence::span_alignment(
                        positions[0],
                        positions.last(),
                        query.len() as int,
                        crate::subsequence::boundary_within(token_starts, positions[0], positions.last()),
                        crate::subsequence::all_listed(token_starts, positions),
                        s.spec_token_progression(),
                    )
                    &&& s.spec_token_progression() ==> {
                        &&& crate::subsequence::is_listed(token_starts, positions[0])
                        &&& forall|i: int|
                            0 < i < positions.len() ==> crate::subsequence::is_listed(token_starts, #[trigger] positions[i])
                                || !crate::subsequence::boundary_within(token_starts, positions[i - 1], positions[i])
                    }
                };
            if s.spec_token_progression() {
                let j = choose|j: int| 0 <= j < token_starts.len() && #[trigger] token_starts[j] as int == positions[0];
                assert(token_starts[j] == s.start);
            }
        }
    }
    if exists|start: int| occurs_at(query, candidate, start) {
        let start = choose|start: int| occurs_at(query, candidate, start);
        lemma_first_occurrence(query, candidate, start);
        let first = choose|first: int| is_first_occurrence(query, candidate, first);
        assert(is_first_occurrence(query, candidate, first));
    } else {
        if token_starts.len() <= 1 && is_greedy_result(query, candidate, token_starts, Some(a)) {
            let positions = choose|positions: Seq<int>|
                {
                    &&& crate::subsequence::is_leftmost_embedding(query, candidate, positions)
                    &&& a == crate::subsequence::span_alignment(
                        positions[0],
                        positions.last(),
                        query.len() as int,
                        false,
                        crate::subsequence::all_token_starts(token_starts, positions),
                        false,
                    )
                };
        }
        if is_fuzzy_result(query, candidate, max_edits, Some(a)) {
            assert(a.kind is Fuzzy);
        }
    }
}

} // verus!
