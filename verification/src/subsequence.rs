//! Subsequence alignments: the query's characters in order, with gaps.
use vstd::prelude::*;
use crate::alignment::{
    capped, contains_start, is_token_start, spec_capped, Alignment, AlignmentKind,
};

verus! {

/// `positions` embed `query` into `candidate`: strictly increasing positions
/// that hold the query's characters in order.
pub open spec fn is_embedding(query: Seq<char>, candidate: Seq<char>, positions: Seq<int>) -> bool {
    &&& positions.len() == query.len()
    &&& forall|t: int|
        #![trigger positions[t]]
        0 <= t < positions.len() ==> 0 <= positions[t] < candidate.len() && candidate[positions[t]]
            == query[t]
    &&& forall|t: int| #![trigger positions[t]] 0 < t < positions.len() ==> positions[t - 1] < positions[t]
}

/// The first position that `positions[t]` may take: just after the previous one.
pub open spec fn lower_limit(positions: Seq<int>, t: int) -> int {
    if t == 0 {
        0
    } else {
        positions[t - 1] + 1
    }
}

/// An embedding that takes, for each query character, its first occurrence
/// after the previous match.
pub open spec fn is_leftmost_embedding(
    query: Seq<char>,
    candidate: Seq<char>,
    positions: Seq<int>,
) -> bool {
    &&& is_embedding(query, candidate, positions)
    &&& forall|t: int, x: int|
        #![trigger positions[t], candidate[x]]
        0 <= t < positions.len() && lower_limit(positions, t) <= x < positions[t] ==> candidate[x]
            != query[t]
}

/// Whether every position of `positions` starts a token.
pub open spec fn all_token_starts(token_starts: Seq<u16>, positions: Seq<int>) -> bool {
    forall|t: int| #![trigger positions[t]] 0 <= t < positions.len() ==> is_token_start(token_starts, positions[t])
}

/// The number of positions of `positions` that start a token.
pub open spec fn count_token_starts(token_starts: Seq<u16>, positions: Seq<int>) -> nat
    decreases positions.len(),
{
    if positions.len() == 0 {
        0
    } else {
        count_token_starts(token_starts, positions.drop_last()) + if is_token_start(
            token_starts,
            positions.last(),
        ) {
            1nat
        } else {
            0nat
        }
    }
}

proof fn lemma_count_token_starts(token_starts: Seq<u16>, positions: Seq<int>)
    ensures
        count_token_starts(token_starts, positions) <= positions.len(),
        count_token_starts(token_starts, positions) == positions.len() <==> all_token_starts(
            token_starts,
            positions,
        ),
    decreases positions.len(),
{
    if positions.len() > 0 {
        let rest = positions.drop_last();
        lemma_count_token_starts(token_starts, rest);
        if all_token_starts(token_starts, positions) {
            assert forall|t: int| #![trigger rest[t]] 0 <= t < rest.len() implies is_token_start(
                token_starts,
                rest[t],
            ) by {
                assert(rest[t] == positions[t]);
            }
        }
        if count_token_starts(token_starts, positions) == positions.len() {
            assert forall|t: int|
                #![trigger positions[t]]
                0 <= t < positions.len() implies is_token_start(token_starts, positions[t]) by {
                if t < positions.len() - 1 {
                    assert(rest[t] == positions[t]);
                }
            }
        }
    }
}

/// The alignment that a subsequence with the given span describes.
pub open spec fn span_alignment(
    first: int,
    last: int,
    query_len: int,
    crosses_token_boundary: bool,
    token_starts: bool,
    token_progression: bool,
) -> Alignment {
    Alignment {
        edits: 0,
        gaps: spec_capped(last - first + 1 - query_len),
        start: spec_capped(first),
        kind: AlignmentKind::Subsequence {
            crosses_token_boundary,
            token_starts,
            token_progression,
        },
    }
}

/// Every embedding lies at or to the right of the leftmost one.
proof fn lemma_leftmost_is_lowest(
    query: Seq<char>,
    candidate: Seq<char>,
    leftmost: Seq<int>,
    other: Seq<int>,
    t: int,
)
    requires
        0 <= t < leftmost.len(),
        leftmost.len() <= other.len(),
        other.len() <= query.len(),
        forall|s: int|
            #![trigger leftmost[s]]
            0 <= s < leftmost.len() ==> 0 <= leftmost[s] < candidate.len() && candidate[leftmost[s]]
                == query[s],
        forall|s: int| #![trigger leftmost[s]] 0 < s < leftmost.len() ==> leftmost[s - 1] < leftmost[s],
        forall|s: int, x: int|
            #![trigger leftmost[s], candidate[x]]
            0 <= s < leftmost.len() && lower_limit(leftmost, s) <= x < leftmost[s] ==> candidate[x]
                != query[s],
        forall|s: int|
            #![trigger other[s]]
            0 <= s < other.len() ==> 0 <= other[s] < candidate.len() && candidate[other[s]]
                == query[s],
        forall|s: int| #![trigger other[s]] 0 < s < other.len() ==> other[s - 1] < other[s],
    ensures
        leftmost[t] <= other[t],
    decreases t,
{
    if t > 0 {
        lemma_leftmost_is_lowest(query, candidate, leftmost, other, t - 1);
        assert(other[t - 1] < other[t]);
    }
    if other[t] < leftmost[t] {
        assert(candidate[other[t]] == query[t]);
        assert(lower_limit(leftmost, t) <= other[t]);
    }
}

/// Matches each query character at its first occurrence after the previous
/// match, for terms with at most one token.
pub fn greedy(query: &[char], candidate: &[char], token_starts: &[u16]) -> (result: Option<
    Alignment,
>)
    ensures
        result is Some <==> query@.len() > 0 && exists|positions: Seq<int>|
            is_embedding(query@, candidate@, positions),
        result matches Some(alignment) ==> exists|positions: Seq<int>|
            {
                &&& is_leftmost_embedding(query@, candidate@, positions)
                &&& alignment == span_alignment(
                    positions[0],
                    positions.last(),
                    query@.len() as int,
                    false,
                    all_token_starts(token_starts@, positions),
                    false,
                )
            },
{
    if query.len() == 0 {
        return None;
    }
    let ghost q = query@;
    let ghost c = candidate@;
    let ghost mut positions: Seq<int> = Seq::empty();
    let mut candidate_index: usize = 0;
    let mut first: usize = 0;
    let mut last: usize = 0;
    let mut starts_count: usize = 0;
    let mut t: usize = 0;
    while t < query.len()
        invariant
            q == query@,
            c == candidate@,
            0 < q.len(),
            t <= q.len(),
            positions.len() == t,
            forall|s: int|
                #![trigger positions[s]]
                0 <= s < t ==> 0 <= positions[s] < c.len() && c[positions[s]] == q[s],
            forall|s: int| #![trigger positions[s]] 0 < s < t ==> positions[s - 1] < positions[s],
            forall|s: int, x: int|
                #![trigger positions[s], c[x]]
                0 <= s < t && lower_limit(positions, s) <= x < positions[s] ==> c[x] != q[s],
            t > 0 ==> candidate_index == positions[t - 1] + 1,
            t == 0 ==> candidate_index == 0,
            t > 0 ==> first == positions[0],
            t > 0 ==> last == positions[t - 1],
            t > 0 ==> positions[t - 1] - positions[0] >= t - 1,
            starts_count == count_token_starts(token_starts@, positions),
            starts_count <= t,
            candidate_index <= c.len(),
        decreases q.len() - t,
    {
        let character = query[t];
        let mut found = candidate_index;
        while found < candidate.len() && candidate[found] != character
            invariant
                candidate_index <= found <= c.len(),
                c == candidate@,
                forall|x: int| candidate_index <= x < found ==> c[x] != character,
            decreases c.len() - found,
        {
            found = found + 1;
        }
        if found == candidate.len() {
            proof {
                assert forall|other: Seq<int>| !is_embedding(q, c, other) by {
                    if is_embedding(q, c, other) {
                        if t > 0 {
                            lemma_leftmost_is_lowest(q, c, positions, other, t - 1);
                            assert(other[t - 1] < other[t as int]);
                        }
                        assert(c[other[t as int]] == q[t as int]);
                    }
                }
            }
            return None;
        }
        if t == 0 {
            first = found;
        }
        last = found;
        let is_start = contains_start(token_starts, found);
        if is_start {
            starts_count = starts_count + 1;
        }
        proof {
            let old_positions = positions;
            positions = positions.push(found as int);
            assert(positions.drop_last() == old_positions);
            assert forall|s: int, x: int|
                #![trigger positions[s], c[x]]
                0 <= s <= t && lower_limit(positions, s) <= x < positions[s] implies c[x] != q[s] by {
                if s < t {
                    assert(positions[s] == old_positions[s]);
                    assert(lower_limit(positions, s) == lower_limit(old_positions, s));
                }
            }
        }
        candidate_index = found + 1;
        t = t + 1;
    }
    proof {
        lemma_count_token_starts(token_starts@, positions);
        assert(is_leftmost_embedding(q, c, positions));
    }
    Some(
        Alignment {
            edits: 0,
            gaps: capped(last - first + 1 - query.len()),
            start: capped(first),
            kind: AlignmentKind::Subsequence {
                crosses_token_boundary: false,
                token_starts: starts_count == query.len(),
                token_progression: false,
            },
        },
    )
}

} // verus!

verus! {

/// A partial subsequence match: its first and last matched positions, how
/// many matched characters start a token, and how many steps moved to the
/// immediately following position.
#[derive(Clone, Copy, Debug, PartialEq, Eq, Structural)]
pub struct SubsequencePath {
    pub first: usize,
    pub last: usize,
    pub token_starts: usize,
    pub adjacent_steps: usize,
}

/// The best paths that end at one position: one that may only have moved
/// within a token, and one that entered each later token at its start.
#[derive(Clone, Copy, Debug, PartialEq, Eq, Structural)]
pub struct Slots {
    pub local: Option<SubsequencePath>,
    pub anchored: Option<SubsequencePath>,
}

/// The running bests while one DP row is scanned from left to right.
pub struct ScanState {
    pub local_best: Option<SubsequencePath>,
    pub anchored_best: Option<SubsequencePath>,
    pub anchored_current: Option<SubsequencePath>,
}

pub open spec fn spec_extend(path: SubsequencePath, position: int, token_start: bool) -> SubsequencePath {
    SubsequencePath {
        first: path.first,
        last: position as usize,
        token_starts: (path.token_starts + if token_start {
            1int
        } else {
            0int
        }) as usize,
        adjacent_steps: (path.adjacent_steps + if position == path.last + 1 {
            1int
        } else {
            0int
        }) as usize,
    }
}

/// The order in which partial paths that end at the same position compete:
/// more token starts, then more adjacent steps, then a later first position.
pub open spec fn key_greater(a: SubsequencePath, b: SubsequencePath) -> bool {
    ||| a.token_starts > b.token_starts
    ||| a.token_starts == b.token_starts && a.adjacent_steps > b.adjacent_steps
    ||| a.token_starts == b.token_starts && a.adjacent_steps == b.adjacent_steps && a.first > b.first
}

/// Keeps `path` in place of `best` when it compares strictly greater.
pub open spec fn spec_retain(path: SubsequencePath, best: Option<SubsequencePath>) -> Option<
    SubsequencePath,
> {
    match best {
        None => Some(path),
        Some(previous) => if key_greater(path, previous) {
            Some(path)
        } else {
            best
        },
    }
}

pub open spec fn retain_opt(path: Option<SubsequencePath>, best: Option<SubsequencePath>) -> Option<
    SubsequencePath,
> {
    match path {
        Some(p) => spec_retain(p, best),
        None => best,
    }
}

/// The anchored paths that end just before `position`, if there is one.
pub open spec fn anchored_before(row: Seq<Slots>, position: int) -> Option<SubsequencePath> {
    if position > 0 {
        row[position - 1].anchored
    } else {
        None
    }
}

/// The running bests after the scan has reached `position`: a token start
/// closes the previous token (its anchored paths, the one that ends on its
/// last character included, become available to later token starts, and its
/// paths no longer extend within a token); any other position admits the
/// paths that end just before it.
pub open spec fn scan(row: Seq<Slots>, starts: Seq<bool>, position: int) -> ScanState
    decreases position + 1,
{
    if position < 0 {
        ScanState { local_best: None, anchored_best: None, anchored_current: None }
    } else {
        let before = scan(row, starts, position - 1);
        if starts[position] {
            ScanState {
                local_best: None,
                anchored_best: retain_opt(
                    retain_opt(anchored_before(row, position), before.anchored_current),
                    before.anchored_best,
                ),
                anchored_current: None,
            }
        } else if position > 0 {
            ScanState {
                local_best: retain_opt(
                    row[position - 1].anchored,
                    retain_opt(row[position - 1].local, before.local_best),
                ),
                anchored_best: before.anchored_best,
                anchored_current: retain_opt(row[position - 1].anchored, before.anchored_current),
            }
        } else {
            before
        }
    }
}

pub open spec fn extend_opt(path: Option<SubsequencePath>, position: int, token_start: bool) -> Option<
    SubsequencePath,
> {
    match path {
        Some(p) => Some(spec_extend(p, position, token_start)),
        None => None,
    }
}

/// The best paths ending at `position` once `character` is matched there.
pub open spec fn next_cell(
    row: Seq<Slots>,
    starts: Seq<bool>,
    candidate: Seq<char>,
    character: char,
    position: int,
) -> Slots {
    if candidate[position] != character {
        Slots { local: None, anchored: None }
    } else {
        let state = scan(row, starts, position);
        Slots {
            local: extend_opt(state.local_best, position, starts[position]),
            anchored: if starts[position] {
                extend_opt(state.anchored_best, position, true)
            } else {
                extend_opt(state.anchored_current, position, false)
            },
        }
    }
}

/// The single-character paths of the first query character.
pub open spec fn first_cell(starts: Seq<bool>, candidate: Seq<char>, character: char, position: int) -> Slots {
    if candidate[position] != character {
        Slots { local: None, anchored: None }
    } else {
        let path = SubsequencePath {
            first: position as usize,
            last: position as usize,
            token_starts: if starts[position] {
                1
            } else {
                0
            },
            adjacent_steps: 0,
        };
        Slots {
            local: Some(path),
            anchored: if starts[position] {
                Some(path)
            } else {
                None
            },
        }
    }
}

/// The DP row after matching the first `t + 1` query characters.
pub open spec fn dp_row(query: Seq<char>, candidate: Seq<char>, starts: Seq<bool>, t: nat) -> Seq<
    Slots,
>
    decreases t,
{
    if t == 0 {
        Seq::new(candidate.len(), |p: int| first_cell(starts, candidate, query[0], p))
    } else {
        let row = dp_row(query, candidate, starts, (t - 1) as nat);
        Seq::new(candidate.len(), |p: int| next_cell(row, starts, candidate, query[t as int], p))
    }
}

/// The order in which complete paths compete: anchored paths first, then
/// more token starts, more adjacent steps, a shorter span, an earlier start.
pub open spec fn final_greater(
    a: SubsequencePath,
    a_anchored: bool,
    b: SubsequencePath,
    b_anchored: bool,
) -> bool {
    ||| a_anchored && !b_anchored
    ||| a_anchored == b_anchored && key_greater_final(a, b)
}

pub open spec fn key_greater_final(a: SubsequencePath, b: SubsequencePath) -> bool {
    ||| a.token_starts > b.token_starts
    ||| a.token_starts == b.token_starts && a.adjacent_steps > b.adjacent_steps
    ||| a.token_starts == b.token_starts && a.adjacent_steps == b.adjacent_steps && a.last - a.first
        < b.last - b.first
    ||| a.token_starts == b.token_starts && a.adjacent_steps == b.adjacent_steps && a.last - a.first
        == b.last - b.first && a.first < b.first
}

pub open spec fn final_step(
    best: Option<(SubsequencePath, bool)>,
    path: Option<SubsequencePath>,
    anchored: bool,
) -> Option<(SubsequencePath, bool)> {
    match path {
        None => best,
        Some(p) => match best {
            None => Some((p, anchored)),
            Some((q, q_anchored)) => if final_greater(p, anchored, q, q_anchored) {
                Some((p, anchored))
            } else {
                best
            },
        },
    }
}

/// The best complete path among the first `count` positions of the last row,
/// visiting the within-token slot before the anchored slot of each position.
pub open spec fn final_best(row: Seq<Slots>, count: int) -> Option<(SubsequencePath, bool)>
    decreases count,
{
    if count <= 0 {
        None
    } else {
        let before = final_best(row, count - 1);
        final_step(final_step(before, row[count - 1].local, false), row[count - 1].anchored, true)
    }
}

/// Whether a token boundary lies inside `(first, last]`.
pub open spec fn boundary_within(token_starts: Seq<u16>, first: int, last: int) -> bool {
    exists|i: int| 0 <= i < token_starts.len() && first < #[trigger] token_starts[i] as int <= last
}

/// Whether `position` is one of `token_starts`.
pub open spec fn is_listed(token_starts: Seq<u16>, position: int) -> bool {
    exists|i: int| 0 <= i < token_starts.len() && #[trigger] token_starts[i] as int == position
}

pub open spec fn start_flags(candidate_len: nat, token_starts: Seq<u16>) -> Seq<bool> {
    Seq::new(candidate_len, |p: int| is_listed(token_starts, p))
}

/// The alignment that the token-aware DP chooses for a term with several
/// tokens.
pub open spec fn spec_token_align(query: Seq<char>, candidate: Seq<char>, token_starts: Seq<u16>) -> Option<
    Alignment,
> {
    if !candidate.contains(query[0]) {
        None
    } else {
        let starts = start_flags(candidate.len(), token_starts);
        let row = dp_row(query, candidate, starts, (query.len() - 1) as nat);
        match final_best(row, candidate.len() as int) {
            None => None,
            Some((path, anchored)) => Some(
                span_alignment(
                    path.first as int,
                    path.last as int,
                    query.len() as int,
                    boundary_within(token_starts, path.first as int, path.last as int),
                    path.token_starts == query.len(),
                    anchored,
                ),
            ),
        }
    }
}

} // verus!

verus! {

/// Bounds that keep path arithmetic in range: the path ends before `bound`,
/// spans at least `steps` positions and counts at most `steps + 1` matches.
pub open spec fn opt_ok(path: Option<SubsequencePath>, steps: int, bound: int) -> bool {
    path matches Some(p) ==> {
        &&& p.first <= p.last < bound
        &&& p.last - p.first >= steps
        &&& p.token_starts <= steps + 1
        &&& p.adjacent_steps <= steps
    }
}

pub open spec fn row_ok(row: Seq<Slots>, steps: int) -> bool {
    forall|p: int|
        #![trigger row[p]]
        0 <= p < row.len() ==> opt_ok(row[p].local, steps, p + 1) && opt_ok(
            row[p].anchored,
            steps,
            p + 1,
        )
}

impl SubsequencePath {
    fn extend(self, position: usize, token_start: bool) -> (r: Self)
        requires
            self.last < position,
            self.token_starts < usize::MAX,
            self.adjacent_steps < usize::MAX,
        ensures
            r == spec_extend(self, position as int, token_start),
    {
        SubsequencePath {
            first: self.first,
            last: position,
            token_starts: self.token_starts + if token_start {
                1
            } else {
                0
            },
            adjacent_steps: self.adjacent_steps + if position == self.last + 1 {
                1
            } else {
                0
            },
        }
    }

    fn retain(self, best: &mut Option<Self>)
        ensures
            *final(best) == spec_retain(self, *old(best)),
    {
        let replace = match best {
            None => true,
            Some(previous) => self.token_starts > previous.token_starts || (self.token_starts
                == previous.token_starts && self.adjacent_steps > previous.adjacent_steps) || (
            self.token_starts == previous.token_starts && self.adjacent_steps
                == previous.adjacent_steps && self.first > previous.first),
        };
        if replace {
            *best = Some(self);
        }
    }
}

fn retain_into(path: Option<SubsequencePath>, best: &mut Option<SubsequencePath>)
    ensures
        *final(best) == retain_opt(path, *old(best)),
{
    if let Some(p) = path {
        p.retain(best);
    }
}

fn final_greater_exec(a: SubsequencePath, a_anchored: bool, b: SubsequencePath, b_anchored: bool) -> (r: bool)
    requires
        a.first <= a.last,
        b.first <= b.last,
    ensures
        r == final_greater(a, a_anchored, b, b_anchored),
{
    if a_anchored != b_anchored {
        return a_anchored;
    }
    let a_span = a.last - a.first;
    let b_span = b.last - b.first;
    a.token_starts > b.token_starts || (a.token_starts == b.token_starts && a.adjacent_steps
        > b.adjacent_steps) || (a.token_starts == b.token_starts && a.adjacent_steps
        == b.adjacent_steps && a_span < b_span) || (a.token_starts == b.token_starts
        && a.adjacent_steps == b.adjacent_steps && a_span == b_span && a.first < b.first)
}

fn boundary_within_exec(token_starts: &[u16], first: usize, last: usize) -> (r: bool)
    ensures
        r == boundary_within(token_starts@, first as int, last as int),
{
    let mut index: usize = 0;
    while index < token_starts.len()
        invariant
            index <= token_starts@.len(),
            forall|i: int|
                0 <= i < index ==> !(first < #[trigger] token_starts@[i] as int <= last),
        decreases token_starts@.len() - index,
    {
        let boundary = token_starts[index] as usize;
        if boundary > first && boundary <= last {
            assert(first < token_starts@[index as int] as int <= last);
            return true;
        }
        index = index + 1;
    }
    false
}

/// The first DP row.
fn first_row(candidate: &[char], starts: &Vec<bool>, character: char) -> (row: Vec<Slots>)
    requires
        starts@.len() == candidate@.len(),
    ensures
        row@ == Seq::new(candidate@.len(), |p: int| first_cell(starts@, candidate@, character, p)),
        row_ok(row@, 0),
{
    let mut row: Vec<Slots> = Vec::new();
    let mut position: usize = 0;
    while position < candidate.len()
        invariant
            position <= candidate@.len(),
            starts@.len() == candidate@.len(),
            row@.len() == position,
            forall|p: int|
                0 <= p < position ==> #[trigger] row@[p] == first_cell(
                    starts@,
                    candidate@,
                    character,
                    p,
                ),
            row_ok(row@, 0),
        decreases candidate@.len() - position,
    {
        let mut cell = Slots { local: None, anchored: None };
        if candidate[position] == character {
            let path = SubsequencePath {
                first: position,
                last: position,
                token_starts: if starts[position] {
                    1
                } else {
                    0
                },
                adjacent_steps: 0,
            };
            cell.local = Some(path);
            if starts[position] {
                cell.anchored = Some(path);
            }
        }
        row.push(cell);
        position = position + 1;
    }
    assert(row@ =~= Seq::new(candidate@.len(), |p: int| first_cell(starts@, candidate@, character, p)));
    row
}

/// One DP step: the row after matching `character`, from the row before it.
fn next_row(
    candidate: &[char],
    starts: &Vec<bool>,
    paths: &Vec<Slots>,
    character: char,
    steps: usize,
) -> (next: Vec<Slots>)
    requires
        starts@.len() == candidate@.len(),
        paths@.len() == candidate@.len(),
        row_ok(paths@, steps as int),
        steps < usize::MAX - 1,
    ensures
        next@ == Seq::new(
            candidate@.len(),
            |p: int| next_cell(paths@, starts@, candidate@, character, p),
        ),
        row_ok(next@, steps + 1),
{
    let mut next: Vec<Slots> = Vec::new();
    let mut local_best: Option<SubsequencePath> = None;
    let mut anchored_best: Option<SubsequencePath> = None;
    let mut anchored_current: Option<SubsequencePath> = None;
    let mut position: usize = 0;
    let ghost row = paths@;
    let ghost flags = starts@;
    while position < candidate.len()
        invariant
            position <= candidate@.len(),
            row == paths@,
            flags == starts@,
            starts@.len() == candidate@.len(),
            paths@.len() == candidate@.len(),
            row_ok(row, steps as int),
            steps < usize::MAX - 1,
            next@.len() == position,
            forall|p: int|
                0 <= p < position ==> #[trigger] next@[p] == next_cell(
                    row,
                    flags,
                    candidate@,
                    character,
                    p,
                ),
            row_ok(next@, steps + 1),
            scan(row, flags, position - 1) == (ScanState {
                local_best,
                anchored_best,
                anchored_current,
            }),
            opt_ok(local_best, steps as int, position as int),
            opt_ok(anchored_best, steps as int, position as int),
            opt_ok(anchored_current, steps as int, position as int),
        decreases candidate@.len() - position,
    {
        let token_start = starts[position];
        if token_start {
            if position > 0 {
                retain_into(paths[position - 1].anchored, &mut anchored_current);
            }
            retain_into(anchored_current, &mut anchored_best);
            anchored_current = None;
            local_best = None;
        } else if position > 0 {
            let previous = paths[position - 1];
            retain_into(previous.local, &mut local_best);
            retain_into(previous.anchored, &mut local_best);
            retain_into(previous.anchored, &mut anchored_current);
        }
        assert(scan(row, flags, position as int) == (ScanState {
            local_best,
            anchored_best,
            anchored_current,
        }));
        let mut cell = Slots { local: None, anchored: None };
        if candidate[position] == character {
            if let Some(path) = local_best {
                cell.local = Some(path.extend(position, token_start));
            }
            if token_start {
                if let Some(path) = anchored_best {
                    cell.anchored = Some(path.extend(position, true));
                }
            } else if let Some(path) = anchored_current {
                cell.anchored = Some(path.extend(position, false));
            }
        }
        next.push(cell);
        position = position + 1;
    }
    assert(next@ =~= Seq::new(
        candidate@.len(),
        |p: int| next_cell(paths@, starts@, candidate@, character, p),
    ));
    next
}

} // verus!

verus! {

/// What `greedy` returns for `query` and `candidate`.
pub open spec fn is_greedy_result(
    query: Seq<char>,
    candidate: Seq<char>,
    token_starts: Seq<u16>,
    result: Option<Alignment>,
) -> bool {
    &&& result is Some <==> query.len() > 0 && exists|positions: Seq<int>|
        is_embedding(query, candidate, positions)
    &&& result matches Some(alignment) ==> exists|positions: Seq<int>|
        {
            &&& is_leftmost_embedding(query, candidate, positions)
            &&& alignment == span_alignment(
                positions[0],
                positions.last(),
                query.len() as int,
                false,
                all_token_starts(token_starts, positions),
                false,
            )
        }
}

/// Aligns `query` as a subsequence of `candidate`. A term with at most one
/// token takes the leftmost match of each character; a term with several
/// tokens runs the token-aware search of `spec_token_align`.
pub fn align(query: &[char], candidate: &[char], token_starts: &[u16]) -> (result: Option<Alignment>)
    requires
        query@.len() < usize::MAX - 2,
        token_starts@.len() > 1 ==> query@.len() > 0,
        token_starts@.len() > 1 ==> forall|i: int|
            0 <= i < token_starts@.len() ==> #[trigger] token_starts@[i] < candidate@.len(),
    ensures
        token_starts@.len() <= 1 ==> is_greedy_result(query@, candidate@, token_starts@, result),
        token_starts@.len() > 1 ==> result == spec_token_align(query@, candidate@, token_starts@),
{
    if token_starts.len() <= 1 {
        return greedy(query, candidate, token_starts);
    }
    let first_char = query[0];
    let mut index: usize = 0;
    while index < candidate.len() && candidate[index] != first_char
        invariant
            index <= candidate@.len(),
            first_char == query@[0],
            forall|x: int| 0 <= x < index ==> candidate@[x] != first_char,
        decreases candidate@.len() - index,
    {
        index = index + 1;
    }
    if index == candidate.len() {
        return None;
    }
    assert(candidate@[index as int] == query@[0]);
    assert(candidate@.contains(query@[0]));

    let mut starts: Vec<bool> = Vec::new();
    let mut position: usize = 0;
    while position < candidate.len()
        invariant
            position <= candidate@.len(),
            starts@.len() == position,
            forall|p: int| 0 <= p < position ==> !#[trigger] starts@[p],
        decreases candidate@.len() - position,
    {
        starts.push(false);
        position = position + 1;
    }
    let mut index: usize = 0;
    while index < token_starts.len()
        invariant
            index <= token_starts@.len(),
            starts@.len() == candidate@.len(),
            forall|i: int|
                0 <= i < token_starts@.len() ==> #[trigger] token_starts@[i] < candidate@.len(),
            forall|p: int|
                0 <= p < candidate@.len() ==> #[trigger] starts@[p] == is_listed(
                    token_starts@.take(index as int),
                    p,
                ),
        decreases token_starts@.len() - index,
    {
        let start = token_starts[index] as usize;
        starts.set(start, true);
        proof {
            let before = token_starts@.take(index as int);
            let after = token_starts@.take(index + 1);
            assert forall|p: int| 0 <= p < candidate@.len() implies #[trigger] starts@[p] == is_listed(
                after,
                p,
            ) by {
                if is_listed(after, p) {
                    let i = choose|i: int| 0 <= i < after.len() && #[trigger] after[i] as int == p;
                    if i < index {
                        assert(before[i] == after[i]);
                    }
                }
                if is_listed(before, p) {
                    let i = choose|i: int| 0 <= i < before.len() && #[trigger] before[i] as int == p;
                    assert(before[i] == after[i]);
                }
                if p == start {
                    assert(after[index as int] as int == p);
                }
            }
        }
        index = index + 1;
    }
    assert(token_starts@.take(token_starts@.len() as int) =~= token_starts@);
    assert(starts@ =~= start_flags(candidate@.len(), token_starts@));

    let mut paths = first_row(candidate, &starts, query[0]);
    let ghost q = query@;
    let ghost flags = starts@;
    assert(paths@ =~= dp_row(q, candidate@, flags, 0));
    let mut t: usize = 1;
    while t < query.len()
        invariant
            1 <= t <= q.len(),
            q == query@,
            q.len() < usize::MAX - 2,
            flags == starts@,
            starts@.len() == candidate@.len(),
            paths@.len() == candidate@.len(),
            paths@ == dp_row(q, candidate@, flags, (t - 1) as nat),
            row_ok(paths@, (t - 1) as int),
        decreases q.len() - t,
    {
        let next = next_row(candidate, &starts, &paths, query[t], t - 1);
        paths = next;
        t = t + 1;
    }

    let mut best: Option<(SubsequencePath, bool)> = None;
    let mut position: usize = 0;
    while position < candidate.len()
        invariant
            position <= candidate@.len(),
            paths@.len() == candidate@.len(),
            row_ok(paths@, (q.len() - 1) as int),
            best == final_best(paths@, position as int),
            best matches Some((p, _)) ==> opt_ok(Some(p), (q.len() - 1) as int, candidate@.len() as int),
        decreases candidate@.len() - position,
    {
        let slots = paths[position];
        if let Some(path) = slots.local {
            let replace = match best {
                None => true,
                Some((previous, previous_anchored)) => final_greater_exec(
                    path,
                    false,
                    previous,
                    previous_anchored,
                ),
            };
            if replace {
                best = Some((path, false));
            }
        }
        if let Some(path) = slots.anchored {
            let replace = match best {
                None => true,
                Some((previous, previous_anchored)) => final_greater_exec(
                    path,
                    true,
                    previous,
                    previous_anchored,
                ),
            };
            if replace {
                best = Some((path, true));
            }
        }
        position = position + 1;
    }
    let (path, anchored) = match best {
        Some(found) => found,
        None => {
            return None;
        },
    };
    let crosses = boundary_within_exec(token_starts, path.first, path.last);
    Some(
        Alignment {
            edits: 0,
            gaps: capped(path.last - path.first + 1 - query.len()),
            start: capped(path.first),
            kind: AlignmentKind::Subsequence {
                crosses_token_boundary: crosses,
                token_starts: path.token_starts == query.len(),
                token_progression: anchored,
            },
        },
    )
}


/// A query has one leftmost embedding in a candidate.
pub proof fn lemma_leftmost_unique(query: Seq<char>, candidate: Seq<char>, a: Seq<int>, b: Seq<int>)
    requires
        is_leftmost_embedding(query, candidate, a),
        is_leftmost_embedding(query, candidate, b),
    ensures
        a == b,
{
    assert forall|t: int| 0 <= t < a.len() implies a[t] == b[t] by {
        lemma_leftmost_agree(query, candidate, a, b, t);
    }
    assert(a =~= b);
}

proof fn lemma_leftmost_agree(query: Seq<char>, candidate: Seq<char>, a: Seq<int>, b: Seq<int>, t: int)
    requires
        is_leftmost_embedding(query, candidate, a),
        is_leftmost_embedding(query, candidate, b),
        0 <= t < a.len(),
    ensures
        a[t] == b[t],
    decreases t,
{
    if t > 0 {
        lemma_leftmost_agree(query, candidate, a, b, t - 1);
    }
    assert(lower_limit(a, t) == lower_limit(b, t));
    if a[t] < b[t] {
        assert(candidate[a[t]] == query[t]);
        assert(lower_limit(b, t) <= a[t] < b[t]);
    } else if b[t] < a[t] {
        assert(candidate[b[t]] == query[t]);
        assert(lower_limit(a, t) <= b[t] < a[t]);
    }
}

/// The greedy subsequence alignment is one alignment: two results that both
/// satisfy its description are equal.
pub proof fn lemma_greedy_unique(query: Seq<char>, candidate: Seq<char>, token_starts: Seq<u16>, r1: Option<Alignment>, r2: Option<Alignment>)
    requires
        is_greedy_result(query, candidate, token_starts, r1),
        is_greedy_result(query, candidate, token_starts, r2),
    ensures
        r1 == r2,
{
    if r1 is Some {
        let p1 = choose|positions: Seq<int>|
            {
                &&& is_leftmost_embedding(query, candidate, positions)
                &&& r1->0 == span_alignment(
                    positions[0],
                    positions.last(),
                    query.len() as int,
                    false,
                    all_token_starts(token_starts, positions),
                    false,
                )
            };
        let p2 = choose|positions: Seq<int>|
            {
                &&& is_leftmost_embedding(query, candidate, positions)
                &&& r2->0 == span_alignment(
                    positions[0],
                    positions.last(),
                    query.len() as int,
                    false,
                    all_token_starts(token_starts, positions),
                    false,
                )
            };
        lemma_leftmost_unique(query, candidate, p1, p2);
    }
}

} // verus!

verus! {

/// The number of `positions` that `flags` marks as token starts.
pub open spec fn count_flags(flags: Seq<bool>, positions: Seq<int>) -> nat
    decreases positions.len(),
{
    if positions.len() == 0 {
        0
    } else {
        count_flags(flags, positions.drop_last()) + if flags[positions.last()] {
            1nat
        } else {
            0nat
        }
    }
}

proof fn lemma_count_flags(flags: Seq<bool>, positions: Seq<int>)
    ensures
        count_flags(flags, positions) <= positions.len(),
        count_flags(flags, positions) == positions.len() <==> forall|t: int|
            0 <= t < positions.len() ==> #[trigger] flags[positions[t]],
    decreases positions.len(),
{
    if positions.len() > 0 {
        let rest = positions.drop_last();
        lemma_count_flags(flags, rest);
        if forall|t: int| 0 <= t < positions.len() ==> #[trigger] flags[positions[t]] {
            assert forall|t: int| 0 <= t < rest.len() implies #[trigger] flags[rest[t]] by {
                assert(rest[t] == positions[t]);
                assert(flags[positions[t]]);
            }
            assert(flags[positions[positions.len() - 1]]);
        }
        if count_flags(flags, positions) == positions.len() {
            assert forall|t: int| 0 <= t < positions.len() implies #[trigger] flags[positions[t]] by {
                if t < positions.len() - 1 {
                    assert(rest[t] == positions[t]);
                    assert(flags[rest[t]]);
                }
            }
        }
    }
}

/// No token starts in `(after, upto]`.
pub open spec fn no_flag_between(flags: Seq<bool>, after: int, upto: int) -> bool {
    forall|b: int| after < b <= upto ==> !#[trigger] flags[b]
}

/// `positions` is a non-empty embedding of `query` into `candidate` whose
/// first and last positions, and number of token starts, are those of `path`.
pub open spec fn represents(
    query: Seq<char>,
    candidate: Seq<char>,
    flags: Seq<bool>,
    path: SubsequencePath,
    positions: Seq<int>,
) -> bool {
    &&& positions.len() > 0
    &&& is_embedding(query, candidate, positions)
    &&& path.first == positions[0]
    &&& path.last == positions.last()
    &&& path.token_starts == count_flags(flags, positions)
    &&& positions.len() <= positions.last() + 1
}

/// The embedding begins at a token start and enters every later token at
/// its first character.
pub open spec fn enters_at_starts(flags: Seq<bool>, positions: Seq<int>) -> bool {
    &&& flags[positions[0]]
    &&& forall|i: int|
        #![trigger positions[i]]
        0 < i < positions.len() ==> flags[positions[i]] || no_flag_between(flags, positions[i - 1], positions[i])
}

/// A path in a slot stands for an embedding of `query`; one in an anchored
/// slot also enters its tokens at their starts.
pub open spec fn slot_sound(
    query: Seq<char>,
    candidate: Seq<char>,
    flags: Seq<bool>,
    slot: Option<SubsequencePath>,
    anchored: bool,
) -> bool {
    slot is Some ==> exists|positions: Seq<int>|
        #[trigger] represents(query, candidate, flags, slot->0, positions) && (anchored ==> enters_at_starts(
            flags,
            positions,
        ))
}

pub open spec fn row_sound(query: Seq<char>, candidate: Seq<char>, flags: Seq<bool>, row: Seq<Slots>) -> bool {
    forall|p: int|
        #![trigger row[p]]
        0 <= p < row.len() ==> {
            &&& slot_sound(query, candidate, flags, row[p].local, false)
            &&& slot_sound(query, candidate, flags, row[p].anchored, true)
            &&& row[p].local matches Some(x) ==> x.last == p
            &&& row[p].anchored matches Some(x) ==> x.last == p
        }
}

proof fn lemma_retain_opt(a: Option<SubsequencePath>, b: Option<SubsequencePath>)
    ensures
        retain_opt(a, b) == a || retain_opt(a, b) == b,
{
}

/// The running bests of a scan hold paths of the row that end before the
/// scanned position; the anchored paths of the current token are followed
/// by no token start up to it.
proof fn lemma_scan_sound(query: Seq<char>, candidate: Seq<char>, flags: Seq<bool>, row: Seq<Slots>, pos: int)
    requires
        row_sound(query, candidate, flags, row),
        row.len() == flags.len(),
        -1 <= pos < row.len(),
    ensures
        ({
            let st = scan(row, flags, pos);
            &&& slot_sound(query, candidate, flags, st.local_best, false)
            &&& slot_sound(query, candidate, flags, st.anchored_best, true)
            &&& slot_sound(query, candidate, flags, st.anchored_current, true)
            &&& st.local_best matches Some(x) ==> x.last < pos
            &&& st.anchored_best matches Some(x) ==> x.last < pos
            &&& st.anchored_current matches Some(x) ==> x.last < pos && no_flag_between(flags, x.last as int, pos)
        }),
    decreases pos + 1,
{
    if pos >= 0 {
        lemma_scan_sound(query, candidate, flags, row, pos - 1);
        let before = scan(row, flags, pos - 1);
        if flags[pos] {
            let joined = retain_opt(anchored_before(row, pos), before.anchored_current);
            lemma_retain_opt(anchored_before(row, pos), before.anchored_current);
            lemma_retain_opt(joined, before.anchored_best);
            if pos > 0 {
                assert(row_sound(query, candidate, flags, row) ==> slot_sound(query, candidate, flags, row[pos - 1].anchored, true));
            }
        } else if pos > 0 {
            let prev = row[pos - 1];
            lemma_retain_opt(prev.local, before.local_best);
            lemma_retain_opt(prev.anchored, retain_opt(prev.local, before.local_best));
            lemma_retain_opt(prev.anchored, before.anchored_current);
            let cur = retain_opt(prev.anchored, before.anchored_current);
            if cur is Some {
                let x = cur->0;
                assert forall|b: int| x.last < b <= pos implies !#[trigger] flags[b] by {
                    if b < pos {
                        assert(before.anchored_current == cur);
                    }
                }
            }
        }
    }
}

/// One more matched position extends an embedding.
proof fn lemma_extend_represents(
    query: Seq<char>,
    candidate: Seq<char>,
    flags: Seq<bool>,
    t: int,
    path: SubsequencePath,
    positions: Seq<int>,
    p: int,
)
    requires
        1 <= t < query.len(),
        represents(query.take(t), candidate, flags, path, positions),
        path.last < p < candidate.len(),
        candidate.len() < usize::MAX,
        candidate[p] == query[t],
    ensures
        represents(query.take(t as int + 1), candidate, flags, spec_extend(path, p, flags[p]), positions.push(p)),
{
    let q = query.take(t as int + 1);
    let next = positions.push(p);
    lemma_count_flags(flags, positions);
    assert(next.drop_last() =~= positions);
    assert forall|s: int| #![trigger next[s]] 0 <= s < next.len() implies 0 <= next[s] < candidate.len()
        && candidate[next[s]] == q[s] by {
        if s < t {
            assert(next[s] == positions[s]);
            assert(query.take(t)[s] == q[s]);
        }
    }
    assert forall|s: int| #![trigger next[s]] 0 < s < next.len() implies next[s - 1] < next[s] by {
        if s < t {
            assert(next[s] == positions[s]);
            assert(next[s - 1] == positions[s - 1]);
        }
    }
}

/// Every path of a DP row stands for an embedding of the query's first
/// characters that ends where the path ends.
proof fn lemma_row_sound(query: Seq<char>, candidate: Seq<char>, flags: Seq<bool>, t: nat)
    requires
        flags.len() == candidate.len(),
        candidate.len() < usize::MAX,
        t < query.len(),
    ensures
        row_sound(query.take(t as int + 1), candidate, flags, dp_row(query, candidate, flags, t)),
        dp_row(query, candidate, flags, t).len() == candidate.len(),
    decreases t,
{
    let row = dp_row(query, candidate, flags, t);
    if t == 0 {
        assert forall|p: int| #![trigger row[p]] 0 <= p < row.len() implies {
            &&& slot_sound(query.take(1), candidate, flags, row[p].local, false)
            &&& slot_sound(query.take(1), candidate, flags, row[p].anchored, true)
            &&& row[p].local matches Some(x) ==> x.last == p
            &&& row[p].anchored matches Some(x) ==> x.last == p
        } by {
            assert(row[p] == first_cell(flags, candidate, query[0], p));
            if candidate[p] == query[0] {
                let positions = seq![p];
                let path = row[p].local->0;
                assert(positions.drop_last() =~= Seq::<int>::empty());
                assert(count_flags(flags, Seq::<int>::empty()) == 0);
                assert(count_flags(flags, positions) == if flags[p] { 1nat } else { 0nat });
                assert(query.take(1)[0] == query[0]);
                assert(is_embedding(query.take(1), candidate, positions));
                assert(represents(query.take(1), candidate, flags, path, positions));
            }
        }
    } else {
        let before = dp_row(query, candidate, flags, (t - 1) as nat);
        lemma_row_sound(query, candidate, flags, (t - 1) as nat);
        let q0 = query.take(t as int);
        assert forall|p: int| #![trigger row[p]] 0 <= p < row.len() implies {
            &&& slot_sound(query.take(t as int + 1), candidate, flags, row[p].local, false)
            &&& slot_sound(query.take(t as int + 1), candidate, flags, row[p].anchored, true)
            &&& row[p].local matches Some(x) ==> x.last == p
            &&& row[p].anchored matches Some(x) ==> x.last == p
        } by {
            assert(row[p] == next_cell(before, flags, candidate, query[t as int], p));
            if candidate[p] == query[t as int] {
                lemma_scan_sound(q0, candidate, flags, before, p);
                let st = scan(before, flags, p);
                if st.local_best is Some {
                    let x = st.local_best->0;
                    let positions = choose|positions: Seq<int>| #[trigger] represents(q0, candidate, flags, x, positions);
                    lemma_extend_represents(query, candidate, flags, t as int, x, positions, p);
                    assert(row[p].local == Some(spec_extend(x, p, flags[p])));
                    assert(represents(query.take(t as int + 1), candidate, flags, spec_extend(x, p, flags[p]), positions.push(p)));
                    assert(row[p].local is Some);
                    assert(represents(query.take(t as int + 1), candidate, flags, row[p].local->0, positions.push(p)));
                    assert(slot_sound(query.take(t as int + 1), candidate, flags, row[p].local, false));
                }
                let anchored_source = if flags[p] {
                    st.anchored_best
                } else {
                    st.anchored_current
                };
                if anchored_source is Some {
                    let x = anchored_source->0;
                    let positions = choose|positions: Seq<int>|
                        #[trigger] represents(q0, candidate, flags, x, positions) && enters_at_starts(flags, positions);
                    lemma_extend_represents(query, candidate, flags, t as int, x, positions, p);
                    let next = positions.push(p);
                    assert forall|i: int| #![trigger next[i]] 0 < i < next.len() implies flags[next[i]]
                        || no_flag_between(flags, next[i - 1], next[i]) by {
                        if i < next.len() - 1 {
                            assert(next[i] == positions[i]);
                            assert(next[i - 1] == positions[i - 1]);
                        }
                    }
                    assert(enters_at_starts(flags, next));
                    assert(row[p].anchored == Some(spec_extend(x, p, flags[p])));
                    assert(represents(query.take(t as int + 1), candidate, flags, spec_extend(x, p, flags[p]), next));
                    assert(represents(query.take(t as int + 1), candidate, flags, row[p].anchored->0, next));
                    assert(slot_sound(query.take(t as int + 1), candidate, flags, row[p].anchored, true));
                }
            }
        }
    }
}

/// The path that the final pass picks lies in the slot its flag names.
proof fn lemma_final_best(row: Seq<Slots>, count: int)
    requires
        count <= row.len(),
    ensures
        final_best(row, count) matches Some((path, anchored)) ==> exists|p: int|
            0 <= p < count && #[trigger] row[p] == row[p] && (if anchored {
                row[p].anchored
            } else {
                row[p].local
            }) == Some(path),
    decreases count,
{
    if count > 0 {
        lemma_final_best(row, count - 1);
    }
}

/// Whether every position of `positions` is a listed token start.
pub open spec fn all_listed(token_starts: Seq<u16>, positions: Seq<int>) -> bool {
    forall|t: int| 0 <= t < positions.len() ==> is_listed(token_starts, #[trigger] positions[t])
}

/// The token-aware search finds only embeddings: an alignment it returns
/// describes an embedding of the query, with the embedding's first position
/// as its start and the unmatched positions of its span as its gaps; it
/// marks token starts exactly when every matched position starts a token,
/// and it crosses a token boundary exactly when a token starts inside the
/// span after its first position. Its token progression starts at a token
/// and enters every later token at that token's first character.
pub proof fn lemma_token_align_sound(query: Seq<char>, candidate: Seq<char>, token_starts: Seq<u16>)
    requires
        query.len() > 0,
        candidate.len() < usize::MAX,
    ensures
        spec_token_align(query, candidate, token_starts) matches Some(a) ==> exists|positions: Seq<int>|
            {
                &&& #[trigger] is_embedding(query, candidate, positions)
                &&& a == span_alignment(
                    positions[0],
                    positions.last(),
                    query.len() as int,
                    boundary_within(token_starts, positions[0], positions.last()),
                    all_listed(token_starts, positions),
                    a.spec_token_progression(),
                )
                &&& a.spec_token_progression() ==> {
                    &&& is_listed(token_starts, positions[0])
                    &&& forall|i: int|
                        0 < i < positions.len() ==> is_listed(token_starts, #[trigger] positions[i])
                            || !boundary_within(token_starts, positions[i - 1], positions[i])
                }
            },
{
    let flags = start_flags(candidate.len(), token_starts);
    if candidate.contains(query[0]) {
        let t = (query.len() - 1) as nat;
        let row = dp_row(query, candidate, flags, t);
        lemma_row_sound(query, candidate, flags, t);
        assert(query.take(t as int + 1) =~= query);
        lemma_final_best(row, candidate.len() as int);
        if final_best(row, candidate.len() as int) is Some {
            let (path, anchored) = final_best(row, candidate.len() as int)->0;
            let p = choose|p: int|
                0 <= p < candidate.len() && #[trigger] row[p] == row[p] && (if anchored {
                    row[p].anchored
                } else {
                    row[p].local
                }) == Some(path);
            assert(row_sound(query, candidate, flags, row));
            assert(slot_sound(query, candidate, flags, if anchored { row[p].anchored } else { row[p].local }, anchored));
            let positions = choose|positions: Seq<int>|
                #[trigger] represents(query, candidate, flags, path, positions) && (anchored ==> enters_at_starts(
                    flags,
                    positions,
                ));
            lemma_count_flags(flags, positions);
            assert(forall|t: int| 0 <= t < positions.len() ==> flags[positions[t]] == is_listed(token_starts, #[trigger] positions[t]));
            assert(all_listed(token_starts, positions) == (path.token_starts == query.len()));
            let a = spec_token_align(query, candidate, token_starts)->0;
            assert(a.spec_token_progression() == anchored);
            if anchored {
                assert forall|i: int|
                    0 < i < positions.len() implies is_listed(token_starts, #[trigger] positions[i])
                        || !boundary_within(token_starts, positions[i - 1], positions[i]) by {
                    if !flags[positions[i]] && boundary_within(token_starts, positions[i - 1], positions[i]) {
                        let j = choose|j: int|
                            0 <= j < token_starts.len() && positions[i - 1] < #[trigger] token_starts[j] as int
                                <= positions[i];
                        let b = token_starts[j] as int;
                        assert(is_listed(token_starts, b));
                        assert(flags[b]);
                    }
                }
            }
            assert(is_embedding(query, candidate, positions));
        }
    }
}

} // verus!

verus! {

proof fn lemma_retain_opt_some(a: Option<SubsequencePath>, b: Option<SubsequencePath>)
    ensures
        a is Some || b is Some ==> retain_opt(a, b) is Some,
{
}

/// An anchored path that ends at `earlier` stays available to the scan: to
/// every later token start through `anchored_best`, and within its own token
/// through `anchored_current`.
proof fn lemma_scan_keeps_anchored(row: Seq<Slots>, flags: Seq<bool>, earlier: int, pos: int)
    requires
        row.len() == flags.len(),
        0 <= earlier < pos < row.len(),
        row[earlier].anchored is Some,
    ensures
        (exists|b: int| earlier < b <= pos && #[trigger] flags[b]) ==> scan(row, flags, pos).anchored_best is Some,
        no_flag_between(flags, earlier, pos) ==> scan(row, flags, pos).anchored_current is Some,
    decreases pos,
{
    let before = scan(row, flags, pos - 1);
    if pos > earlier + 1 {
        lemma_scan_keeps_anchored(row, flags, earlier, pos - 1);
    }
    let joined = retain_opt(anchored_before(row, pos), before.anchored_current);
    lemma_retain_opt_some(anchored_before(row, pos), before.anchored_current);
    lemma_retain_opt_some(joined, before.anchored_best);
    lemma_retain_opt_some(row[pos - 1].anchored, before.anchored_current);
    if flags[pos] {
        if pos > earlier + 1 {
            if !(exists|b: int| earlier < b <= pos - 1 && #[trigger] flags[b]) {
                assert(no_flag_between(flags, earlier, pos - 1));
            }
        }
    } else {
        if exists|b: int| earlier < b <= pos && #[trigger] flags[b] {
            let b = choose|b: int| earlier < b <= pos && #[trigger] flags[b];
            assert(b < pos);
            assert(pos > earlier + 1);
        }
        if no_flag_between(flags, earlier, pos) && pos > earlier + 1 {
            assert(no_flag_between(flags, earlier, pos - 1));
        }
    }
}

/// Every embedding of the query's first characters that starts a token and
/// enters each later token at its first character leaves an anchored path
/// where it ends.
proof fn lemma_anchored_found(query: Seq<char>, candidate: Seq<char>, flags: Seq<bool>, t: nat, positions: Seq<int>)
    requires
        flags.len() == candidate.len(),
        t < query.len(),
        is_embedding(query.take(t as int + 1), candidate, positions),
        enters_at_starts(flags, positions),
    ensures
        dp_row(query, candidate, flags, t)[positions.last()].anchored is Some,
    decreases t,
{
    let p = positions.last();
    assert(positions[t as int] == p);
    assert(query.take(t as int + 1)[t as int] == query[t as int]);
    if t == 0 {
        assert(dp_row(query, candidate, flags, t)[p] == first_cell(flags, candidate, query[0], p));
    } else {
        let prefix = positions.drop_last();
        assert forall|s: int| #![trigger prefix[s]] 0 <= s < prefix.len() implies 0 <= prefix[s] < candidate.len()
            && candidate[prefix[s]] == query.take(t as int)[s] by {
            assert(prefix[s] == positions[s]);
            assert(query.take(t as int)[s] == query.take(t as int + 1)[s]);
        }
        assert forall|s: int| #![trigger prefix[s]] 0 < s < prefix.len() implies prefix[s - 1] < prefix[s] by {
            assert(prefix[s] == positions[s]);
            assert(prefix[s - 1] == positions[s - 1]);
        }
        assert(prefix[0] == positions[0]);
        assert forall|i: int|
            #![trigger prefix[i]]
            0 < i < prefix.len() implies flags[prefix[i]] || no_flag_between(flags, prefix[i - 1], prefix[i]) by {
            assert(prefix[i] == positions[i]);
            assert(prefix[i - 1] == positions[i - 1]);
        }
        lemma_anchored_found(query, candidate, flags, (t - 1) as nat, prefix);
        let earlier = prefix.last();
        assert(earlier == positions[t - 1]);
        assert(earlier < p);
        let row = dp_row(query, candidate, flags, (t - 1) as nat);
        lemma_scan_keeps_anchored(row, flags, earlier, p);
        assert(dp_row(query, candidate, flags, t)[p] == next_cell(row, flags, candidate, query[t as int], p));
        if flags[p] {
            assert(flags[p] && earlier < p <= p);
        } else {
            assert(flags[positions[t as int]] || no_flag_between(flags, positions[t - 1], positions[t as int]));
        }
    }
}

/// Once the final pass has met an anchored path, it keeps an anchored one.
proof fn lemma_final_keeps_anchored(row: Seq<Slots>, count: int, found: int)
    requires
        0 <= found < count <= row.len(),
        row[found].anchored is Some,
    ensures
        final_best(row, count) matches Some((_, anchored)) && anchored,
    decreases count,
{
    if found < count - 1 {
        lemma_final_keeps_anchored(row, count - 1, found);
    }
}

/// Abbreviations are found: when the query embeds into the candidate
/// starting at a token start and entering every later token at its first
/// character, the token-aware search returns an alignment, and it is one
/// that follows the tokens.
pub proof fn law_token_paths_found(
    query: Seq<char>,
    candidate: Seq<char>,
    token_starts: Seq<u16>,
    positions: Seq<int>,
)
    requires
        query.len() > 0,
        is_embedding(query, candidate, positions),
        is_listed(token_starts, positions[0]),
        forall|i: int|
            0 < i < positions.len() ==> is_listed(token_starts, #[trigger] positions[i])
                || !boundary_within(token_starts, positions[i - 1], positions[i]),
    ensures
        spec_token_align(query, candidate, token_starts) matches Some(a) && a.spec_token_progression(),
{
    let flags = start_flags(candidate.len(), token_starts);
    let t = (query.len() - 1) as nat;
    assert(query.take(t as int + 1) =~= query);
    assert(candidate[positions[0]] == query[0]);
    assert(candidate.contains(query[0]));
    assert forall|i: int|
        #![trigger positions[i]]
        0 < i < positions.len() implies flags[positions[i]] || no_flag_between(flags, positions[i - 1], positions[i]) by {
        if !is_listed(token_starts, positions[i]) {
            assert(!boundary_within(token_starts, positions[i - 1], positions[i]));
            assert forall|b: int| positions[i - 1] < b <= positions[i] implies !#[trigger] flags[b] by {
                if flags[b] {
                    let j = choose|j: int| 0 <= j < token_starts.len() && #[trigger] token_starts[j] as int == b;
                    assert(positions[i - 1] < token_starts[j] as int <= positions[i]);
                }
            }
        }
    }
    assert(enters_at_starts(flags, positions));
    lemma_anchored_found(query, candidate, flags, t, positions);
    let row = dp_row(query, candidate, flags, t);
    assert(row.len() == candidate.len());
    assert(positions.last() == positions[t as int]);
    lemma_final_keeps_anchored(row, candidate.len() as int, positions.last());
}

} // verus!

verus! {

/// Whether `positions` embed `query` into `candidate` starting at a listed
/// token start and entering every later token at its first character.
pub open spec fn is_token_path(query: Seq<char>, candidate: Seq<char>, token_starts: Seq<u16>, positions: Seq<int>) -> bool {
    &&& is_embedding(query, candidate, positions)
    &&& is_listed(token_starts, positions[0])
    &&& forall|i: int|
        0 < i < positions.len() ==> is_listed(token_starts, #[trigger] positions[i]) || !boundary_within(
            token_starts,
            positions[i - 1],
            positions[i],
        )
}

/// The token-aware search chooses a path that follows the tokens exactly
/// when the query has such a path in the candidate.
pub proof fn law_token_progression_exactly(query: Seq<char>, candidate: Seq<char>, token_starts: Seq<u16>)
    requires
        query.len() > 0,
        candidate.len() < usize::MAX,
    ensures
        (spec_token_align(query, candidate, token_starts) matches Some(a) && a.spec_token_progression()) <==> exists|
            positions: Seq<int>,
        | #[trigger] is_token_path(query, candidate, token_starts, positions),
{
    lemma_token_align_sound(query, candidate, token_starts);
    if exists|positions: Seq<int>| #[trigger] is_token_path(query, candidate, token_starts, positions) {
        let positions = choose|positions: Seq<int>| #[trigger] is_token_path(query, candidate, token_starts, positions);
        law_token_paths_found(query, candidate, token_starts, positions);
    }
    if spec_token_align(query, candidate, token_starts) matches Some(a) && a.spec_token_progression() {
        let a = spec_token_align(query, candidate, token_starts)->0;
        let positions = choose|positions: Seq<int>|
            {
                &&& #[trigger] is_embedding(query, candidate, positions)
                &&& a == span_alignment(
                    positions[0],
                    positions.last(),
                    query.len() as int,
                    boundary_within(token_starts, positions[0], positions.last()),
                    all_listed(token_starts, positions),
                    a.spec_token_progression(),
                )
                &&& a.spec_token_progression() ==> {
                    &&& is_listed(token_starts, positions[0])
                    &&& forall|i: int|
                        0 < i < positions.len() ==> is_listed(token_starts, #[trigger] positions[i])
                            || !boundary_within(token_starts, positions[i - 1], positions[i])
                }
            };
        assert(is_token_path(query, candidate, token_starts, positions));
    }
}

} // verus!

verus! {

proof fn lemma_retain_opt_most(a: Option<SubsequencePath>, b: Option<SubsequencePath>)
    ensures
        a is Some || b is Some ==> retain_opt(a, b) is Some,
        retain_opt(a, b) is Some && a is Some ==> retain_opt(a, b)->0.token_starts >= a->0.token_starts,
        retain_opt(a, b) is Some && b is Some ==> retain_opt(a, b)->0.token_starts >= b->0.token_starts,
{
}

/// An anchored path that ends at `earlier` is matched or beaten in token
/// starts by what the scan keeps for later token starts and for the rest of
/// its token.
proof fn lemma_scan_keeps_most(row: Seq<Slots>, flags: Seq<bool>, earlier: int, pos: int)
    requires
        row.len() == flags.len(),
        0 <= earlier < pos < row.len(),
        row[earlier].anchored is Some,
    ensures
        (exists|b: int| earlier < b <= pos && #[trigger] flags[b]) ==> scan(row, flags, pos).anchored_best is Some
            && scan(row, flags, pos).anchored_best->0.token_starts >= row[earlier].anchored->0.token_starts,
        no_flag_between(flags, earlier, pos) ==> scan(row, flags, pos).anchored_current is Some && scan(
            row,
            flags,
            pos,
        ).anchored_current->0.token_starts >= row[earlier].anchored->0.token_starts,
    decreases pos,
{
    let before = scan(row, flags, pos - 1);
    if pos > earlier + 1 {
        lemma_scan_keeps_most(row, flags, earlier, pos - 1);
    }
    let joined = retain_opt(anchored_before(row, pos), before.anchored_current);
    lemma_retain_opt_most(anchored_before(row, pos), before.anchored_current);
    lemma_retain_opt_most(joined, before.anchored_best);
    lemma_retain_opt_most(row[pos - 1].anchored, before.anchored_current);
    if flags[pos] {
        if pos > earlier + 1 {
            if !(exists|b: int| earlier < b <= pos - 1 && #[trigger] flags[b]) {
                assert(no_flag_between(flags, earlier, pos - 1));
            }
        }
    } else {
        if exists|b: int| earlier < b <= pos && #[trigger] flags[b] {
            let b = choose|b: int| earlier < b <= pos && #[trigger] flags[b];
            assert(b < pos);
            assert(pos > earlier + 1);
        }
        if no_flag_between(flags, earlier, pos) && pos > earlier + 1 {
            assert(no_flag_between(flags, earlier, pos - 1));
        }
    }
}

/// The anchored slot where a token-following embedding ends holds a path
/// with at least as many token starts as the embedding.
proof fn lemma_anchored_most(query: Seq<char>, candidate: Seq<char>, flags: Seq<bool>, t: nat, positions: Seq<int>)
    requires
        flags.len() == candidate.len(),
        candidate.len() < usize::MAX,
        t < query.len(),
        is_embedding(query.take(t as int + 1), candidate, positions),
        enters_at_starts(flags, positions),
    ensures
        dp_row(query, candidate, flags, t)[positions.last()].anchored is Some,
        dp_row(query, candidate, flags, t)[positions.last()].anchored->0.token_starts >= count_flags(flags, positions),
    decreases t,
{
    let p = positions.last();
    assert(positions[t as int] == p);
    assert(query.take(t as int + 1)[t as int] == query[t as int]);
    if t == 0 {
        assert(dp_row(query, candidate, flags, t)[p] == first_cell(flags, candidate, query[0], p));
        assert(positions.drop_last() =~= Seq::<int>::empty());
        assert(count_flags(flags, Seq::<int>::empty()) == 0);
    } else {
        let prefix = positions.drop_last();
        assert forall|s: int| #![trigger prefix[s]] 0 <= s < prefix.len() implies 0 <= prefix[s] < candidate.len()
            && candidate[prefix[s]] == query.take(t as int)[s] by {
            assert(prefix[s] == positions[s]);
            assert(query.take(t as int)[s] == query.take(t as int + 1)[s]);
        }
        assert forall|s: int| #![trigger prefix[s]] 0 < s < prefix.len() implies prefix[s - 1] < prefix[s] by {
            assert(prefix[s] == positions[s]);
            assert(prefix[s - 1] == positions[s - 1]);
        }
        assert(prefix[0] == positions[0]);
        assert forall|i: int|
            #![trigger prefix[i]]
            0 < i < prefix.len() implies flags[prefix[i]] || no_flag_between(flags, prefix[i - 1], prefix[i]) by {
            assert(prefix[i] == positions[i]);
            assert(prefix[i - 1] == positions[i - 1]);
        }
        lemma_anchored_most(query, candidate, flags, (t - 1) as nat, prefix);
        let earlier = prefix.last();
        assert(earlier == positions[t - 1]);
        let row = dp_row(query, candidate, flags, (t - 1) as nat);
        lemma_row_sound(query, candidate, flags, (t - 1) as nat);
        lemma_scan_keeps_most(row, flags, earlier, p);
        lemma_scan_sound(query.take(t as int), candidate, flags, row, p);
        assert(dp_row(query, candidate, flags, t)[p] == next_cell(row, flags, candidate, query[t as int], p));
        let st = scan(row, flags, p);
        let source = if flags[p] {
            st.anchored_best
        } else {
            st.anchored_current
        };
        if flags[p] {
            assert(flags[p] && earlier < p <= p);
        } else {
            assert(flags[positions[t as int]] || no_flag_between(flags, positions[t - 1], positions[t as int]));
        }
        let x = source->0;
        let w = choose|w: Seq<int>|
            #[trigger] represents(query.take(t as int), candidate, flags, x, w) && enters_at_starts(flags, w);
        lemma_count_flags(flags, w);
        assert(x.token_starts + 1 < usize::MAX);
        assert(count_flags(flags, positions) == count_flags(flags, prefix) + if flags[p] {
            1nat
        } else {
            0nat
        });
    }
}

/// The final pass keeps an anchored path with the most token starts among
/// the anchored slots it has met.
proof fn lemma_final_most(row: Seq<Slots>, count: int, found: int)
    requires
        0 <= found < count <= row.len(),
        row[found].anchored is Some,
    ensures
        final_best(row, count) matches Some((path, anchored)) && anchored && path.token_starts
            >= row[found].anchored->0.token_starts,
    decreases count,
{
    if found < count - 1 {
        lemma_final_most(row, count - 1, found);
    }
}

/// A token path's first position lies before each later one.
proof fn lemma_first_before(positions: Seq<int>, i: int)
    requires
        forall|s: int| #![trigger positions[s]] 0 < s < positions.len() ==> positions[s - 1] < positions[s],
        0 < i < positions.len(),
    ensures
        positions[0] < positions[i],
    decreases i,
{
    if i > 1 {
        lemma_first_before(positions, i - 1);
    }
}

/// Among the embeddings of the query that follow the tokens, the token-aware
/// search returns one with the most matched token starts. So when some
/// token-following embedding matches only token starts, the alignment marks
/// token starts, and with two or more characters it crosses a token
/// boundary: an acronym wins over a tighter path inside one word.
pub proof fn law_token_align_most_token_starts(
    query: Seq<char>,
    candidate: Seq<char>,
    token_starts: Seq<u16>,
    positions: Seq<int>,
)
    requires
        query.len() > 0,
        candidate.len() < usize::MAX,
        is_token_path(query, candidate, token_starts, positions),
    ensures
        spec_token_align(query, candidate, token_starts) matches Some(a) && a.spec_token_progression(),
        exists|best: Seq<int>|
            {
                &&& #[trigger] is_token_path(query, candidate, token_starts, best)
                &&& spec_token_align(query, candidate, token_starts) == Some(
                    span_alignment(
                        best[0],
                        best.last(),
                        query.len() as int,
                        boundary_within(token_starts, best[0], best.last()),
                        all_listed(token_starts, best),
                        true,
                    ),
                )
                &&& count_flags(start_flags(candidate.len(), token_starts), best) >= count_flags(
                    start_flags(candidate.len(), token_starts),
                    positions,
                )
            },
        all_listed(token_starts, positions) ==> spec_token_align(query, candidate, token_starts)->0.spec_token_starts(),
        all_listed(token_starts, positions) && query.len() >= 2 ==> spec_token_align(
            query,
            candidate,
            token_starts,
        )->0.spec_crosses_token_boundary(),
{
    let flags = start_flags(candidate.len(), token_starts);
    let t = (query.len() - 1) as nat;
    law_token_paths_found(query, candidate, token_starts, positions);
    assert(query.take(t as int + 1) =~= query);
    assert forall|i: int|
        #![trigger positions[i]]
        0 < i < positions.len() implies flags[positions[i]] || no_flag_between(flags, positions[i - 1], positions[i]) by {
        if !is_listed(token_starts, positions[i]) {
            assert(!boundary_within(token_starts, positions[i - 1], positions[i]));
            assert forall|b: int| positions[i - 1] < b <= positions[i] implies !#[trigger] flags[b] by {
                if flags[b] {
                    let j = choose|j: int| 0 <= j < token_starts.len() && #[trigger] token_starts[j] as int == b;
                    assert(positions[i - 1] < token_starts[j] as int <= positions[i]);
                }
            }
        }
    }
    assert(enters_at_starts(flags, positions));
    lemma_anchored_most(query, candidate, flags, t, positions);
    let row = dp_row(query, candidate, flags, t);
    assert(row.len() == candidate.len());
    assert(positions.last() == positions[t as int]);
    lemma_final_most(row, candidate.len() as int, positions.last());
    lemma_row_sound(query, candidate, flags, t);
    lemma_final_best(row, candidate.len() as int);
    let (path, anchored) = final_best(row, candidate.len() as int)->0;
    let p = choose|p: int|
        0 <= p < candidate.len() && #[trigger] row[p] == row[p] && (if anchored {
            row[p].anchored
        } else {
            row[p].local
        }) == Some(path);
    assert(row_sound(query, candidate, flags, row));
    assert(slot_sound(query, candidate, flags, row[p].anchored, true));
    let best = choose|w: Seq<int>| #[trigger] represents(query, candidate, flags, path, w) && enters_at_starts(flags, w);
    lemma_count_flags(flags, best);
    lemma_count_flags(flags, positions);
    assert(forall|i: int| 0 <= i < best.len() ==> flags[best[i]] == is_listed(token_starts, #[trigger] best[i]));
    assert(forall|i: int| 0 <= i < positions.len() ==> flags[positions[i]] == is_listed(token_starts, #[trigger] positions[i]));
    assert(all_listed(token_starts, best) == (path.token_starts == query.len()));
    assert forall|i: int|
        0 < i < best.len() implies is_listed(token_starts, #[trigger] best[i]) || !boundary_within(
            token_starts,
            best[i - 1],
            best[i],
        ) by {
        if !flags[best[i]] && boundary_within(token_starts, best[i - 1], best[i]) {
            let j = choose|j: int| 0 <= j < token_starts.len() && best[i - 1] < #[trigger] token_starts[j] as int <= best[i];
            let b = token_starts[j] as int;
            assert(is_listed(token_starts, b));
            assert(flags[b]);
        }
    }
    assert(is_token_path(query, candidate, token_starts, best));
    if all_listed(token_starts, positions) && query.len() >= 2 {
        assert(all_listed(token_starts, best));
        let last = best.len() - 1;
        lemma_first_before(best, last);
        assert(is_listed(token_starts, best[last]));
        let j = choose|j: int| 0 <= j < token_starts.len() && #[trigger] token_starts[j] as int == best[last];
        assert(best[0] < token_starts[j] as int <= best.last());
    }
}

} // verus!

verus! {

/// Each path in a within-token slot ends where its slot is, and either
/// meets no token start after its first position, or shares its position
/// with a path in the anchored slot.
pub open spec fn locals_within_tokens(flags: Seq<bool>, row: Seq<Slots>) -> bool {
    forall|p: int|
        #![trigger row[p]]
        0 <= p < row.len() ==> (row[p].local matches Some(x) ==> x.last == p && (no_flag_between(
            flags,
            x.first as int,
            p,
        ) || row[p].anchored is Some))
}

proof fn lemma_scan_locals(row: Seq<Slots>, flags: Seq<bool>, pos: int)
    requires
        locals_within_tokens(flags, row),
        row.len() == flags.len(),
        -1 <= pos < row.len(),
    ensures
        scan(row, flags, pos).local_best matches Some(x) ==> (no_flag_between(flags, x.first as int, pos) || scan(
            row,
            flags,
            pos,
        ).anchored_current is Some),
    decreases pos + 1,
{
    if pos >= 0 {
        lemma_scan_locals(row, flags, pos - 1);
        let before = scan(row, flags, pos - 1);
        if !flags[pos] && pos > 0 {
            let prev = row[pos - 1];
            let inner = retain_opt(prev.local, before.local_best);
            lemma_retain_opt(prev.local, before.local_best);
            lemma_retain_opt(prev.anchored, inner);
            lemma_retain_opt_some(prev.anchored, before.anchored_current);
            let st = scan(row, flags, pos);
            if st.local_best is Some {
                let x = st.local_best->0;
                if st.local_best == before.local_best && before.local_best is Some && no_flag_between(
                    flags,
                    x.first as int,
                    pos - 1,
                ) {
                    assert forall|b: int| x.first < b <= pos implies !#[trigger] flags[b] by {
                        if b < pos {
                        }
                    }
                }
                if st.local_best == prev.local && prev.local is Some && no_flag_between(flags, x.first as int, pos - 1) {
                    assert forall|b: int| x.first < b <= pos implies !#[trigger] flags[b] by {
                        if b < pos {
                        }
                    }
                }
            }
        }
    }
}

proof fn lemma_row_locals(query: Seq<char>, candidate: Seq<char>, flags: Seq<bool>, t: nat)
    requires
        flags.len() == candidate.len(),
        candidate.len() < usize::MAX,
        t < query.len(),
    ensures
        locals_within_tokens(flags, dp_row(query, candidate, flags, t)),
    decreases t,
{
    let row = dp_row(query, candidate, flags, t);
    if t == 0 {
        assert forall|p: int| #![trigger row[p]] 0 <= p < row.len() implies (row[p].local matches Some(x) ==> x.last
            == p && (no_flag_between(flags, x.first as int, p) || row[p].anchored is Some)) by {
            assert(row[p] == first_cell(flags, candidate, query[0], p));
        }
    } else {
        let before = dp_row(query, candidate, flags, (t - 1) as nat);
        lemma_row_locals(query, candidate, flags, (t - 1) as nat);
        assert forall|p: int| #![trigger row[p]] 0 <= p < row.len() implies (row[p].local matches Some(x) ==> x.last
            == p && (no_flag_between(flags, x.first as int, p) || row[p].anchored is Some)) by {
            assert(row[p] == next_cell(before, flags, candidate, query[t as int], p));
            lemma_scan_locals(before, flags, p);
        }
    }
}

/// A subsequence alignment that does not follow the tokens stays inside one
/// token: it crosses no token boundary.
pub proof fn law_off_token_alignments_stay_in_one_token(query: Seq<char>, candidate: Seq<char>, token_starts: Seq<u16>)
    requires
        query.len() > 0,
        candidate.len() < usize::MAX,
    ensures
        spec_token_align(query, candidate, token_starts) is Some && !spec_token_align(query, candidate, token_starts)->0.spec_token_progression()
            ==> !spec_token_align(query, candidate, token_starts)->0.spec_crosses_token_boundary(),
{
    let flags = start_flags(candidate.len(), token_starts);
    if candidate.contains(query[0]) {
        let t = (query.len() - 1) as nat;
        let row = dp_row(query, candidate, flags, t);
        assert(row.len() == candidate.len());
        lemma_row_locals(query, candidate, flags, t);
        lemma_final_best(row, candidate.len() as int);
        if final_best(row, candidate.len() as int) is Some && !(final_best(row, candidate.len() as int)->0).1 {
            let (path, anchored) = final_best(row, candidate.len() as int)->0;
            assert forall|p: int| 0 <= p < row.len() implies !(row[p].anchored is Some) by {
                if row[p].anchored is Some {
                    lemma_final_keeps_anchored(row, candidate.len() as int, p);
                }
            }
            let p = choose|p: int|
                0 <= p < candidate.len() && #[trigger] row[p] == row[p] && (if anchored {
                    row[p].anchored
                } else {
                    row[p].local
                }) == Some(path);
            assert(row[p].local == Some(path));
            assert(no_flag_between(flags, path.first as int, p));
            if boundary_within(token_starts, path.first as int, path.last as int) {
                let j = choose|j: int|
                    0 <= j < token_starts.len() && path.first < #[trigger] token_starts[j] as int <= path.last;
                let b = token_starts[j] as int;
                assert(is_listed(token_starts, b));
                assert(flags[b]);
            }
        }
    }
}

} // verus!
