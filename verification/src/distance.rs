//! Bounded optimal-string-alignment distance between a query and a candidate.
use vstd::prelude::*;

verus! {

/// How much of the right-hand text a match has to consume.
#[derive(Clone, Copy, Debug, PartialEq, Eq, Structural)]
pub enum MatchLength {
    /// The whole right-hand text.
    Full,
    /// Any prefix of the right-hand text.
    Prefix,
}

pub open spec fn min_nat(x: nat, y: nat) -> nat {
    if x <= y {
        x
    } else {
        y
    }
}

/// Optimal string alignment distance (Damerau-Levenshtein restricted to
/// non-overlapping adjacent transpositions) between the first `i` characters
/// of `a` and the first `j` characters of `b`.
#[verifier::opaque]
pub open spec fn osa(a: Seq<char>, b: Seq<char>, i: nat, j: nat) -> nat
    decreases i + j,
{
    if i == 0 {
        j
    } else if j == 0 {
        i
    } else {
        let substitution = osa(a, b, (i - 1) as nat, (j - 1) as nat) + if a[i - 1] == b[j - 1] {
            0nat
        } else {
            1nat
        };
        let deletion = osa(a, b, (i - 1) as nat, j) + 1;
        let insertion = osa(a, b, i, (j - 1) as nat) + 1;
        let best = min_nat(substitution, min_nat(deletion, insertion));
        if i > 1 && j > 1 && a[i - 1] == b[j - 2] && a[i - 2] == b[j - 1] {
            min_nat(best, osa(a, b, (i - 2) as nat, (j - 2) as nat) + 1)
        } else {
            best
        }
    }
}

/// The edit budget that `damerau_levenshtein` works with: the caller's
/// budget, but never more than a third of the query.
pub open spec fn effective_budget(left_len: nat, max_distance: nat) -> nat {
    min_nat(max_distance, left_len / 3)
}

/// Whether `end` characters of `right` are an acceptable explanation of
/// `left`: the end is allowed by `length`, the distance stays within the
/// budget, and there is at least one character of evidence per edit and
/// three query characters.
pub open spec fn end_qualifies(
    left: Seq<char>,
    right: Seq<char>,
    max_distance: nat,
    length: MatchLength,
    end: nat,
) -> bool {
    let d = osa(left, right, left.len(), end);
    &&& end <= right.len()
    &&& (length == MatchLength::Full ==> end == right.len())
    &&& d <= max_distance
    &&& d <= (if left.len() <= end { left.len() } else { end }) / 3
}

/// The best end is the one with the fewest edits; among those, the longest
/// consumed part of `right`.
pub open spec fn is_best_end(
    left: Seq<char>,
    right: Seq<char>,
    max_distance: nat,
    length: MatchLength,
    edits: nat,
    end: nat,
) -> bool {
    &&& end_qualifies(left, right, max_distance, length, end)
    &&& edits == osa(left, right, left.len(), end)
    &&& forall|other: nat|
        #![trigger osa(left, right, left.len(), other)]
        end_qualifies(left, right, max_distance, length, other) ==> edits < osa(
            left,
            right,
            left.len(),
            other,
        ) || (edits == osa(left, right, left.len(), other) && other <= end)
}

pub open spec fn cap(x: int, u: int) -> int {
    if x < u {
        x
    } else {
        u
    }
}

/// The distance between prefixes is at least the difference of their lengths.
proof fn lemma_osa_lower_bound(a: Seq<char>, b: Seq<char>, i: nat, j: nat)
    ensures
        osa(a, b, i, j) >= i - j,
        osa(a, b, i, j) >= j - i,
    decreases i + j,
{
    reveal(osa);
    if i > 0 && j > 0 {
        lemma_osa_lower_bound(a, b, (i - 1) as nat, (j - 1) as nat);
        lemma_osa_lower_bound(a, b, (i - 1) as nat, j);
        lemma_osa_lower_bound(a, b, i, (j - 1) as nat);
        if i > 1 && j > 1 {
            lemma_osa_lower_bound(a, b, (i - 2) as nat, (j - 2) as nat);
        }
    }
}

/// The first column counts deletions.
proof fn lemma_osa_first_column(a: Seq<char>, b: Seq<char>, i: nat)
    ensures
        osa(a, b, i, 0) == i,
{
    reveal(osa);
}

/// Substituting the last characters costs at most one edit.
proof fn lemma_osa_diagonal_step(a: Seq<char>, b: Seq<char>, i: nat, j: nat)
    requires
        i > 0,
        j > 0,
    ensures
        osa(a, b, i, j) <= osa(a, b, (i - 1) as nat, (j - 1) as nat) + 1,
{
    reveal(osa);
}

/// Once every cell of a row exceeds `k`, every cell of the next row does too.
proof fn lemma_row_exceeds_step(a: Seq<char>, b: Seq<char>, i: nat, k: nat, j: nat)
    requires
        forall|jj: nat| jj <= b.len() ==> #[trigger] osa(a, b, i, jj) > k,
        j <= b.len(),
    ensures
        osa(a, b, i + 1, j) > k,
    decreases j,
{
    reveal(osa);
    assert(osa(a, b, i, 0) > k);
    if j > 0 {
        lemma_row_exceeds_step(a, b, i, k, (j - 1) as nat);
        assert(osa(a, b, i, (j - 1) as nat) > k);
        assert(osa(a, b, i, j) > k);
        if i > 0 && j > 1 {
            lemma_osa_diagonal_step(a, b, i, (j - 1) as nat);
        }
    }
}

proof fn lemma_row_exceeds(a: Seq<char>, b: Seq<char>, i: nat, k: nat, n: nat)
    requires
        forall|jj: nat| jj <= b.len() ==> #[trigger] osa(a, b, i, jj) > k,
        i <= n,
    ensures
        forall|jj: nat| jj <= b.len() ==> #[trigger] osa(a, b, n, jj) > k,
    decreases n - i,
{
    if i < n {
        assert forall|jj: nat| jj <= b.len() implies #[trigger] osa(a, b, i + 1, jj) > k by {
            lemma_row_exceeds_step(a, b, i, k, jj);
        }
        lemma_row_exceeds(a, b, i + 1, k, n);
    }
}

/// No end qualifies when every distance of the last row exceeds the budget.
proof fn lemma_no_end(
    left: Seq<char>,
    right: Seq<char>,
    max_distance: nat,
    length: MatchLength,
    k: nat,
)
    requires
        k == effective_budget(left.len(), max_distance),
        forall|jj: nat| jj <= right.len() ==> #[trigger] osa(left, right, left.len(), jj) > k,
    ensures
        forall|e: nat| !end_qualifies(left, right, max_distance, length, e),
{
    assert forall|e: nat| !end_qualifies(left, right, max_distance, length, e) by {
        if e <= right.len() {
            assert(osa(left, right, left.len(), e) > k);
        }
    }
}

/// One DP cell: the recurrence applied to capped neighbours gives the
/// capped distance.
proof fn lemma_cell(
    a: Seq<char>,
    b: Seq<char>,
    i: nat,
    j: nat,
    u: int,
    diagonal: int,
    above: int,
    before: int,
    two_back: int,
    transposed: bool,
    value: int,
)
    requires
        i > 0,
        j > 0,
        u > 0,
        i <= a.len(),
        j <= b.len(),
        transposed == (i > 1 && j > 1 && a[i - 1] == b[j - 2] && a[i - 2] == b[j - 1]),
        cap(diagonal, u) == cap(osa(a, b, (i - 1) as nat, (j - 1) as nat) as int, u),
        cap(above, u) == cap(osa(a, b, (i - 1) as nat, j) as int, u),
        cap(before, u) == cap(osa(a, b, i, (j - 1) as nat) as int, u),
        transposed ==> cap(two_back, u) == cap(osa(a, b, (i - 2) as nat, (j - 2) as nat) as int, u),
        diagonal >= 0,
        above >= 0,
        before >= 0,
        two_back >= 0,
        ({
            let sub = diagonal + if a[i - 1] != b[j - 1] {
                1int
            } else {
                0int
            };
            let m1 = if sub < above + 1 {
                sub
            } else {
                above + 1
            };
            let m2 = if before + 1 < m1 {
                before + 1
            } else {
                m1
            };
            value == if transposed && two_back + 1 < m2 {
                two_back + 1
            } else {
                m2
            }
        }),
    ensures
        cap(value, u) == cap(osa(a, b, i, j) as int, u),
{
    reveal(osa);
}

/// The invariant of one DP row held in a buffer: every cell from the left
/// edge of the band onwards agrees with the distance, up to the cap `u`.
pub open spec fn row_agrees(
    left: Seq<char>,
    right: Seq<char>,
    row: Seq<usize>,
    i: nat,
    k: nat,
    width: nat,
) -> bool {
    &&& row.len() == width
    &&& forall|j: int|
        #![trigger row[j]]
        (if i <= k + 1 { 0 } else { i - k - 1 }) <= j < width ==> cap(row[j] as int, (k + 1) as int) == cap(
            osa(left, right, i, j as nat) as int,
            (k + 1) as int,
        )
}

/// Cells to the right of the band of row `r` hold at least the cap.
pub open spec fn tail_unreachable(row: Seq<usize>, r: int, k: nat) -> bool {
    forall|j: int| #![trigger row[j]] r + k + 1 < j < row.len() ==> row[j] >= k + 1
}

pub open spec fn bounded(row: Seq<usize>, bound: int) -> bool {
    forall|j: int| #![trigger row[j]] 0 <= j < row.len() ==> row[j] <= bound
}

/// Computes row `i` of the banded DP into `current` from the two rows above
/// it, and returns the smallest value inside the band.
fn fill_row(
    left: &[char],
    right: &[char],
    previous: &Vec<usize>,
    previous_two: &Vec<usize>,
    current: &mut Vec<usize>,
    i: usize,
    k: usize,
    width: usize,
) -> (row_min: usize)
    requires
        1 <= i <= left@.len(),
        k <= left@.len() / 3,
        left@.len() <= usize::MAX / 8,
        right@.len() <= usize::MAX / 8,
        left@.len() <= right@.len() + k,
        width == (if right@.len() < left@.len() + k {
            right@.len() + 1
        } else {
            (left@.len() + k + 1) as nat
        }),
        row_agrees(left@, right@, previous@, (i - 1) as nat, k as nat, width as nat),
        i >= 2 ==> row_agrees(left@, right@, previous_two@, (i - 2) as nat, k as nat, width as nat),
        old(current)@.len() == width,
        previous_two@.len() == width,
        tail_unreachable(old(current)@, i as int, k as nat),
        bounded(old(current)@, k + 1 + i),
        bounded(previous@, k + 1 + i - 1),
        bounded(previous_two@, k + 1 + i),
    ensures
        row_agrees(left@, right@, final(current)@, i as nat, k as nat, width as nat),
        tail_unreachable(final(current)@, i as int, k as nat),
        bounded(final(current)@, k + 1 + i),
        row_min <= k + 1,
        forall|jj: int|
            (if i > k + 1 {
                i - k
            } else {
                1
            }) <= jj <= (if i + k < width - 1 {
                i + k
            } else {
                width - 1
            }) ==> #[trigger] final(current)@[jj] >= row_min,
{
    let ghost a = left@;
    let ghost b = right@;
    let ghost kn = k as nat;
    let ghost u = (k + 1) as int;
    let n = left.len();
    let m = right.len();
    let unreachable = k + 1;
    let start: usize = if i > k + 1 {
        i - k
    } else {
        1
    };
    let end: usize = if i + k < width - 1 {
        i + k
    } else {
        width - 1
    };
    let first = if start == 1 {
        i
    } else {
        unreachable
    };
    current.set(start - 1, first);
    proof {
        lemma_osa_first_column(a, b, i as nat);
        if start > 1 {
            lemma_osa_lower_bound(a, b, i as nat, (start - 1) as nat);
        }
    }
    if end + 1 < width {
        current.set(end + 1, unreachable);
        proof {
            lemma_osa_lower_bound(a, b, i as nat, (end + 1) as nat);
        }
    }
    let mut row_min = unreachable;
    let mut j: usize = start;
    while j <= end
        invariant
            1 <= start <= j <= end + 1,
            end < width,
            start == (if i > k + 1 {
                i - k
            } else {
                1
            }),
            end == (if i + k < width - 1 {
                i + k
            } else {
                width - 1
            }),
            1 <= i <= n,
            n == a.len(),
            m == b.len(),
            a == left@,
            b == right@,
            kn == k,
            u == k + 1,
            unreachable == k + 1,
            k <= n / 3,
            n <= usize::MAX / 8,
            m <= usize::MAX / 8,
            width <= m + 1,
            width <= n + k + 1,
            row_agrees(a, b, previous@, (i - 1) as nat, kn, width as nat),
            i >= 2 ==> row_agrees(a, b, previous_two@, (i - 2) as nat, kn, width as nat),
            current@.len() == width,
            previous_two@.len() == width,
            forall|jj: int|
                start - 1 <= jj < j ==> #[trigger] cap(current@[jj] as int, u) == cap(
                    osa(a, b, i as nat, jj as nat) as int,
                    u,
                ),
            end + 1 < width ==> current@[end + 1] == unreachable,
            tail_unreachable(current@, i as int, kn),
            bounded(current@, u + i),
            bounded(previous@, u + i - 1),
            bounded(previous_two@, u + i),
            row_min <= unreachable,
            forall|jj: int| start <= jj < j ==> #[trigger] current@[jj] >= row_min,
        decreases end + 1 - j,
    {
        let cost: usize = if left[i - 1] != right[j - 1] {
            1
        } else {
            0
        };
        let substitution = previous[j - 1] + cost;
        let deletion = previous[j] + 1;
        let insertion = current[j - 1] + 1;
        let mut value = if substitution < deletion {
            substitution
        } else {
            deletion
        };
        if insertion < value {
            value = insertion;
        }
        let transposed = i > 1 && j > 1 && left[i - 1] == right[j - 2] && left[i - 2] == right[j - 1];
        if transposed {
            let candidate = previous_two[j - 2] + 1;
            if candidate < value {
                value = candidate;
            }
        }
        proof {
            let ii = i as nat;
            let jn = j as nat;
            let t2 = if transposed {
                previous_two@[j - 2] as int
            } else {
                0
            };
            lemma_cell(
                a,
                b,
                ii,
                jn,
                u,
                previous@[j - 1] as int,
                previous@[j as int] as int,
                current@[j - 1] as int,
                t2,
                transposed,
                value as int,
            );
        }
        current.set(j, value);
        if value < row_min {
            row_min = value;
        }
        j = j + 1;
    }

    proof {
        assert forall|jj: int|
            #![trigger current@[jj]]
            (if i <= k + 1 {
                0
            } else {
                i - k - 1
            }) <= jj < width implies cap(current@[jj] as int, u) == cap(
            osa(a, b, i as nat, jj as nat) as int,
            u,
        ) by {
            if jj > end + 1 {
                lemma_osa_lower_bound(a, b, i as nat, jj as nat);
            } else if jj == end + 1 {
                lemma_osa_lower_bound(a, b, i as nat, jj as nat);
            }
        }
    }
    row_min
}

/// Computes the bounded optimal string alignment distance between `left` and
/// all of `right` (`Full`) or its best prefix (`Prefix`).
///
/// The budget is `max_distance`, but never more than a third of `left`. The
/// result is the number of edits and the consumed length of `right`: the
/// fewest edits, and among equal edits the longest consumed length. An end
/// qualifies only with at most one edit per three characters of the shorter
/// of `left` and the consumed part of `right`. `None` when no end qualifies.
pub fn damerau_levenshtein(
    left: &[char],
    right: &[char],
    max_distance: u16,
    length: MatchLength,
) -> (result: Option<(u16, usize)>)
    requires
        // A slice of `char` takes four bytes per element and at most `isize::MAX` bytes.
        left@.len() <= usize::MAX / 8,
        right@.len() <= usize::MAX / 8,
    ensures
        result is None <==> forall|e: nat|
            !end_qualifies(left@, right@, max_distance as nat, length, e),
        result matches Some((edits, end)) ==> is_best_end(
            left@,
            right@,
            max_distance as nat,
            length,
            edits as nat,
            end as nat,
        ),
{
    let n = left.len();
    let m = right.len();
    let ghost a = left@;
    let ghost b = right@;
    let k: usize = if (max_distance as usize) < n / 3 {
        max_distance as usize
    } else {
        n / 3
    };
    let ghost kn = k as nat;
    assert(kn == effective_budget(n as nat, max_distance as nat));
    assert forall|e: nat| #[trigger]
        end_qualifies(a, b, max_distance as nat, length, e) implies osa(a, b, n as nat, e) <= kn by {
    }

    if n > m + k || (length == MatchLength::Full && m > n + k) {
        proof {
            assert forall|e: nat| !end_qualifies(a, b, max_distance as nat, length, e) by {
                lemma_osa_lower_bound(a, b, n as nat, e);
            }
        }
        return None;
    }
    let width: usize = if m < n + k {
        m + 1
    } else {
        n + k + 1
    };
    let unreachable: usize = k + 1;
    let ghost u = unreachable as int;

    let mut previous_two: Vec<usize> = Vec::new();
    let mut j: usize = 0;
    while j < width
        invariant
            j <= width,
            previous_two@.len() == j,
            unreachable == k + 1,
            u == k + 1,
            forall|jj: int| 0 <= jj < j ==> #[trigger] previous_two@[jj] == cap(jj, u),
        decreases width - j,
    {
        previous_two.push(if j < unreachable {
            j
        } else {
            unreachable
        });
        j = j + 1;
    }
    let mut previous = previous_two.clone();
    let mut current: Vec<usize> = Vec::new();
    j = 0;
    while j < width
        invariant
            j <= width,
            current@.len() == j,
            unreachable == k + 1,
            u == k + 1,
            forall|jj: int| 0 <= jj < j ==> #[trigger] current@[jj] == u,
        decreases width - j,
    {
        current.push(unreachable);
        j = j + 1;
    }
    proof {
        assert forall|jj: int| 0 <= jj < width implies #[trigger] cap(previous@[jj] as int, u) == cap(
            osa(a, b, 0, jj as nat) as int,
            u,
        ) by {
            reveal(osa);
        }
        assert(row_agrees(a, b, previous@, 0, kn, width as nat));
        assert(row_agrees(a, b, previous_two@, 0, kn, width as nat));
    }

    let mut i: usize = 1;
    while i <= n
        invariant
            1 <= i <= n + 1,
            n == a.len(),
            m == b.len(),
            a == left@,
            b == right@,
            kn == k,
            kn == effective_budget(n as nat, max_distance as nat),
            u == k + 1,
            unreachable == k + 1,
            k <= n / 3,
            n <= usize::MAX / 8,
            m <= usize::MAX / 8,
            n <= m + k,
            width == (if m < n + k {
                m + 1
            } else {
                n + k + 1
            }),
            row_agrees(a, b, previous@, (i - 1) as nat, kn, width as nat),
            i >= 2 ==> row_agrees(a, b, previous_two@, (i - 2) as nat, kn, width as nat),
            current@.len() == width,
            previous_two@.len() == width,
            tail_unreachable(current@, i as int, kn),
            tail_unreachable(previous@, i - 1, kn),
            tail_unreachable(previous_two@, i - 2, kn),
            bounded(current@, u + i),
            bounded(previous@, u + i - 1),
            bounded(previous_two@, u + i),
        decreases n + 1 - i,
    {
        let row_min = fill_row(left, right, &previous, &previous_two, &mut current, i, k, width);
        let start: usize = if i > k + 1 {
            i - k
        } else {
            1
        };
        let end: usize = if i + k < width - 1 {
            i + k
        } else {
            width - 1
        };
        if row_min > k {
            proof {
                if m == 0 {
                    assert forall|e: nat| !end_qualifies(a, b, max_distance as nat, length, e) by {
                        if e <= m {
                            reveal(osa);
                            assert(osa(a, b, n as nat, 0) == n);
                        }
                    }
                } else {
                    assert forall|jj: nat| jj <= m implies #[trigger] osa(a, b, i as nat, jj) > kn by {
                        lemma_osa_lower_bound(a, b, i as nat, jj);
                        if start <= jj <= end {
                            assert(current@[jj as int] >= row_min);
                            assert(cap(current@[jj as int] as int, u) == cap(
                                osa(a, b, i as nat, jj) as int,
                                u,
                            ));
                        } else if jj == 0 && start == 1 {
                            lemma_osa_first_column(a, b, i as nat);
                            lemma_osa_first_column(a, b, (i - 1) as nat);
                            lemma_osa_diagonal_step(a, b, i as nat, 1);
                            assert(current@[1] >= row_min);
                            assert(cap(current@[1] as int, u) == cap(
                                osa(a, b, i as nat, 1) as int,
                                u,
                            ));
                        }
                    }
                    lemma_row_exceeds(a, b, i as nat, kn, n as nat);
                    lemma_no_end(a, b, max_distance as nat, length, kn);
                }
            }
            return None;
        }
        std::mem::swap(&mut previous_two, &mut previous);
        std::mem::swap(&mut previous, &mut current);
        i = i + 1;
    }

    let ghost nn = n as nat;
    let first_end: usize = match length {
        MatchLength::Full => m,
        MatchLength::Prefix => if n > k {
            n - k
        } else {
            0
        },
    };
    let mut best: Option<(u16, usize)> = None;
    let mut e: usize = first_end;
    while e < width
        invariant
            first_end <= e <= width,
            width <= m + 1,
            n == a.len(),
            m == b.len(),
            a == left@,
            b == right@,
            kn == k,
            u == k + 1,
            k <= max_distance,
            nn == n,
            n <= m + k,
            (if nn <= kn + 1 {
                0
            } else {
                nn - kn - 1
            }) <= first_end,
            first_end == (match length {
                MatchLength::Full => m,
                MatchLength::Prefix => if n > k {
                    (n - k) as usize
                } else {
                    0
                },
            }),
            row_agrees(a, b, previous@, nn, kn, width as nat),
            bounded(previous@, u + n + 1),
            forall|x: nat| #[trigger]
                end_qualifies(a, b, max_distance as nat, length, x) ==> osa(a, b, nn, x) <= kn,
            best matches Some((d, be)) ==> {
                &&& first_end <= be < e
                &&& end_qualifies(a, b, max_distance as nat, length, be as nat)
                &&& d == osa(a, b, nn, be as nat)
            },
            best is None ==> forall|x: nat|
                first_end <= x < e ==> !end_qualifies(a, b, max_distance as nat, length, x),
            best matches Some((d, be)) ==> forall|x: nat|
                #![trigger osa(a, b, nn, x)]
                first_end <= x < e && end_qualifies(a, b, max_distance as nat, length, x) ==> d
                    < osa(a, b, nn, x) || (d == osa(a, b, nn, x) && x <= be),
        decreases width - e,
    {
        let distance = previous[e];
        let shorter = if n < e {
            n
        } else {
            e
        };
        let evidence_budget = shorter / 3;
        proof {
            assert(cap(previous@[e as int] as int, u) == cap(osa(a, b, nn, e as nat) as int, u));
        }
        if distance <= k && distance <= evidence_budget {
            assert(distance == osa(a, b, nn, e as nat));
            assert(end_qualifies(a, b, max_distance as nat, length, e as nat));
            let replace = match best {
                None => true,
                Some((d, _)) => (distance as u16) <= d,
            };
            if replace {
                best = Some((distance as u16, e));
            }
        } else {
            assert(!end_qualifies(a, b, max_distance as nat, length, e as nat));
        }
        e = e + 1;
    }
    proof {
        assert forall|x: nat|
            (x < first_end || x >= width) implies !end_qualifies(
            a,
            b,
            max_distance as nat,
            length,
            x,
        ) by {
            lemma_osa_lower_bound(a, b, nn, x);
        }
    }
    best
}


/// The best end is one end, with one number of edits.
pub proof fn lemma_best_end_unique(
    left: Seq<char>,
    right: Seq<char>,
    max_distance: nat,
    length: MatchLength,
    e1: nat,
    end1: nat,
    e2: nat,
    end2: nat,
)
    requires
        is_best_end(left, right, max_distance, length, e1, end1),
        is_best_end(left, right, max_distance, length, e2, end2),
    ensures
        e1 == e2,
        end1 == end2,
{
    assert(e2 == osa(left, right, left.len(), end2));
    assert(e1 == osa(left, right, left.len(), end1));
}

} // verus!

verus! {

/// A larger edit budget changes neither an accepted distance nor its end:
/// the best end within `small` edits stays the one best end within `large`.
pub proof fn law_larger_budget_keeps_best_end(
    left: Seq<char>,
    right: Seq<char>,
    small: nat,
    large: nat,
    length: MatchLength,
    edits: nat,
    end: nat,
)
    requires
        small <= large,
        is_best_end(left, right, small, length, edits, end),
    ensures
        is_best_end(left, right, large, length, edits, end),
        forall|e: nat, other_end: nat|
            is_best_end(left, right, large, length, e, other_end) ==> e == edits && other_end == end,
{
    assert forall|other: nat|
        end_qualifies(left, right, large, length, other) implies edits < osa(
            left,
            right,
            left.len(),
            other,
        ) || (edits == osa(left, right, left.len(), other) && other <= end) by {
        if !end_qualifies(left, right, small, length, other) {
            assert(osa(left, right, left.len(), other) > small);
        }
    }
    assert forall|e: nat, other_end: nat|
        is_best_end(left, right, large, length, e, other_end) implies e == edits && other_end == end by {
        lemma_best_end_unique(left, right, large, length, e, other_end, edits, end);
    }
}

} // verus!

verus! {

/// Equal leading characters cost nothing.
proof fn lemma_osa_equal_prefix(a: Seq<char>, b: Seq<char>, i: nat)
    requires
        i <= a.len(),
        i <= b.len(),
        forall|x: int| 0 <= x < i ==> a[x] == b[x],
    ensures
        osa(a, b, i, i) == 0,
    decreases i,
{
    reveal(osa);
    if i > 0 {
        lemma_osa_equal_prefix(a, b, (i - 1) as nat);
    }
}

/// A typed prefix needs no edits: a text that begins another is explained
/// by its own length of it with no edit, as a prefix, and a text explains
/// itself completely; no other end or number of edits is best.
pub proof fn law_typed_prefix_needs_no_edits(left: Seq<char>, right: Seq<char>, max_distance: nat)
    requires
        left.len() <= right.len(),
        right.subrange(0, left.len() as int) == left,
    ensures
        is_best_end(left, right, max_distance, MatchLength::Prefix, 0, left.len()),
        forall|e: nat, end: nat|
            is_best_end(left, right, max_distance, MatchLength::Prefix, e, end) ==> e == 0 && end == left.len(),
        left == right ==> is_best_end(left, right, max_distance, MatchLength::Full, 0, left.len()),
        left == right ==> forall|e: nat, end: nat|
            is_best_end(left, right, max_distance, MatchLength::Full, e, end) ==> e == 0 && end == left.len(),
{
    let n = left.len();
    assert forall|x: int| 0 <= x < n implies left[x] == right[x] by {
        assert(right.subrange(0, n as int)[x] == right[x]);
    }
    lemma_osa_equal_prefix(left, right, n);
    assert forall|other: nat| end_qualifies(left, right, max_distance, MatchLength::Prefix, other) implies 0 < osa(
        left,
        right,
        left.len(),
        other,
    ) || (0 == osa(left, right, left.len(), other) && other <= n) by {
        lemma_osa_lower_bound(left, right, n, other);
    }
    assert(is_best_end(left, right, max_distance, MatchLength::Prefix, 0, n));
    assert forall|e: nat, end: nat| is_best_end(left, right, max_distance, MatchLength::Prefix, e, end) implies e == 0
        && end == n by {
        lemma_best_end_unique(left, right, max_distance, MatchLength::Prefix, e, end, 0, n);
    }
    if left == right {
        assert forall|other: nat| end_qualifies(left, right, max_distance, MatchLength::Full, other) implies 0 < osa(
            left,
            right,
            left.len(),
            other,
        ) || (0 == osa(left, right, left.len(), other) && other <= n) by {
        }
        assert(is_best_end(left, right, max_distance, MatchLength::Full, 0, n));
        assert forall|e: nat, end: nat| is_best_end(left, right, max_distance, MatchLength::Full, e, end) implies e == 0
            && end == n by {
            lemma_best_end_unique(left, right, max_distance, MatchLength::Full, e, end, 0, n);
        }
    }
}

} // verus!
