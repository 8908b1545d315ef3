//! Correction of a misspelled query to one word of the index vocabulary,
//! found through the words' deletion keys.
use vstd::prelude::*;
use arrayvec::{ArrayString, ArrayVec};
use crate::distance::{damerau_levenshtein, end_qualifies, osa, MatchLength};
use crate::outside::{
    id_set_insert, id_set_new, id_set_view, interner_get, interner_intern, interner_len, interner_new, interner_resolve,
    interner_view, symbol_list_get, symbol_list_len, symbol_list_new, symbol_list_push, symbol_list_view, Interner,
    SymbolList,
};
use crate::outside::{
    delete_key_as_str, delete_key_new, delete_key_push, delete_key_view, delete_keys_contains, delete_keys_get,
    delete_keys_len, delete_keys_new, delete_keys_push, delete_keys_view,
};

verus! {

/// Above this edit budget, correction compares the whole vocabulary instead
/// of an exponentially larger deletion index.
pub const MAX_INDEXED_EDITS: u16 = 2;

/// Deletion keys are taken from the first seven characters of a word.
pub const DELETE_PREFIX_LENGTH: usize = 7;

/// The first `n` characters of `p` without the characters at positions `a`
/// and `b` (a negative position deletes nothing).
pub open spec fn skip(p: Seq<char>, a: int, b: int, n: int) -> Seq<char>
    decreases n,
{
    if n <= 0 {
        Seq::empty()
    } else if n - 1 == a || n - 1 == b {
        skip(p, a, b, n - 1)
    } else {
        skip(p, a, b, n - 1).push(p[n - 1])
    }
}

/// A position to delete, or none (-1).
pub open spec fn position(o: Option<usize>) -> int {
    match o {
        Some(x) => x as int,
        None => -1,
    }
}

/// The keys after adding `key` unless present.
pub open spec fn with_key(keys: Seq<Seq<char>>, key: Seq<char>) -> Seq<Seq<char>> {
    if keys.contains(key) {
        keys
    } else {
        keys.push(key)
    }
}

proof fn lemma_with_key(keys: Seq<Seq<char>>, key: Seq<char>)
    requires
        forall|i: int, j: int| 0 <= i < j < keys.len() ==> keys[i] != keys[j],
    ensures
        forall|k: Seq<char>| #[trigger] with_key(keys, key).contains(k) <==> keys.contains(k) || k == key,
        forall|i: int, j: int|
            0 <= i < j < with_key(keys, key).len() ==> with_key(keys, key)[i] != with_key(keys, key)[j],
        with_key(keys, key).len() <= keys.len() + 1,
{
    let after = with_key(keys, key);
    if !keys.contains(key) {
        assert forall|k: Seq<char>| after.contains(k) <==> keys.contains(k) || k == key by {
            if keys.contains(k) {
                let x = choose|x: int| 0 <= x < keys.len() && keys[x] == k;
                assert(after[x] == k);
            }
            if k == key {
                assert(after[keys.len() as int] == k);
            }
            if after.contains(k) {
                let x = choose|x: int| 0 <= x < after.len() && after[x] == k;
                if x < keys.len() {
                    assert(keys[x] == k);
                }
            }
        }
        assert forall|i: int, j: int| 0 <= i < j < after.len() implies after[i] != after[j] by {
            if j == keys.len() {
                assert(after[i] == keys[i]);
                assert(keys.contains(keys[i]));
            }
        }
    }
}

/// The part of a word that deletion keys are taken from.
pub open spec fn key_prefix(chars: Seq<char>) -> Seq<char> {
    if chars.len() < 7 {
        chars
    } else {
        chars.take(7)
    }
}

/// The deletion keys of a word: its first seven characters with none, one
/// or, when two edits are allowed, two of them deleted.
pub open spec fn delete_key_set(chars: Seq<char>, max_edits: u16) -> Set<Seq<char>> {
    let p = key_prefix(chars);
    Set::new(
        |k: Seq<char>|
            {
                ||| k == skip(p, -1, -1, p.len() as int)
                ||| exists|f: int| 0 <= f < p.len() && k == #[trigger] skip(p, f, -1, p.len() as int)
                ||| max_edits > 1 && exists|f: int, s: int|
                    0 <= f < s < p.len() && k == #[trigger] skip(p, f, s, p.len() as int)
            },
    )
}

/// The number of keys made before the deletions starting at position `f`.
pub open spec fn keys_made(p: nat, f: nat, two: bool) -> nat
    decreases f,
{
    if f == 0 {
        1
    } else {
        keys_made(p, (f - 1) as nat, two) + 1 + if two && p >= f {
            (p - f) as nat
        } else {
            0
        }
    }
}

proof fn lemma_keys_made_bound(p: nat, two: bool)
    requires
        p <= 7,
    ensures
        keys_made(p, p, two) <= 29,
{
    reveal_with_fuel(keys_made, 8);
    if p == 0 {
    } else if p == 1 {
    } else if p == 2 {
    } else if p == 3 {
    } else if p == 4 {
    } else if p == 5 {
    } else if p == 6 {
    } else {
        assert(p == 7);
    }
}

/// The distinct deletion keys of a word, at most 29.
pub struct DeleteKeys(pub ArrayVec<ArrayString<28>, 29>);

impl DeleteKeys {
    pub closed spec fn view(&self) -> Seq<Seq<char>> {
        delete_keys_view(self.0)
    }

    /// Adds the prefix without the characters at `first` and `second`,
    /// unless that key is already there.
    fn push(&mut self, prefix: &[char], first: Option<usize>, second: Option<usize>)
        requires
            prefix@.len() <= 7,
            old(self).view().len() < 29,
        ensures
            final(self).view() == with_key(
                old(self).view(),
                skip(prefix@, position(first), position(second), prefix@.len() as int),
            ),
    {
        let ghost a: int = position(first);
        let ghost b: int = position(second);
        let mut key = delete_key_new();
        let mut index: usize = 0;
        while index < prefix.len()
            invariant
                index <= prefix@.len() <= 7,
                a == position(first),
                b == position(second),
                delete_key_view(key) == skip(prefix@, a, b, index as int),
                skip(prefix@, a, b, index as int).len() <= index,
            decreases prefix@.len() - index,
        {
            let is_first = match first {
                Some(f) => f == index,
                None => false,
            };
            let is_second = match second {
                Some(s) => s == index,
                None => false,
            };
            if !is_first && !is_second {
                delete_key_push(&mut key, prefix[index]);
            }
            index = index + 1;
        }
        if !delete_keys_contains(&self.0, &key) {
            delete_keys_push(&mut self.0, key);
        }
    }

    /// The deletion keys of `chars` for an edit budget of `max_edits`.
    fn new(chars: &[char], max_edits: u16) -> (keys: Self)
        ensures
            keys.view().len() <= 29,
            forall|i: int, j: int| 0 <= i < j < keys.view().len() ==> keys.view()[i] != keys.view()[j],
            forall|k: Seq<char>| keys.view().contains(k) <==> delete_key_set(chars@, max_edits).contains(k),
    {
        let len = if chars.len() < DELETE_PREFIX_LENGTH {
            chars.len()
        } else {
            DELETE_PREFIX_LENGTH
        };
        let prefix = vstd::slice::slice_subrange(chars, 0, len);
        let mut keys = DeleteKeys(delete_keys_new());
        let ghost p = prefix@;
        let ghost two = max_edits > 1;
        proof {
            assert(p =~= key_prefix(chars@));
        }
        let ghost empty = keys.view();
        keys.push(prefix, None, None);
        proof {
            lemma_with_key(empty, skip(p, -1, -1, p.len() as int));
            assert forall|k: Seq<char>| keys.view().contains(k) <==> keys_so_far(p, two, 0, 0, 1, k) by {
                assert(!empty.contains(k));
            }
            reveal_with_fuel(keys_made, 1);
        }
        let mut first: usize = 0;
        while first < len
            invariant
                first <= len <= 7,
                p == prefix@,
                p.len() == len,
                p == key_prefix(chars@),
                two == (max_edits > 1),
                keys.view().len() <= keys_made(len as nat, first as nat, two),
                forall|i: int, j: int| 0 <= i < j < keys.view().len() ==> keys.view()[i] != keys.view()[j],
                forall|k: Seq<char>| keys.view().contains(k) <==> keys_so_far(p, two, first as int, first as int, first + 1, k),
            decreases len - first,
        {
            proof {
                lemma_keys_made_bound(len as nat, two);
                lemma_keys_made_grow(len as nat, (first + 1) as nat, len as nat, two);
                assert(keys_made(len as nat, (first + 1) as nat, two) >= keys_made(len as nat, first as nat, two) + 1);
            }
            let ghost before_single = keys.view();
            keys.push(prefix, Some(first), None);
            proof {
                let key = skip(p, first as int, -1, p.len() as int);
                lemma_with_key(before_single, key);
                assert forall|k: Seq<char>| keys.view().contains(k) <==> keys_so_far(p, two, first + 1, first as int, first + 1, k) by {
                    lemma_single_step(p, two, first as int, k);
                }
            }
            if max_edits > 1 {
                let mut second = first + 1;
                while second < len
                    invariant
                        first < second <= len,
                        len <= 7,
                        p == prefix@,
                        p.len() == len,
                        two,
                        keys.view().len() <= keys_made(len as nat, first as nat, two) + 1 + (second - first - 1),
                        keys_made(len as nat, (first + 1) as nat, two) <= 29,
                        keys_made(len as nat, (first + 1) as nat, two) == keys_made(len as nat, first as nat, two) + 1 + (len - first - 1),
                        forall|i: int, j: int| 0 <= i < j < keys.view().len() ==> keys.view()[i] != keys.view()[j],
                        forall|k: Seq<char>| keys.view().contains(k) <==> keys_so_far(p, two, first + 1, first as int, second as int, k),
                    decreases len - second,
                {
                    let ghost before = keys.view();
                    keys.push(prefix, Some(first), Some(second));
                    proof {
                        let key = skip(p, first as int, second as int, p.len() as int);
                        lemma_with_key(before, key);
                        assert forall|k: Seq<char>| keys.view().contains(k) <==> keys_so_far(p, two, first + 1, first as int, second + 1, k) by {
                            lemma_pair_step(p, two, first as int, second as int, k);
                        }
                    }
                    second = second + 1;
                }
            }
            proof {
                assert forall|k: Seq<char>| keys.view().contains(k) <==> keys_so_far(p, two, first + 1, first + 1, first + 2, k) by {
                    lemma_roll(p, two, first as int, k);
                }
            }
            first = first + 1;
        }
        proof {
            assert forall|k: Seq<char>| keys.view().contains(k) <==> delete_key_set(chars@, max_edits).contains(k) by {
                lemma_done(p, two, k);
            }
            lemma_keys_made_bound(len as nat, two);
        }
        keys
    }

    /// The number of keys.
    fn len(&self) -> (n: usize)
        ensures
            n == self.view().len(),
    {
        delete_keys_len(&self.0)
    }

    /// The key at position `i`, as a string.
    fn get(&self, i: usize) -> (key: &str)
        requires
            i < self.view().len(),
        ensures
            key@ == self.view()[i as int],
    {
        delete_key_as_str(delete_keys_get(&self.0, i))
    }
}

proof fn lemma_keys_made_grow(p: nat, f: nat, g: nat, two: bool)
    requires
        f <= g,
    ensures
        keys_made(p, f, two) <= keys_made(p, g, two),
    decreases g - f,
{
    if f < g {
        lemma_keys_made_grow(p, f, (g - 1) as nat, two);
    }
}


/// The keys made so far: the whole prefix, single deletions before
/// `singles`, and pair deletions `(f, s)` with `f < pairs` or with
/// `f == pairs` and `s < second`.
pub open spec fn keys_so_far(p: Seq<char>, two: bool, singles: int, pairs: int, second: int, k: Seq<char>) -> bool {
    ||| k == skip(p, -1, -1, p.len() as int)
    ||| exists|f: int| 0 <= f < singles && k == #[trigger] skip(p, f, -1, p.len() as int)
    ||| two && exists|f: int, s: int|
        ((0 <= f < pairs && f < s < p.len()) || (f == pairs && f < s < second)) && k == #[trigger] skip(
            p,
            f,
            s,
            p.len() as int,
        )
}

proof fn lemma_single_step(p: Seq<char>, two: bool, first: int, k: Seq<char>)
    requires
        0 <= first,
    ensures
        keys_so_far(p, two, first + 1, first, first + 1, k) <==> keys_so_far(p, two, first, first, first + 1, k)
            || k == skip(p, first, -1, p.len() as int),
{
    if k == skip(p, first, -1, p.len() as int) {
        assert(keys_so_far(p, two, first + 1, first, first + 1, k));
    }
    if keys_so_far(p, two, first + 1, first, first + 1, k) {
        if exists|f: int| 0 <= f < first + 1 && k == #[trigger] skip(p, f, -1, p.len() as int) {
            let f = choose|f: int| 0 <= f < first + 1 && k == #[trigger] skip(p, f, -1, p.len() as int);
            if f < first {
                assert(keys_so_far(p, two, first, first, first + 1, k));
            }
        }
    }
}

proof fn lemma_pair_step(p: Seq<char>, two: bool, first: int, second: int, k: Seq<char>)
    requires
        two,
        0 <= first < second < p.len(),
    ensures
        keys_so_far(p, two, first + 1, first, second + 1, k) <==> keys_so_far(p, two, first + 1, first, second, k)
            || k == skip(p, first, second, p.len() as int),
{
    if k == skip(p, first, second, p.len() as int) {
        assert(keys_so_far(p, two, first + 1, first, second + 1, k));
    }
    if keys_so_far(p, two, first + 1, first, second + 1, k) {
        if exists|f: int, s: int|
            ((0 <= f < first && f < s < p.len()) || (f == first && f < s < second + 1)) && k == #[trigger] skip(
                p,
                f,
                s,
                p.len() as int,
            ) {
            let (f, s) = choose|f: int, s: int|
                ((0 <= f < first && f < s < p.len()) || (f == first && f < s < second + 1)) && k == #[trigger] skip(
                    p,
                    f,
                    s,
                    p.len() as int,
                );
            if !(f == first && s == second) {
                assert(keys_so_far(p, two, first + 1, first, second, k));
            }
        }
    }
}

proof fn lemma_roll(p: Seq<char>, two: bool, first: int, k: Seq<char>)
    requires
        0 <= first < p.len(),
    ensures
        keys_so_far(p, two, first + 1, first, if two { p.len() as int } else { first + 1 }, k)
            <==> keys_so_far(p, two, first + 1, first + 1, first + 2, k),
{
    if two {
        if exists|f: int, s: int|
            ((0 <= f < first && f < s < p.len()) || (f == first && f < s < p.len())) && k == #[trigger] skip(
                p,
                f,
                s,
                p.len() as int,
            ) {
            let (f, s) = choose|f: int, s: int|
                ((0 <= f < first && f < s < p.len()) || (f == first && f < s < p.len())) && k == #[trigger] skip(
                    p,
                    f,
                    s,
                    p.len() as int,
                );
            assert(keys_so_far(p, two, first + 1, first + 1, first + 2, k));
        }
        if exists|f: int, s: int|
            ((0 <= f < first + 1 && f < s < p.len()) || (f == first + 1 && f < s < first + 2)) && k == #[trigger] skip(
                p,
                f,
                s,
                p.len() as int,
            ) {
            let (f, s) = choose|f: int, s: int|
                ((0 <= f < first + 1 && f < s < p.len()) || (f == first + 1 && f < s < first + 2)) && k == #[trigger] skip(
                    p,
                    f,
                    s,
                    p.len() as int,
                );
            assert(keys_so_far(p, two, first + 1, first, p.len() as int, k));
        }
    }
}

proof fn lemma_done(p: Seq<char>, two: bool, k: Seq<char>)
    ensures
        keys_so_far(p, two, p.len() as int, p.len() as int, p.len() as int + 1, k) <==> {
            ||| k == skip(p, -1, -1, p.len() as int)
            ||| exists|f: int| 0 <= f < p.len() && k == #[trigger] skip(p, f, -1, p.len() as int)
            ||| two && exists|f: int, s: int| 0 <= f < s < p.len() && k == #[trigger] skip(p, f, s, p.len() as int)
        },
{
    if two && exists|f: int, s: int|
        ((0 <= f < p.len() && f < s < p.len()) || (f == p.len() && f < s < p.len() + 1)) && k == #[trigger] skip(
            p,
            f,
            s,
            p.len() as int,
        ) {
        let (f, s) = choose|f: int, s: int|
            ((0 <= f < p.len() && f < s < p.len()) || (f == p.len() && f < s < p.len() + 1)) && k == #[trigger] skip(
                p,
                f,
                s,
                p.len() as int,
            );
        assert(0 <= f < s < p.len());
    }
}


/// The edit cost of correcting `q` to the whole word `t`, when the
/// alignment is within the budget.
pub open spec fn correction_cost(q: Seq<char>, t: Seq<char>, max_edits: u16) -> Option<nat> {
    if end_qualifies(q, t, max_edits as nat, MatchLength::Full, t.len()) {
        Some(osa(q, t, q.len(), t.len()))
    } else {
        None
    }
}

/// A reachable word costs at most the budget.
pub open spec fn within_budget(q: Seq<char>, u: Seq<char>, max_edits: u16) -> bool {
    match correction_cost(q, u, max_edits) {
        Some(d) => d <= max_edits,
        None => true,
    }
}

/// Whether a word costs more than `c`, or nothing, or cannot be reached.
pub open spec fn beaten(q: Seq<char>, u: Seq<char>, max_edits: u16, c: nat) -> bool {
    match correction_cost(q, u, max_edits) {
        Some(d) => d == 0 || d > c,
        None => true,
    }
}

/// Whether `t` is the one word of `words` at the lowest positive cost `c`,
/// below `u16::MAX`: a tie makes the correction ambiguous.
pub open spec fn unique_best(q: Seq<char>, max_edits: u16, words: Set<Seq<char>>, t: Seq<char>, c: nat) -> bool {
    &&& words.contains(t)
    &&& correction_cost(q, t, max_edits) == Some(c)
    &&& 0 < c < u16::MAX
    &&& forall|u: Seq<char>| words.contains(u) && u != t ==> #[trigger] beaten(q, u, max_edits, c)
}

/// The best correction among the words considered so far.
struct Corrections<'a> {
    term: Option<&'a str>,
    cost: u16,
}

impl<'a> Corrections<'a> {
    /// Whether the state is the best correction among `words`: the cost is
    /// at most every positive cost and is reached when below `u16::MAX`, and
    /// the term is the unique best word, if any.
    spec fn tracks(&self, q: Seq<char>, max_edits: u16, words: Set<Seq<char>>) -> bool {
        &&& self.cost > 0
        &&& forall|u: Seq<char>|
            words.contains(u) ==> match #[trigger] correction_cost(q, u, max_edits) {
                Some(d) => d == 0 || d >= self.cost,
                None => true,
            }
        &&& self.cost < u16::MAX ==> exists|u: Seq<char>|
            words.contains(u) && #[trigger] correction_cost(q, u, max_edits) == Some(self.cost as nat)
        &&& match self.term {
            Some(t) => unique_best(q, max_edits, words, t@, self.cost as nat),
            None => forall|t: Seq<char>, c: nat| !unique_best(q, max_edits, words, t, c),
        }
    }

    fn new() -> (c: Self)
        ensures
            c.tracks(Seq::empty(), 0, Set::empty()),
            forall|q: Seq<char>, max_edits: u16| c.tracks(q, max_edits, Set::empty()),
    {
        Corrections { term: None, cost: u16::MAX }
    }

    /// What considering a word of correction cost `cost` makes of the state:
    /// a word out of reach, an exact word or a higher cost leaves it as it
    /// is; a lower positive cost makes the word the best; an equal one makes
    /// the best ambiguous.
    spec fn after_word(self, term: &'a str, cost: Option<nat>) -> Corrections<'a> {
        match cost {
            None => self,
            Some(c) => if c == 0 || c > self.cost {
                self
            } else if c < self.cost {
                Corrections { term: Some(term), cost: c as u16 }
            } else {
                Corrections { term: None, cost: self.cost }
            },
        }
    }

    /// Considers one more word: a lower positive cost replaces the best; an
    /// equal one makes it ambiguous.
    fn consider(&mut self, term: &'a str, query: &[char], max_edits: u16, Ghost(words): Ghost<Set<Seq<char>>>)
        requires
            query@.len() <= usize::MAX / 8,
            term@.len() <= usize::MAX / 8,
        ensures
            *final(self) == old(self).after_word(term, correction_cost(query@, term@, max_edits)),
            old(self).tracks(query@, max_edits, words) && !words.contains(term@) ==> final(self).tracks(
                query@,
                max_edits,
                words.insert(term@),
            ),
    {
        let chars = crate::text::str_to_chars(term);
        let ghost q = query@;
        let ghost t = term@;
        let ghost after = words.insert(t);
        let ghost tracked_before = self.tracks(q, max_edits, words) && !words.contains(t);
        let found = damerau_levenshtein(query, chars.as_slice(), max_edits, MatchLength::Full);
        proof {
            match found {
                None => {
                    assert(!end_qualifies(q, t, max_edits as nat, MatchLength::Full, t.len()));
                },
                Some((c, e)) => {
                    assert(correction_cost(q, t, max_edits) == Some(c as nat));
                },
            }
            assert forall|u: Seq<char>| #[trigger] within_budget(q, u, max_edits) by {}
        }
        let cost = match found {
            Some((cost, _)) => cost,
            None => {
                proof {
                    if tracked_before {
                        self.lemma_keep(q, max_edits, words, t);
                    }
                }
                return;
            },
        };
        if cost == 0 || cost > self.cost {
            proof {
                if tracked_before {
                    self.lemma_keep(q, max_edits, words, t);
                }
            }
            return;
        }
        if cost < self.cost {
            let ghost old_cost = self.cost;
            self.term = Some(term);
            self.cost = cost;
            proof {
                if tracked_before {
                    assert forall|u: Seq<char>| after.contains(u) && u != t implies #[trigger] beaten(q, u, max_edits, cost as nat) by {
                        assert(words.contains(u));
                    }
                }
                assert(correction_cost(q, t, max_edits) == Some(cost as nat));
            }
            return;
        }
        proof {
            assert(cost == self.cost);
            if tracked_before {
                if self.cost < u16::MAX {
                    let u0 = choose|u: Seq<char>| words.contains(u) && #[trigger] correction_cost(q, u, max_edits) == Some(self.cost as nat);
                    assert forall|v: Seq<char>, c: nat| !unique_best(q, max_edits, after, v, c) by {
                        if unique_best(q, max_edits, after, v, c) {
                            if v == t {
                                assert(beaten(q, u0, max_edits, c));
                            } else if v == u0 {
                                assert(beaten(q, t, max_edits, c));
                            } else {
                                assert(words.contains(v));
                                assert(beaten(q, u0, max_edits, c));
                            }
                        }
                    }
                } else {
                    assert forall|v: Seq<char>, c: nat| !unique_best(q, max_edits, after, v, c) by {
                        if unique_best(q, max_edits, after, v, c) && v != t {
                            assert(words.contains(v));
                        }
                    }
                }
            }
        }
        self.term = None;
    }

    /// A word with no better positive cost leaves the state as it is.
    proof fn lemma_keep(&self, q: Seq<char>, max_edits: u16, words: Set<Seq<char>>, t: Seq<char>)
        requires
            self.tracks(q, max_edits, words),
            !words.contains(t),
            beaten(q, t, max_edits, self.cost as nat),
            forall|u: Seq<char>| #[trigger] within_budget(q, u, max_edits),
        ensures
            self.tracks(q, max_edits, words.insert(t)),
    {
        let after = words.insert(t);
        match self.term {
            Some(x) => {
                assert forall|u: Seq<char>| after.contains(u) && u != x@ implies #[trigger] beaten(q, u, max_edits, self.cost as nat) by {
                    if u != t {
                        assert(words.contains(u));
                    }
                }
            },
            None => {
                assert forall|v: Seq<char>, c: nat| !unique_best(q, max_edits, after, v, c) by {
                    if unique_best(q, max_edits, after, v, c) {
                        if v == t {
                            if self.cost < u16::MAX {
                                let u0 = choose|u: Seq<char>| words.contains(u) && #[trigger] correction_cost(q, u, max_edits) == Some(self.cost as nat);
                                assert(beaten(q, u0, max_edits, c));
                            }
                        } else {
                            assert(words.contains(v));
                            assert forall|u: Seq<char>| words.contains(u) && u != v implies #[trigger] beaten(q, u, max_edits, c) by {
                                assert(after.contains(u));
                            }
                            assert(unique_best(q, max_edits, words, v, c));
                        }
                    }
                }
            },
        }
    }
}

} // verus!

verus! {

/// No word occurs twice.
pub open spec fn distinct_words(s: Seq<Seq<char>>) -> bool {
    forall|i: int, j: int| 0 <= i < j < s.len() ==> s[i] != s[j]
}

/// The words of a sequence, as a set.
pub open spec fn word_set(s: Seq<Seq<char>>) -> Set<Seq<char>> {
    Set::new(|t: Seq<char>| s.contains(t))
}

/// Looks up bounded edit-distance variants in the finished index vocabulary.
pub struct CorrectionIndex {
    max_edits: u16,
    terms: Interner,
    delete_keys: Interner,
    postings: Vec<SymbolList>,
}

impl CorrectionIndex {
    pub closed spec fn spec_max_edits(&self) -> u16 {
        self.max_edits
    }

    /// The vocabulary, in the order of interning.
    pub closed spec fn spec_terms(&self) -> Seq<Seq<char>> {
        interner_view(self.terms)
    }

    /// The words considered for a query: the whole vocabulary above the
    /// indexed edit budget, else the words that share a deletion key with it.
    pub open spec fn considered(&self, q: Seq<char>) -> Set<Seq<char>> {
        if self.spec_max_edits() > MAX_INDEXED_EDITS {
            word_set(self.spec_terms())
        } else {
            Set::new(
                |t: Seq<char>|
                    self.spec_terms().contains(t) && exists|k: Seq<char>|
                        #[trigger] delete_key_set(t, self.spec_max_edits()).contains(k) && delete_key_set(
                            q,
                            self.spec_max_edits(),
                        ).contains(k),
            )
        }
    }

    /// The interned words and keys are distinct and countable by `u32`
    /// symbols; within the indexed budget, the postings of each key hold
    /// exactly the words that have it among their deletion keys, and every
    /// such key is interned.
    pub closed spec fn wf(&self) -> bool {
        let t = interner_view(self.terms);
        let d = interner_view(self.delete_keys);
        &&& distinct_words(t)
        &&& distinct_words(d)
        &&& t.len() <= u32::MAX
        &&& forall|s: int| 0 <= s < t.len() ==> (#[trigger] t[s]).len() <= usize::MAX / 8
        &&& self.max_edits <= MAX_INDEXED_EDITS ==> {
            &&& self.postings@.len() == d.len()
            &&& forall|x: int, j: int|
                0 <= x < d.len() && 0 <= j < symbol_list_view(self.postings@[x]).len() ==> #[trigger] symbol_list_view(
                    self.postings@[x],
                )[j] < t.len()
            &&& forall|x: int, s: int|
                0 <= x < d.len() && 0 <= s < t.len() ==> (#[trigger] symbol_list_view(self.postings@[x]).contains(
                    s as usize,
                ) <==> delete_key_set(#[trigger] t[s], self.max_edits).contains(d[x]))
            &&& forall|s: int, k: Seq<char>|
                0 <= s < t.len() && #[trigger] delete_key_set(t[s], self.max_edits).contains(k) ==> d.contains(k)
        }
    }
}


/// The postings of every key hold exactly the words (other than `except`)
/// that have the key among their deletion keys, and each of those keys is
/// interned; the postings of `except` are sound.
pub open spec fn postings_match(
    postings: Seq<SymbolList>,
    t: Seq<Seq<char>>,
    d: Seq<Seq<char>>,
    max_edits: u16,
    except: int,
) -> bool {
    &&& postings.len() == d.len()
    &&& forall|x: int, j: int|
        0 <= x < d.len() && 0 <= j < symbol_list_view(postings[x]).len() ==> #[trigger] symbol_list_view(postings[x])[j]
            < t.len()
    &&& forall|x: int, s: int|
        0 <= x < d.len() && 0 <= s < t.len() && s != except ==> (#[trigger] symbol_list_view(postings[x]).contains(
            s as usize,
        ) <==> delete_key_set(#[trigger] t[s], max_edits).contains(d[x]))
    &&& forall|x: int|
        0 <= x < d.len() && 0 <= except < t.len() && #[trigger] symbol_list_view(postings[x]).contains(except as usize)
            ==> delete_key_set(t[except], max_edits).contains(d[x])
    &&& forall|s: int, k: Seq<char>|
        0 <= s < t.len() && s != except && #[trigger] delete_key_set(t[s], max_edits).contains(k) ==> d.contains(k)
}

/// Whether `symbol` is filed under `key`.
pub open spec fn filed_under(postings: Seq<SymbolList>, d: Seq<Seq<char>>, key: Seq<char>, symbol: usize) -> bool {
    exists|x: int| 0 <= x < d.len() && d[x] == key && #[trigger] symbol_list_view(postings[x]).contains(symbol)
}

/// Whether `s` has more members than `u32` symbols can number: more than
/// `u32::MAX` distinct members.
pub open spec fn exceeds_symbols(s: Set<Seq<char>>) -> bool {
    exists|members: Seq<Seq<char>>|
        {
            &&& members.no_duplicates()
            &&& members.len() > u32::MAX
            &&& forall|i: int| 0 <= i < members.len() ==> s.contains(#[trigger] members[i])
        }
}

/// The words of a vocabulary.
pub open spec fn vocabulary_words(vocabulary: Seq<&str>) -> Set<Seq<char>> {
    Set::new(|w: Seq<char>| exists|i: int| 0 <= i < vocabulary.len() && (#[trigger] vocabulary[i])@ == w)
}

/// The deletion keys of a set of words.
pub open spec fn key_set(words: Set<Seq<char>>, max_edits: u16) -> Set<Seq<char>> {
    Set::new(|k: Seq<char>| exists|w: Seq<char>| words.contains(w) && #[trigger] delete_key_set(w, max_edits).contains(k))
}

/// Whether a correction index of `words` fits its `u32` symbols: the words
/// themselves, and within the indexed edit budget their deletion keys.
pub open spec fn fits_symbols(words: Set<Seq<char>>, max_edits: u16) -> bool {
    &&& !exceeds_symbols(words)
    &&& max_edits <= MAX_INDEXED_EDITS ==> !exceeds_symbols(key_set(words, max_edits))
}

/// A set whose members all stand, distinct, in a list of at most
/// `u32::MAX` entries fits `u32` symbols.
proof fn lemma_within_symbols(s: Set<Seq<char>>, listed: Seq<Seq<char>>)
    requires
        distinct_words(listed),
        listed.len() <= u32::MAX,
        forall|x: Seq<char>| s.contains(x) ==> listed.contains(x),
    ensures
        !exceeds_symbols(s),
{
    if exceeds_symbols(s) {
        let members = choose|members: Seq<Seq<char>>|
            {
                &&& members.no_duplicates()
                &&& members.len() > u32::MAX
                &&& forall|i: int| 0 <= i < members.len() ==> s.contains(#[trigger] members[i])
            };
        assert(listed.no_duplicates()) by {
            assert forall|i: int, j: int| 0 <= i < listed.len() && 0 <= j < listed.len() && i != j implies listed[i] != listed[j] by {
                if i < j {
                } else {
                }
            }
        }
        members.unique_seq_to_set();
        listed.unique_seq_to_set();
        vstd::seq_lib::seq_to_set_is_finite(listed);
        assert(members.to_set().subset_of(listed.to_set())) by {
            assert forall|x: Seq<char>| members.to_set().contains(x) implies listed.to_set().contains(x) by {
                let i = choose|i: int| 0 <= i < members.len() && members[i] == x;
                assert(s.contains(members[i]));
            }
        }
        vstd::set_lib::lemma_len_subset(members.to_set(), listed.to_set());
    }
}

/// A set that holds `u32::MAX` distinct listed members and one more member
/// does not fit `u32` symbols.
proof fn lemma_beyond_symbols(s: Set<Seq<char>>, listed: Seq<Seq<char>>, extra: Seq<char>)
    requires
        distinct_words(listed),
        listed.len() >= u32::MAX,
        forall|i: int| 0 <= i < listed.len() ==> s.contains(#[trigger] listed[i]),
        s.contains(extra),
        !listed.contains(extra),
    ensures
        exceeds_symbols(s),
{
    let members = listed.push(extra);
    assert forall|i: int, j: int| 0 <= i < members.len() && 0 <= j < members.len() && i != j implies members[i] != members[j] by {
        if i < listed.len() && j < listed.len() {
            if i < j {
                assert(listed[i] != listed[j]);
            } else {
                assert(listed[j] != listed[i]);
            }
        } else if i < listed.len() {
            assert(listed.contains(listed[i]));
        } else {
            assert(listed.contains(listed[j]));
        }
    }
    assert forall|i: int| 0 <= i < members.len() implies s.contains(#[trigger] members[i]) by {
        if i < listed.len() {
            assert(members[i] == listed[i]);
        }
    }
    assert(members.no_duplicates());
}

impl CorrectionIndex {
    /// Interns the vocabulary and, within the indexed edit budget, files
    /// each word under its deletion keys; the words, and their keys, must
    /// fit the `u32` symbols (see `fits_symbols`).
    pub fn new(vocabulary: &[&str], max_edits: u16) -> (corrector: Self)
        requires
            fits_symbols(vocabulary_words(vocabulary@), max_edits),
            forall|i: int| 0 <= i < vocabulary@.len() ==> (#[trigger] vocabulary@[i])@.len() <= usize::MAX / 8,
        ensures
            corrector.wf(),
            corrector.spec_max_edits() == max_edits,
            forall|w: Seq<char>|
                corrector.spec_terms().contains(w) <==> exists|i: int| 0 <= i < vocabulary@.len() && (#[trigger] vocabulary@[i])@ == w,
    {
        match Self::try_new(vocabulary, max_edits) {
            Some(corrector) => corrector,
            None => CorrectionIndex {
                max_edits,
                terms: interner_new(),
                delete_keys: interner_new(),
                postings: Vec::new(),
            },
        }
    }

    /// Builds the index as `new` does, or `None` when the words, or within
    /// the indexed edit budget their deletion keys, run out of `u32`
    /// symbols.
    pub fn try_new(vocabulary: &[&str], max_edits: u16) -> (corrector: Option<Self>)
        requires
            forall|i: int| 0 <= i < vocabulary@.len() ==> (#[trigger] vocabulary@[i])@.len() <= usize::MAX / 8,
        ensures
            corrector is Some <==> fits_symbols(vocabulary_words(vocabulary@), max_edits),
            corrector matches Some(c) ==> {
                &&& c.wf()
                &&& c.spec_max_edits() == max_edits
                &&& forall|w: Seq<char>|
                    c.spec_terms().contains(w) <==> exists|i: int| 0 <= i < vocabulary@.len() && (#[trigger] vocabulary@[i])@ == w
            },
    {
        let mut terms = interner_new();
        let mut delete_keys = interner_new();
        let mut postings: Vec<SymbolList> = Vec::new();
        let indexed = max_edits <= MAX_INDEXED_EDITS;
        let mut v: usize = 0;
        while v < vocabulary.len()
            invariant
                v <= vocabulary@.len(),
                interner_view(terms).len() <= u32::MAX,
                interner_view(delete_keys).len() <= u32::MAX,
                indexed ==> forall|x: int|
                    0 <= x < interner_view(delete_keys).len() ==> key_set(vocabulary_words(vocabulary@), max_edits).contains(
                        #[trigger] interner_view(delete_keys)[x],
                    ),
                forall|i: int| 0 <= i < vocabulary@.len() ==> (#[trigger] vocabulary@[i])@.len() <= usize::MAX / 8,
                indexed == (max_edits <= MAX_INDEXED_EDITS),
                distinct_words(interner_view(terms)),
                distinct_words(interner_view(delete_keys)),
                interner_view(terms).len() <= v,
                forall|s: int| 0 <= s < interner_view(terms).len() ==> (#[trigger] interner_view(terms)[s]).len() <= usize::MAX / 8,
                forall|w: Seq<char>|
                    interner_view(terms).contains(w) <==> exists|i: int| 0 <= i < v && (#[trigger] vocabulary@[i])@ == w,
                indexed ==> postings_match(postings@, interner_view(terms), interner_view(delete_keys), max_edits, -1),
                indexed ==> forall|x: int| 0 <= x < postings@.len() ==> symbol_list_view(#[trigger] postings@[x]).len() <= v,
            decreases vocabulary@.len() - v,
        {
            let term = vocabulary[v];
            let ghost t_before = interner_view(terms);
            proof {
                assert(vocabulary_words(vocabulary@).contains(term@));
            }
            let term_symbol = match interner_get(&terms, term) {
                Some(x) => x,
                None => {
                    if interner_len(&terms) >= u32::MAX as usize {
                        proof {
                            assert forall|i: int| 0 <= i < t_before.len() implies vocabulary_words(vocabulary@).contains(
                                #[trigger] t_before[i],
                            ) by {
                                assert(t_before.contains(t_before[i]));
                            }
                            lemma_beyond_symbols(vocabulary_words(vocabulary@), t_before, term@);
                        }
                        return None;
                    }
                    interner_intern(&mut terms, term)
                },
            };
            let ghost t = interner_view(terms);
            proof {
                assert(t_before.contains(term@) ==> t == t_before && term_symbol < t_before.len() && t_before[term_symbol as int] == term@);
                assert(!t_before.contains(term@) ==> t == t_before.push(term@) && term_symbol == t_before.len());
                assert forall|w: Seq<char>| t.contains(w) <==> exists|i: int| 0 <= i < v + 1 && (#[trigger] vocabulary@[i])@ == w by {
                    if t.contains(w) && !t_before.contains(w) {
                        assert(w == term@);
                        assert(vocabulary@[v as int]@ == w);
                    }
                    if t_before.contains(w) {
                        let x = choose|x: int| 0 <= x < t_before.len() && t_before[x] == w;
                        assert(t[x] == w);
                    }
                    if exists|i: int| 0 <= i < v + 1 && (#[trigger] vocabulary@[i])@ == w {
                        let i = choose|i: int| 0 <= i < v + 1 && (#[trigger] vocabulary@[i])@ == w;
                        if i == v {
                            if !t_before.contains(w) {
                                assert(t[t_before.len() as int] == w);
                            }
                        }
                    }
                }
                if !t_before.contains(term@) {
                    assert forall|i: int, j: int| 0 <= i < j < t.len() implies t[i] != t[j] by {
                        if j == t_before.len() {
                            assert(t_before.contains(t_before[i]));
                        }
                    }
                }
                assert forall|s: int| 0 <= s < t.len() implies (#[trigger] t[s]).len() <= usize::MAX / 8 by {
                    if s == t_before.len() {
                        assert(t[s] == term@);
                    } else {
                        assert(t[s] == t_before[s]);
                    }
                }
            }
            if indexed {
                let chars = crate::text::str_to_chars(term);
                let keys = DeleteKeys::new(chars.as_slice(), max_edits);
                let count = keys.len();
                proof {
                    assert(forall|s: int| 0 <= s < t_before.len() ==> t[s] == t_before[s]);
                    assert(t.len() == t_before.len() || t.len() == t_before.len() + 1);
                    assert(t[term_symbol as int] == chars@);
                    if t != t_before {
                        assert(t =~= t_before.push(t[term_symbol as int]));
                    }
                }
                proof {
                    lemma_postings_start(postings@, t_before, t, interner_view(delete_keys), max_edits, term_symbol as int);
                }
                let mut k: usize = 0;
                while k < count
                    invariant
                        k <= count,
                        t.len() <= v + 1,
                        count == keys.view().len(),
                        count <= 29,
                        v < vocabulary@.len(),
                        t.len() <= u32::MAX,
                        interner_view(delete_keys).len() <= u32::MAX,
                        vocabulary@[v as int]@ == chars@,
                        forall|x: int|
                            0 <= x < interner_view(delete_keys).len() ==> key_set(vocabulary_words(vocabulary@), max_edits).contains(
                                #[trigger] interner_view(delete_keys)[x],
                            ),
                        keys.view().no_duplicates(),
                        postings@.len() == interner_view(delete_keys).len(),
                        max_edits <= MAX_INDEXED_EDITS,
                        v < usize::MAX,
                        (term_symbol as int) < t.len(),
                        t == interner_view(terms),
                        t[term_symbol as int] == chars@,
                        forall|key: Seq<char>| keys.view().contains(key) <==> delete_key_set(chars@, max_edits).contains(key),
                        distinct_words(interner_view(delete_keys)),
                        postings_match(postings@, t, interner_view(delete_keys), max_edits, term_symbol as int),
                        forall|x: int| 0 <= x < postings@.len() ==> symbol_list_view(#[trigger] postings@[x]).len() <= v + 1,
                        forall|x: int|
                            0 <= x < postings@.len() && !keys.view().take(k as int).contains(interner_view(delete_keys)[x])
                                ==> symbol_list_view(#[trigger] postings@[x]).len() <= v,
                        forall|y: int|
                            0 <= y < k ==> filed_under(postings@, interner_view(delete_keys), #[trigger] keys.view()[y], term_symbol),
                    decreases count - k,
                {
                    let key = keys.get(k);
                    let ghost d_before = interner_view(delete_keys);
                    let ghost p_before = postings@;
                    proof {
                        assert(keys.view().contains(keys.view()[k as int]));
                        assert(key_set(vocabulary_words(vocabulary@), max_edits).contains(key@)) by {
                            assert(vocabulary_words(vocabulary@).contains(chars@));
                            assert(delete_key_set(chars@, max_edits).contains(key@));
                        }
                    }
                    let delete_symbol = match interner_get(&delete_keys, key) {
                        Some(x) => x,
                        None => {
                            if interner_len(&delete_keys) >= u32::MAX as usize {
                                proof {
                                    lemma_beyond_symbols(key_set(vocabulary_words(vocabulary@), max_edits), d_before, key@);
                                }
                                return None;
                            }
                            interner_intern(&mut delete_keys, key)
                        },
                    };
                    proof {
                        assert(d_before.contains(key@) ==> interner_view(delete_keys) == d_before && delete_symbol < d_before.len() && d_before[delete_symbol as int] == key@);
                        assert(!d_before.contains(key@) ==> interner_view(delete_keys) == d_before.push(key@) && delete_symbol == d_before.len());
                    }
                    if delete_symbol == postings.len() {
                        postings.push(symbol_list_new());
                    }
                    let ghost p_mid = postings@;
                    let ghost list_before = symbol_list_view(postings@[delete_symbol as int]);
                    proof {
                        let kv = keys.view();
                        assert(!kv.take(k as int).contains(kv[k as int])) by {
                            if kv.take(k as int).contains(kv[k as int]) {
                                let y = choose|y: int| 0 <= y < k && kv.take(k as int)[y] == kv[k as int];
                                assert(kv[y] == kv[k as int]);
                            }
                        }
                        if (delete_symbol as int) < p_before.len() {
                            assert(d_before[delete_symbol as int] == kv[k as int]);
                            assert(postings@[delete_symbol as int] == p_before[delete_symbol as int]);
                        }
                        assert(symbol_list_view(postings@[delete_symbol as int]).len() <= v);
                    }
                    symbol_list_push(&mut postings[delete_symbol], term_symbol);
                    proof {
                        lemma_postings_step(p_before, p_mid, postings@, t, d_before, interner_view(delete_keys), max_edits,
                            term_symbol as int, delete_symbol as int, keys.view()[k as int], chars@, keys.view());
                        assert forall|y: int| 0 <= y < k + 1 implies filed_under(postings@, interner_view(delete_keys), #[trigger] keys.view()[y], term_symbol) by {
                            if y < k {
                                assert(filed_under(p_before, d_before, keys.view()[y], term_symbol));
                                let x = choose|x: int| 0 <= x < d_before.len() && d_before[x] == keys.view()[y] && #[trigger] symbol_list_view(p_before[x]).contains(term_symbol);
                                assert(symbol_list_view(postings@[x]).contains(term_symbol));
                            } else {
                                assert(symbol_list_view(postings@[delete_symbol as int]).contains(term_symbol));
                            }
                        }
                        let d_after = interner_view(delete_keys);
                        let kv = keys.view();
                        assert(kv.take(k + 1) =~= kv.take(k as int).push(kv[k as int]));
                        assert(!kv.take(k as int).contains(kv[k as int])) by {
                            if kv.take(k as int).contains(kv[k as int]) {
                                let y = choose|y: int| 0 <= y < k && kv.take(k as int)[y] == kv[k as int];
                                assert(kv[y] == kv[k as int]);
                            }
                        }
                        assert forall|x: int| 0 <= x < postings@.len() implies symbol_list_view(#[trigger] postings@[x]).len() <= v + 1
                            && (!kv.take(k + 1).contains(d_after[x]) ==> symbol_list_view(postings@[x]).len() <= v) by {
                            if x != delete_symbol {
                                assert(postings@[x] == p_before[x]);
                                assert(d_after[x] == d_before[x]);
                                if !kv.take(k + 1).contains(d_after[x]) {
                                    assert(!kv.take(k as int).contains(d_before[x])) by {
                                        if kv.take(k as int).contains(d_before[x]) {
                                            let y = choose|y: int| 0 <= y < k && kv.take(k as int)[y] == d_before[x];
                                            assert(kv.take(k + 1)[y] == d_before[x]);
                                        }
                                    }
                                }
                            } else {
                                assert(d_after[x] == kv[k as int]);
                                assert(kv.take(k + 1)[k as int] == kv[k as int]);
                                if x < p_before.len() {
                                    assert(d_before[x] == kv[k as int]);
                                }
                            }
                        }
                    }
                    k = k + 1;
                }
                proof {
                    lemma_postings_finish(postings@, t, interner_view(delete_keys), max_edits, term_symbol as int, chars@, keys.view());
                }
            } else {
            }
            v = v + 1;
        }
        proof {
            let words = vocabulary_words(vocabulary@);
            let t = interner_view(terms);
            assert forall|w: Seq<char>| words.contains(w) implies t.contains(w) by {
                let i = choose|i: int| 0 <= i < vocabulary@.len() && (#[trigger] vocabulary@[i])@ == w;
            }
            lemma_within_symbols(words, t);
            if indexed {
                let d = interner_view(delete_keys);
                assert forall|key: Seq<char>| key_set(words, max_edits).contains(key) implies d.contains(key) by {
                    let w = choose|w: Seq<char>| words.contains(w) && #[trigger] delete_key_set(w, max_edits).contains(key);
                    assert(t.contains(w));
                    let s = choose|s: int| 0 <= s < t.len() && t[s] == w;
                    assert(delete_key_set(t[s], max_edits).contains(key));
                }
                lemma_within_symbols(key_set(words, max_edits), d);
            }
        }
        Some(CorrectionIndex { max_edits, terms, delete_keys, postings })
    }
}


proof fn lemma_postings_start(
    postings: Seq<SymbolList>,
    t_before: Seq<Seq<char>>,
    t: Seq<Seq<char>>,
    d: Seq<Seq<char>>,
    max_edits: u16,
    cur: int,
)
    requires
        postings_match(postings, t_before, d, max_edits, -1),
        t.len() <= u32::MAX,
        t == t_before || (t == t_before.push(t[cur]) && cur == t_before.len()),
        0 <= cur < t.len(),
    ensures
        postings_match(postings, t, d, max_edits, cur),
{
    if t != t_before {
        assert forall|x: int| 0 <= x < d.len() && #[trigger] symbol_list_view(postings[x]).contains(cur as usize) implies delete_key_set(t[cur], max_edits).contains(d[x]) by {
            let j = choose|j: int| 0 <= j < symbol_list_view(postings[x]).len() && symbol_list_view(postings[x])[j] == cur as usize;
            assert(symbol_list_view(postings[x])[j] < t_before.len());
        }
        assert forall|x: int, s: int|
            0 <= x < d.len() && 0 <= s < t.len() && s != cur implies (#[trigger] symbol_list_view(postings[x]).contains(
                s as usize,
            ) <==> delete_key_set(#[trigger] t[s], max_edits).contains(d[x])) by {
            assert(t[s] == t_before[s]);
        }
        assert forall|s: int, k: Seq<char>|
            0 <= s < t.len() && s != cur && #[trigger] delete_key_set(t[s], max_edits).contains(k) implies d.contains(k) by {
            assert(t[s] == t_before[s]);
        }
        assert forall|x: int, j: int|
            0 <= x < d.len() && 0 <= j < symbol_list_view(postings[x]).len() implies #[trigger] symbol_list_view(postings[x])[j]
                < t.len() by {
        }
    }
}

proof fn lemma_postings_step(
    p_before: Seq<SymbolList>,
    p_mid: Seq<SymbolList>,
    p_after: Seq<SymbolList>,
    t: Seq<Seq<char>>,
    d_before: Seq<Seq<char>>,
    d_after: Seq<Seq<char>>,
    max_edits: u16,
    cur: int,
    x0: int,
    key: Seq<char>,
    chars: Seq<char>,
    keys: Seq<Seq<char>>,
)
    requires
        postings_match(p_before, t, d_before, max_edits, cur),
        t.len() <= u32::MAX,
        0 <= cur < t.len(),
        t[cur] == chars,
        forall|k: Seq<char>| keys.contains(k) <==> delete_key_set(chars, max_edits).contains(k),
        keys.contains(key),
        d_before.contains(key) ==> d_after == d_before && x0 < d_before.len() && d_before[x0] == key,
        !d_before.contains(key) ==> d_after == d_before.push(key) && x0 == d_before.len(),
        p_mid == if x0 == p_before.len() {
            p_before.push(p_mid[x0])
        } else {
            p_before
        },
        x0 == p_before.len() ==> symbol_list_view(p_mid[x0]) == Seq::<usize>::empty(),
        p_after == p_mid.update(x0, p_after[x0]),
        0 <= x0 < p_mid.len(),
        symbol_list_view(p_after[x0]) == symbol_list_view(p_mid[x0]).push(cur as usize),
    ensures
        postings_match(p_after, t, d_after, max_edits, cur),
        d_after[x0] == key,
        symbol_list_view(p_after[x0]).contains(cur as usize),
        forall|x: int| 0 <= x < d_before.len() ==> d_after[x] == d_before[x],
        forall|x: int, s: usize| 0 <= x < p_before.len() && #[trigger] symbol_list_view(p_before[x]).contains(s) ==> symbol_list_view(p_after[x]).contains(s),
{
    assert(symbol_list_view(p_after[x0])[symbol_list_view(p_mid[x0]).len() as int] == cur as usize);
    assert(p_after.len() == d_after.len());
    assert forall|s: int, k: Seq<char>|
        0 <= s < t.len() && s != cur && #[trigger] delete_key_set(t[s], max_edits).contains(k) implies d_after.contains(k) by {
        assert(d_before.contains(k));
        let x = choose|x: int| 0 <= x < d_before.len() && d_before[x] == k;
        assert(d_after[x] == k);
    }
    assert forall|x: int, s: usize| 0 <= x < p_before.len() && #[trigger] symbol_list_view(p_before[x]).contains(s) implies symbol_list_view(p_after[x]).contains(s) by {
        if x == x0 {
            let j = choose|j: int| 0 <= j < symbol_list_view(p_before[x]).len() && symbol_list_view(p_before[x])[j] == s;
            assert(symbol_list_view(p_after[x])[j] == s);
        }
    }
    assert forall|x: int, j: int|
        0 <= x < d_after.len() && 0 <= j < symbol_list_view(p_after[x]).len() implies #[trigger] symbol_list_view(p_after[x])[j]
            < t.len() by {
        if x == x0 {
            if j < symbol_list_view(p_mid[x0]).len() {
                assert(symbol_list_view(p_after[x])[j] == symbol_list_view(p_mid[x0])[j]);
            }
        }
    }
    assert forall|x: int, s: int|
        0 <= x < d_after.len() && 0 <= s < t.len() && s != cur implies (#[trigger] symbol_list_view(p_after[x]).contains(
            s as usize,
        ) <==> delete_key_set(#[trigger] t[s], max_edits).contains(d_after[x])) by {
        if x == x0 {
            if symbol_list_view(p_after[x]).contains(s as usize) {
                let j = choose|j: int| 0 <= j < symbol_list_view(p_after[x]).len() && symbol_list_view(p_after[x])[j] == s as usize;
                assert(symbol_list_view(p_mid[x0])[j] == s as usize);
                assert(symbol_list_view(p_mid[x0]).contains(s as usize));
            }
            if symbol_list_view(p_mid[x0]).contains(s as usize) {
                let j = choose|j: int| 0 <= j < symbol_list_view(p_mid[x0]).len() && symbol_list_view(p_mid[x0])[j] == s as usize;
                assert(symbol_list_view(p_after[x])[j] == s as usize);
            }
            if x0 == d_before.len() {
                assert(!delete_key_set(t[s], max_edits).contains(key));
            }
        }
    }
    assert forall|x: int|
        0 <= x < d_after.len() && 0 <= cur < t.len() && #[trigger] symbol_list_view(p_after[x]).contains(cur as usize)
            implies delete_key_set(t[cur], max_edits).contains(d_after[x]) by {
        if x != x0 {
            assert(p_after[x] == p_before[x]);
        } else {
            assert(keys.contains(key));
            assert(delete_key_set(chars, max_edits).contains(key));
        }
    }
}

proof fn lemma_postings_finish(
    postings: Seq<SymbolList>,
    t: Seq<Seq<char>>,
    d: Seq<Seq<char>>,
    max_edits: u16,
    cur: int,
    chars: Seq<char>,
    keys: Seq<Seq<char>>,
)
    requires
        postings_match(postings, t, d, max_edits, cur),
        distinct_words(d),
        t.len() <= u32::MAX,
        0 <= cur < t.len(),
        t[cur] == chars,
        forall|k: Seq<char>| keys.contains(k) <==> delete_key_set(chars, max_edits).contains(k),
        forall|y: int| 0 <= y < keys.len() ==> filed_under(postings, d, #[trigger] keys[y], cur as usize),
    ensures
        postings_match(postings, t, d, max_edits, -1),
{
    assert forall|x: int, s: int|
        0 <= x < d.len() && 0 <= s < t.len() && s != -1 implies (#[trigger] symbol_list_view(postings[x]).contains(
            s as usize,
        ) <==> delete_key_set(#[trigger] t[s], max_edits).contains(d[x])) by {
        if s == cur && delete_key_set(t[s], max_edits).contains(d[x]) {
            assert(keys.contains(d[x]));
            let y = choose|y: int| 0 <= y < keys.len() && keys[y] == d[x];
            assert(filed_under(postings, d, keys[y], cur as usize));
            let x1 = choose|x1: int| 0 <= x1 < d.len() && d[x1] == keys[y] && #[trigger] symbol_list_view(postings[x1]).contains(cur as usize);
            if x1 != x {
                if x1 < x {
                    assert(d[x1] != d[x]);
                } else {
                    assert(d[x] != d[x1]);
                }
            }
        }
    }
    assert forall|s: int, k: Seq<char>|
        0 <= s < t.len() && s != -1 && #[trigger] delete_key_set(t[s], max_edits).contains(k) implies d.contains(k) by {
        if s == cur {
            assert(keys.contains(k));
            let y = choose|y: int| 0 <= y < keys.len() && keys[y] == k;
            assert(filed_under(postings, d, keys[y], cur as usize));
            let x1 = choose|x1: int| 0 <= x1 < d.len() && d[x1] == keys[y] && #[trigger] symbol_list_view(postings[x1]).contains(cur as usize);
        }
    }
}


impl CorrectionIndex {
    proof fn lemma_postings(&self, x: int, s: int)
        requires
            self.wf(),
            self.max_edits <= MAX_INDEXED_EDITS,
            0 <= x < interner_view(self.delete_keys).len(),
            0 <= s < interner_view(self.terms).len(),
        ensures
            symbol_list_view(self.postings@[x]).contains(s as usize) <==> delete_key_set(
                interner_view(self.terms)[s],
                self.max_edits,
            ).contains(interner_view(self.delete_keys)[x]),
    {
    }

    proof fn lemma_covered(&self, s: int, k: Seq<char>)
        requires
            self.wf(),
            self.max_edits <= MAX_INDEXED_EDITS,
            0 <= s < interner_view(self.terms).len(),
            delete_key_set(interner_view(self.terms)[s], self.max_edits).contains(k),
        ensures
            interner_view(self.delete_keys).contains(k),
    {
    }
}

/// Whether symbol `s` is filed under `key` in the deletion index.
pub open spec fn reached(postings: Seq<SymbolList>, d: Seq<Seq<char>>, key: Seq<char>, s: int) -> bool {
    exists|x: int| 0 <= x < d.len() && d[x] == key && #[trigger] symbol_list_view(postings[x]).contains(s as usize)
}

/// Whether `seen` holds symbol `s`.
pub open spec fn has_symbol(seen: Set<u64>, s: int) -> bool {
    seen.contains(s as u64)
}

/// The words of the symbols in `seen`.
pub open spec fn seen_words(t: Seq<Seq<char>>, seen: Set<u64>) -> Set<Seq<char>> {
    Set::new(|w: Seq<char>| exists|s: int| 0 <= s < t.len() && seen.contains(s as u64) && t[s] == w)
}

impl CorrectionIndex {
    /// The one vocabulary word that the query is closest to, with its cost,
    /// among the words considered; none when the closest cost is tied.
    pub fn correct(&self, query: &[char]) -> (result: Option<(&str, u16)>)
        requires
            self.wf(),
            query@.len() <= usize::MAX / 8,
        ensures
            match result {
                Some((word, cost)) => unique_best(query@, self.spec_max_edits(), self.considered(query@), word@, cost as nat),
                None => forall|t: Seq<char>, c: nat| !unique_best(query@, self.spec_max_edits(), self.considered(query@), t, c),
            },
            match result {
                Some((word, cost)) => unique_best(query@, self.spec_max_edits(), word_set(self.spec_terms()), word@, cost as nat),
                None => forall|t: Seq<char>, c: nat| !unique_best(query@, self.spec_max_edits(), word_set(self.spec_terms()), t, c),
            },
    {
        let ghost q = query@;
        let ghost tv = interner_view(self.terms);
        let mut corrections = Corrections::new();
        if self.max_edits > MAX_INDEXED_EDITS {
            let count = interner_len(&self.terms);
            let mut s: usize = 0;
            while s < count
                invariant
                    s <= count,
                    count == tv.len(),
                    tv == interner_view(self.terms),
                    tv.len() <= u32::MAX,
                    distinct_words(tv),
                    forall|x: int| 0 <= x < tv.len() ==> (#[trigger] tv[x]).len() <= usize::MAX / 8,
                    q.len() <= usize::MAX / 8,
                    q == query@,
                    corrections.tracks(q, self.max_edits, word_set(tv.take(s as int))),
                    forall|w: &str| corrections.term == Some(w) ==> tv.contains(w@),
                decreases count - s,
            {
                let ghost seen = word_set(tv.take(s as int));
                match interner_resolve(&self.terms, s) {
                    Some(term) => {
                        proof {
                            assert(!seen.contains(term@)) by {
                                if seen.contains(term@) {
                                    let x = choose|x: int| 0 <= x < s && #[trigger] tv.take(s as int)[x] == term@;
                                    assert(tv[x] == tv[s as int]);
                                }
                            }
                        }
                        corrections.consider(term, query, self.max_edits, Ghost(seen));
                        proof {
                            assert(word_set(tv.take(s + 1)) =~= seen.insert(term@)) by {
                                assert forall|w: Seq<char>| word_set(tv.take(s + 1)).contains(w) <==> seen.insert(term@).contains(w) by {
                                    if tv.take(s + 1).contains(w) {
                                        let x = choose|x: int| 0 <= x < s + 1 && #[trigger] tv.take(s + 1)[x] == w;
                                        if x < s {
                                            assert(tv.take(s as int)[x] == w);
                                        }
                                    }
                                    if seen.contains(w) {
                                        let x = choose|x: int| 0 <= x < s && #[trigger] tv.take(s as int)[x] == w;
                                        assert(tv.take(s + 1)[x] == w);
                                    }
                                    if w == term@ {
                                        assert(tv.take(s + 1)[s as int] == w);
                                    }
                                }
                            }
                        }
                    },
                    None => {},
                }
                s = s + 1;
            }
            proof {
                assert(tv.take(count as int) =~= tv);
                assert(word_set(tv) == self.considered(q));
            }
        } else {
            let ghost dv = interner_view(self.delete_keys);
            let ghost me = self.max_edits;
            let keys = DeleteKeys::new(query, self.max_edits);
            let count = keys.len();
            let mut seen = id_set_new();
            proof {
                assert(seen_words(tv, id_set_view(seen)) =~= Set::<Seq<char>>::empty());
            }
            let mut y: usize = 0;
            while y < count
                invariant
                    y <= count,
                    count == keys.view().len(),
                    forall|k: Seq<char>| keys.view().contains(k) <==> delete_key_set(q, me).contains(k),
                    self.wf(),
                    me == self.max_edits,
                    me <= MAX_INDEXED_EDITS,
                    tv == interner_view(self.terms),
                    dv == interner_view(self.delete_keys),
                    q.len() <= usize::MAX / 8,
                    q == query@,
                    forall|z: u64| id_set_view(seen).contains(z) ==> z < tv.len(),
                    forall|s: int|
                        0 <= s < tv.len() ==> (#[trigger] has_symbol(id_set_view(seen), s) <==> exists|yy: int|
                            0 <= yy < y && #[trigger] reached(self.postings@, dv, keys.view()[yy], s)),
                    corrections.tracks(q, me, seen_words(tv, id_set_view(seen))),
                    forall|w: &str| corrections.term == Some(w) ==> tv.contains(w@),
                decreases count - y,
            {
                let key = keys.get(y);
                match interner_get(&self.delete_keys, key) {
                    None => {
                        proof {
                            assert forall|s: int| 0 <= s < tv.len() implies (#[trigger] has_symbol(id_set_view(seen), s) <==> exists|yy: int|
                                0 <= yy < y + 1 && #[trigger] reached(self.postings@, dv, keys.view()[yy], s)) by {
                                if reached(self.postings@, dv, keys.view()[y as int], s) {
                                    let x = choose|x: int| 0 <= x < dv.len() && dv[x] == keys.view()[y as int] && #[trigger] symbol_list_view(self.postings@[x]).contains(s as usize);
                                    assert(dv.contains(keys.view()[y as int]));
                                }
                            }
                        }
                    },
                    Some(x) => {
                        let list = &self.postings[x];
                        let n = symbol_list_len(list);
                        let mut j: usize = 0;
                        while j < n
                            invariant
                                j <= n,
                                y < count,
                                count == keys.view().len(),
                                0 <= x < dv.len(),
                                dv[x as int] == keys.view()[y as int],
                                *list == self.postings@[x as int],
                                n == symbol_list_view(*list).len(),
                                self.wf(),
                                me == self.max_edits,
                                me <= MAX_INDEXED_EDITS,
                                tv == interner_view(self.terms),
                                dv == interner_view(self.delete_keys),
                                q.len() <= usize::MAX / 8,
                                q == query@,
                                forall|z: u64| id_set_view(seen).contains(z) ==> z < tv.len(),
                                forall|s: int|
                                    0 <= s < tv.len() ==> (#[trigger] has_symbol(id_set_view(seen), s) <==> (exists|yy: int|
                                        0 <= yy < y && #[trigger] reached(self.postings@, dv, keys.view()[yy], s)) || exists|jj: int|
                                        0 <= jj < j && #[trigger] symbol_list_view(*list)[jj] == s),
                                corrections.tracks(q, me, seen_words(tv, id_set_view(seen))),
                                forall|w: &str| corrections.term == Some(w) ==> tv.contains(w@),
                            decreases n - j,
                        {
                            let s = symbol_list_get(list, j);
                            proof {
                                assert(s < tv.len());
                            }
                            let ghost words = seen_words(tv, id_set_view(seen));
                            let ghost set_before = id_set_view(seen);
                            if id_set_insert(&mut seen, s as u64) {
                                match interner_resolve(&self.terms, s) {
                                    Some(term) => {
                                        proof {
                                            assert(!words.contains(term@)) by {
                                                if words.contains(term@) {
                                                    let s2 = choose|s2: int| 0 <= s2 < tv.len() && set_before.contains(s2 as u64) && tv[s2] == term@;
                                                    if s2 != s {
                                                        if s2 < s {
                                                            assert(tv[s2] != tv[s as int]);
                                                        } else {
                                                            assert(tv[s as int] != tv[s2]);
                                                        }
                                                    }
                                                }
                                            }
                                            assert(term@ == tv[s as int]);
                                        }
                                        corrections.consider(term, query, self.max_edits, Ghost(words));
                                        proof {
                                            assert(seen_words(tv, id_set_view(seen)) =~= words.insert(term@)) by {
                                                assert forall|w: Seq<char>| seen_words(tv, id_set_view(seen)).contains(w) implies words.insert(term@).contains(w) by {
                                                    let s2 = choose|s2: int| 0 <= s2 < tv.len() && id_set_view(seen).contains(s2 as u64) && tv[s2] == w;
                                                    if s2 != s {
                                                        assert(set_before.contains(s2 as u64));
                                                    }
                                                }
                                                assert forall|w: Seq<char>| words.insert(term@).contains(w) implies seen_words(tv, id_set_view(seen)).contains(w) by {
                                                    if w == term@ {
                                                        assert(id_set_view(seen).contains(s as int as u64));
                                                    } else {
                                                        let s2 = choose|s2: int| 0 <= s2 < tv.len() && set_before.contains(s2 as u64) && tv[s2] == w;
                                                        assert(id_set_view(seen).contains(s2 as u64));
                                                    }
                                                }
                                            }
                                        }
                                    },
                                    None => {},
                                }
                            } else {
                                proof {
                                    assert(id_set_view(seen) == set_before.insert(s as u64));
                                    assert(set_before.contains(s as u64));
                                    assert(id_set_view(seen) =~= set_before);
                                }
                            }
                            proof {
                                assert forall|s2: int|
                                    0 <= s2 < tv.len() implies (#[trigger] has_symbol(id_set_view(seen), s2) <==> (exists|yy: int|
                                        0 <= yy < y && #[trigger] reached(self.postings@, dv, keys.view()[yy], s2)) || exists|jj: int|
                                        0 <= jj < j + 1 && #[trigger] symbol_list_view(*list)[jj] == s2) by {
                                    assert(has_symbol(set_before, s2) <==> (exists|yy: int|
                                        0 <= yy < y && #[trigger] reached(self.postings@, dv, keys.view()[yy], s2)) || exists|jj: int|
                                        0 <= jj < j && #[trigger] symbol_list_view(*list)[jj] == s2);
                                    assert(id_set_view(seen) == set_before.insert(s as u64));
                                    assert(has_symbol(id_set_view(seen), s2) <==> has_symbol(set_before, s2) || s2 == s as int);
                                    if s2 == s {
                                        assert(symbol_list_view(*list)[j as int] == s2);
                                    }
                                    if exists|jj: int| 0 <= jj < j + 1 && #[trigger] symbol_list_view(*list)[jj] == s2 {
                                        let jj = choose|jj: int| 0 <= jj < j + 1 && #[trigger] symbol_list_view(*list)[jj] == s2;
                                        if jj < j {
                                            assert(exists|jj2: int| 0 <= jj2 < j && #[trigger] symbol_list_view(*list)[jj2] == s2);
                                        }
                                    }
                                }
                            }
                            j = j + 1;
                        }
                        proof {
                            assert forall|s: int| 0 <= s < tv.len() implies (#[trigger] has_symbol(id_set_view(seen), s) <==> exists|yy: int|
                                0 <= yy < y + 1 && #[trigger] reached(self.postings@, dv, keys.view()[yy], s)) by {
                                if exists|jj: int| 0 <= jj < n && #[trigger] symbol_list_view(*list)[jj] == s {
                                    let jj = choose|jj: int| 0 <= jj < n && #[trigger] symbol_list_view(*list)[jj] == s;
                                    assert(symbol_list_view(self.postings@[x as int]).contains(s as usize));
                                    assert(reached(self.postings@, dv, keys.view()[y as int], s));
                                }
                                if reached(self.postings@, dv, keys.view()[y as int], s) {
                                    let x2 = choose|x2: int| 0 <= x2 < dv.len() && dv[x2] == keys.view()[y as int] && #[trigger] symbol_list_view(self.postings@[x2]).contains(s as usize);
                                    if x2 != x {
                                        if x2 < x {
                                            assert(dv[x2] != dv[x as int]);
                                        } else {
                                            assert(dv[x as int] != dv[x2]);
                                        }
                                    }
                                    let jj = choose|jj: int| 0 <= jj < n && symbol_list_view(*list)[jj] == s as usize;
                                    assert(symbol_list_view(*list)[jj] == s);
                                }
                            }
                        }
                    },
                }
                y = y + 1;
            }
            proof {
                assert forall|t: Seq<char>| seen_words(tv, id_set_view(seen)).contains(t) <==> self.considered(q).contains(t) by {
                    if seen_words(tv, id_set_view(seen)).contains(t) {
                        let s = choose|s: int| 0 <= s < tv.len() && id_set_view(seen).contains(s as u64) && tv[s] == t;
                        assert(has_symbol(id_set_view(seen), s));
                        let yy = choose|yy: int| 0 <= yy < count && #[trigger] reached(self.postings@, dv, keys.view()[yy], s);
                        let x = choose|x: int| 0 <= x < dv.len() && dv[x] == keys.view()[yy] && #[trigger] symbol_list_view(self.postings@[x]).contains(s as usize);
                        self.lemma_postings(x, s);
                        assert(delete_key_set(tv[s], me).contains(dv[x]));
                        assert(keys.view().contains(keys.view()[yy]));
                        assert(delete_key_set(q, me).contains(dv[x]));
                        assert(tv.contains(t));
                    }
                    if self.considered(q).contains(t) {
                        let k = choose|k: Seq<char>| #[trigger] delete_key_set(t, me).contains(k) && delete_key_set(q, me).contains(k);
                        let s = choose|s: int| 0 <= s < tv.len() && tv[s] == t;
                        self.lemma_covered(s, k);
                        assert(dv.contains(k));
                        let x = choose|x: int| 0 <= x < dv.len() && dv[x] == k;
                        self.lemma_postings(x, s);
                        assert(symbol_list_view(self.postings@[x]).contains(s as usize));
                        assert(keys.view().contains(k));
                        let yy = choose|yy: int| 0 <= yy < count && keys.view()[yy] == k;
                        assert(reached(self.postings@, dv, keys.view()[yy], s));
                        assert(has_symbol(id_set_view(seen), s));
                    }
                }
                assert(seen_words(tv, id_set_view(seen)) =~= self.considered(q));
            }
        }
        proof {
            assert forall|t: Seq<char>, c: nat| unique_best(q, self.spec_max_edits(), self.considered(q), t, c) <==> unique_best(
                q,
                self.spec_max_edits(),
                word_set(self.spec_terms()),
                t,
                c,
            ) by {
                law_considered_words_decide_as_all(*self, q, t, c);
            }
        }
        match corrections.term {
            Some(term) => Some((term, corrections.cost)),
            None => None,
        }
    }
}

} // verus!

verus! {

/// `k` is what remains of `s` once `d` of its characters are deleted.
pub open spec fn deletes_to(s: Seq<char>, k: Seq<char>, d: nat) -> bool
    decreases s.len(),
{
    if s.len() == 0 {
        k.len() == 0 && d == 0
    } else {
        ||| k.len() > 0 && k.last() == s.last() && deletes_to(s.drop_last(), k.drop_last(), d)
        ||| d > 0 && deletes_to(s.drop_last(), k, (d - 1) as nat)
    }
}

proof fn lemma_deletes_len(s: Seq<char>, k: Seq<char>, d: nat)
    requires
        deletes_to(s, k, d),
    ensures
        k.len() + d == s.len(),
    decreases s.len(),
{
    if s.len() > 0 {
        if k.len() > 0 && k.last() == s.last() && deletes_to(s.drop_last(), k.drop_last(), d) {
            lemma_deletes_len(s.drop_last(), k.drop_last(), d);
        } else {
            lemma_deletes_len(s.drop_last(), k, (d - 1) as nat);
        }
    }
}

/// Keeping the last character, or deleting it.
proof fn lemma_deletes_keep(s: Seq<char>, k: Seq<char>, d: nat, c: char)
    requires
        deletes_to(s, k, d),
    ensures
        deletes_to(s.push(c), k.push(c), d),
{
    assert(s.push(c).drop_last() =~= s);
    assert(k.push(c).drop_last() =~= k);
}

proof fn lemma_deletes_drop(s: Seq<char>, k: Seq<char>, d: nat, c: char)
    requires
        deletes_to(s, k, d),
    ensures
        deletes_to(s.push(c), k, d + 1),
{
    assert(s.push(c).drop_last() =~= s);
}

proof fn lemma_deletes_all(s: Seq<char>)
    ensures
        deletes_to(s, Seq::empty(), s.len()),
    decreases s.len(),
{
    if s.len() > 0 {
        lemma_deletes_all(s.drop_last());
        lemma_deletes_drop(s.drop_last(), Seq::empty(), (s.len() - 1) as nat, s.last());
        assert(s.drop_last().push(s.last()) =~= s);
    }
}

proof fn lemma_take_push(a: Seq<char>, i: int)
    requires
        0 < i <= a.len(),
    ensures
        a.take(i - 1).push(a[i - 1]) == a.take(i),
{
    assert(a.take(i - 1).push(a[i - 1]) =~= a.take(i));
}

/// Two texts within optimal-string-alignment distance `d` come down to one
/// text by deleting at most `d` characters from each.
proof fn lemma_common_core(a: Seq<char>, b: Seq<char>, i: nat, j: nat) -> (r: (Seq<char>, nat, nat))
    requires
        i <= a.len(),
        j <= b.len(),
    ensures
        deletes_to(a.take(i as int), r.0, r.1),
        deletes_to(b.take(j as int), r.0, r.2),
        r.1 <= osa(a, b, i, j),
        r.2 <= osa(a, b, i, j),
    decreases i + j,
{
    reveal(osa);
    if i == 0 {
        assert(a.take(0) =~= Seq::<char>::empty());
        lemma_deletes_all(b.take(j as int));
        (Seq::empty(), 0, j)
    } else if j == 0 {
        assert(b.take(0) =~= Seq::<char>::empty());
        lemma_deletes_all(a.take(i as int));
        (Seq::empty(), i, 0)
    } else {
        let d = osa(a, b, i, j);
        lemma_take_push(a, i as int);
        lemma_take_push(b, j as int);
        let sub = osa(a, b, (i - 1) as nat, (j - 1) as nat) + if a[i - 1] == b[j - 1] {
            0nat
        } else {
            1nat
        };
        if d == sub {
            let (k, da, db) = lemma_common_core(a, b, (i - 1) as nat, (j - 1) as nat);
            if a[i - 1] == b[j - 1] {
                lemma_deletes_keep(a.take(i - 1), k, da, a[i - 1]);
                lemma_deletes_keep(b.take(j - 1), k, db, b[j - 1]);
                (k.push(a[i - 1]), da, db)
            } else {
                lemma_deletes_drop(a.take(i - 1), k, da, a[i - 1]);
                lemma_deletes_drop(b.take(j - 1), k, db, b[j - 1]);
                (k, da + 1, db + 1)
            }
        } else if d == osa(a, b, (i - 1) as nat, j) + 1 {
            let (k, da, db) = lemma_common_core(a, b, (i - 1) as nat, j);
            lemma_deletes_drop(a.take(i - 1), k, da, a[i - 1]);
            (k, da + 1, db)
        } else if d == osa(a, b, i, (j - 1) as nat) + 1 {
            let (k, da, db) = lemma_common_core(a, b, i, (j - 1) as nat);
            lemma_deletes_drop(b.take(j - 1), k, db, b[j - 1]);
            (k, da, db + 1)
        } else {
            assert(i > 1 && j > 1 && a[i - 1] == b[j - 2] && a[i - 2] == b[j - 1]);
            assert(d == osa(a, b, (i - 2) as nat, (j - 2) as nat) + 1);
            let (k, da, db) = lemma_common_core(a, b, (i - 2) as nat, (j - 2) as nat);
            lemma_take_push(a, i - 1);
            lemma_take_push(b, j - 1);
            lemma_deletes_drop(a.take(i - 2), k, da, a[i - 2]);
            lemma_deletes_keep(a.take(i - 1), k, da + 1, a[i - 1]);
            lemma_deletes_keep(b.take(j - 2), k, db, b[j - 2]);
            lemma_deletes_drop(b.take(j - 1), k.push(b[j - 2]), db, b[j - 1]);
            (k.push(a[i - 1]), da + 1, db + 1)
        }
    }
}

/// Deleting from a text cuts down any prefix of it to a prefix of the
/// result, with no more deletions.
proof fn lemma_deletes_prefix(s: Seq<char>, k: Seq<char>, d: nat, m: int) -> (r: (int, nat))
    requires
        deletes_to(s, k, d),
        0 <= m <= s.len(),
    ensures
        0 <= r.0 <= k.len(),
        r.0 + r.1 == m,
        r.1 <= d,
        deletes_to(s.take(m), k.take(r.0), r.1),
    decreases s.len(),
{
    lemma_deletes_len(s, k, d);
    if m == s.len() {
        assert(s.take(m) =~= s);
        assert(k.take(k.len() as int) =~= k);
        (k.len() as int, d)
    } else {
        assert(s.drop_last().take(m) =~= s.take(m));
        if k.len() > 0 && k.last() == s.last() && deletes_to(s.drop_last(), k.drop_last(), d) {
            let (r, dm) = lemma_deletes_prefix(s.drop_last(), k.drop_last(), d, m);
            assert(k.drop_last().take(r) =~= k.take(r));
            (r, dm)
        } else {
            lemma_deletes_prefix(s.drop_last(), k, (d - 1) as nat, m)
        }
    }
}

/// Deleting the tail of a text.
proof fn lemma_deletes_tail(k: Seq<char>, long: int, short: int)
    requires
        0 <= short <= long <= k.len(),
    ensures
        deletes_to(k.take(long), k.take(short), (long - short) as nat),
    decreases long,
{
    if long == short {
        lemma_deletes_same(k.take(long));
    } else {
        lemma_deletes_tail(k, long - 1, short);
        lemma_take_push(k, long);
        lemma_deletes_drop(k.take(long - 1), k.take(short), (long - 1 - short) as nat, k[long - 1]);
    }
}

proof fn lemma_deletes_same(s: Seq<char>)
    ensures
        deletes_to(s, s, 0),
    decreases s.len(),
{
    if s.len() > 0 {
        lemma_deletes_same(s.drop_last());
        lemma_deletes_keep(s.drop_last(), s.drop_last(), 0, s.last());
        assert(s.drop_last().push(s.last()) =~= s);
    }
}

/// Deletions compose.
proof fn lemma_deletes_compose(s: Seq<char>, x: Seq<char>, y: Seq<char>, d1: nat, d2: nat)
    requires
        deletes_to(s, x, d1),
        deletes_to(x, y, d2),
    ensures
        deletes_to(s, y, d1 + d2),
    decreases s.len(),
{
    if s.len() == 0 {
        assert(x.len() == 0);
    } else if x.len() > 0 && x.last() == s.last() && deletes_to(s.drop_last(), x.drop_last(), d1) {
        if y.len() > 0 && y.last() == x.last() && deletes_to(x.drop_last(), y.drop_last(), d2) {
            lemma_deletes_compose(s.drop_last(), x.drop_last(), y.drop_last(), d1, d2);
        } else {
            assert(d2 > 0 && deletes_to(x.drop_last(), y, (d2 - 1) as nat));
            lemma_deletes_compose(s.drop_last(), x.drop_last(), y, d1, (d2 - 1) as nat);
        }
    } else {
        lemma_deletes_compose(s.drop_last(), x, y, (d1 - 1) as nat, d2);
    }
}

/// Skipping a position that lies outside the first `n` changes nothing.
proof fn lemma_skip_outside(p: Seq<char>, a: int, b: int, n: int)
    requires
        a < 0 || a >= n,
    ensures
        skip(p, a, b, n) == skip(p, -1, b, n),
    decreases n,
{
    if n > 0 {
        lemma_skip_outside(p, a, b, n - 1);
    }
}

proof fn lemma_skip_outside_second(p: Seq<char>, a: int, b: int, n: int)
    requires
        b < 0 || b >= n,
    ensures
        skip(p, a, b, n) == skip(p, a, -1, n),
    decreases n,
{
    if n > 0 {
        lemma_skip_outside_second(p, a, b, n - 1);
    }
}

/// At most two deletions from the first `n` characters are a skip of at
/// most two positions.
proof fn lemma_deletes_skip(p: Seq<char>, n: int, k: Seq<char>, d: nat)
    requires
        0 <= n <= p.len(),
        deletes_to(p.take(n), k, d),
        d <= 2,
    ensures
        d == 0 ==> k == skip(p, -1, -1, n),
        d == 1 ==> exists|f: int| 0 <= f < n && k == #[trigger] skip(p, f, -1, n),
        d == 2 ==> exists|f: int, s: int| 0 <= f < s < n && k == #[trigger] skip(p, f, s, n),
    decreases n,
{
    if n == 0 {
        assert(p.take(0) =~= Seq::<char>::empty());
    } else {
        lemma_take_push(p, n);
        assert(p.take(n).drop_last() =~= p.take(n - 1));
        assert(p.take(n).last() == p[n - 1]);
        if k.len() > 0 && k.last() == p[n - 1] && deletes_to(p.take(n - 1), k.drop_last(), d) {
            lemma_deletes_skip(p, n - 1, k.drop_last(), d);
            assert(k.drop_last().push(p[n - 1]) =~= k);
            if d == 1 {
                let f = choose|f: int| 0 <= f < n - 1 && k.drop_last() == #[trigger] skip(p, f, -1, n - 1);
                assert(k == skip(p, f, -1, n));
            } else if d == 2 {
                let (f, s) = choose|f: int, s: int| 0 <= f < s < n - 1 && k.drop_last() == #[trigger] skip(p, f, s, n - 1);
                assert(k == skip(p, f, s, n));
            }
        } else {
            assert(d > 0 && deletes_to(p.take(n - 1), k, (d - 1) as nat));
            lemma_deletes_skip(p, n - 1, k, (d - 1) as nat);
            if d == 1 {
                lemma_skip_outside(p, n - 1, -1, n - 1);
                assert(k == skip(p, n - 1, -1, n));
            } else {
                let f = choose|f: int| 0 <= f < n - 1 && k == #[trigger] skip(p, f, -1, n - 1);
                lemma_skip_outside_second(p, f, n - 1, n - 1);
                assert(k == skip(p, f, n - 1, n));
            }
        }
    }
}

/// A key made by deleting no more characters from a word's first seven
/// than the budget allows (at most two) is one of its deletion keys.
proof fn lemma_key_of_deletions(chars: Seq<char>, k: Seq<char>, d: nat, max_edits: u16)
    requires
        deletes_to(key_prefix(chars), k, d),
        d <= max_edits,
        max_edits <= MAX_INDEXED_EDITS,
    ensures
        delete_key_set(chars, max_edits).contains(k),
{
    let p = key_prefix(chars);
    assert(p.take(p.len() as int) =~= p);
    lemma_deletes_skip(p, p.len() as int, k, d);
}

/// Within the indexed budget the deletion keys find every word that
/// correction can reach: a word with a correction cost for the query, that
/// is one within the edit budget of the whole query, shares a deletion key
/// with the query.
pub proof fn law_deletion_keys_find_reachable_words(q: Seq<char>, t: Seq<char>, max_edits: u16)
    requires
        max_edits <= MAX_INDEXED_EDITS,
        correction_cost(q, t, max_edits) is Some,
    ensures
        exists|k: Seq<char>| #[trigger] delete_key_set(t, max_edits).contains(k) && delete_key_set(q, max_edits).contains(k),
{
    let c = osa(q, t, q.len(), t.len());
    assert(c <= max_edits);
    let (k, dq, dt) = lemma_common_core(q, t, q.len(), t.len());
    assert(q.take(q.len() as int) =~= q);
    assert(t.take(t.len() as int) =~= t);
    lemma_deletes_len(q, k, dq);
    lemma_deletes_len(t, k, dt);
    let pq = key_prefix(q);
    let pt = key_prefix(t);
    let mq = pq.len() as int;
    let mt = pt.len() as int;
    assert(pq == q.take(mq));
    assert(pt == t.take(mt));
    let (rq, dmq) = lemma_deletes_prefix(q, k, dq, mq);
    let (rt, dmt) = lemma_deletes_prefix(t, k, dt, mt);
    if rq >= rt {
        lemma_deletes_tail(k, rq, rt);
        lemma_deletes_compose(pq, k.take(rq), k.take(rt), dmq, (rq - rt) as nat);
        lemma_key_of_deletions(q, k.take(rt), dmq + (rq - rt) as nat, max_edits);
        lemma_key_of_deletions(t, k.take(rt), dmt, max_edits);
        assert(delete_key_set(t, max_edits).contains(k.take(rt)));
    } else {
        lemma_deletes_tail(k, rt, rq);
        lemma_deletes_compose(pt, k.take(rt), k.take(rq), dmt, (rt - rq) as nat);
        lemma_key_of_deletions(t, k.take(rq), dmt + (rt - rq) as nat, max_edits);
        lemma_key_of_deletions(q, k.take(rq), dmq, max_edits);
        assert(delete_key_set(t, max_edits).contains(k.take(rq)));
    }
}

/// Every word of a correction index that correction can reach from a query
/// is among the words the index considers for it.
pub proof fn law_reachable_words_are_considered(index: CorrectionIndex, q: Seq<char>, t: Seq<char>)
    requires
        index.spec_terms().contains(t),
        correction_cost(q, t, index.spec_max_edits()) is Some,
    ensures
        index.considered(q).contains(t),
{
    if index.spec_max_edits() <= MAX_INDEXED_EDITS {
        law_deletion_keys_find_reachable_words(q, t, index.spec_max_edits());
    }
}

} // verus!

verus! {

/// The words a correction index considers for a query settle the
/// correction as the whole vocabulary would: a word is the one closest
/// correction among the considered words exactly when it is among all the
/// index's words.
pub proof fn law_considered_words_decide_as_all(index: CorrectionIndex, q: Seq<char>, t: Seq<char>, c: nat)
    ensures
        unique_best(q, index.spec_max_edits(), index.considered(q), t, c) <==> unique_best(
            q,
            index.spec_max_edits(),
            word_set(index.spec_terms()),
            t,
            c,
        ),
{
    let me = index.spec_max_edits();
    let all = word_set(index.spec_terms());
    let some = index.considered(q);
    assert forall|u: Seq<char>| some.contains(u) implies all.contains(u) by {}
    assert forall|u: Seq<char>| all.contains(u) && correction_cost(q, u, me) is Some implies some.contains(u) by {
        law_reachable_words_are_considered(index, q, u);
    }
    if unique_best(q, me, all, t, c) {
        assert forall|u: Seq<char>| some.contains(u) && u != t implies #[trigger] beaten(q, u, me, c) by {
            assert(all.contains(u));
        }
    }
    if unique_best(q, me, some, t, c) {
        assert forall|u: Seq<char>| all.contains(u) && u != t implies #[trigger] beaten(q, u, me, c) by {
            if correction_cost(q, u, me) is Some {
                assert(some.contains(u));
            }
        }
    }
}

} // verus!
