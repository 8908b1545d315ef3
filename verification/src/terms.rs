//! A small set of distinct terms, bounded by count and total characters.
use vstd::prelude::*;
use crate::text::{normalize, without_spaces, NormalizedText, Normalization};

verus! {

/// What a term holds: its normalized text and characters, where its tokens
/// start, and its cost.
pub struct TermView {
    pub text: Seq<char>,
    pub chars: Seq<char>,
    pub token_starts: Seq<int>,
    pub cost: u16,
}

pub struct Term {
    pub text: NormalizedText,
    pub cost: u16,
}

impl View for Term {
    type V = TermView;

    open spec fn view(&self) -> TermView {
        TermView {
            text: self.text@.text,
            chars: self.text@.chars,
            token_starts: self.text@.token_starts,
            cost: self.cost,
        }
    }
}

/// Lexicographic order of texts by code point, from position `i` on.
pub open spec fn text_le_from(a: Seq<char>, b: Seq<char>, i: int) -> bool
    decreases a.len() - i,
{
    if i >= a.len() {
        true
    } else if i >= b.len() {
        false
    } else if a[i] == b[i] {
        text_le_from(a, b, i + 1)
    } else {
        a[i] < b[i]
    }
}

/// Lexicographic order of texts by code point: the order of their UTF-8
/// encodings.
pub open spec fn text_le(a: Seq<char>, b: Seq<char>) -> bool {
    text_le_from(a, b, 0)
}

/// Terms are ordered by cost, then by text.
pub open spec fn key_le(x: TermView, y: TermView) -> bool {
    x.cost < y.cost || (x.cost == y.cost && text_le(x.text, y.text))
}

pub open spec fn sorted(s: Seq<TermView>) -> bool {
    forall|i: int, j: int| #![trigger s[i], s[j]] 0 <= i < j < s.len() ==> key_le(s[i], s[j])
}

/// The number of leading terms of `s` that order at or before `x`.
pub open spec fn count_le(s: Seq<TermView>, x: TermView) -> nat
    decreases s.len(),
{
    if s.len() == 0 {
        0
    } else if key_le(s[0], x) {
        1 + count_le(s.drop_first(), x)
    } else {
        0
    }
}

/// Inserts `x` into the sorted `s` after every term that orders at or before
/// it.
/// The characters of all terms together.
pub open spec fn total_chars(s: Seq<TermView>) -> nat
    decreases s.len(),
{
    if s.len() == 0 {
        0
    } else {
        total_chars(s.drop_last()) + s.last().chars.len()
    }
}

proof fn lemma_total_chars_concat(a: Seq<TermView>, b: Seq<TermView>)
    ensures
        total_chars(a + b) == total_chars(a) + total_chars(b),
    decreases b.len(),
{
    if b.len() == 0 {
        assert(a + b =~= a);
    } else {
        lemma_total_chars_concat(a, b.drop_last());
        assert((a + b).drop_last() =~= a + b.drop_last());
    }
}

proof fn lemma_total_chars_split(s: Seq<TermView>, i: int)
    requires
        0 <= i <= s.len(),
    ensures
        total_chars(s) == total_chars(s.take(i)) + total_chars(s.skip(i)),
{
    assert(s =~= s.take(i) + s.skip(i));
    lemma_total_chars_concat(s.take(i), s.skip(i));
}

/// Inserting a term adds its characters; removing one takes them away.
proof fn lemma_total_chars_insert(s: Seq<TermView>, i: int, x: TermView)
    requires
        0 <= i <= s.len(),
    ensures
        total_chars(s.insert(i, x)) == total_chars(s) + x.chars.len(),
{
    let t = s.insert(i, x);
    assert(t =~= s.take(i) + seq![x] + s.skip(i));
    lemma_total_chars_concat(s.take(i) + seq![x], s.skip(i));
    lemma_total_chars_concat(s.take(i), seq![x]);
    assert(seq![x].drop_last() =~= Seq::<TermView>::empty());
    assert(total_chars(Seq::<TermView>::empty()) == 0);
    assert(total_chars(seq![x]) == x.chars.len());
    lemma_total_chars_split(s, i);
    assert(t =~= (s.take(i) + seq![x]) + s.skip(i));
}

proof fn lemma_total_chars_remove(s: Seq<TermView>, i: int)
    requires
        0 <= i < s.len(),
    ensures
        total_chars(s.remove(i)) + s[i].chars.len() == total_chars(s),
{
    assert(s.remove(i).insert(i, s[i]) =~= s);
    lemma_total_chars_insert(s.remove(i), i, s[i]);
}

pub open spec fn insert_sorted(s: Seq<TermView>, x: TermView) -> Seq<TermView> {
    s.insert(count_le(s, x) as int, x)
}

pub open spec fn term_of(text: Normalization, cost: u16) -> TermView {
    TermView { text: text.text, chars: text.chars, token_starts: text.token_starts, cost }
}

/// The position of the term with the given characters.
pub open spec fn find_chars(s: Seq<TermView>, chars: Seq<char>) -> int {
    choose|i: int| 0 <= i < s.len() && s[i].chars == chars
}

pub open spec fn has_chars(s: Seq<TermView>, chars: Seq<char>) -> bool {
    exists|i: int| 0 <= i < s.len() && #[trigger] s[i].chars == chars
}

/// The terms after adding `input` at `cost`: an empty normalization adds
/// nothing; a term with the same characters keeps the lower cost; a new term
/// is added when the count and character budgets allow it. The terms stay in
/// order.
pub open spec fn spec_add(
    terms: Seq<TermView>,
    remaining: nat,
    max_terms: nat,
    input: Seq<char>,
    cost: u16,
) -> (Seq<TermView>, nat) {
    let text = normalize(input);
    if text.chars.len() == 0 {
        (terms, remaining)
    } else if has_chars(terms, text.chars) {
        let i = find_chars(terms, text.chars);
        let old_term = terms[i];
        let new_cost = if cost < old_term.cost {
            cost
        } else {
            old_term.cost
        };
        (insert_sorted(terms.remove(i), TermView { cost: new_cost, ..old_term }), remaining)
    } else if terms.len() == max_terms || text.chars.len() > remaining {
        (terms, remaining)
    } else {
        (insert_sorted(terms, term_of(text, cost)), (remaining - text.chars.len()) as nat)
    }
}

/// Whether `terms` hold a term with the given characters at cost zero.
pub open spec fn has_exact_term(terms: Seq<TermView>, chars: Seq<char>) -> bool {
    exists|i: int| 0 <= i < terms.len() && #[trigger] terms[i].chars == chars && terms[i].cost == 0
}

/// Adding a term never drops a term of cost zero.
pub proof fn lemma_add_keeps_exact(
    terms: Seq<TermView>,
    remaining: nat,
    max_terms: nat,
    input: Seq<char>,
    cost: u16,
    chars: Seq<char>,
)
    requires
        has_exact_term(terms, chars),
        sorted(terms),
    ensures
        has_exact_term(spec_add(terms, remaining, max_terms, input, cost).0, chars),
{
    let text = normalize(input);
    let i = choose|i: int| 0 <= i < terms.len() && #[trigger] terms[i].chars == chars && terms[i].cost == 0;
    let result = spec_add(terms, remaining, max_terms, input, cost).0;
    if text.chars.len() == 0 {
    } else if has_chars(terms, text.chars) {
        let f = find_chars(terms, text.chars);
        let old_term = terms[f];
        let new_cost = if cost < old_term.cost {
            cost
        } else {
            old_term.cost
        };
        let updated = TermView { cost: new_cost, ..old_term };
        let rest = terms.remove(f);
        assert(sorted(rest)) by {
            assert forall|a: int, b: int| 0 <= a < b < rest.len() implies key_le(#[trigger] rest[a], #[trigger] rest[b]) by {
                let oa = if a < f { a } else { a + 1 };
                let ob = if b < f { b } else { b + 1 };
                assert(rest[a] == terms[oa]);
                assert(rest[b] == terms[ob]);
            }
        }
        lemma_count_le(rest, updated);
        let k = count_le(rest, updated) as int;
        if f == i {
            assert(result[k] == updated);
        } else {
            let j = if i < f { i } else { i - 1 };
            assert(rest[j] == terms[i]);
            let r = if j < k { j } else { j + 1 };
            assert(result[r] == terms[i]);
        }
    } else if terms.len() == max_terms || text.chars.len() > remaining {
    } else {
        let x = term_of(text, cost);
        lemma_count_le(terms, x);
        let k = count_le(terms, x) as int;
        let r = if i < k { i } else { i + 1 };
        assert(result[r] == terms[i]);
    }
}

proof fn lemma_text_le_total(a: Seq<char>, b: Seq<char>, i: int)
    requires
        0 <= i,
    ensures
        text_le_from(a, b, i) || text_le_from(b, a, i),
    decreases a.len() - i,
{
    if i < a.len() && i < b.len() && a[i] == b[i] {
        lemma_text_le_total(a, b, i + 1);
    }
}

proof fn lemma_text_le_trans(a: Seq<char>, b: Seq<char>, c: Seq<char>, i: int)
    requires
        0 <= i,
        text_le_from(a, b, i),
        text_le_from(b, c, i),
    ensures
        text_le_from(a, c, i),
    decreases a.len() - i,
{
    if i < a.len() && i < b.len() && i < c.len() && a[i] == b[i] && b[i] == c[i] {
        lemma_text_le_trans(a, b, c, i + 1);
    }
}

/// Texts that agree before `i` and are each at or before the other from `i`
/// on are equal.
pub proof fn lemma_text_le_antisym(a: Seq<char>, b: Seq<char>, i: int)
    requires
        0 <= i <= a.len(),
        i <= b.len(),
        a.subrange(0, i) == b.subrange(0, i),
        text_le_from(a, b, i),
        text_le_from(b, a, i),
    ensures
        a == b,
    decreases a.len() - i,
{
    if i < a.len() && i < b.len() {
        assert(a[i] == b[i]);
        assert(a.subrange(0, i + 1) =~= a.subrange(0, i).push(a[i]));
        assert(b.subrange(0, i + 1) =~= b.subrange(0, i).push(b[i]));
        lemma_text_le_antisym(a, b, i + 1);
    } else {
        assert(a.len() == i && b.len() == i);
        assert(a =~= a.subrange(0, i));
        assert(b =~= b.subrange(0, i));
    }
}

/// Text order is antisymmetric.
pub proof fn lemma_text_order_antisymmetric(a: Seq<char>, b: Seq<char>)
    requires
        text_le(a, b),
        text_le(b, a),
    ensures
        a == b,
{
    assert(a.subrange(0, 0) =~= b.subrange(0, 0));
    lemma_text_le_antisym(a, b, 0);
}

/// Text order is total.
pub proof fn lemma_text_order_total(a: Seq<char>, b: Seq<char>)
    ensures
        text_le(a, b) || text_le(b, a),
{
    lemma_text_le_total(a, b, 0);
}

/// Text order is transitive.
pub proof fn lemma_text_order_transitive(a: Seq<char>, b: Seq<char>, c: Seq<char>)
    requires
        text_le(a, b),
        text_le(b, c),
    ensures
        text_le(a, c),
{
    lemma_text_le_trans(a, b, c, 0);
}

proof fn lemma_key_le_total(x: TermView, y: TermView)
    ensures
        key_le(x, y) || key_le(y, x),
{
    lemma_text_le_total(x.text, y.text, 0);
}

proof fn lemma_key_le_trans(x: TermView, y: TermView, z: TermView)
    requires
        key_le(x, y),
        key_le(y, z),
    ensures
        key_le(x, z),
{
    if x.cost == y.cost && y.cost == z.cost {
        lemma_text_le_trans(x.text, y.text, z.text, 0);
    }
}

/// In a sorted sequence, the terms at or before `x` are exactly the first
/// `count_le` ones.
proof fn lemma_count_le(s: Seq<TermView>, x: TermView)
    requires
        sorted(s),
    ensures
        count_le(s, x) <= s.len(),
        forall|i: int| 0 <= i < count_le(s, x) ==> key_le(#[trigger] s[i], x),
        forall|i: int| count_le(s, x) <= i < s.len() ==> !key_le(#[trigger] s[i], x),
    decreases s.len(),
{
    if s.len() > 0 {
        let rest = s.drop_first();
        assert(sorted(rest)) by {
            assert forall|i: int, j: int| 0 <= i < j < rest.len() implies key_le(
                #[trigger] rest[i],
                #[trigger] rest[j],
            ) by {
                assert(rest[i] == s[i + 1] && rest[j] == s[j + 1]);
            }
        }
        lemma_count_le(rest, x);
        if key_le(s[0], x) {
            assert forall|i: int| 0 <= i < count_le(s, x) implies key_le(#[trigger] s[i], x) by {
                if i > 0 {
                    assert(s[i] == rest[i - 1]);
                }
            }
            assert forall|i: int| count_le(s, x) <= i < s.len() implies !key_le(#[trigger] s[i], x) by {
                assert(s[i] == rest[i - 1]);
            }
        } else {
            assert forall|i: int| 0 <= i < s.len() implies !key_le(#[trigger] s[i], x) by {
                if i > 0 && key_le(s[i], x) {
                    lemma_key_le_trans(s[0], s[i], x);
                }
            }
        }
    }
}

proof fn lemma_insert_sorted(s: Seq<TermView>, x: TermView)
    requires
        sorted(s),
    ensures
        sorted(insert_sorted(s, x)),
        insert_sorted(s, x).len() == s.len() + 1,
{
    lemma_count_le(s, x);
    let k = count_le(s, x) as int;
    let r = insert_sorted(s, x);
    assert forall|i: int, j: int| 0 <= i < j < r.len() implies key_le(#[trigger] r[i], #[trigger] r[j]) by {
        if i < k && j < k {
        } else if i < k && j == k {
        } else if i < k && j > k {
            assert(r[j] == s[j - 1]);
        } else if i == k {
            assert(r[j] == s[j - 1]);
            lemma_key_le_total(x, s[j - 1]);
        } else {
            assert(r[i] == s[i - 1] && r[j] == s[j - 1]);
        }
    }
}

/// A small set of distinct terms, bounded by count and total characters.
pub struct Terms {
    pub values: Vec<Term>,
    pub(crate) max_terms: usize,
    pub(crate) remaining_chars: usize,
    pub(crate) max_chars: usize,
}

impl Terms {
    pub closed spec fn spec_values(&self) -> Seq<TermView> {
        self.values@.map_values(|t: Term| t@)
    }

    pub closed spec fn spec_remaining(&self) -> nat {
        self.remaining_chars as nat
    }

    pub closed spec fn spec_max_terms(&self) -> nat {
        self.max_terms as nat
    }

    pub closed spec fn spec_max_chars(&self) -> nat {
        self.max_chars as nat
    }

    /// Every term is normalized, non-empty and distinct; the terms are in
    /// order; the count stays within its limit; the terms' characters and the
    /// characters still free add up to the character limit.
    pub closed spec fn wf(&self) -> bool {
        &&& forall|i: int| 0 <= i < self.values@.len() ==> #[trigger] self.values@[i].text.wf()
        &&& forall|i: int| 0 <= i < self.values@.len() ==> (#[trigger] self.values@[i])@.chars.len() > 0
        &&& forall|i: int, j: int|
            #![trigger self.values@[i], self.values@[j]]
            0 <= i < j < self.values@.len() ==> self.values@[i]@.chars != self.values@[j]@.chars
        &&& sorted(self.spec_values())
        &&& self.values@.len() <= self.max_terms
        &&& self.remaining_chars <= self.max_chars
        &&& forall|i: int| 0 <= i < self.values@.len() ==> (#[trigger] self.values@[i])@.chars.len() <= self.max_chars
        &&& total_chars(self.spec_values()) + self.remaining_chars == self.max_chars
    }

    /// The terms' characters and the characters still free add up to the
    /// character limit.
    pub proof fn lemma_total_chars(&self)
        requires
            self.wf(),
        ensures
            total_chars(self.spec_values()) + self.spec_remaining() == self.spec_max_chars(),
    {
    }

    /// The facts of `wf` about each value.
    pub(crate) proof fn lemma_values(&self)
        requires
            self.wf(),
        ensures
            self.spec_values().len() == self.values@.len(),
            self.values@.len() <= self.spec_max_terms(),
            forall|i: int|
                0 <= i < self.values@.len() ==> {
                    &&& #[trigger] self.values@[i].text.wf()
                    &&& self.values@[i]@.chars.len() > 0
                    &&& self.spec_values()[i] == self.values@[i]@
                    &&& self.values@[i]@.chars.len() <= self.spec_max_chars()
                },
    {
    }

    pub proof fn lemma_sorted(&self)
        requires
            self.wf(),
        ensures
            sorted(self.spec_values()),
    {
    }

    /// Terms whose texts without spaces are their characters (as the
    /// normalization of text with stable lowercase mappings gives, see
    /// `law_normalized_text_shape`) are strictly in order: by cost, then by
    /// text, no two alike.
    pub proof fn lemma_strictly_sorted(&self)
        requires
            self.wf(),
            forall|i: int|
                0 <= i < self.spec_values().len() ==> without_spaces(#[trigger] self.spec_values()[i].text)
                    == self.spec_values()[i].chars,
        ensures
            forall|i: int, j: int|
                #![trigger self.spec_values()[i], self.spec_values()[j]]
                0 <= i < j < self.spec_values().len() ==> key_le(self.spec_values()[i], self.spec_values()[j]) && (
                self.spec_values()[i].cost < self.spec_values()[j].cost || self.spec_values()[i].text
                    != self.spec_values()[j].text),
    {
        let v = self.spec_values();
        assert forall|i: int, j: int|
            #![trigger v[i], v[j]]
            0 <= i < j < v.len() implies key_le(v[i], v[j]) && (v[i].cost < v[j].cost || v[i].text != v[j].text) by {
            assert(v[i] == self.values@[i]@);
            assert(v[j] == self.values@[j]@);
            assert(self.values@[i]@.chars != self.values@[j]@.chars);
            assert(without_spaces(v[i].text) == v[i].chars);
            assert(without_spaces(v[j].text) == v[j].chars);
        }
    }

    /// The terms of `input` alone, limited to `max_terms` terms and
    /// `max_chars` characters in all.
    pub fn new(input: &str, max_terms: usize, max_chars: usize) -> (terms: Self)
        ensures
            terms.wf(),
            terms.spec_max_terms() == max_terms,
            terms.spec_max_chars() == max_chars,
            (terms.spec_values(), terms.spec_remaining()) == spec_add(
                Seq::empty(),
                max_chars as nat,
                max_terms as nat,
                input@,
                0,
            ),
    {
        let mut terms = Terms { values: Vec::new(), max_terms, remaining_chars: max_chars, max_chars };
        assert(terms.spec_values() =~= Seq::empty());
        assert(total_chars(terms.spec_values()) == 0);
        terms.add(input, 0);
        terms
    }

    /// Adds the terms of `input` at `cost`; see `spec_add`.
    pub fn add(&mut self, input: &str, cost: u16)
        requires
            old(self).wf(),
        ensures
            final(self).wf(),
            final(self).spec_max_terms() == old(self).spec_max_terms(),
            final(self).spec_max_chars() == old(self).spec_max_chars(),
            (final(self).spec_values(), final(self).spec_remaining()) == spec_add(
                old(self).spec_values(),
                old(self).spec_remaining(),
                old(self).spec_max_terms(),
                input@,
                cost,
            ),
    {
        let ghost before = self.spec_values();
        let text = NormalizedText::new(input);
        if text.is_empty() {
            return;
        }
        let mut index: usize = 0;
        while index < self.values.len() && !chars_equal(self.values[index].text.chars(), text.chars())
            invariant
                index <= self.values@.len(),
                before == self.spec_values(),
                forall|i: int| 0 <= i < index ==> #[trigger] before[i].chars != text@.chars,
            decreases self.values@.len() - index,
        {
            index = index + 1;
        }
        let found = index < self.values.len();
        if found {
            assert(before[index as int].chars == text@.chars);
            assert(has_chars(before, text@.chars));
            let ghost i = find_chars(before, text@.chars);
            assert(i == index) by {
                if i != index {
                    assert(self.values@[i]@.chars == self.values@[index as int]@.chars);
                }
            }
            let ghost old_values = self.values@;
            let mut term = self.values.remove(index);
            if cost < term.cost {
                term.cost = cost;
            }
            proof {
                assert(self.values@ =~= old_values.remove(index as int));
                assert(self.spec_values() =~= before.remove(index as int));
                lemma_total_chars_remove(before, index as int);
                assert forall|k: int| 0 <= k < self.values@.len() implies #[trigger] self.values@[k].text.wf()
                    && self.values@[k]@.chars.len() > 0 && self.values@[k]@.chars.len() <= self.max_chars by {
                    if k < index {
                        assert(self.values@[k] == old_values[k]);
                    } else {
                        assert(self.values@[k] == old_values[k + 1]);
                    }
                }
                assert forall|k: int| 0 <= k < self.values@.len() implies (#[trigger] self.values@[k])@.chars != term@.chars by {
                    if k < index {
                        assert(self.values@[k] == old_values[k]);
                    } else {
                        assert(self.values@[k] == old_values[k + 1]);
                    }
                }
                assert forall|a: int, b: int| 0 <= a < b < before.len() - 1 implies key_le(
                    #[trigger] before.remove(index as int)[a],
                    #[trigger] before.remove(index as int)[b],
                ) by {
                    let oa = if a < index { a } else { a + 1 };
                    let ob = if b < index { b } else { b + 1 };
                    assert(before.remove(index as int)[a] == before[oa]);
                    assert(before.remove(index as int)[b] == before[ob]);
                }
            }
            self.insert_sorted(term);
        } else {
            assert(!has_chars(before, text@.chars));
            if self.values.len() == self.max_terms || text.len() > self.remaining_chars {
                return;
            }
            self.remaining_chars = self.remaining_chars - text.len();
            assert forall|k: int| 0 <= k < self.values@.len() implies (#[trigger] self.values@[k])@.chars != text@.chars by {
                assert(before[k] == self.values@[k]@);
            }
            self.insert_sorted(Term { text, cost });
        }
    }

    /// Inserts `term` after every term that orders at or before it.
    fn insert_sorted(&mut self, term: Term)
        requires
            term.text.wf(),
            term@.chars.len() > 0,
            forall|i: int| 0 <= i < old(self).values@.len() ==> #[trigger] old(self).values@[i].text.wf(),
            forall|i: int| 0 <= i < old(self).values@.len() ==> (#[trigger] old(self).values@[i])@.chars.len() > 0,
            forall|i: int, j: int|
                #![trigger old(self).values@[i], old(self).values@[j]]
                0 <= i < j < old(self).values@.len() ==> old(self).values@[i]@.chars != old(self).values@[j]@.chars,
            forall|i: int| 0 <= i < old(self).values@.len() ==> (#[trigger] old(self).values@[i])@.chars != term@.chars,
            sorted(old(self).spec_values()),
            old(self).values@.len() < old(self).max_terms,
            old(self).remaining_chars <= old(self).max_chars,
            term@.chars.len() <= old(self).max_chars,
            forall|i: int| 0 <= i < old(self).values@.len() ==> (#[trigger] old(self).values@[i])@.chars.len() <= old(self).max_chars,
            total_chars(old(self).spec_values()) + term@.chars.len() + old(self).remaining_chars == old(self).max_chars,
        ensures
            final(self).wf(),
            final(self).max_terms == old(self).max_terms,
            final(self).max_chars == old(self).max_chars,
            final(self).remaining_chars == old(self).remaining_chars,
            final(self).spec_values() == insert_sorted(old(self).spec_values(), term@),
    {
        let ghost s = self.spec_values();
        proof {
            lemma_count_le(s, term@);
        }
        let mut position: usize = 0;
        while position < self.values.len() && term_le(&self.values[position], &term)
            invariant
                position <= self.values@.len(),
                s == self.spec_values(),
                term.text.wf(),
                forall|i: int| 0 <= i < self.values@.len() ==> #[trigger] self.values@[i].text.wf(),
                count_le(s, term@) <= s.len(),
                forall|i: int| 0 <= i < count_le(s, term@) ==> key_le(#[trigger] s[i], term@),
                forall|i: int| count_le(s, term@) <= i < s.len() ==> !key_le(#[trigger] s[i], term@),
                position <= count_le(s, term@),
            decreases self.values@.len() - position,
        {
            assert(s[position as int] == self.values@[position as int]@);
            position = position + 1;
        }
        if position < self.values.len() {
            assert(s[position as int] == self.values@[position as int]@);
        }
        assert(position == count_le(s, term@));
        let ghost old_values = self.values@;
        self.values.insert(position, term);
        proof {
            lemma_insert_sorted(s, term@);
            assert(self.spec_values() =~= insert_sorted(s, term@));
            lemma_total_chars_insert(s, position as int, term@);
            assert forall|i: int| 0 <= i < self.values@.len() implies #[trigger] self.values@[i].text.wf() by {
                if i < position {
                    assert(self.values@[i] == old_values[i]);
                } else if i > position {
                    assert(self.values@[i] == old_values[i - 1]);
                }
            }
            assert forall|i: int| 0 <= i < self.values@.len() implies (#[trigger] self.values@[i])@.chars.len() > 0 by {
                if i < position {
                    assert(self.values@[i] == old_values[i]);
                } else if i > position {
                    assert(self.values@[i] == old_values[i - 1]);
                }
            }
            assert forall|i: int, j: int|
                #![trigger self.values@[i], self.values@[j]]
                0 <= i < j < self.values@.len() implies self.values@[i]@.chars != self.values@[j]@.chars by {
                let oi = if i < position { i } else { i - 1 };
                let oj = if j < position { j } else { j - 1 };
                if i != position {
                    assert(self.values@[i] == old_values[oi]);
                }
                if j != position {
                    assert(self.values@[j] == old_values[oj]);
                }
            }
        }
    }
}

/// Whether two character slices are equal.
pub fn chars_equal(a: &[char], b: &[char]) -> (r: bool)
    ensures
        r == (a@ == b@),
{
    if a.len() != b.len() {
        return false;
    }
    let mut i: usize = 0;
    while i < a.len()
        invariant
            i <= a@.len(),
            a@.len() == b@.len(),
            forall|k: int| 0 <= k < i ==> a@[k] == b@[k],
        decreases a@.len() - i,
    {
        if a[i] != b[i] {
            return false;
        }
        i = i + 1;
    }
    assert(a@ =~= b@);
    true
}

/// Whether `a` orders at or before `b` by code point.
pub fn text_le_exec(a: &[char], b: &[char]) -> (r: bool)
    ensures
        r == text_le(a@, b@),
{
    let mut i: usize = 0;
    while i < a.len() && i < b.len() && a[i] == b[i]
        invariant
            i <= a@.len(),
            i <= b@.len(),
            text_le_from(a@, b@, i as int) == text_le(a@, b@),
        decreases a@.len() - i,
    {
        i = i + 1;
    }
    if i == a.len() {
        true
    } else if i == b.len() {
        false
    } else {
        a[i] < b[i]
    }
}

fn term_le(x: &Term, y: &Term) -> (r: bool)
    requires
        x.text.wf(),
        y.text.wf(),
    ensures
        r == key_le(x@, y@),
{
    x.cost < y.cost || (x.cost == y.cost && text_le_exec(x.text.spaced(), y.text.spaced()))
}

} // verus!
