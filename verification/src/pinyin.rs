//! Pinyin readings of Chinese names: full pinyin and initials, including the
//! alternative readings of polyphonic characters.
use vstd::prelude::*;
use pinyin_pro::options::{NonZh, PatternKind, PinyinOptions, PinyinOutput, SurnameMode, ToneType, TypeMode, VMode};
use crate::terms::{
    has_exact_term, lemma_add_keeps_exact, lemma_text_order_antisymmetric, lemma_text_order_total,
    lemma_text_order_transitive, spec_add, text_le, text_le_exec, chars_equal, Terms, TermView,
};
use crate::text::{chars_to_string, str_to_chars};

verus! {

/// The cost of a name's full pinyin as a term.
pub const FULL_PINYIN_COST: u16 = 18;

/// The cost of a name's pinyin initials as a term.
pub const INITIALS_COST: u16 = 28;

/// The cost of a full reading built from every character's dictionary
/// readings.
pub const ALTERNATIVE_PINYIN_COST: u16 = 22;

/// The cost of the initials of such a reading.
pub const ALTERNATIVE_INITIALS_COST: u16 = 32;

/// The most distinct variants kept in each reading list.
pub const MAX_VARIANTS: usize = 7;

/// The toneless letter of a precomposed toned pinyin letter; any other
/// character stands for itself.
pub open spec fn toneless_base(c: char) -> char {
    if c == 'ā' || c == 'á' || c == 'ǎ' || c == 'à' {
        'a'
    } else if c == 'ō' || c == 'ó' || c == 'ǒ' || c == 'ò' {
        'o'
    } else if c == 'ē' || c == 'é' || c == 'ě' || c == 'è' {
        'e'
    } else if c == 'ī' || c == 'í' || c == 'ǐ' || c == 'ì' {
        'i'
    } else if c == 'ū' || c == 'ú' || c == 'ǔ' || c == 'ù' {
        'u'
    } else if c == 'ǖ' || c == 'ǘ' || c == 'ǚ' || c == 'ǜ' {
        'ü'
    } else if c == 'ń' || c == 'ň' || c == 'ǹ' {
        'n'
    } else if c == 'ḿ' {
        'm'
    } else if c == 'ế' || c == 'ề' {
        'ê'
    } else {
        c
    }
}

/// Whether `mark` is a combining tone mark written after `letter` in a
/// decomposed toned syllable (`n` or `m` with a macron, `m` with a caron or
/// a grave accent, `ê` with a macron or a caron).
pub open spec fn decomposed_tone(letter: char, mark: char) -> bool {
    ||| (letter == 'n' || letter == 'm') && mark == '\u{304}'
    ||| letter == 'm' && (mark == '\u{30c}' || mark == '\u{300}')
    ||| letter == 'ê' && (mark == '\u{304}' || mark == '\u{30c}')
}

/// A reading without its tone marks: from the front, a letter with a
/// combining tone mark keeps the letter and drops the mark, and any other
/// character becomes its toneless base.
pub open spec fn spec_strip_tone(reading: Seq<char>) -> Seq<char>
    decreases reading.len(),
{
    if reading.len() == 0 {
        Seq::empty()
    } else if reading.len() >= 2 && decomposed_tone(reading[0], reading[1]) {
        seq![reading[0]] + spec_strip_tone(reading.skip(2))
    } else {
        seq![toneless_base(reading[0])] + spec_strip_tone(reading.skip(1))
    }
}

/// Whether `readings` are readings that `pinyin_pro::get_all_pinyin` gives
/// for `ch`. As the dictionaries may change at run time, two calls for one
/// character need not give the same readings; this only ties a result to the
/// character it was asked for.
pub uninterp spec fn dictionary_readings(ch: char, readings: Seq<Seq<char>>) -> bool;

/// Whether `reading` is a reading that `pinyin_pro::pinyin` gives for
/// `input`, as initials when `first_letters`, else as full pinyin. As the
/// dictionaries may change at run time, two calls need not agree; this only
/// ties a result to the request it answers.
pub uninterp spec fn pinyin_reading(input: Seq<char>, first_letters: bool, reading: Seq<char>) -> bool;

/// `pinyin_pro::get_all_pinyin(ch, SurnameMode::Off)`: every reading of `ch`
/// in the dictionaries. The result depends on the custom dictionaries that a
/// program may register at run time, so it is only tied to `ch`.
#[verifier::external_body]
fn all_readings(ch: char) -> (readings: Vec<String>)
    ensures
        dictionary_readings(ch, readings@.map_values(|r: String| r@)),
{
    pinyin_pro::get_all_pinyin(&ch.to_string(), SurnameMode::Off)
}

fn toneless_base_exec(c: char) -> (r: char)
    ensures
        r == toneless_base(c),
{
    if c == 'ā' || c == 'á' || c == 'ǎ' || c == 'à' {
        'a'
    } else if c == 'ō' || c == 'ó' || c == 'ǒ' || c == 'ò' {
        'o'
    } else if c == 'ē' || c == 'é' || c == 'ě' || c == 'è' {
        'e'
    } else if c == 'ī' || c == 'í' || c == 'ǐ' || c == 'ì' {
        'i'
    } else if c == 'ū' || c == 'ú' || c == 'ǔ' || c == 'ù' {
        'u'
    } else if c == 'ǖ' || c == 'ǘ' || c == 'ǚ' || c == 'ǜ' {
        'ü'
    } else if c == 'ń' || c == 'ň' || c == 'ǹ' {
        'n'
    } else if c == 'ḿ' {
        'm'
    } else if c == 'ế' || c == 'ề' {
        'ê'
    } else {
        c
    }
}

/// Removes the tone marks of a reading, as the pinyin crate's
/// `pinyin_utils::strip_tone` does: see `spec_strip_tone`.
fn strip_tone(reading: &str) -> (r: String)
    ensures
        r@ == spec_strip_tone(reading@),
{
    let chars = str_to_chars(reading);
    let mut out: Vec<char> = Vec::new();
    let mut i: usize = 0;
    assert(chars@.skip(0) =~= chars@);
    assert(out@ + spec_strip_tone(chars@) =~= spec_strip_tone(chars@));
    while i < chars.len()
        invariant
            i <= chars@.len(),
            out@ + spec_strip_tone(chars@.skip(i as int)) == spec_strip_tone(chars@),
        decreases chars@.len() - i,
    {
        let ghost rest = chars@.skip(i as int);
        let c = chars[i];
        assert(rest[0] == c);
        if i + 1 < chars.len() {
            let n = chars[i + 1];
            assert(rest[1] == n);
            if ((c == 'n' || c == 'm') && n == '\u{304}') || (c == 'm' && (n == '\u{30c}' || n == '\u{300}')) || (c
                == 'ê' && (n == '\u{304}' || n == '\u{30c}')) {
                assert(rest.skip(2) =~= chars@.skip(i + 2));
                assert(out@.push(c) + spec_strip_tone(chars@.skip(i + 2)) =~= out@ + spec_strip_tone(rest));
                out.push(c);
                i = i + 2;
                continue;
            }
        }
        let base = toneless_base_exec(c);
        assert(rest.skip(1) =~= chars@.skip(i + 1));
        assert(out@.push(base) + spec_strip_tone(chars@.skip(i + 1)) =~= out@ + spec_strip_tone(rest));
        out.push(base);
        i = i + 1;
    }
    assert(chars@.skip(i as int) =~= Seq::<char>::empty());
    assert(out@ + spec_strip_tone(chars@.skip(i as int)) =~= out@);
    assert(chars@.skip(0) =~= chars@);
    chars_to_string(out.as_slice())
}

/// `pinyin_pro::pinyin::pinyin` with toneless output, `v` for `ü`,
/// consecutive non-Chinese text and traditional characters: the full pinyin
/// of `input`, or with `first_letters` its initials. In this string mode
/// the crate always answers with a string, so the reading is `Some`. Which
/// string it is depends on the custom dictionaries that a program may
/// register at run time, so it is only tied to the request.
#[verifier::external_body]
fn read_pinyin(input: &str, first_letters: bool) -> (reading: Option<String>)
    ensures
        reading is Some,
        pinyin_reading(input@, first_letters, reading->0@),
{
    let pattern = if first_letters { PatternKind::First } else { PatternKind::Pinyin };
    let options = PinyinOptions {
        pattern,
        tone_type: ToneType::None,
        type_mode: TypeMode::Str,
        v: VMode::V,
        non_zh: NonZh::Consecutive,
        traditional: true,
        ..PinyinOptions::default()
    };
    match pinyin_pro::pinyin::pinyin(input, options) {
        PinyinOutput::Str(value) => Some(value),
        _ => None,
    }
}

/// Whether `ch` is a CJK unified ideograph (Han character).
pub open spec fn spec_is_han(ch: char) -> bool {
    let c = ch as u32;
    (0x3400 <= c <= 0x4DBF) || (0x4E00 <= c <= 0x9FFF) || (0xF900 <= c <= 0xFAFF) || (0x20000 <= c
        <= 0x2FA1F)
}

pub fn is_han(ch: char) -> (r: bool)
    ensures
        r == spec_is_han(ch),
{
    let c = ch as u32;
    (0x3400 <= c && c <= 0x4DBF) || (0x4E00 <= c && c <= 0x9FFF) || (0xF900 <= c && c <= 0xFAFF)
        || (0x20000 <= c && c <= 0x2FA1F)
}

/// `s` with every `ü` replaced by `v`.
pub open spec fn replace_umlaut(s: Seq<char>) -> Seq<char> {
    s.map_values(|c: char| if c == 'ü' { 'v' } else { c })
}

fn replace_umlaut_exec(s: &[char]) -> (r: Vec<char>)
    ensures
        r@ == replace_umlaut(s@),
{
    let mut r: Vec<char> = Vec::new();
    let mut i: usize = 0;
    while i < s.len()
        invariant
            i <= s@.len(),
            r@ == replace_umlaut(s@.take(i as int)),
        decreases s@.len() - i,
    {
        let c = if s[i] == 'ü' {
            'v'
        } else {
            s[i]
        };
        r.push(c);
        assert(replace_umlaut(s@.take(i + 1)) =~= replace_umlaut(s@.take(i as int)).push(c));
        i = i + 1;
    }
    assert(s@.take(s@.len() as int) =~= s@);
    r
}

/// Strictly increasing in text order: sorted, without duplicates.
pub open spec fn strictly_sorted(s: Seq<Seq<char>>) -> bool {
    forall|i: int, j: int| #![trigger s[i], s[j]] 0 <= i < j < s.len() ==> text_le(s[i], s[j]) && s[i] != s[j]
}

pub open spec fn views(v: Seq<Vec<char>>) -> Seq<Seq<char>> {
    v.map_values(|x: Vec<char>| x@)
}

/// Inserts `value` into a strictly sorted list unless it is already there.
fn insert_distinct(list: &mut Vec<Vec<char>>, value: Vec<char>)
    requires
        strictly_sorted(views(old(list)@)),
    ensures
        strictly_sorted(views(final(list)@)),
        views(final(list)@).to_set() == views(old(list)@).to_set().insert(value@),
{
    let ghost before = views(list@);
    let mut position: usize = 0;
    while position < list.len() && !text_le_exec(value.as_slice(), list[position].as_slice())
        invariant
            position <= list@.len(),
            before == views(list@),
            forall|i: int| 0 <= i < position ==> !text_le(value@, #[trigger] before[i]),
        decreases list@.len() - position,
    {
        assert(before[position as int] == list@[position as int]@);
        position = position + 1;
    }
    if position < list.len() {
        assert(before[position as int] == list@[position as int]@);
        if chars_equal(list[position].as_slice(), value.as_slice()) {
            assert(views(list@).to_set() =~= before.to_set().insert(value@)) by {
                assert(before.contains(value@) ==> before.to_set().contains(value@));
                assert(before[position as int] == value@);
            }
            return;
        }
    }
    let ghost v = value@;
    list.insert(position, value);
    proof {
        let after = views(list@);
        assert(after =~= before.insert(position as int, v));
        if position < before.len() {
            lemma_text_order_total(v, before[position as int]);
        }
        assert forall|i: int, j: int| #![trigger after[i], after[j]] 0 <= i < j < after.len() implies text_le(after[i], after[j]) && after[i] != after[j] by {
            let oi = if i < position { i } else { i - 1 };
            let oj = if j < position { j } else { j - 1 };
            if i < position && j == position {
                lemma_text_order_total(v, before[oi]);
            } else if i == position && j > position {
                if oj > position {
                    lemma_text_order_transitive(v, before[position as int], before[oj]);
                    if v == before[oj] {
                        lemma_text_order_antisymmetric(before[position as int], before[oj]);
                    }
                }
            }
        }
        assert(after.to_set() =~= before.to_set().insert(v)) by {
            assert forall|x: Seq<char>| after.to_set().contains(x) implies before.to_set().insert(v).contains(x) by {
                let k = choose|k: int| 0 <= k < after.len() && after[k] == x;
                if k < position {
                    assert(before[k] == x);
                } else if k > position {
                    assert(before[k - 1] == x);
                }
            }
            assert forall|x: Seq<char>| before.to_set().insert(v).contains(x) implies after.to_set().contains(x) by {
                if x == v {
                    assert(after[position as int] == v);
                } else {
                    let k = choose|k: int| 0 <= k < before.len() && before[k] == x;
                    if k < position {
                        assert(after[k] == x);
                    } else {
                        assert(after[k + 1] == x);
                    }
                }
            }
        }
    }
}

/// A prefix followed by an option, with a space between them when the prefix
/// is not empty and either side of the boundary is a Han character.
pub open spec fn join(prefix: Seq<char>, option: Seq<char>, spaced: bool) -> Seq<char> {
    if prefix.len() > 0 && spaced {
        prefix.push(' ') + option
    } else {
        prefix + option
    }
}

/// Every prefix joined with every option, prefix by prefix.
pub open spec fn product(variants: Seq<Seq<char>>, options: Seq<Seq<char>>, spaced: bool) -> Seq<
    Seq<char>,
>
    decreases variants.len(),
{
    if variants.len() == 0 {
        Seq::empty()
    } else {
        product(variants.drop_last(), options, spaced) + options.map_values(
            |o: Seq<char>| join(variants.last(), o, spaced),
        )
    }
}

/// The first `limit` distinct values of `s`, in order.
pub open spec fn collect_distinct(s: Seq<Seq<char>>, limit: nat) -> Seq<Seq<char>>
    decreases s.len(),
{
    if s.len() == 0 {
        Seq::empty()
    } else {
        let before = collect_distinct(s.drop_last(), limit);
        if before.len() >= limit || before.contains(s.last()) {
            before
        } else {
            before.push(s.last())
        }
    }
}

proof fn lemma_collect_full(s: Seq<Seq<char>>, t: Seq<Seq<char>>, limit: nat)
    requires
        collect_distinct(s, limit).len() >= limit,
    ensures
        collect_distinct(s + t, limit) == collect_distinct(s, limit),
    decreases t.len(),
{
    if t.len() == 0 {
        assert(s + t =~= s);
    } else {
        lemma_collect_full(s, t.drop_last(), limit);
        assert((s + t).drop_last() =~= s + t.drop_last());
    }
}

proof fn lemma_collect_len(s: Seq<Seq<char>>, limit: nat)
    ensures
        collect_distinct(s, limit).len() <= limit,
    decreases s.len(),
{
    if s.len() > 0 {
        lemma_collect_len(s.drop_last(), limit);
    }
}

proof fn lemma_product_prefix(vs: Seq<Seq<char>>, os: Seq<Seq<char>>, spaced: bool, a: int)
    requires
        0 <= a <= vs.len(),
    ensures
        exists|t: Seq<Seq<char>>| product(vs, os, spaced) == product(vs.take(a), os, spaced) + t,
    decreases vs.len(),
{
    if a == vs.len() {
        assert(vs.take(a) =~= vs);
        assert(product(vs, os, spaced) == product(vs.take(a), os, spaced) + Seq::<Seq<char>>::empty());
    } else {
        lemma_product_prefix(vs.drop_last(), os, spaced, a);
        assert(vs.drop_last().take(a) =~= vs.take(a));
        let t = choose|t: Seq<Seq<char>>| product(vs.drop_last(), os, spaced) == product(vs.drop_last().take(a), os, spaced) + t;
        let row = os.map_values(|o: Seq<char>| join(vs.last(), o, spaced));
        assert(product(vs, os, spaced) =~= product(vs.take(a), os, spaced) + (t + row));
    }
}

/// Joins every variant with every option, keeping the first seven distinct
/// values.
fn combine(variants: &Vec<Vec<char>>, options: &Vec<Vec<char>>, spaced: bool) -> (next: Vec<
    Vec<char>,
>)
    ensures
        views(next@) == collect_distinct(product(views(variants@), views(options@), spaced), MAX_VARIANTS as nat),
{
    let ghost vs = views(variants@);
    let ghost os = views(options@);
    let ghost limit = MAX_VARIANTS as nat;
    let mut next: Vec<Vec<char>> = Vec::new();
    let mut full = false;
    let mut p: usize = 0;
    while p < variants.len() && !full
        invariant
            p <= variants@.len(),
            vs == views(variants@),
            os == views(options@),
            limit == MAX_VARIANTS,
            views(next@) == collect_distinct(product(vs.take(p as int), os, spaced), limit),
            full ==> next@.len() >= limit,
            !full ==> next@.len() < limit,
        decreases variants@.len() - p,
    {
        let prefix = &variants[p];
        let ghost done = product(vs.take(p as int), os, spaced);
        assert(prefix@ == vs[p as int]);
        let mut o: usize = 0;
        while o < options.len() && !full
            invariant
                o <= options@.len(),
                p < variants@.len(),
                vs == views(variants@),
                os == views(options@),
                limit == MAX_VARIANTS,
                prefix@ == vs[p as int],
                views(next@) == collect_distinct(
                    done + os.take(o as int).map_values(|x: Seq<char>| join(vs[p as int], x, spaced)),
                    limit,
                ),
                full ==> next@.len() >= limit,
                !full ==> next@.len() < limit,
            decreases options@.len() - o,
        {
            let option = &options[o];
            let mut value: Vec<char> = Vec::new();
            let mut i: usize = 0;
            while i < prefix.len()
                invariant
                    i <= prefix@.len(),
                    value@ == prefix@.take(i as int),
                decreases prefix@.len() - i,
            {
                value.push(prefix[i]);
                i = i + 1;
            }
            if prefix.len() > 0 && spaced {
                value.push(' ');
            }
            let mut i: usize = 0;
            let ghost base = value@;
            while i < option.len()
                invariant
                    i <= option@.len(),
                    value@ == base + option@.take(i as int),
                decreases option@.len() - i,
            {
                value.push(option[i]);
                i = i + 1;
            }
            proof {
                assert(prefix@.take(prefix@.len() as int) =~= prefix@);
                assert(option@.take(option@.len() as int) =~= option@);
                assert(os[o as int] == option@);
                assert(value@ =~= join(vs[p as int], os[o as int], spaced));
            }
            let ghost before = done + os.take(o as int).map_values(|x: Seq<char>| join(vs[p as int], x, spaced));
            let ghost after = done + os.take(o + 1).map_values(|x: Seq<char>| join(vs[p as int], x, spaced));
            proof {
                assert(after.drop_last() =~= before);
                assert(after.last() == value@);
            }
            let mut present = false;
            let mut k: usize = 0;
            while k < next.len()
                invariant
                    k <= next@.len(),
                    present == exists|x: int| 0 <= x < k && next@[x]@ == value@,
                decreases next@.len() - k,
            {
                if chars_equal(next[k].as_slice(), value.as_slice()) {
                    present = true;
                }
                k = k + 1;
            }
            proof {
                if present {
                    let x = choose|x: int| 0 <= x < next@.len() && next@[x]@ == value@;
                    assert(views(next@)[x] == value@);
                }
                if views(next@).contains(value@) {
                    let x = choose|x: int| 0 <= x < views(next@).len() && views(next@)[x] == value@;
                    assert(next@[x]@ == value@);
                }
            }
            if !present {
                let ghost v = value@;
                next.push(value);
                assert(views(next@) =~= collect_distinct(before, limit).push(v));
                if next.len() >= MAX_VARIANTS {
                    full = true;
                }
            }
            o = o + 1;
        }
        proof {
            let row = os.map_values(|x: Seq<char>| join(vs[p as int], x, spaced));
            assert(vs.take(p + 1).drop_last() =~= vs.take(p as int));
            assert(vs.take(p + 1).last() == vs[p as int]);
            assert(product(vs.take(p + 1), os, spaced) == done + row);
            let processed = done + os.take(o as int).map_values(|x: Seq<char>| join(vs[p as int], x, spaced));
            let rest = row.subrange(o as int, row.len() as int);
            assert(done + row =~= processed + rest);
            if full {
                lemma_collect_full(processed, rest, limit);
            } else {
                assert(os.take(o as int) =~= os);
                assert(processed =~= done + row);
            }
        }
        p = p + 1;
    }
    proof {
        lemma_product_prefix(vs, os, spaced, p as int);
        let t = choose|t: Seq<Seq<char>>| product(vs, os, spaced) == product(vs.take(p as int), os, spaced) + t;
        if full {
            lemma_collect_full(product(vs.take(p as int), os, spaced), t, limit);
        } else {
            assert(vs.take(p as int) =~= vs);
        }
    }
    next
}

/// The readings of a name so far: full-pinyin variants and initials
/// variants, and whether the last character was a Han character.
pub struct AlternativeReadings {
    pub full: Vec<Vec<char>>,
    pub initials: Vec<Vec<char>>,
    pub previous_han: bool,
}

/// Two strictly sorted lists of the same texts are the same list.
proof fn lemma_strictly_sorted_unique(a: Seq<Seq<char>>, b: Seq<Seq<char>>)
    requires
        strictly_sorted(a),
        strictly_sorted(b),
        a.to_set() == b.to_set(),
    ensures
        a == b,
    decreases a.len() + b.len(),
{
    if a.len() == 0 || b.len() == 0 {
        if a.len() > 0 {
            assert(a.to_set().contains(a[0]));
        }
        if b.len() > 0 {
            assert(b.to_set().contains(b[0]));
        }
        assert(a =~= b);
    } else {
        assert(a.to_set().contains(a[0]) && b.to_set().contains(b[0]));
        let j = choose|j: int| 0 <= j < b.len() && b[j] == a[0];
        let i = choose|i: int| 0 <= i < a.len() && a[i] == b[0];
        if i != 0 {
            assert(text_le(a[0], a[i]));
        }
        if j != 0 {
            assert(text_le(b[0], b[j]));
        }
        if a[0] != b[0] {
            lemma_text_order_antisymmetric(a[0], b[0]);
        }
        let a1 = a.drop_first();
        let b1 = b.drop_first();
        assert(a1.to_set() =~= b1.to_set()) by {
            assert forall|x: Seq<char>| a1.to_set().contains(x) implies b1.to_set().contains(x) by {
                let w = choose|w: int| 0 <= w < a1.len() && a1[w] == x;
                assert(a[w + 1] == x && a[0] != a[w + 1]);
                assert(a.to_set().contains(x));
                let v = choose|v: int| 0 <= v < b.len() && b[v] == x;
                assert(v != 0);
                assert(b1[v - 1] == x);
            }
            assert forall|x: Seq<char>| b1.to_set().contains(x) implies a1.to_set().contains(x) by {
                let w = choose|w: int| 0 <= w < b1.len() && b1[w] == x;
                assert(b[w + 1] == x && b[0] != b[w + 1]);
                assert(b.to_set().contains(x));
                let v = choose|v: int| 0 <= v < a.len() && a[v] == x;
                assert(v != 0);
                assert(a1[v - 1] == x);
            }
        }
        assert(strictly_sorted(a1)) by {
            assert forall|x: int, y: int| #![trigger a1[x], a1[y]] 0 <= x < y < a1.len() implies text_le(a1[x], a1[y]) && a1[x] != a1[y] by {
                assert(a1[x] == a[x + 1] && a1[y] == a[y + 1]);
            }
        }
        assert(strictly_sorted(b1)) by {
            assert forall|x: int, y: int| #![trigger b1[x], b1[y]] 0 <= x < y < b1.len() implies text_le(b1[x], b1[y]) && b1[x] != b1[y] by {
                assert(b1[x] == b[x + 1] && b1[y] == b[y + 1]);
            }
        }
        lemma_strictly_sorted_unique(a1, b1);
        assert forall|w: int| 0 <= w < a.len() implies a[w] == b[w] by {
            if w > 0 {
                assert(a[w] == a1[w - 1] && b[w] == b1[w - 1]);
            }
        }
        assert(a =~= b);
    }
}

/// The reading options of a Han character from its dictionary `readings`:
/// toneless, `ü` written `v`, sorted and distinct; the character itself
/// when there are none.
pub open spec fn char_options(ch: char, readings: Seq<Seq<char>>) -> Seq<Seq<char>> {
    if readings.len() == 0 {
        seq![seq![ch]]
    } else {
        choose|s: Seq<Seq<char>>|
            strictly_sorted(s) && s.to_set() == Set::new(
                |o: Seq<char>| exists|i: int| 0 <= i < readings.len() && o == replace_umlaut(spec_strip_tone(#[trigger] readings[i])),
            )
    }
}

/// The distinct first letters of `options`, sorted.
pub open spec fn option_initials(options: Seq<Seq<char>>) -> Seq<Seq<char>> {
    choose|s: Seq<Seq<char>>|
        strictly_sorted(s) && s.to_set() == Set::new(
            |o: Seq<char>| exists|i: int| 0 <= i < options.len() && o == first_letter(#[trigger] options[i]),
        )
}

/// The first character of `s`, if any.
pub open spec fn first_letter(s: Seq<char>) -> Seq<char> {
    if s.len() == 0 {
        Seq::empty()
    } else {
        seq![s[0]]
    }
}

/// The reading options of a Han character, from its dictionary readings:
/// toneless, `ü` written `v`, sorted and distinct; the character itself when
/// the dictionaries have none. Also the distinct first letters of those
/// options.
fn han_options(ch: char, readings: &Vec<String>) -> (result: (Vec<Vec<char>>, Vec<Vec<char>>))
    ensures
        strictly_sorted(views(result.0@)),
        strictly_sorted(views(result.1@)),
        views(result.0@).len() > 0,
        readings@.len() == 0 ==> views(result.0@) == seq![seq![ch]],
        readings@.len() > 0 ==> views(result.0@).to_set() == Set::new(
            |o: Seq<char>| exists|i: int| 0 <= i < readings@.len() && o == replace_umlaut(spec_strip_tone(#[trigger] readings@[i]@)),
        ),
        views(result.1@).to_set() == Set::new(
            |o: Seq<char>| exists|i: int| 0 <= i < result.0@.len() && o == first_letter(#[trigger] result.0@[i]@),
        ),
        views(result.0@) == char_options(ch, readings@.map_values(|r: String| r@)),
        views(result.1@) == option_initials(views(result.0@)),
{
    let mut options: Vec<Vec<char>> = Vec::new();
    let mut i: usize = 0;
    while i < readings.len()
        invariant
            i <= readings@.len(),
            i == 0 ==> options@.len() == 0,
            strictly_sorted(views(options@)),
            views(options@).to_set() == Set::new(
                |o: Seq<char>| exists|k: int| 0 <= k < i && o == replace_umlaut(spec_strip_tone(#[trigger] readings@[k]@)),
            ),
        decreases readings@.len() - i,
    {
        let stripped = strip_tone(readings[i].as_str());
        let chars = str_to_chars(stripped.as_str());
        let value = replace_umlaut_exec(chars.as_slice());
        let ghost v = value@;
        let ghost before = views(options@).to_set();
        insert_distinct(&mut options, value);
        proof {
            assert(views(options@).to_set() =~= Set::new(
                |o: Seq<char>| exists|k: int| 0 <= k < i + 1 && o == replace_umlaut(spec_strip_tone(#[trigger] readings@[k]@)),
            )) by {
                assert(v == replace_umlaut(spec_strip_tone(readings@[i as int]@)));
            }
        }
        i = i + 1;
    }
    if options.len() == 0 {
        let mut own: Vec<char> = Vec::new();
        own.push(ch);
        options.push(own);
        assert(views(options@) =~= seq![seq![ch]]);
        proof {
            if readings@.len() > 0 {
                let x = replace_umlaut(spec_strip_tone(readings@[0]@));
                assert(Set::new(|o: Seq<char>| exists|k: int| 0 <= k < readings@.len() && o == replace_umlaut(spec_strip_tone(#[trigger] readings@[k]@))).contains(x));
            }
        }
    }
    let mut initials: Vec<Vec<char>> = Vec::new();
    let mut k: usize = 0;
    while k < options.len()
        invariant
            k <= options@.len(),
            strictly_sorted(views(initials@)),
            views(initials@).to_set() == Set::new(
                |o: Seq<char>| exists|x: int| 0 <= x < k && o == first_letter(#[trigger] options@[x]@),
            ),
        decreases options@.len() - k,
    {
        let mut first: Vec<char> = Vec::new();
        if options[k].len() > 0 {
            first.push(options[k][0]);
        }
        let ghost o = options@[k as int]@;
        assert(first@ =~= first_letter(o));
        let ghost v = first@;
        insert_distinct(&mut initials, first);
        assert(views(initials@).to_set() =~= Set::new(
            |o: Seq<char>| exists|x: int| 0 <= x < k + 1 && o == first_letter(#[trigger] options@[x]@),
        ));
        k = k + 1;
    }
    proof {
        let rs = readings@.map_values(|r: String| r@);
        if readings@.len() > 0 {
            let target = Set::new(
                |o: Seq<char>| exists|i: int| 0 <= i < rs.len() && o == replace_umlaut(spec_strip_tone(#[trigger] rs[i])),
            );
            assert(views(options@).to_set() =~= target) by {
                assert forall|o: Seq<char>| views(options@).to_set().contains(o) implies target.contains(o) by {
                    let i = choose|i: int| 0 <= i < readings@.len() && o == replace_umlaut(spec_strip_tone(#[trigger] readings@[i]@));
                    assert(rs[i] == readings@[i]@);
                }
                assert forall|o: Seq<char>| target.contains(o) implies views(options@).to_set().contains(o) by {
                    let i = choose|i: int| 0 <= i < rs.len() && o == replace_umlaut(spec_strip_tone(#[trigger] rs[i]));
                    assert(rs[i] == readings@[i]@);
                }
            }
            let c = char_options(ch, rs);
            assert(strictly_sorted(c) && c.to_set() == target);
            lemma_strictly_sorted_unique(views(options@), c);
        }
        let os = views(options@);
        let itarget = Set::new(|o: Seq<char>| exists|i: int| 0 <= i < os.len() && o == first_letter(#[trigger] os[i]));
        assert(views(initials@).to_set() =~= itarget) by {
            assert forall|o: Seq<char>| views(initials@).to_set().contains(o) implies itarget.contains(o) by {
                let i = choose|i: int| 0 <= i < options@.len() && o == first_letter(#[trigger] options@[i]@);
                assert(os[i] == options@[i]@);
            }
            assert forall|o: Seq<char>| itarget.contains(o) implies views(initials@).to_set().contains(o) by {
                let i = choose|i: int| 0 <= i < os.len() && o == first_letter(#[trigger] os[i]);
                assert(os[i] == options@[i]@);
            }
        }
        let ci = option_initials(os);
        assert(strictly_sorted(ci) && ci.to_set() == itarget);
        lemma_strictly_sorted_unique(views(initials@), ci);
    }
    (options, initials)
}

/// Whether each Han character of `name` comes with dictionary readings of
/// that character.
pub open spec fn readings_of_chars(name: Seq<char>, per_char: Seq<Seq<Seq<char>>>) -> bool {
    forall|i: int|
        0 <= i < per_char.len() && spec_is_han(#[trigger] name[i]) ==> dictionary_readings(name[i], per_char[i])
}

/// The alternative readings after one more character of a name, with its
/// dictionary `readings` when it is a Han character: every full variant
/// joined with every option of the character, and every initials variant
/// with every first letter, at most seven distinct each.
pub open spec fn alternatives_step(
    state: (Seq<Seq<char>>, Seq<Seq<char>>, bool),
    ch: char,
    readings: Seq<Seq<char>>,
) -> (Seq<Seq<char>>, Seq<Seq<char>>, bool) {
    let han = spec_is_han(ch);
    let options = if han {
        char_options(ch, readings)
    } else {
        seq![seq![ch]]
    };
    let initials = if han {
        option_initials(options)
    } else {
        seq![seq![ch]]
    };
    (
        collect_distinct(product(state.0, options, state.2 || han), MAX_VARIANTS as nat),
        collect_distinct(product(state.1, initials, state.2 || han), MAX_VARIANTS as nat),
        han,
    )
}

/// The alternative full readings and initials of a name, and whether its
/// last character is a Han character, given the dictionary readings of each
/// of its characters.
pub open spec fn alternatives(name: Seq<char>, readings: Seq<Seq<Seq<char>>>) -> (Seq<Seq<char>>, Seq<Seq<char>>, bool)
    decreases name.len(),
{
    if name.len() == 0 {
        (seq![Seq::empty()], seq![Seq::empty()], false)
    } else {
        alternatives_step(alternatives(name.drop_last(), readings.drop_last()), name.last(), readings.last())
    }
}

impl AlternativeReadings {
    /// Extends every variant by the options of the next character (at most
    /// seven distinct variants each).
    fn extend(&mut self, han: bool, options: &Vec<Vec<char>>, initials: &Vec<Vec<char>>)
        ensures
            views(final(self).full@) == collect_distinct(
                product(views(old(self).full@), views(options@), old(self).previous_han || han),
                MAX_VARIANTS as nat,
            ),
            views(final(self).initials@) == collect_distinct(
                product(views(old(self).initials@), views(initials@), old(self).previous_han || han),
                MAX_VARIANTS as nat,
            ),
            final(self).previous_han == han,
            final(self).full@.len() <= MAX_VARIANTS,
            final(self).initials@.len() <= MAX_VARIANTS,
    {
        proof {
            lemma_collect_len(product(views(self.full@), views(options@), self.previous_han || han), MAX_VARIANTS as nat);
            lemma_collect_len(product(views(self.initials@), views(initials@), self.previous_han || han), MAX_VARIANTS as nat);
        }
        let spaced = self.previous_han || han;
        let full = combine(&self.full, options, spaced);
        let first_letters = combine(&self.initials, initials, spaced);
        self.full = full;
        self.initials = first_letters;
        self.previous_han = han;
    }

    /// Adds the next character of the name.
    fn push(&mut self, ch: char)
        ensures
            exists|readings: Seq<Seq<char>>|
                (spec_is_han(ch) ==> dictionary_readings(ch, readings)) && (views(final(self).full@), views(
                    final(self).initials@,
                ), final(self).previous_han) == #[trigger] alternatives_step(
                    (views(old(self).full@), views(old(self).initials@), old(self).previous_han),
                    ch,
                    readings,
                ),
            final(self).previous_han == spec_is_han(ch),
            final(self).full@.len() <= MAX_VARIANTS,
            final(self).initials@.len() <= MAX_VARIANTS,
            !spec_is_han(ch) ==> views(final(self).full@) == collect_distinct(
                product(views(old(self).full@), seq![seq![ch]], old(self).previous_han),
                MAX_VARIANTS as nat,
            ),
            !spec_is_han(ch) ==> views(final(self).initials@) == collect_distinct(
                product(views(old(self).initials@), seq![seq![ch]], old(self).previous_han),
                MAX_VARIANTS as nat,
            ),
    {
        let han = is_han(ch);
        let ghost before = (views(self.full@), views(self.initials@), self.previous_han);
        if han {
            let readings = all_readings(ch);
            let (options, initials) = han_options(ch, &readings);
            self.extend(han, &options, &initials);
            proof {
                let rs = readings@.map_values(|r: String| r@);
                assert((views(self.full@), views(self.initials@), self.previous_han) == alternatives_step(before, ch, rs));
            }
        } else {
            let mut own: Vec<char> = Vec::new();
            own.push(ch);
            let mut options: Vec<Vec<char>> = Vec::new();
            options.push(own);
            let mut own_initial: Vec<char> = Vec::new();
            own_initial.push(ch);
            let mut initials: Vec<Vec<char>> = Vec::new();
            initials.push(own_initial);
            assert(views(options@) =~= seq![seq![ch]]);
            assert(views(initials@) =~= seq![seq![ch]]);
            self.extend(han, &options, &initials);
            proof {
                assert((views(self.full@), views(self.initials@), self.previous_han) == alternatives_step(before, ch, Seq::empty()));
            }
        }
    }

    /// The readings of every character of `input`, starting from one empty
    /// variant each.
    fn new(input: &str) -> (readings: Self)
        ensures
            readings.full@.len() <= MAX_VARIANTS,
            readings.initials@.len() <= MAX_VARIANTS,
            exists|per_char: Seq<Seq<Seq<char>>>|
                per_char.len() == input@.len() && readings_of_chars(input@, per_char) && (views(readings.full@), views(
                    readings.initials@,
                ), readings.previous_han) == #[trigger] alternatives(input@, per_char),
    {
        let mut readings = AlternativeReadings {
            full: Vec::new(),
            initials: Vec::new(),
            previous_han: false,
        };
        readings.full.push(Vec::new());
        readings.initials.push(Vec::new());
        let chars = str_to_chars(input);
        let ghost mut per_char: Seq<Seq<Seq<char>>> = Seq::empty();
        proof {
            assert(views(readings.full@) =~= seq![Seq::<char>::empty()]);
            assert(views(readings.initials@) =~= seq![Seq::<char>::empty()]);
            assert(chars@.take(0) =~= Seq::<char>::empty());
        }
        let mut i: usize = 0;
        while i < chars.len()
            invariant
                i <= chars@.len(),
                chars@ == input@,
                readings.full@.len() <= MAX_VARIANTS,
                readings.initials@.len() <= MAX_VARIANTS,
                per_char.len() == i,
                readings_of_chars(chars@.take(i as int), per_char),
                (views(readings.full@), views(readings.initials@), readings.previous_han) == alternatives(chars@.take(i as int), per_char),
            decreases chars@.len() - i,
        {
            let ghost before = (views(readings.full@), views(readings.initials@), readings.previous_han);
            readings.push(chars[i]);
            proof {
                let r = choose|r: Seq<Seq<char>>|
                    (spec_is_han(chars@[i as int]) ==> dictionary_readings(chars@[i as int], r)) && (views(readings.full@), views(
                        readings.initials@,
                    ), readings.previous_han) == #[trigger] alternatives_step(before, chars@[i as int], r);
                assert(chars@.take(i + 1).drop_last() =~= chars@.take(i as int));
                assert(per_char.push(r).drop_last() =~= per_char);
                let old_per_char = per_char;
                per_char = per_char.push(r);
                assert forall|j: int| 0 <= j < per_char.len() && spec_is_han(#[trigger] chars@.take(i + 1)[j]) implies dictionary_readings(
                    chars@.take(i + 1)[j],
                    per_char[j],
                ) by {
                    if j < i {
                        assert(chars@.take(i + 1)[j] == chars@.take(i as int)[j]);
                        assert(per_char[j] == old_per_char[j]);
                    }
                }
            }
            i = i + 1;
        }
        proof {
            assert(chars@.take(chars@.len() as int) =~= chars@);
        }
        readings
    }
}

/// Adds each input at its cost, in order.
pub open spec fn add_all(
    terms: Seq<TermView>,
    remaining: nat,
    max_terms: nat,
    inputs: Seq<(Seq<char>, u16)>,
) -> (Seq<TermView>, nat)
    decreases inputs.len(),
{
    if inputs.len() == 0 {
        (terms, remaining)
    } else {
        let (t, r) = add_all(terms, remaining, max_terms, inputs.drop_last());
        spec_add(t, r, max_terms, inputs.last().0, inputs.last().1)
    }
}

/// The readings of a name with their costs: the primary full pinyin, the
/// alternative full readings, the primary initials, the alternative initials.
pub open spec fn reading_inputs(
    primary: Option<Seq<char>>,
    full: Seq<Seq<char>>,
    initials: Option<Seq<char>>,
    alternative_initials: Seq<Seq<char>>,
) -> Seq<(Seq<char>, u16)> {
    let p = match primary {
        Some(r) => seq![(r, FULL_PINYIN_COST)],
        None => Seq::empty(),
    };
    let i = match initials {
        Some(r) => seq![(r, INITIALS_COST)],
        None => Seq::empty(),
    };
    p + full.map_values(|r: Seq<char>| (r, ALTERNATIVE_PINYIN_COST)) + i
        + alternative_initials.map_values(|r: Seq<char>| (r, ALTERNATIVE_INITIALS_COST))
}

pub open spec fn opt_view(s: Option<String>) -> Option<Seq<char>> {
    match s {
        Some(v) => Some(v@),
        None => None,
    }
}

/// Adds one reading; a term of cost zero stays.
fn add_reading(terms: &mut Terms, reading: &str, cost: u16, Ghost(inputs): Ghost<Seq<(Seq<char>, u16)>>, Ghost(initial): Ghost<(Seq<TermView>, nat)>)
    requires
        old(terms).wf(),
        (old(terms).spec_values(), old(terms).spec_remaining()) == add_all(initial.0, initial.1, old(terms).spec_max_terms(), inputs),
    ensures
        final(terms).wf(),
        final(terms).spec_max_terms() == old(terms).spec_max_terms(),
        final(terms).spec_max_chars() == old(terms).spec_max_chars(),
        (final(terms).spec_values(), final(terms).spec_remaining()) == add_all(initial.0, initial.1, old(terms).spec_max_terms(), inputs.push((reading@, cost))),
        forall|chars: Seq<char>| has_exact_term(old(terms).spec_values(), chars) ==> has_exact_term(final(terms).spec_values(), chars),
{
    let ghost before = terms.spec_values();
    let ghost remaining = terms.spec_remaining();
    proof {
        terms.lemma_sorted();
    }
    terms.add(reading, cost);
    proof {
        assert(inputs.push((reading@, cost)).drop_last() =~= inputs);
        assert forall|chars: Seq<char>| has_exact_term(before, chars) implies has_exact_term(terms.spec_values(), chars) by {
            lemma_add_keeps_exact(before, remaining, terms.spec_max_terms(), reading@, cost, chars);
        }
    }
}

/// Adds the readings of a name to `terms`, in order: see `reading_inputs`.
pub fn add_readings(
    terms: &mut Terms,
    primary: Option<String>,
    full: &Vec<Vec<char>>,
    initials: Option<String>,
    alternative_initials: &Vec<Vec<char>>,
)
    requires
        old(terms).wf(),
    ensures
        final(terms).wf(),
        final(terms).spec_max_terms() == old(terms).spec_max_terms(),
        final(terms).spec_max_chars() == old(terms).spec_max_chars(),
        (final(terms).spec_values(), final(terms).spec_remaining()) == add_all(
            old(terms).spec_values(),
            old(terms).spec_remaining(),
            old(terms).spec_max_terms(),
            reading_inputs(opt_view(primary), views(full@), opt_view(initials), views(alternative_initials@)),
        ),
        forall|chars: Seq<char>| has_exact_term(old(terms).spec_values(), chars) ==> has_exact_term(final(terms).spec_values(), chars),
{
    let ghost initial = (terms.spec_values(), terms.spec_remaining());
    let ghost start = terms.spec_values();
    let ghost mut inputs: Seq<(Seq<char>, u16)> = Seq::empty();
    let ghost max = terms.spec_max_terms();
    let ghost p = match primary {
        Some(ref r) => seq![(r@, FULL_PINYIN_COST)],
        None => Seq::empty(),
    };
    if let Some(reading) = &primary {
        add_reading(terms, reading.as_str(), FULL_PINYIN_COST, Ghost(inputs), Ghost(initial));
        proof {
            inputs = inputs.push((reading@, FULL_PINYIN_COST));
        }
    }
    assert(inputs =~= p);
    let mut k: usize = 0;
    while k < full.len()
        invariant
            k <= full@.len(),
            terms.wf(),
            terms.spec_max_terms() == max,
            terms.spec_max_chars() == old(terms).spec_max_chars(),
            inputs == p + views(full@).take(k as int).map_values(|r: Seq<char>| (r, ALTERNATIVE_PINYIN_COST)),
            (terms.spec_values(), terms.spec_remaining()) == add_all(initial.0, initial.1, max, inputs),
            forall|chars: Seq<char>| has_exact_term(start, chars) ==> has_exact_term(terms.spec_values(), chars),
        decreases full@.len() - k,
    {
        let text = chars_to_string(full[k].as_slice());
        add_reading(terms, text.as_str(), ALTERNATIVE_PINYIN_COST, Ghost(inputs), Ghost(initial));
        proof {
            assert(views(full@)[k as int] == full@[k as int]@);
            assert(p + views(full@).take(k + 1).map_values(|r: Seq<char>| (r, ALTERNATIVE_PINYIN_COST)) =~= inputs.push((text@, ALTERNATIVE_PINYIN_COST)));
            inputs = inputs.push((text@, ALTERNATIVE_PINYIN_COST));
        }
        k = k + 1;
    }
    assert(views(full@).take(full@.len() as int) =~= views(full@));
    let ghost q = inputs + match initials {
        Some(ref r) => seq![(r@, INITIALS_COST)],
        None => Seq::empty(),
    };
    if let Some(reading) = &initials {
        add_reading(terms, reading.as_str(), INITIALS_COST, Ghost(inputs), Ghost(initial));
        proof {
            inputs = inputs.push((reading@, INITIALS_COST));
        }
    }
    assert(inputs =~= q);
    let mut k: usize = 0;
    while k < alternative_initials.len()
        invariant
            k <= alternative_initials@.len(),
            terms.wf(),
            terms.spec_max_terms() == max,
            terms.spec_max_chars() == old(terms).spec_max_chars(),
            inputs == q + views(alternative_initials@).take(k as int).map_values(|r: Seq<char>| (r, ALTERNATIVE_INITIALS_COST)),
            (terms.spec_values(), terms.spec_remaining()) == add_all(initial.0, initial.1, max, inputs),
            forall|chars: Seq<char>| has_exact_term(start, chars) ==> has_exact_term(terms.spec_values(), chars),
        decreases alternative_initials@.len() - k,
    {
        let text = chars_to_string(alternative_initials[k].as_slice());
        add_reading(terms, text.as_str(), ALTERNATIVE_INITIALS_COST, Ghost(inputs), Ghost(initial));
        proof {
            assert(views(alternative_initials@)[k as int] == alternative_initials@[k as int]@);
            assert(q + views(alternative_initials@).take(k + 1).map_values(|r: Seq<char>| (r, ALTERNATIVE_INITIALS_COST)) =~= inputs.push((text@, ALTERNATIVE_INITIALS_COST)));
            inputs = inputs.push((text@, ALTERNATIVE_INITIALS_COST));
        }
        k = k + 1;
    }
    assert(views(alternative_initials@).take(alternative_initials@.len() as int) =~= views(alternative_initials@));
    assert(inputs =~= reading_inputs(opt_view(primary), views(full@), opt_view(initials), views(alternative_initials@)));
}

/// Whether `after` can be what the pinyin readings make of the terms
/// `before` of a name: unchanged for a name without Han characters, else the
/// terms with the readings of the name added in order (see
/// `reading_inputs`): its primary full pinyin and initials, readings that
/// the pinyin crate gives for the name as full pinyin and as initials, and
/// the alternative readings built from the dictionary readings of each of
/// its Han characters (see `alternatives`).
pub open spec fn pinyin_terms(name: Seq<char>, before: (Seq<TermView>, nat), max_terms: nat, after: (Seq<TermView>, nat)) -> bool {
    if has_han(name) {
        exists|primary: Seq<char>, initials: Seq<char>, per_char: Seq<Seq<Seq<char>>>|
            pinyin_reading(name, false, primary) && pinyin_reading(name, true, initials) && per_char.len() == name.len()
                && readings_of_chars(name, per_char) && after == add_all(
                before.0,
                before.1,
                max_terms,
                #[trigger] reading_inputs(Some(primary), alternatives(name, per_char).0, Some(initials), alternatives(name, per_char).1),
            )
    } else {
        after == before
    }
}

/// Whether `s` holds a Han character.
pub open spec fn has_han(s: Seq<char>) -> bool {
    exists|i: int| 0 <= i < s.len() && spec_is_han(#[trigger] s[i])
}

/// Adds the pinyin readings of a name with Han characters to its terms: the
/// full pinyin and initials that `pinyin_pro` gives, and the combinations of
/// every character's dictionary readings (at most seven each). A name
/// without Han characters is left alone; a term of cost zero always stays.
pub fn expand(input: &str, terms: &mut Terms)
    requires
        old(terms).wf(),
    ensures
        final(terms).wf(),
        final(terms).spec_max_terms() == old(terms).spec_max_terms(),
        final(terms).spec_max_chars() == old(terms).spec_max_chars(),
        !has_han(input@) ==> final(terms).spec_values() == old(terms).spec_values()
            && final(terms).spec_remaining() == old(terms).spec_remaining(),
        pinyin_terms(
            input@,
            (old(terms).spec_values(), old(terms).spec_remaining()),
            old(terms).spec_max_terms(),
            (final(terms).spec_values(), final(terms).spec_remaining()),
        ),
        forall|chars: Seq<char>| has_exact_term(old(terms).spec_values(), chars) ==> has_exact_term(final(terms).spec_values(), chars),
{
    let chars = str_to_chars(input);
    let mut found = false;
    let mut i: usize = 0;
    while i < chars.len()
        invariant
            i <= chars@.len(),
            chars@ == input@,
            found == exists|x: int| 0 <= x < i && spec_is_han(#[trigger] chars@[x]),
        decreases chars@.len() - i,
    {
        if is_han(chars[i]) {
            found = true;
        }
        i = i + 1;
    }
    if !found {
        return;
    }
    let primary = read_pinyin(input, false);
    let alternatives = AlternativeReadings::new(input);
    let initials = read_pinyin(input, true);
    add_readings(terms, primary, &alternatives.full, initials, &alternatives.initials);
    proof {
        assert(has_han(input@)) by {
            let x = choose|x: int| 0 <= x < i && spec_is_han(#[trigger] chars@[x]);
            assert(spec_is_han(input@[x]));
        }
        let per_char = choose|per_char: Seq<Seq<Seq<char>>>|
            per_char.len() == input@.len() && readings_of_chars(input@, per_char) && (views(alternatives.full@), views(
                alternatives.initials@,
            ), alternatives.previous_han) == #[trigger] crate::pinyin::alternatives(input@, per_char);
        let p = primary->0@;
        let q = initials->0@;
        assert(opt_view(primary) == Some(p));
        assert(opt_view(initials) == Some(q));
        assert(reading_inputs(opt_view(primary), views(alternatives.full@), opt_view(initials), views(alternatives.initials@))
            == reading_inputs(Some(p), crate::pinyin::alternatives(input@, per_char).0, Some(q), crate::pinyin::alternatives(input@, per_char).1));
    }
}

} // verus!

verus! {

/// A name gets its pinyin readings when it holds a Han character anywhere,
/// after Latin letters too: the terms that follow are the terms before with
/// the name's full pinyin, initials and alternative readings added, each
/// tied to the request it answers; a name with no Han character keeps its
/// terms.
pub proof fn law_readings_for_any_han_character(
    name: Seq<char>,
    before: (Seq<TermView>, nat),
    max_terms: nat,
    after: (Seq<TermView>, nat),
)
    requires
        pinyin_terms(name, before, max_terms, after),
    ensures
        (exists|i: int| 0 <= i < name.len() && spec_is_han(#[trigger] name[i])) ==> exists|
            primary: Seq<char>,
            initials: Seq<char>,
            per_char: Seq<Seq<Seq<char>>>,
        |
            pinyin_reading(name, false, primary) && pinyin_reading(name, true, initials) && per_char.len()
                == name.len() && readings_of_chars(name, per_char) && after == add_all(
                before.0,
                before.1,
                max_terms,
                #[trigger] reading_inputs(
                    Some(primary),
                    alternatives(name, per_char).0,
                    Some(initials),
                    alternatives(name, per_char).1,
                ),
            ),
        (forall|i: int| 0 <= i < name.len() ==> !spec_is_han(#[trigger] name[i])) ==> after == before,
{
    if exists|i: int| 0 <= i < name.len() && spec_is_han(#[trigger] name[i]) {
        let i = choose|i: int| 0 <= i < name.len() && spec_is_han(#[trigger] name[i]);
        assert(has_han(name));
    }
    if forall|i: int| 0 <= i < name.len() ==> !spec_is_han(#[trigger] name[i]) {
        assert(!has_han(name));
    }
}

} // verus!
