//! Normalized text: lower case, with separator runs collapsed to one space.
use vstd::prelude::*;

verus! {

/// The lowercase mapping of a character beyond ASCII.
pub uninterp spec fn unicode_lowercase(c: char) -> Seq<char>;

/// Whether `c` has the Unicode `White_Space` property: tab to carriage
/// return, space, next line, no-break space, ogham space mark, the spaces
/// from en quad to hair space, the line and paragraph separators, the narrow
/// no-break space, the medium mathematical space and the ideographic space.
pub open spec fn spec_is_whitespace(c: char) -> bool {
    let u = c as u32;
    ||| 0x9 <= u <= 0xD
    ||| u == 0x20
    ||| u == 0x85
    ||| u == 0xA0
    ||| u == 0x1680
    ||| 0x2000 <= u <= 0x200A
    ||| u == 0x2028
    ||| u == 0x2029
    ||| u == 0x202F
    ||| u == 0x205F
    ||| u == 0x3000
}

/// The lowercase mapping of `c`: an ASCII capital letter maps to its small
/// letter, any other ASCII character to itself.
pub open spec fn spec_lowercase(c: char) -> Seq<char> {
    if (c as u32) < 128 {
        if 'A' <= c && c <= 'Z' {
            seq![((c as u32) + 32) as char]
        } else {
            seq![c]
        }
    } else {
        unicode_lowercase(c)
    }
}

/// `char::is_whitespace`: whether `c` has the Unicode `White_Space`
/// property, whose members, listed in the Unicode Character Database,
/// `spec_is_whitespace` names.
#[verifier::external_body]
fn is_whitespace(c: char) -> (r: bool)
    ensures
        r == spec_is_whitespace(c),
{
    c.is_whitespace()
}

/// `char::to_lowercase`, collected: the lowercase mapping of `c`, which the
/// documentation describes as one or more characters, `c` itself where it
/// has none (as for the ASCII characters other than capital letters).
#[verifier::external_body]
fn lowercase(c: char) -> (r: Vec<char>)
    ensures
        (c as u32) < 128 ==> r@ == spec_lowercase(c),
        (c as u32) >= 128 ==> r@ == unicode_lowercase(c),
        r@.len() >= 1,
{
    c.to_lowercase().collect()
}

/// `String::push`: appends `c` to the end of `s`.
#[verifier::external_body]
pub(crate) fn push_char(s: &mut String, c: char)
    ensures
        final(s)@ == old(s)@.push(c),
{
    s.push(c)
}

/// Collects the characters of `input`.
pub(crate) fn str_to_chars(input: &str) -> (chars: Vec<char>)
    ensures
        chars@ == input@,
{
    let mut chars: Vec<char> = Vec::new();
    for c in it: input.chars()
        invariant
            chars@ == it.seq().take(it.index() as int),
    {
        chars.push(c);
    }
    chars
}

/// Builds a `String` from characters.
pub(crate) fn chars_to_string(chars: &[char]) -> (s: String)
    ensures
        s@ == chars@,
{
    let mut s = String::new();
    let mut index: usize = 0;
    while index < chars.len()
        invariant
            index <= chars@.len(),
            s@ == chars@.take(index as int),
        decreases chars@.len() - index,
    {
        push_char(&mut s, chars[index]);
        assert(chars@.take(index + 1) =~= chars@.take(index as int).push(chars@[index as int]));
        index = index + 1;
    }
    assert(chars@.take(chars@.len() as int) =~= chars@);
    s
}

/// Characters that separate tokens: whitespace and `/ \ _ - . ·`.
pub open spec fn is_separator(c: char) -> bool {
    spec_is_whitespace(c) || c == '/' || c == '\\' || c == '_' || c == '-' || c == '.' || c == '·'
}

/// The normalization of a prefix of the input: the text so far, its
/// characters without spaces, where each token starts in those characters,
/// and whether a separator is waiting to become a space.
pub struct Normalization {
    pub text: Seq<char>,
    pub chars: Seq<char>,
    pub token_starts: Seq<int>,
    pub pending: bool,
}

/// Normalizes `input`: every non-separator character is replaced by its
/// lowercase mapping; a run of separators between two tokens becomes one
/// space; separators at either end disappear.
pub open spec fn normalize(input: Seq<char>) -> Normalization
    decreases input.len(),
{
    if input.len() == 0 {
        Normalization { text: Seq::empty(), chars: Seq::empty(), token_starts: Seq::empty(), pending: false }
    } else {
        let before = normalize(input.drop_last());
        let c = input.last();
        if is_separator(c) {
            Normalization { pending: before.pending || before.text.len() > 0, ..before }
        } else {
            let lower = spec_lowercase(c);
            Normalization {
                text: (if before.pending {
                    before.text.push(' ')
                } else {
                    before.text
                }) + lower,
                chars: before.chars + lower,
                token_starts: if before.pending || before.chars.len() == 0 {
                    before.token_starts.push(before.chars.len() as int)
                } else {
                    before.token_starts
                },
                pending: false,
            }
        }
    }
}

/// Lower-case text with collapsed separators, and its characters without
/// spaces.
pub struct NormalizedText {
    text: String,
    spaced: Vec<char>,
    chars: Vec<char>,
    token_starts: Vec<usize>,
}

impl View for NormalizedText {
    type V = Normalization;

    closed spec fn view(&self) -> Normalization {
        Normalization {
            text: self.text@,
            chars: self.chars@,
            token_starts: self.token_starts@.map_values(|start: usize| start as int),
            pending: false,
        }
    }
}

impl NormalizedText {
    pub closed spec fn wf(&self) -> bool {
        &&& self.spaced@ == self.text@
        &&& self.text@.len() == 0 <==> self.chars@.len() == 0
        &&& token_starts_ok(self.token_starts@.map_values(|start: usize| start as int), self.chars@.len())
    }

    /// The facts of `wf` about the view.
    pub proof fn lemma_wf(&self)
        requires
            self.wf(),
        ensures
            token_starts_ok(self@.token_starts, self@.chars.len()),
            self@.text.len() == 0 <==> self@.chars.len() == 0,
    {
    }

    /// Normalizes `input`.
    pub fn new(input: &str) -> (normalized: Self)
        ensures
            normalized.wf(),
            normalized@.text == normalize(input@).text,
            normalized@.chars == normalize(input@).chars,
            normalized@.token_starts == normalize(input@).token_starts,
            normalized@.chars.len() == 0 <==> forall|i: int| 0 <= i < input@.len() ==> #[trigger] is_separator(input@[i]),
    {
        let ghost source = input@;
        let characters = str_to_chars(input);
        let mut text = String::new();
        let mut spaced: Vec<char> = Vec::new();
        let mut chars: Vec<char> = Vec::new();
        let mut token_starts: Vec<usize> = Vec::new();
        let mut pending = false;
        let mut index: usize = 0;
        while index < characters.len()
            invariant
                characters@ == source,
                index <= source.len(),
                ({
                    let state = normalize(source.take(index as int));
                    &&& text@ == state.text
                    &&& spaced@ == state.text
                    &&& chars@ == state.chars
                    &&& token_starts@.map_values(|start: usize| start as int) == state.token_starts
                    &&& pending == state.pending
                }),
                text@.len() == 0 <==> chars@.len() == 0,
                pending ==> chars@.len() > 0,
                chars@.len() == 0 <==> forall|i: int| 0 <= i < index ==> #[trigger] is_separator(source[i]),
                token_starts_ok(token_starts@.map_values(|start: usize| start as int), chars@.len()),
            decreases source.len() - index,
        {
            let character = characters[index];
            proof {
                assert(source.take(index + 1).drop_last() =~= source.take(index as int));
            }
            if is_whitespace(character) || character == '/' || character == '\\' || character
                == '_' || character == '-' || character == '.' || character == '·' {
                if spaced.len() > 0 {
                    pending = true;
                }
            } else {
                if pending {
                    push_char(&mut text, ' ');
                    spaced.push(' ');
                }
                if pending || chars.len() == 0 {
                    let ghost old_starts = token_starts@;
                    token_starts.push(chars.len());
                    proof {
                        assert(token_starts@.map_values(|start: usize| start as int) =~= old_starts.map_values(
                            |start: usize| start as int,
                        ).push(chars@.len() as int));
                    }
                }
                pending = false;
                let lower = lowercase(character);
                let mut k: usize = 0;
                let ghost text_before = text@;
                let ghost chars_before = chars@;
                while k < lower.len()
                    invariant
                        k <= lower@.len(),
                        text@ == text_before + lower@.take(k as int),
                        spaced@ == text@,
                        chars@ == chars_before + lower@.take(k as int),
                    decreases lower@.len() - k,
                {
                    push_char(&mut text, lower[k]);
                    spaced.push(lower[k]);
                    chars.push(lower[k]);
                    assert(lower@.take(k + 1) =~= lower@.take(k as int).push(lower@[k as int]));
                    k = k + 1;
                }
                assert(lower@.take(lower@.len() as int) =~= lower@);
                assert(!is_separator(source[index as int]));
            }
            index = index + 1;
        }
        assert(source.take(source.len() as int) =~= source);
        NormalizedText { text, spaced, chars, token_starts }
    }

    /// The normalized text.
    pub fn as_str(&self) -> (s: &str)
        ensures
            s@ == self@.text,
    {
        self.text.as_str()
    }

    /// The normalized text as characters, spaces included.
    pub fn spaced(&self) -> (s: &[char])
        requires
            self.wf(),
        ensures
            s@ == self@.text,
    {
        self.spaced.as_slice()
    }

    /// The characters of the normalized text without spaces.
    pub fn chars(&self) -> (c: &[char])
        ensures
            c@ == self@.chars,
    {
        self.chars.as_slice()
    }

    /// Where each token starts among `chars`.
    pub fn token_starts(&self) -> (starts: &[usize])
        ensures
            starts@.map_values(|start: usize| start as int) == self@.token_starts,
    {
        self.token_starts.as_slice()
    }

    /// The number of characters, spaces excluded.
    pub fn len(&self) -> (n: usize)
        ensures
            n == self@.chars.len(),
    {
        self.chars.len()
    }

    /// Whether the text holds no characters.
    pub fn is_empty(&self) -> (r: bool)
        ensures
            r == (self@.chars.len() == 0),
    {
        self.chars.len() == 0
    }

    /// The characters without spaces, as a `String`: the key under which the
    /// text is indexed.
    pub fn match_key(&self) -> (key: String)
        ensures
            key@ == self@.chars,
    {
        chars_to_string(self.chars.as_slice())
    }
}

/// Token starts are increasing positions inside the characters, the first
/// at zero.
pub open spec fn token_starts_ok(starts: Seq<int>, len: nat) -> bool {
    &&& len == 0 <==> starts.len() == 0
    &&& starts.len() > 0 ==> starts[0] == 0
    &&& forall|i: int| #![trigger starts[i]] 0 <= i < starts.len() ==> 0 <= starts[i] < len
    &&& forall|i: int, j: int| #![trigger starts[i], starts[j]] 0 <= i < j < starts.len() ==> starts[i] < starts[j]
}

/// A start's index is at most the start itself.
pub proof fn lemma_start_at_least(starts: Seq<int>, len: nat, k: int)
    requires
        token_starts_ok(starts, len),
        0 <= k < starts.len(),
    ensures
        starts[k] >= k,
    decreases k,
{
    if k > 0 {
        lemma_start_at_least(starts, len, k - 1);
    }
}

} // verus!

verus! {

/// Whether the lowercase mappings of the non-separator characters of
/// `input` are stable: none is empty, and each of their characters is no
/// separator and is its own lowercase mapping. Every ASCII text has stable
/// mappings (`lemma_ascii_lowercase_stable`).
pub open spec fn lowercase_is_stable(input: Seq<char>) -> bool {
    forall|i: int|
        0 <= i < input.len() && !is_separator(#[trigger] input[i]) ==> {
            let lower = spec_lowercase(input[i]);
            &&& lower.len() > 0
            &&& forall|j: int|
                0 <= j < lower.len() ==> !is_separator(#[trigger] lower[j]) && spec_lowercase(lower[j]) == seq![lower[j]]
        }
}

/// `s` without its spaces.
pub open spec fn without_spaces(s: Seq<char>) -> Seq<char>
    decreases s.len(),
{
    if s.len() == 0 {
        Seq::empty()
    } else if s.last() == ' ' {
        without_spaces(s.drop_last())
    } else {
        without_spaces(s.drop_last()).push(s.last())
    }
}

proof fn lemma_without_spaces_concat(a: Seq<char>, b: Seq<char>)
    ensures
        without_spaces(a + b) == without_spaces(a) + without_spaces(b),
    decreases b.len(),
{
    if b.len() == 0 {
        assert(a + b =~= a);
        assert(without_spaces(a) + without_spaces(b) =~= without_spaces(a));
    } else {
        lemma_without_spaces_concat(a, b.drop_last());
        assert((a + b).drop_last() =~= a + b.drop_last());
        if b.last() != ' ' {
            assert(without_spaces(a) + without_spaces(b.drop_last()).push(b.last()) =~= (without_spaces(a)
                + without_spaces(b.drop_last())).push(b.last()));
        }
    }
}

proof fn lemma_without_spaces_none(s: Seq<char>)
    requires
        forall|j: int| 0 <= j < s.len() ==> s[j] != ' ',
    ensures
        without_spaces(s) == s,
    decreases s.len(),
{
    if s.len() > 0 {
        lemma_without_spaces_none(s.drop_last());
        assert(s.drop_last().push(s.last()) =~= s);
    }
}

proof fn lemma_stable_prefix(input: Seq<char>)
    requires
        lowercase_is_stable(input),
        input.len() > 0,
    ensures
        lowercase_is_stable(input.drop_last()),
{
    let before = input.drop_last();
    assert forall|i: int| 0 <= i < before.len() && !is_separator(#[trigger] before[i]) implies {
        let lower = spec_lowercase(before[i]);
        &&& lower.len() > 0
        &&& forall|j: int|
            0 <= j < lower.len() ==> !is_separator(#[trigger] lower[j]) && spec_lowercase(lower[j]) == seq![lower[j]]
    } by {
        assert(before[i] == input[i]);
    }
}

/// The normalized text has no space at either end and no two spaces in a
/// row; without its spaces it is the normalized characters; a separator
/// waits only after some text.
pub proof fn law_normalized_text_shape(input: Seq<char>)
    requires
        lowercase_is_stable(input),
    ensures
        ({
            let n = normalize(input);
            &&& without_spaces(n.text) == n.chars
            &&& n.text.len() > 0 ==> n.text[0] != ' ' && n.text.last() != ' '
            &&& forall|i: int| 0 <= i < n.text.len() - 1 && #[trigger] n.text[i] == ' ' ==> n.text[i + 1] != ' '
            &&& n.pending ==> n.text.len() > 0
        }),
    decreases input.len(),
{
    if input.len() > 0 {
        lemma_stable_prefix(input);
        law_normalized_text_shape(input.drop_last());
        let before = normalize(input.drop_last());
        let c = input.last();
        if !is_separator(c) {
            let lower = spec_lowercase(c);
            assert(input[input.len() - 1] == c);
            assert(lower.len() > 0);
            assert(forall|j: int| 0 <= j < lower.len() ==> #[trigger] lower[j] != ' ') by {
                assert forall|j: int| 0 <= j < lower.len() implies #[trigger] lower[j] != ' ' by {
                    assert(!is_separator(lower[j]));
                }
            }
            let a = if before.pending {
                before.text.push(' ')
            } else {
                before.text
            };
            let text = a + lower;
            assert(normalize(input).text == text);
            lemma_without_spaces_concat(a, lower);
            lemma_without_spaces_none(lower);
            if before.pending {
                assert(before.text.push(' ').drop_last() =~= before.text);
            }
            assert(without_spaces(a) == before.chars);
            assert(text.last() == lower.last());
            if before.text.len() > 0 {
                assert(text[0] == before.text[0]);
            } else {
                assert(text[0] == lower[0]);
            }
            assert forall|i: int| 0 <= i < text.len() - 1 && #[trigger] text[i] == ' ' implies text[i + 1] != ' ' by {
                if i + 1 >= a.len() {
                    if i >= a.len() {
                        assert(text[i] == lower[i - a.len()]);
                    } else {
                        assert(text[i + 1] == lower[0]);
                    }
                } else if before.pending && i + 1 == a.len() - 1 {
                    assert(text[i] == before.text.last());
                } else {
                    assert(text[i] == before.text[i]);
                    assert(text[i + 1] == before.text[i + 1]);
                }
            }
        }
    }
}

/// Adding stable characters to a text adds them to its normalization.
proof fn lemma_normalize_stable_suffix(a: Seq<char>, l: Seq<char>)
    requires
        l.len() > 0,
        forall|j: int| 0 <= j < l.len() ==> !is_separator(#[trigger] l[j]) && spec_lowercase(l[j]) == seq![l[j]],
    ensures
        normalize(a + l).text == (if normalize(a).pending {
            normalize(a).text.push(' ')
        } else {
            normalize(a).text
        }) + l,
        normalize(a + l).chars == normalize(a).chars + l,
        !normalize(a + l).pending,
    decreases l.len(),
{
    let x = l.last();
    assert(l[l.len() - 1] == x);
    if l.len() == 1 {
        assert((a + l).drop_last() =~= a);
        assert((a + l).last() == x);
        assert(l =~= seq![x]);
    } else {
        let l0 = l.drop_last();
        assert forall|j: int| 0 <= j < l0.len() implies !is_separator(#[trigger] l0[j]) && spec_lowercase(l0[j]) == seq![l0[j]] by {
            assert(l0[j] == l[j]);
        }
        lemma_normalize_stable_suffix(a, l0);
        assert((a + l).drop_last() =~= a + l0);
        assert((a + l).last() == x);
        let base = if normalize(a).pending {
            normalize(a).text.push(' ')
        } else {
            normalize(a).text
        };
        assert(base + l0 + seq![x] =~= base + l);
        assert(normalize(a).chars + l0 + seq![x] =~= normalize(a).chars + l);
    }
}

/// Normalizing a normalized text gives it back, characters and all.
pub proof fn law_normalize_idempotent(input: Seq<char>)
    requires
        lowercase_is_stable(input),
    ensures
        normalize(normalize(input).text).text == normalize(input).text,
        normalize(normalize(input).text).chars == normalize(input).chars,
        !normalize(normalize(input).text).pending,
    decreases input.len(),
{
    if input.len() > 0 {
        lemma_stable_prefix(input);
        law_normalize_idempotent(input.drop_last());
        law_normalized_text_shape(input.drop_last());
        let before = normalize(input.drop_last());
        let c = input.last();
        if !is_separator(c) {
            let lower = spec_lowercase(c);
            assert(input[input.len() - 1] == c);
            let a = if before.pending {
                before.text.push(' ')
            } else {
                before.text
            };
            if before.pending {
                assert(a.drop_last() =~= before.text);
                assert(a.last() == ' ');
                assert(is_separator(' '));
            }
            lemma_normalize_stable_suffix(a, lower);
        }
    }
}

/// Every ASCII text has stable lowercase mappings.
pub proof fn lemma_ascii_lowercase_stable(input: Seq<char>)
    requires
        forall|i: int| 0 <= i < input.len() ==> (#[trigger] input[i] as u32) < 128,
    ensures
        lowercase_is_stable(input),
{
    assert forall|i: int| 0 <= i < input.len() && !is_separator(#[trigger] input[i]) implies {
        let lower = spec_lowercase(input[i]);
        &&& lower.len() > 0
        &&& forall|j: int|
            0 <= j < lower.len() ==> !is_separator(#[trigger] lower[j]) && spec_lowercase(lower[j]) == seq![lower[j]]
    } by {
        let c = input[i];
        assert((c as u32) < 128);
        let lower = spec_lowercase(c);
        assert forall|j: int| 0 <= j < lower.len() implies !is_separator(#[trigger] lower[j]) && spec_lowercase(lower[j])
            == seq![lower[j]] by {
            assert(j == 0);
            if 'A' <= c && c <= 'Z' {
                assert(lower[0] == ((c as u32) + 32) as char);
                assert('a' <= lower[0] && lower[0] <= 'z');
            }
        }
    }
}

} // verus!
