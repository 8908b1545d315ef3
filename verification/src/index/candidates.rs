//! Retrieval of candidate terms for a query, channel by channel.
use vstd::prelude::*;
use super::{filed, key_list_ok, max_repeats, occurrences, posting_ok, posts, Candidate, Index, KeyPostings, TokenMatch};
use crate::text::NormalizedText;
use crate::terms::{lemma_text_order_antisymmetric, lemma_text_order_total, lemma_text_order_transitive, text_le, text_le_exec, text_le_from};

verus! {

/// A prefix of a text comes no later than the text.
proof fn lemma_prefix_le(q: Seq<char>, k: Seq<char>, i: int)
    requires
        0 <= i,
        q.is_prefix_of(k),
    ensures
        text_le_from(q, k, i),
    decreases q.len() - i,
{
    if i < q.len() {
        assert(k.subrange(0, q.len() as int)[i] == k[i]);
        lemma_prefix_le(q, k, i + 1);
    }
}

/// Whether `a` differs from `q` at position `j`, or ends before it.
pub open spec fn mismatch(q: Seq<char>, a: Seq<char>, j: int) -> bool {
    j >= a.len() || a[j] != q[j]
}

/// Past a text that follows `q` without starting with it, no text in order
/// starts with `q`.
proof fn lemma_past_prefix_block(q: Seq<char>, a: Seq<char>, b: Seq<char>, i: int)
    requires
        0 <= i <= q.len(),
        text_le_from(q, a, i),
        text_le_from(a, b, i),
        exists|j: int| i <= j < q.len() && #[trigger] mismatch(q, a, j),
        forall|j: int| 0 <= j < i ==> j < b.len() && b[j] == q[j],
    ensures
        !q.is_prefix_of(b),
    decreases q.len() - i,
{
    if q.is_prefix_of(b) {
        assert(b.subrange(0, q.len() as int)[i] == b[i]);
        if i < a.len() && q[i] == a[i] {
            assert forall|j: int| 0 <= j < i + 1 implies j < b.len() && b[j] == q[j] by {
                assert(b.subrange(0, q.len() as int)[j] == b[j]);
            }
            let w = choose|j: int| i <= j < q.len() && #[trigger] mismatch(q, a, j);
            assert(w != i);
            lemma_past_prefix_block(q, a, b, i + 1);
        }
    }
}

/// Whether `q` starts the text `k`.
fn starts_with(k: &[char], q: &[char]) -> (r: bool)
    ensures
        r == q@.is_prefix_of(k@),
{
    if q.len() > k.len() {
        return false;
    }
    let mut i: usize = 0;
    while i < q.len()
        invariant
            i <= q@.len() <= k@.len(),
            forall|j: int| 0 <= j < i ==> q@[j] == k@[j],
        decreases q@.len() - i,
    {
        if q[i] != k[i] {
            assert(k@.subrange(0, q@.len() as int)[i as int] == k@[i as int]);
            return false;
        }
        i = i + 1;
    }
    assert(q@ =~= k@.subrange(0, q@.len() as int));
    true
}

/// The first position whose key does not come before `q`.
fn lower_bound(list: &Vec<KeyPostings>, q: &[char], Ghost(n): Ghost<nat>, Ghost(strict): Ghost<bool>) -> (p: usize)
    requires
        key_list_ok(list@, n, strict),
    ensures
        p <= list@.len(),
        forall|i: int| 0 <= i < p ==> !text_le(q@, #[trigger] list@[i].key@),
        forall|i: int| p <= i < list@.len() ==> text_le(q@, #[trigger] list@[i].key@),
{
    let mut lo: usize = 0;
    let mut hi: usize = list.len();
    while lo < hi
        invariant
            lo <= hi <= list@.len(),
            key_list_ok(list@, n, strict),
            forall|i: int| 0 <= i < lo ==> !text_le(q@, #[trigger] list@[i].key@),
            forall|i: int| hi <= i < list@.len() ==> text_le(q@, #[trigger] list@[i].key@),
        decreases hi - lo,
    {
        let mid = lo + (hi - lo) / 2;
        if text_le_exec(q, list[mid].key.as_slice()) {
            proof {
                assert forall|i: int| mid <= i < list@.len() implies text_le(q@, #[trigger] list@[i].key@) by {
                    if mid < i {
                        assert(text_le(list@[mid as int].key@, list@[i].key@));
                        lemma_text_order_transitive(q@, list@[mid as int].key@, list@[i].key@);
                    }
                }
            }
            hi = mid;
        } else {
            proof {
                assert forall|i: int| 0 <= i < mid + 1 implies !text_le(q@, #[trigger] list@[i].key@) by {
                    if i < mid {
                        assert(text_le(list@[i].key@, list@[mid as int].key@));
                        if text_le(q@, list@[i].key@) {
                            lemma_text_order_transitive(q@, list@[i].key@, list@[mid as int].key@);
                        }
                    }
                }
            }
            lo = mid + 1;
        }
    }
    lo
}

/// Whether a sorted list of ids holds `x`.
fn sorted_contains(v: &Vec<u32>, x: u32) -> (r: bool)
    requires
        forall|i: int, j: int| 0 <= i < j < v@.len() ==> v@[i] <= v@[j],
    ensures
        r == v@.contains(x),
{
    let mut lo: usize = 0;
    let mut hi: usize = v.len();
    while lo < hi
        invariant
            lo <= hi <= v@.len(),
            forall|i: int, j: int| 0 <= i < j < v@.len() ==> v@[i] <= v@[j],
            forall|i: int| 0 <= i < lo ==> v@[i] < x,
            forall|i: int| hi <= i < v@.len() ==> v@[i] > x,
            v@.contains(x) ==> exists|i: int| lo <= i < hi && v@[i] == x,
        decreases hi - lo,
    {
        let mid = lo + (hi - lo) / 2;
        if v[mid] == x {
            return true;
        } else if v[mid] < x {
            lo = mid + 1;
        } else {
            hi = mid;
        }
    }
    false
}

/// Whether `id` is posted under every character of `q`; never for an empty
/// `q`.
pub open spec fn in_all(m: Map<u64, Seq<u32>>, q: Seq<char>, id: u32) -> bool {
    &&& q.len() > 0
    &&& forall|j: int| 0 <= j < q.len() ==> #[trigger] posts(m, super::char_key(q[j])).contains(id)
}

/// Strictly increasing.
pub open spec fn increasing(s: Seq<u32>) -> bool {
    forall|i: int, j: int| 0 <= i < j < s.len() ==> s[i] < s[j]
}

/// The ids posted under every character of `q`, in increasing order.
pub open spec fn ascending_in_all(m: Map<u64, Seq<u32>>, q: Seq<char>) -> Seq<u32> {
    choose|s: Seq<u32>| increasing(s) && forall|x: u32| s.contains(x) <==> in_all(m, q, x)
}

/// Two strictly increasing sequences with the same values are equal.
proof fn lemma_increasing_unique(s: Seq<u32>, t: Seq<u32>)
    requires
        increasing(s),
        increasing(t),
        forall|x: u32| s.contains(x) <==> t.contains(x),
    ensures
        s == t,
    decreases s.len() + t.len(),
{
    if s.len() == 0 || t.len() == 0 {
        if s.len() > 0 {
            assert(s.contains(s[0]));
        }
        if t.len() > 0 {
            assert(t.contains(t[0]));
        }
        assert(s =~= t);
    } else {
        assert(s.contains(s[0]) && t.contains(t[0]));
        let j = choose|j: int| 0 <= j < t.len() && t[j] == s[0];
        let i = choose|i: int| 0 <= i < s.len() && s[i] == t[0];
        assert(s[0] <= s[i]);
        assert(t[0] <= t[j]);
        let s1 = s.drop_first();
        let t1 = t.drop_first();
        assert forall|x: u32| s1.contains(x) <==> t1.contains(x) by {
            if s1.contains(x) {
                let a = choose|a: int| 0 <= a < s1.len() && s1[a] == x;
                assert(s[a + 1] == x && s[0] < s[a + 1]);
                assert(s.contains(x));
                let b = choose|b: int| 0 <= b < t.len() && t[b] == x;
                assert(b != 0);
                assert(t1[b - 1] == x);
            }
            if t1.contains(x) {
                let a = choose|a: int| 0 <= a < t1.len() && t1[a] == x;
                assert(t[a + 1] == x && t[0] < t[a + 1]);
                assert(t.contains(x));
                let b = choose|b: int| 0 <= b < s.len() && s[b] == x;
                assert(b != 0);
                assert(s1[b - 1] == x);
            }
        }
        lemma_increasing_unique(s1, t1);
        assert(s =~= t) by {
            assert forall|k: int| 0 <= k < s.len() implies s[k] == t[k] by {
                if k > 0 {
                    assert(s[k] == s1[k - 1] && t[k] == t1[k - 1]);
                }
            }
        }
    }
}

/// The ids posted under every character of the first `len` characters of
/// `q`, in increasing order.
fn intersect(m: &rapidhash::RapidHashMap<u64, Vec<u32>>, q: &[char], len: usize, Ghost(n): Ghost<nat>) -> (ids: Vec<u32>)
    requires
        len <= q@.len(),
        posting_ok(crate::outside::posting_map_view(*m), n),
        super::strictly_posted(crate::outside::posting_map_view(*m)),
    ensures
        ids@ == ascending_in_all(crate::outside::posting_map_view(*m), q@.take(len as int)),
        forall|i: int, j: int| 0 <= i < j < ids@.len() ==> ids@[i] < ids@[j],
        forall|i: int| 0 <= i < ids@.len() ==> in_all(crate::outside::posting_map_view(*m), q@.take(len as int), #[trigger] ids@[i]),
        forall|id: u32| in_all(crate::outside::posting_map_view(*m), q@.take(len as int), id) ==> ids@.contains(id),
{
    let ghost view = crate::outside::posting_map_view(*m);
    let ghost t = q@.take(len as int);
    let mut lists: Vec<&Vec<u32>> = Vec::new();
    let mut c: usize = 0;
    while c < len
        invariant
            c <= len <= q@.len(),
            t == q@.take(len as int),
            view == crate::outside::posting_map_view(*m),
            lists@.len() == c,
            forall|j: int| 0 <= j < c ==> (#[trigger] lists@[j])@ == posts(view, super::char_key(t[j])),
        decreases len - c,
    {
        match crate::outside::posting_map_get(m, super::char_key_exec(q[c])) {
            Some(list) => {
                lists.push(list);
            },
            None => {
                proof {
                    assert forall|id: u32| !in_all(view, t, id) by {
                        assert(!posts(view, super::char_key(t[c as int])).contains(id));
                    }
                    lemma_ascending_of(view, t, Seq::empty());
                }
                return Vec::new();
            },
        }
        c = c + 1;
    }
    let mut ids: Vec<u32> = Vec::new();
    if len == 0 {
        proof {
            lemma_ascending_of(view, t, ids@);
        }
        return ids;
    }
    let mut shortest: usize = 0;
    let mut s: usize = 1;
    while s < len
        invariant
            0 <= shortest < s <= len,
            lists@.len() == len,
        decreases len - s,
    {
        if lists[s].len() < lists[shortest].len() {
            shortest = s;
        }
        s = s + 1;
    }
    let base = lists[shortest];
    let mut i: usize = 0;
    while i < base.len()
        invariant
            0 <= shortest < len,
            lists@.len() == len,
            len <= q@.len(),
            t == q@.take(len as int),
            *base == *lists@[shortest as int],
            i <= base@.len(),
            posting_ok(view, n),
            forall|j: int| 0 <= j < len ==> (#[trigger] lists@[j])@ == posts(view, super::char_key(t[j])),
            super::strictly_posted(view),
            forall|a: int, b: int| 0 <= a < b < ids@.len() ==> ids@[a] < ids@[b],
            forall|a: int| 0 <= a < ids@.len() ==> exists|b: int| 0 <= b < i && base@[b] == #[trigger] ids@[a],
            forall|a: int| 0 <= a < ids@.len() ==> in_all(view, t, #[trigger] ids@[a]),
            forall|b: int| 0 <= b < i && in_all(view, t, #[trigger] base@[b]) ==> ids@.contains(base@[b]),
        decreases base@.len() - i,
    {
        let id = base[i];
        let mut all = true;
        let mut j: usize = 0;
        while j < len
            invariant
                j <= len,
                lists@.len() == len,
                t == q@.take(len as int),
                len <= q@.len(),
                posting_ok(view, n),
                forall|x: int| 0 <= x < len ==> (#[trigger] lists@[x])@ == posts(view, super::char_key(t[x])),
                all == forall|x: int| 0 <= x < j ==> #[trigger] posts(view, super::char_key(t[x])).contains(id),
            decreases len - j,
        {
            proof {
                let pk = super::char_key(t[j as int]);
                if view.contains_key(pk) {
                    assert forall|a: int, b: int| 0 <= a < b < lists@[j as int]@.len() implies lists@[j as int]@[a] <= lists@[j as int]@[b] by {
                        assert(view[pk][a] <= view[pk][b]);
                    }
                }
            }
            if !sorted_contains(lists[j], id) {
                all = false;
            }
            j = j + 1;
        }
        let ghost before = ids@;
        if all {
            proof {
                if ids@.len() > 0 {
                    let a = choose|b: int| 0 <= b < i && base@[b] == #[trigger] ids@[ids@.len() - 1];
                    let pk = super::char_key(t[shortest as int]);
                    assert(view[pk][a] < view[pk][i as int]);
                }
            }
            ids.push(id);
        }
        proof {
            assert forall|a: int| 0 <= a < ids@.len() implies exists|b: int| 0 <= b < i + 1 && base@[b] == #[trigger] ids@[a] by {
                if a < before.len() {
                    assert(ids@[a] == before[a]);
                    let b = choose|b: int| 0 <= b < i && base@[b] == #[trigger] before[a];
                } else {
                    assert(base@[i as int] == ids@[a]);
                }
            }
            assert forall|a: int| 0 <= a < ids@.len() implies in_all(view, t, #[trigger] ids@[a]) by {
                if a < before.len() {
                    assert(ids@[a] == before[a]);
                }
            }
            assert forall|b: int| 0 <= b < i + 1 && in_all(view, t, #[trigger] base@[b]) implies ids@.contains(base@[b]) by {
                if b < i {
                    let a = choose|a: int| 0 <= a < before.len() && before[a] == base@[b];
                    assert(ids@[a] == before[a]);
                } else {
                    assert(ids@[ids@.len() - 1] == id);
                }
            }
        }
        i = i + 1;
    }
    proof {
        assert forall|id: u32| in_all(view, t, id) implies ids@.contains(id) by {
            assert(posts(view, super::char_key(t[shortest as int])).contains(id));
            let b = choose|b: int| 0 <= b < base@.len() && base@[b] == id;
            assert(in_all(view, t, base@[b]));
        }
        lemma_ascending_of(view, t, ids@);
    }
    ids
}

/// A strictly increasing sequence of exactly the ids posted under every
/// character of `q` is `ascending_in_all(m, q)`.
proof fn lemma_ascending_of(m: Map<u64, Seq<u32>>, q: Seq<char>, s: Seq<u32>)
    requires
        increasing(s),
        forall|x: u32| s.contains(x) <==> in_all(m, q, x),
    ensures
        s == ascending_in_all(m, q),
{
    let c = ascending_in_all(m, q);
    assert(increasing(c) && forall|x: u32| c.contains(x) <==> in_all(m, q, x));
    lemma_increasing_unique(s, c);
}


/// Whether `a` ranks before `b` among pair matches: more shared pairs
/// first, then the smaller id.
pub open spec fn better(counts: Seq<u32>, a: u32, b: u32) -> bool {
    counts[a as int] > counts[b as int] || (counts[a as int] == counts[b as int] && a < b)
}

/// Whether `a` ranks before `b` by `count`: the higher count first, then the
/// smaller id.
pub open spec fn ranks_before(count: spec_fn(u32) -> nat, a: u32, b: u32) -> bool {
    count(a) > count(b) || (count(a) == count(b) && a < b)
}

/// Whether `chosen` are the `k` best ids of `pool` by `count`, best first:
/// all of the pool when it has fewer.
pub open spec fn is_top_by(pool: spec_fn(u32) -> bool, count: spec_fn(u32) -> nat, k: nat, chosen: Seq<u32>) -> bool {
    &&& chosen.len() <= k
    &&& forall|i: int, j: int|
        0 <= i < j < chosen.len() ==> ranks_before(count, #[trigger] chosen[i], #[trigger] chosen[j])
    &&& forall|i: int| 0 <= i < chosen.len() ==> pool(#[trigger] chosen[i])
    &&& forall|x: u32|
        pool(x) && !chosen.contains(x) ==> chosen.len() == k && forall|i: int|
            0 <= i < chosen.len() ==> ranks_before(count, #[trigger] chosen[i], x)
}

/// Two lists sorted by `count` with the same ids are the same list.
proof fn lemma_ranked_unique(count: spec_fn(u32) -> nat, a: Seq<u32>, b: Seq<u32>)
    requires
        forall|i: int, j: int| 0 <= i < j < a.len() ==> ranks_before(count, #[trigger] a[i], #[trigger] a[j]),
        forall|i: int, j: int| 0 <= i < j < b.len() ==> ranks_before(count, #[trigger] b[i], #[trigger] b[j]),
        forall|x: u32| a.contains(x) <==> b.contains(x),
    ensures
        a == b,
    decreases a.len() + b.len(),
{
    if a.len() == 0 || b.len() == 0 {
        if a.len() > 0 {
            assert(a.contains(a[0]));
        }
        if b.len() > 0 {
            assert(b.contains(b[0]));
        }
        assert(a =~= b);
    } else {
        assert(a.contains(a[0]) && b.contains(b[0]));
        let j = choose|j: int| 0 <= j < b.len() && b[j] == a[0];
        let i = choose|i: int| 0 <= i < a.len() && a[i] == b[0];
        if i != 0 && j != 0 {
            assert(ranks_before(count, a[0], a[i]));
            assert(ranks_before(count, b[0], b[j]));
        }
        let a1 = a.drop_first();
        let b1 = b.drop_first();
        assert forall|x: u32| a1.contains(x) <==> b1.contains(x) by {
            if a1.contains(x) {
                let w = choose|w: int| 0 <= w < a1.len() && a1[w] == x;
                assert(a[w + 1] == x && ranks_before(count, a[0], a[w + 1]));
                assert(a.contains(x));
                let v = choose|v: int| 0 <= v < b.len() && b[v] == x;
                assert(v != 0);
                assert(b1[v - 1] == x);
            }
            if b1.contains(x) {
                let w = choose|w: int| 0 <= w < b1.len() && b1[w] == x;
                assert(b[w + 1] == x && ranks_before(count, b[0], b[w + 1]));
                assert(b.contains(x));
                let v = choose|v: int| 0 <= v < a.len() && a[v] == x;
                assert(v != 0);
                assert(a1[v - 1] == x);
            }
        }
        lemma_ranked_unique(count, a1, b1);
        assert forall|w: int| 0 <= w < a.len() implies a[w] == b[w] by {
            if w > 0 {
                assert(a[w] == a1[w - 1] && b[w] == b1[w - 1]);
            }
        }
        assert(a =~= b);
    }
}

/// A list sorted by `count` holds no id twice.
proof fn lemma_ranked_no_duplicates(count: spec_fn(u32) -> nat, a: Seq<u32>)
    requires
        forall|i: int, j: int| 0 <= i < j < a.len() ==> ranks_before(count, #[trigger] a[i], #[trigger] a[j]),
    ensures
        a.no_duplicates(),
{
    assert forall|i: int, j: int| 0 <= i < a.len() && 0 <= j < a.len() && i != j implies a[i] != a[j] by {
        if i < j {
            assert(ranks_before(count, a[i], a[j]));
        } else {
            assert(ranks_before(count, a[j], a[i]));
        }
    }
}

/// The `k` best ids of a pool by a count form one list: two such lists are
/// the same.
pub proof fn lemma_top_by_unique(pool: spec_fn(u32) -> bool, count: spec_fn(u32) -> nat, k: nat, a: Seq<u32>, b: Seq<u32>)
    requires
        is_top_by(pool, count, k, a),
        is_top_by(pool, count, k, b),
    ensures
        a == b,
{
    assert forall|x: u32| a.contains(x) implies b.contains(x) by {
        lemma_top_by_covers(pool, count, k, a, b, x);
    }
    assert forall|x: u32| b.contains(x) implies a.contains(x) by {
        lemma_top_by_covers(pool, count, k, b, a, x);
    }
    lemma_ranked_unique(count, a, b);
}

/// An id of one list of the `k` best of a pool is in any other.
proof fn lemma_top_by_covers(pool: spec_fn(u32) -> bool, count: spec_fn(u32) -> nat, k: nat, a: Seq<u32>, b: Seq<u32>, x: u32)
    requires
        is_top_by(pool, count, k, a),
        is_top_by(pool, count, k, b),
        a.contains(x),
    ensures
        b.contains(x),
{
    if !b.contains(x) {
        let i = choose|i: int| 0 <= i < a.len() && a[i] == x;
        assert(pool(a[i]));
        assert(b.len() == k);
        assert forall|y: u32| b.contains(y) implies a.contains(y) by {
            if !a.contains(y) {
                let v = choose|v: int| 0 <= v < b.len() && b[v] == y;
                assert(pool(b[v]));
                assert(ranks_before(count, a[i], y));
                assert(ranks_before(count, b[v], x));
            }
        }
        lemma_ranked_no_duplicates(count, a);
        lemma_ranked_no_duplicates(count, b);
        a.unique_seq_to_set();
        b.unique_seq_to_set();
        let rest = a.to_set().remove(x);
        assert(b.to_set().subset_of(rest)) by {
            assert forall|y: u32| b.to_set().contains(y) implies rest.contains(y) by {
                assert(b.contains(y));
                assert(a.contains(y));
            }
        }
        assert(a.to_set().contains(x));
        vstd::set_lib::lemma_len_subset(b.to_set(), rest);
    }
}

/// Keeps the `limit` best of the distinct `ids` by `better`, best first.
fn retain_best(ids: &mut Vec<u32>, counts: &Vec<u32>, limit: usize)
    requires
        forall|i: int, j: int| 0 <= i < j < old(ids)@.len() ==> old(ids)@[i] != old(ids)@[j],
        forall|i: int| 0 <= i < old(ids)@.len() ==> old(ids)@[i] < counts@.len(),
    ensures
        final(ids)@.len() == if limit < old(ids)@.len() {
            limit as int
        } else {
            old(ids)@.len() as int
        },
        forall|a: int, b: int|
            0 <= a < b < final(ids)@.len() ==> better(counts@, #[trigger] final(ids)@[a], #[trigger] final(ids)@[b]),
        forall|a: int| 0 <= a < final(ids)@.len() ==> old(ids)@.contains(#[trigger] final(ids)@[a]),
        forall|x: u32| old(ids)@.contains(x) && !final(ids)@.contains(x) ==> final(ids)@.len() == limit,
        forall|x: u32, a: int|
            old(ids)@.contains(x) && !final(ids)@.contains(x) && 0 <= a < final(ids)@.len() ==> #[trigger] better(
                counts@,
                final(ids)@[a],
                x,
            ),
{
    let ghost original = ids@;
    let mut rest: Vec<u32> = Vec::new();
    std::mem::swap(&mut rest, ids);
    while ids.len() < limit && rest.len() > 0
        invariant
            ids@.len() + rest@.len() == original.len(),
            ids@.len() <= limit,
            forall|i: int| 0 <= i < rest@.len() ==> (#[trigger] rest@[i]) < counts@.len(),
            forall|i: int, j: int| 0 <= i < j < rest@.len() ==> rest@[i] != rest@[j],
            forall|x: u32| original.contains(x) <==> (ids@.contains(x) || rest@.contains(x)),
            forall|x: u32| !(ids@.contains(x) && rest@.contains(x)),
            forall|a: int, b: int|
                0 <= a < b < ids@.len() ==> better(counts@, #[trigger] ids@[a], #[trigger] ids@[b]),
            forall|a: int, i: int|
                0 <= a < ids@.len() && 0 <= i < rest@.len() ==> better(counts@, #[trigger] ids@[a], #[trigger] rest@[i]),
        decreases rest@.len(),
    {
        let mut best: usize = 0;
        let mut i: usize = 1;
        while i < rest.len()
            invariant
                0 <= best < rest@.len(),
                best < i <= rest@.len(),
                forall|x: int| 0 <= x < rest@.len() ==> (#[trigger] rest@[x]) < counts@.len(),
                forall|x: int, y: int| 0 <= x < y < rest@.len() ==> rest@[x] != rest@[y],
                forall|x: int| 0 <= x < i && x != best ==> better(counts@, rest@[best as int], #[trigger] rest@[x]),
            decreases rest@.len() - i,
        {
            let c = counts[rest[i] as usize];
            let b = counts[rest[best] as usize];
            if c > b || (c == b && rest[i] < rest[best]) {
                best = i;
            }
            i = i + 1;
        }
        let ghost before_ids = ids@;
        let ghost before_rest = rest@;
        let chosen = rest.remove(best);
        ids.push(chosen);
        proof {
            assert forall|x: u32| original.contains(x) <==> (ids@.contains(x) || rest@.contains(x)) by {
                assert(original.contains(x) <==> (before_ids.contains(x) || before_rest.contains(x)));
                if before_ids.contains(x) {
                    let k = choose|k: int| 0 <= k < before_ids.len() && before_ids[k] == x;
                    assert(ids@[k] == x);
                }
                if before_rest.contains(x) {
                    let k = choose|k: int| 0 <= k < before_rest.len() && before_rest[k] == x;
                    if k < best {
                        assert(rest@[k] == x);
                    } else if k > best {
                        assert(rest@[k - 1] == x);
                    } else {
                        assert(ids@[ids@.len() - 1] == x);
                    }
                }
                if ids@.contains(x) {
                    let k = choose|k: int| 0 <= k < ids@.len() && ids@[k] == x;
                    if k < before_ids.len() {
                        assert(before_ids[k] == x);
                    } else {
                        assert(before_rest[best as int] == x);
                    }
                }
                if rest@.contains(x) {
                    let k = choose|k: int| 0 <= k < rest@.len() && rest@[k] == x;
                    if k < best {
                        assert(before_rest[k] == x);
                    } else {
                        assert(before_rest[k + 1] == x);
                    }
                }
            }
            assert forall|x: u32| !(ids@.contains(x) && rest@.contains(x)) by {
                if ids@.contains(x) && rest@.contains(x) {
                    let k = choose|k: int| 0 <= k < rest@.len() && rest@[k] == x;
                    let r = if k < best { k } else { k + 1 };
                    assert(before_rest[r] == x);
                    let a = choose|a: int| 0 <= a < ids@.len() && ids@[a] == x;
                    if a < before_ids.len() {
                        assert(before_ids[a] == x);
                        assert(before_ids.contains(x) && before_rest.contains(x));
                    } else {
                        assert(before_rest[best as int] == x);
                    }
                }
            }
            assert forall|a: int, b: int|
                0 <= a < b < ids@.len() implies better(counts@, #[trigger] ids@[a], #[trigger] ids@[b]) by {
                if b == before_ids.len() {
                    assert(ids@[a] == before_ids[a]);
                    assert(better(counts@, before_ids[a], before_rest[best as int]));
                } else {
                    assert(ids@[a] == before_ids[a] && ids@[b] == before_ids[b]);
                }
            }
            assert forall|a: int, i: int|
                0 <= a < ids@.len() && 0 <= i < rest@.len() implies better(counts@, #[trigger] ids@[a], #[trigger] rest@[i]) by {
                let r = if i < best { i } else { i + 1 };
                assert(rest@[i] == before_rest[r]);
                if a < before_ids.len() {
                    assert(ids@[a] == before_ids[a]);
                } else {
                    assert(r != best);
                    assert(better(counts@, before_rest[best as int], before_rest[r]));
                }
            }
        }
    }
    proof {
        if ids@.len() < limit {
            assert(rest@.len() == 0);
        }
        assert forall|x: u32, a: int|
            original.contains(x) && !ids@.contains(x) && 0 <= a < ids@.len() implies #[trigger] better(
                counts@,
                ids@[a],
                x,
            ) by {
            let i = choose|i: int| 0 <= i < rest@.len() && rest@[i] == x;
        }
        assert forall|x: u32| original.contains(x) && !ids@.contains(x) implies ids@.len() == limit by {
            assert(rest@.contains(x));
        }
    }
}


/// The ids filed under the keys of `list` that start with `q`, key by key in
/// the order of the list.
pub open spec fn prefix_ids(list: Seq<KeyPostings>, q: Seq<char>) -> Seq<u32>
    decreases list.len(),
{
    if list.len() == 0 {
        Seq::empty()
    } else {
        prefix_ids(list.drop_last(), q) + if q.is_prefix_of(list.last().key@) {
            list.last().ids@
        } else {
            Seq::empty()
        }
    }
}

proof fn lemma_prefix_ids_step(list: Seq<KeyPostings>, q: Seq<char>, p: int)
    requires
        0 <= p < list.len(),
    ensures
        prefix_ids(list.take(p + 1), q) == prefix_ids(list.take(p), q) + if q.is_prefix_of(list[p].key@) {
            list[p].ids@
        } else {
            Seq::empty()
        },
{
    assert(list.take(p + 1).drop_last() =~= list.take(p));
}

/// Keys from `a` on that do not start with `q` add nothing.
proof fn lemma_prefix_ids_rest(list: Seq<KeyPostings>, q: Seq<char>, a: int, b: int)
    requires
        0 <= a <= b <= list.len(),
        forall|k: int| a <= k < b ==> !q.is_prefix_of(#[trigger] list[k].key@),
    ensures
        prefix_ids(list.take(b), q) == prefix_ids(list.take(a), q),
    decreases b - a,
{
    if a < b {
        lemma_prefix_ids_rest(list, q, a, b - 1);
        lemma_prefix_ids_step(list, q, b - 1);
        assert(prefix_ids(list.take(b - 1), q) + Seq::<u32>::empty() =~= prefix_ids(list.take(b - 1), q));
    }
}

/// The ids of a shorter part of the list come first.
proof fn lemma_prefix_ids_grow(list: Seq<KeyPostings>, q: Seq<char>, a: int, b: int)
    requires
        0 <= a <= b <= list.len(),
    ensures
        prefix_ids(list.take(a), q).len() <= prefix_ids(list.take(b), q).len(),
        prefix_ids(list.take(b), q).take(prefix_ids(list.take(a), q).len() as int) == prefix_ids(list.take(a), q),
    decreases b - a,
{
    if a < b {
        lemma_prefix_ids_grow(list, q, a, b - 1);
        lemma_prefix_ids_step(list, q, b - 1);
        let x = prefix_ids(list.take(a), q);
        let y = prefix_ids(list.take(b - 1), q);
        let z = prefix_ids(list.take(b), q);
        assert(z.take(y.len() as int) =~= y);
        assert(z.take(x.len() as int) =~= y.take(x.len() as int));
    } else {
        let x = prefix_ids(list.take(a), q);
        assert(x.take(x.len() as int) =~= x);
    }
}

proof fn lemma_not_prefix_mismatch(q: Seq<char>, a: Seq<char>)
    requires
        !q.is_prefix_of(a),
    ensures
        exists|j: int| 0 <= j < q.len() && #[trigger] mismatch(q, a, j),
{
    if q.len() > a.len() {
        assert(mismatch(q, a, a.len() as int));
    } else {
        assert(!(q =~= a.subrange(0, q.len() as int)));
        let j = choose|j: int| 0 <= j < q.len() && q[j] != a.subrange(0, q.len() as int)[j];
        assert(mismatch(q, a, j));
    }
}

/// The first `primary` ids filed under keys of `list` that start with `q`.
fn prefix_channel(list: &Vec<KeyPostings>, q: &[char], primary: usize, Ghost(n): Ghost<nat>) -> (ids: Vec<u32>)
    requires
        key_list_ok(list@, n, true),
    ensures
        ids@ == prefix_ids(list@, q@).take(
            if primary < prefix_ids(list@, q@).len() {
                primary as int
            } else {
                prefix_ids(list@, q@).len() as int
            },
        ),
{
    let start = lower_bound(list, q, Ghost(n), Ghost(true));
    proof {
        assert forall|k: int| 0 <= k < start implies !q@.is_prefix_of(#[trigger] list@[k].key@) by {
            if q@.is_prefix_of(list@[k].key@) {
                lemma_prefix_le(q@, list@[k].key@, 0);
            }
        }
        lemma_prefix_ids_rest(list@, q@, 0, start as int);
        assert(list@.take(0).len() == 0);
    }
    let mut ids: Vec<u32> = Vec::new();
    let mut p = start;
    while p < list.len() && ids.len() < primary && starts_with(list[p].key.as_slice(), q)
        invariant
            start <= p <= list@.len(),
            key_list_ok(list@, n, true),
            forall|i: int| start <= i < list@.len() ==> text_le(q@, #[trigger] list@[i].key@),
            ids@.len() <= primary,
            ids@.len() <= prefix_ids(list@.take(p as int), q@).len(),
            ids@ == prefix_ids(list@.take(p as int), q@).take(ids@.len() as int),
            ids@.len() < primary ==> ids@.len() == prefix_ids(list@.take(p as int), q@).len(),
        decreases list@.len() - p,
    {
        let postings = &list[p].ids;
        let ghost before = ids@;
        proof {
            lemma_prefix_ids_step(list@, q@, p as int);
        }
        let mut j: usize = 0;
        while j < postings.len() && ids.len() < primary
            invariant
                p < list@.len(),
                *postings == list@[p as int].ids,
                j <= postings@.len(),
                ids@.len() <= primary,
                ids@ == before + postings@.take(j as int),
            decreases postings@.len() - j,
        {
            ids.push(postings[j]);
            proof {
                assert(postings@.take(j + 1) =~= postings@.take(j as int).push(postings@[j as int]));
            }
            j = j + 1;
        }
        proof {
            let whole = prefix_ids(list@.take(p + 1), q@);
            assert(whole == before + postings@);
            if j == postings@.len() {
                assert(postings@.take(j as int) =~= postings@);
                assert(whole.take(ids@.len() as int) =~= ids@);
            } else {
                assert(whole.take(ids@.len() as int) =~= before + postings@.take(j as int));
            }
        }
        p = p + 1;
    }
    proof {
        let whole = prefix_ids(list@, q@);
        let upto = prefix_ids(list@.take(p as int), q@);
        assert(list@.take(list@.len() as int) =~= list@);
        lemma_prefix_ids_grow(list@, q@, p as int, list@.len() as int);
        if ids@.len() < primary {
            if p < list@.len() {
                let a = list@[p as int].key@;
                lemma_not_prefix_mismatch(q@, a);
                assert forall|k: int| p <= k < list@.len() implies !q@.is_prefix_of(#[trigger] list@[k].key@) by {
                    if k > p {
                        assert(text_le(a, list@[k].key@));
                    }
                    if k == p {
                    } else {
                        assert(text_le_from(q@, a, 0));
                        lemma_past_prefix_block(q@, a, list@[k].key@, 0);
                    }
                }
                lemma_prefix_ids_rest(list@, q@, p as int, list@.len() as int);
            }
            assert(whole == upto);
            assert(ids@ =~= whole);
            assert(whole.take(whole.len() as int) =~= whole);
        } else {
            assert(whole.take(upto.len() as int) == upto);
            assert(whole.take(primary as int) =~= upto.take(primary as int));
            assert(ids@ =~= whole.take(primary as int));
        }
    }
    ids
}


/// No id occurs twice.
pub open spec fn distinct(s: Seq<u32>) -> bool {
    forall|i: int, j: int| 0 <= i < j < s.len() ==> s[i] != s[j]
}

/// The set `seen` holds exactly the ids taken so far, which are distinct.
pub open spec fn seen_ok(ids: Seq<u32>, seen: Set<u64>) -> bool {
    &&& distinct(ids)
    &&& forall|x: u64| seen.contains(x) <==> exists|i: int| 0 <= i < ids.len() && #[trigger] ids[i] as u64 == x
}

/// Each id is filed under one key at most.
pub open spec fn unique_owner(list: Seq<KeyPostings>) -> bool {
    forall|i: int, j: int, a: int, b: int|
        0 <= i < list.len() && 0 <= j < list.len() && 0 <= a < list[i].ids@.len() && 0 <= b
            < list[j].ids@.len() && #[trigger] list[i].ids@[a] == #[trigger] list[j].ids@[b] ==> i == j
}

/// Whether `id` is filed under a key of `list` that starts with `q`.
pub open spec fn under_prefix(list: Seq<KeyPostings>, q: Seq<char>, id: u32) -> bool {
    exists|i: int| 0 <= i < list.len() && q.is_prefix_of(list[i].key@) && #[trigger] list[i].ids@.contains(id)
}

proof fn lemma_prefix_ids_members(list: Seq<KeyPostings>, q: Seq<char>, p: int, n: nat)
    requires
        0 <= p <= list.len(),
        key_list_ok(list, n, true),
        unique_owner(list),
    ensures
        distinct(prefix_ids(list.take(p), q)),
        forall|x: u32| prefix_ids(list.take(p), q).contains(x) <==> exists|i: int|
            0 <= i < p && q.is_prefix_of(list[i].key@) && #[trigger] list[i].ids@.contains(x),
    decreases p,
{
    if p > 0 {
        lemma_prefix_ids_members(list, q, p - 1, n);
        lemma_prefix_ids_step(list, q, p - 1);
        let before = prefix_ids(list.take(p - 1), q);
        let add = if q.is_prefix_of(list[p - 1].key@) {
            list[p - 1].ids@
        } else {
            Seq::empty()
        };
        let after = prefix_ids(list.take(p), q);
        assert(after == before + add);
        assert forall|a: int, b: int| 0 <= a < b < after.len() implies after[a] != after[b] by {
            if b >= before.len() && a < before.len() {
                let x = after[a];
                assert(before.contains(x));
                let i = choose|i: int| 0 <= i < p - 1 && q.is_prefix_of(list[i].key@) && #[trigger] list[i].ids@.contains(x);
                let c = choose|c: int| 0 <= c < list[i].ids@.len() && list[i].ids@[c] == x;
                if after[b] == x {
                    assert(list[p - 1].ids@[b - before.len()] == x);
                    assert(list[i].ids@[c] == list[p - 1].ids@[b - before.len()]);
                }
            } else if a >= before.len() {
                assert(list[p - 1].ids@[a - before.len()] < list[p - 1].ids@[b - before.len()]);
            }
        }
        assert forall|x: u32| after.contains(x) <==> exists|i: int|
            0 <= i < p && q.is_prefix_of(list[i].key@) && #[trigger] list[i].ids@.contains(x) by {
            if after.contains(x) {
                let k = choose|k: int| 0 <= k < after.len() && after[k] == x;
                if k < before.len() {
                    assert(before[k] == x);
                    assert(before.contains(x));
                } else {
                    assert(list[p - 1].ids@[k - before.len()] == x);
                    assert(list[p - 1].ids@.contains(x));
                }
            }
            if exists|i: int| 0 <= i < p && q.is_prefix_of(list[i].key@) && #[trigger] list[i].ids@.contains(x) {
                let i = choose|i: int| 0 <= i < p && q.is_prefix_of(list[i].key@) && #[trigger] list[i].ids@.contains(x);
                if i < p - 1 {
                    assert(before.contains(x));
                    let k = choose|k: int| 0 <= k < before.len() && before[k] == x;
                    assert(after[k] == x);
                } else {
                    let k = choose|k: int| 0 <= k < list[i].ids@.len() && list[i].ids@[k] == x;
                    assert(after[before.len() + k] == x);
                }
            }
        }
    }
}

/// `ids` followed by the values of `list` that it lacks, in order, while it
/// holds fewer than `limit`.
pub open spec fn extend_seq(ids: Seq<u32>, list: Seq<u32>, limit: nat) -> Seq<u32>
    decreases list.len(),
{
    if list.len() == 0 {
        ids
    } else {
        let before = extend_seq(ids, list.drop_last(), limit);
        if before.len() < limit && !before.contains(list.last()) {
            before.push(list.last())
        } else {
            before
        }
    }
}

proof fn lemma_extend_step(ids: Seq<u32>, list: Seq<u32>, j: int, limit: nat)
    requires
        0 <= j < list.len(),
    ensures
        extend_seq(ids, list.take(j + 1), limit) == ({
            let before = extend_seq(ids, list.take(j), limit);
            if before.len() < limit && !before.contains(list[j]) {
                before.push(list[j])
            } else {
                before
            }
        }),
{
    assert(list.take(j + 1).drop_last() =~= list.take(j));
}

/// Once `limit` values are held, the rest of the list adds nothing.
proof fn lemma_extend_full(ids: Seq<u32>, list: Seq<u32>, j: int, limit: nat)
    requires
        0 <= j <= list.len(),
        extend_seq(ids, list.take(j), limit).len() >= limit,
    ensures
        extend_seq(ids, list, limit) == extend_seq(ids, list.take(j), limit),
    decreases list.len() - j,
{
    if j < list.len() {
        lemma_extend_step(ids, list, j, limit);
        lemma_extend_full(ids, list, j + 1, limit);
    } else {
        assert(list.take(j) =~= list);
    }
}

/// Extending by two lists in turn is extending by both.
proof fn lemma_extend_append(ids: Seq<u32>, a: Seq<u32>, b: Seq<u32>, limit: nat)
    ensures
        extend_seq(ids, a + b, limit) == extend_seq(extend_seq(ids, a, limit), b, limit),
    decreases b.len(),
{
    if b.len() == 0 {
        assert(a + b =~= a);
    } else {
        assert((a + b).drop_last() =~= a + b.drop_last());
        lemma_extend_append(ids, a, b.drop_last(), limit);
    }
}

/// Appends the ids of `list` not seen yet, until `ids` holds `limit`.
fn extend_unseen(ids: &mut Vec<u32>, seen: &mut rapidhash::RapidHashSet<u64>, list: &Vec<u32>, limit: usize)
    requires
        seen_ok(old(ids)@, crate::outside::id_set_view(*old(seen))),
        old(ids)@.len() <= limit,
    ensures
        final(ids)@ == extend_seq(old(ids)@, list@, limit as nat),
        seen_ok(final(ids)@, crate::outside::id_set_view(*final(seen))),
        final(ids)@.len() <= limit,
        final(ids)@.take(old(ids)@.len() as int) == old(ids)@,
        old(ids)@.len() <= final(ids)@.len(),
        forall|i: int| old(ids)@.len() <= i < final(ids)@.len() ==> list@.contains(#[trigger] final(ids)@[i]),
        final(ids)@.len() < limit ==> forall|x: u32| list@.contains(x) ==> final(ids)@.contains(x),
{
    let ghost start = ids@;
    let mut j: usize = 0;
    while j < list.len() && ids.len() < limit
        invariant
            j <= list@.len(),
            seen_ok(ids@, crate::outside::id_set_view(*seen)),
            ids@.len() <= limit,
            start.len() <= ids@.len(),
            ids@.take(start.len() as int) == start,
            forall|i: int| start.len() <= i < ids@.len() ==> list@.contains(#[trigger] ids@[i]),
            forall|k: int| 0 <= k < j ==> ids@.contains(#[trigger] list@[k]),
            ids@ == extend_seq(start, list@.take(j as int), limit as nat),
        decreases list@.len() - j,
    {
        let id = list[j];
        proof {
            lemma_extend_step(start, list@, j as int, limit as nat);
        }
        let ghost before = ids@;
        let ghost set_before = crate::outside::id_set_view(*seen);
        if crate::outside::id_set_insert(seen, id as u64) {
            proof {
                if before.contains(id) {
                    let a = choose|a: int| 0 <= a < before.len() && before[a] == id;
                    assert(before[a] as u64 == id as u64);
                }
            }
            ids.push(id);
            proof {
                assert forall|a: int, b: int| 0 <= a < b < ids@.len() implies ids@[a] != ids@[b] by {
                    if b == before.len() {
                        assert(ids@[a] == before[a]);
                        if before[a] == id {
                            assert(set_before.contains(id as u64));
                        }
                    } else {
                        assert(ids@[a] == before[a] && ids@[b] == before[b]);
                    }
                }
                assert forall|x: u64| crate::outside::id_set_view(*seen).contains(x) <==> exists|i: int|
                    0 <= i < ids@.len() && #[trigger] ids@[i] as u64 == x by {
                    if set_before.contains(x) {
                        let i = choose|i: int| 0 <= i < before.len() && #[trigger] before[i] as u64 == x;
                        assert(ids@[i] == before[i]);
                    }
                    if x == id as u64 {
                        assert(ids@[before.len() as int] == id);
                    }
                    if exists|i: int| 0 <= i < ids@.len() && #[trigger] ids@[i] as u64 == x {
                        let i = choose|i: int| 0 <= i < ids@.len() && #[trigger] ids@[i] as u64 == x;
                        if i < before.len() {
                            assert(ids@[i] == before[i]);
                        }
                    }
                }
                assert(ids@.take(start.len() as int) =~= before.take(start.len() as int));
                assert forall|i: int| start.len() <= i < ids@.len() implies list@.contains(#[trigger] ids@[i]) by {
                    if i < before.len() {
                        assert(ids@[i] == before[i]);
                    } else {
                        assert(list@[j as int] == ids@[i]);
                    }
                }
                assert forall|k: int| 0 <= k < j + 1 implies ids@.contains(#[trigger] list@[k]) by {
                    if k < j {
                        let a = choose|a: int| 0 <= a < before.len() && before[a] == list@[k];
                        assert(ids@[a] == before[a]);
                    } else {
                        assert(ids@[before.len() as int] == list@[k]);
                    }
                }
            }
        } else {
            proof {
                let i = choose|i: int| 0 <= i < ids@.len() && #[trigger] ids@[i] as u64 == id as u64;
                assert(ids@[i] == id);
                assert(before.contains(id));
            }
        }
        j = j + 1;
    }
    proof {
        if j < list@.len() {
            lemma_extend_full(start, list@, j as int, limit as nat);
        } else {
            assert(list@.take(j as int) =~= list@);
        }
        if ids@.len() < limit {
            assert forall|x: u32| list@.contains(x) implies ids@.contains(x) by {
                let k = choose|k: int| 0 <= k < list@.len() && list@[k] == x;
                assert(ids@.contains(list@[k]));
            }
        }
    }
}


/// Whether `id` is filed under a key of `list` equal to `q`.
pub open spec fn under_exact(list: Seq<KeyPostings>, q: Seq<char>, id: u32) -> bool {
    exists|i: int| 0 <= i < list.len() && list[i].key@ == q && #[trigger] list[i].ids@.contains(id)
}

/// Token matches recorded by id: 1 for a token equal to the query, 0 for a
/// token that only starts with it.
pub open spec fn matches_ok(tokens: Seq<KeyPostings>, q: Seq<char>, matches: Map<u64, u64>) -> bool {
    forall|x: u64|
        #[trigger] matches.contains_key(x) ==> x <= u32::MAX && matches[x] <= 1 && under_prefix(tokens, q, x as u32)
            && (matches[x] == 1 ==> under_exact(tokens, q, x as u32))
}

/// The token channel over one token's postings, from a state of held ids,
/// recorded token matches (by id: 1 for a token equal to the query, 0 for
/// one that only starts with it) and whether it stopped: an id already held,
/// or one that fits, is recorded (and held); the first new id that does not
/// fit stops it.
pub open spec fn posting_marks(state: (Seq<u32>, Map<u64, u64>, bool), postings: Seq<u32>, exact: bool, primary: nat) -> (Seq<u32>, Map<u64, u64>, bool)
    decreases postings.len(),
{
    if postings.len() == 0 {
        state
    } else {
        let (ids, marks, stopped) = posting_marks(state, postings.drop_last(), exact, primary);
        let x = postings.last();
        if stopped {
            (ids, marks, stopped)
        } else if !ids.contains(x) && ids.len() >= primary {
            (ids, marks, true)
        } else {
            let held = if ids.contains(x) {
                ids
            } else {
                ids.push(x)
            };
            let recorded = if exact {
                marks.insert(x as u64, 1)
            } else if marks.contains_key(x as u64) {
                marks
            } else {
                marks.insert(x as u64, 0)
            };
            (held, recorded, false)
        }
    }
}

/// The token channel over the token keys of `tokens` that start with `q`,
/// in order, from the held `ids`: each key's postings in turn, until
/// `primary` ids are held after a key.
pub open spec fn token_marks(tokens: Seq<KeyPostings>, q: Seq<char>, ids: Seq<u32>, primary: nat) -> (Seq<u32>, Map<u64, u64>, bool)
    decreases tokens.len(),
{
    if tokens.len() == 0 {
        (ids, Map::empty(), false)
    } else {
        let (held, marks, stopped) = token_marks(tokens.drop_last(), q, ids, primary);
        let t = tokens.last();
        if stopped || !q.is_prefix_of(t.key@) {
            (held, marks, stopped)
        } else {
            let after = posting_marks((held, marks, false), t.ids@, t.key@ == q, primary);
            (after.0, after.1, after.0.len() >= primary)
        }
    }
}

proof fn lemma_posting_marks_step(state: (Seq<u32>, Map<u64, u64>, bool), postings: Seq<u32>, exact: bool, primary: nat, j: int)
    requires
        0 <= j < postings.len(),
    ensures
        posting_marks(state, postings.take(j + 1), exact, primary) == ({
            let (ids, marks, stopped) = posting_marks(state, postings.take(j), exact, primary);
            let x = postings[j];
            if stopped {
                (ids, marks, stopped)
            } else if !ids.contains(x) && ids.len() >= primary {
                (ids, marks, true)
            } else {
                let held = if ids.contains(x) {
                    ids
                } else {
                    ids.push(x)
                };
                let recorded = if exact {
                    marks.insert(x as u64, 1)
                } else if marks.contains_key(x as u64) {
                    marks
                } else {
                    marks.insert(x as u64, 0)
                };
                (held, recorded, false)
            }
        }),
{
    assert(postings.take(j + 1).drop_last() =~= postings.take(j));
}

/// Once stopped, the rest of the postings change nothing.
proof fn lemma_posting_marks_stopped(state: (Seq<u32>, Map<u64, u64>, bool), postings: Seq<u32>, exact: bool, primary: nat, j: int)
    requires
        0 <= j <= postings.len(),
        posting_marks(state, postings.take(j), exact, primary).2,
    ensures
        posting_marks(state, postings, exact, primary) == posting_marks(state, postings.take(j), exact, primary),
    decreases postings.len() - j,
{
    if j < postings.len() {
        lemma_posting_marks_step(state, postings, exact, primary, j);
        lemma_posting_marks_stopped(state, postings, exact, primary, j + 1);
    } else {
        assert(postings.take(j) =~= postings);
    }
}

proof fn lemma_token_marks_step(tokens: Seq<KeyPostings>, q: Seq<char>, ids: Seq<u32>, primary: nat, t: int)
    requires
        0 <= t < tokens.len(),
    ensures
        token_marks(tokens.take(t + 1), q, ids, primary) == ({
            let (held, marks, stopped) = token_marks(tokens.take(t), q, ids, primary);
            if stopped || !q.is_prefix_of(tokens[t].key@) {
                (held, marks, stopped)
            } else {
                let after = posting_marks((held, marks, false), tokens[t].ids@, tokens[t].key@ == q, primary);
                (after.0, after.1, after.0.len() >= primary)
            }
        }),
{
    assert(tokens.take(t + 1).drop_last() =~= tokens.take(t));
}

/// Keys that do not start with `q`, or that come after the channel stopped,
/// change nothing.
proof fn lemma_token_marks_rest(tokens: Seq<KeyPostings>, q: Seq<char>, ids: Seq<u32>, primary: nat, a: int, b: int)
    requires
        0 <= a <= b <= tokens.len(),
        token_marks(tokens.take(a), q, ids, primary).2 || forall|k: int| a <= k < b ==> !q.is_prefix_of(#[trigger] tokens[k].key@),
    ensures
        token_marks(tokens.take(b), q, ids, primary) == token_marks(tokens.take(a), q, ids, primary),
    decreases b - a,
{
    if a < b {
        lemma_token_marks_rest(tokens, q, ids, primary, a, b - 1);
        lemma_token_marks_step(tokens, q, ids, primary, b - 1);
    }
}

impl super::Index {
    /// Adds the terms filed under tokens that start with the query, until
    /// `ids` holds `primary`, and records how each was matched.
    fn token_channel(
        &self,
        q: &[char],
        primary: usize,
        ids: &mut Vec<u32>,
        seen: &mut rapidhash::RapidHashSet<u64>,
        matches: &mut rapidhash::RapidHashMap<u64, u64>,
    )
        requires
            self.wf(),
            seen_ok(old(ids)@, crate::outside::id_set_view(*old(seen))),
            old(ids)@.len() <= primary,
            matches_ok(self.tokens@, q@, crate::outside::id_map_view(*old(matches))),
            crate::outside::id_map_view(*old(matches)) == Map::<u64, u64>::empty(),
        ensures
            crate::outside::id_map_view(*final(matches)) == token_marks(self.tokens@, q@, old(ids)@, primary as nat).1,
            final(ids)@ == extend_seq(old(ids)@, prefix_ids(self.tokens@, q@), primary as nat),
            seen_ok(final(ids)@, crate::outside::id_set_view(*final(seen))),
            final(ids)@.len() <= primary,
            old(ids)@.len() <= final(ids)@.len(),
            final(ids)@.take(old(ids)@.len() as int) == old(ids)@,
            forall|i: int|
                old(ids)@.len() <= i < final(ids)@.len() ==> under_prefix(self.tokens@, q@, #[trigger] final(ids)@[i]),
            final(ids)@.len() < primary ==> forall|x: u32| under_prefix(self.tokens@, q@, x) ==> final(ids)@.contains(x),
            matches_ok(self.tokens@, q@, crate::outside::id_map_view(*final(matches))),
    {
        let ghost n = self.terms@.len();
        let ghost start_ids = ids@;
        let tokens = &self.tokens;
        let start = lower_bound(tokens, q, Ghost(n), Ghost(false));
        proof {
            assert forall|k: int| 0 <= k < start implies !q@.is_prefix_of(#[trigger] tokens@[k].key@) by {
                if q@.is_prefix_of(tokens@[k].key@) {
                    lemma_prefix_le(q@, tokens@[k].key@, 0);
                }
            }
            lemma_prefix_ids_rest(tokens@, q@, 0, start as int);
            assert(prefix_ids(tokens@.take(0), q@) =~= Seq::<u32>::empty());
            lemma_token_marks_rest(tokens@, q@, start_ids, primary as nat, 0, start as int);
            assert(tokens@.take(0) =~= Seq::<KeyPostings>::empty());
        }
        let mut t = start;
        let mut done = false;
        while t < tokens.len() && !done && starts_with(tokens[t].key.as_slice(), q)
            invariant
                start <= t <= tokens@.len(),
                *tokens == self.tokens,
                key_list_ok(tokens@, n, false),
                forall|i: int| 0 <= i < start ==> !text_le(q@, #[trigger] tokens@[i].key@),
                forall|i: int| start <= i < tokens@.len() ==> text_le(q@, #[trigger] tokens@[i].key@),
                forall|i: int| start <= i < t ==> q@.is_prefix_of(#[trigger] tokens@[i].key@),
                seen_ok(ids@, crate::outside::id_set_view(*seen)),
                ids@.len() <= primary,
                start_ids.len() <= ids@.len(),
                ids@.take(start_ids.len() as int) == start_ids,
                forall|i: int| start_ids.len() <= i < ids@.len() ==> under_prefix(tokens@, q@, #[trigger] ids@[i]),
                !done ==> forall|k: int, c: int|
                    start <= k < t && 0 <= c < tokens@[k].ids@.len() ==> ids@.contains(#[trigger] tokens@[k].ids@[c]),
                done ==> ids@.len() == primary,
                !done ==> ids@ == extend_seq(start_ids, prefix_ids(tokens@.take(t as int), q@), primary as nat),
                done ==> ids@ == extend_seq(start_ids, prefix_ids(tokens@, q@), primary as nat),
                matches_ok(tokens@, q@, crate::outside::id_map_view(*matches)),
                (ids@, crate::outside::id_map_view(*matches), done) == token_marks(tokens@.take(t as int), q@, start_ids, primary as nat),
            decreases tokens@.len() - t,
        {
            let exact = tokens[t].key.len() == q.len();
            proof {
                if exact {
                    assert(tokens@[t as int].key@ =~= tokens@[t as int].key@.subrange(0, q@.len() as int));
                }
            }
            let postings = &tokens[t].ids;
            let ghost ids_at_token = ids@;
            let ghost state = (ids@, crate::outside::id_map_view(*matches), false);
            let mut j: usize = 0;
            while j < postings.len()
                invariant
                    t < tokens@.len(),
                    *postings == tokens@[t as int].ids,
                    q@.is_prefix_of(tokens@[t as int].key@),
                    exact == (tokens@[t as int].key@ == q@),
                    j <= postings@.len(),
                    seen_ok(ids@, crate::outside::id_set_view(*seen)),
                    ids@.len() <= primary,
                    ids_at_token.len() <= ids@.len(),
                    ids@.take(ids_at_token.len() as int) == ids_at_token,
                    start_ids.len() <= ids_at_token.len(),
                    ids_at_token.take(start_ids.len() as int) == start_ids,
                    forall|i: int| start_ids.len() <= i < ids@.len() ==> under_prefix(tokens@, q@, #[trigger] ids@[i]),
                    forall|c: int| 0 <= c < j ==> ids@.contains(#[trigger] postings@[c]),
                    matches_ok(tokens@, q@, crate::outside::id_map_view(*matches)),
                    ids@ == extend_seq(ids_at_token, postings@.take(j as int), primary as nat),
                    (ids@, crate::outside::id_map_view(*matches), false) == posting_marks(state, postings@.take(j as int), exact, primary as nat),
                ensures
                    j < postings@.len() ==> ids@.len() == primary && !ids@.contains(postings@[j as int]),
                decreases postings@.len() - j,
            {
                let id = postings[j];
                let ghost before = ids@;
                let ghost set_before = crate::outside::id_set_view(*seen);
                proof {
                    lemma_extend_step(ids_at_token, postings@, j as int, primary as nat);
                    lemma_posting_marks_step(state, postings@, exact, primary as nat, j as int);
                }
                proof {
                    assert(tokens@[t as int].ids@.contains(id));
                    assert(under_prefix(tokens@, q@, id));
                }
                if !crate::outside::id_set_contains(seen, id as u64) {
                    proof {
                        if ids@.contains(id) {
                            let w = choose|w: int| 0 <= w < ids@.len() && ids@[w] == id;
                            assert(ids@[w] as u64 == id as u64);
                        }
                    }
                    if ids.len() == primary {
                        break;
                    }
                    crate::outside::id_set_insert(seen, id as u64);
                    proof {
                        if before.contains(id) {
                            let a = choose|a: int| 0 <= a < before.len() && before[a] == id;
                            assert(before[a] as u64 == id as u64);
                        }
                    }
                    ids.push(id);
                    proof {
                        assert forall|a: int, b: int| 0 <= a < b < ids@.len() implies ids@[a] != ids@[b] by {
                            if b == before.len() {
                                assert(ids@[a] == before[a]);
                                if before[a] == id {
                                    assert(set_before.contains(id as u64));
                                }
                            } else {
                                assert(ids@[a] == before[a] && ids@[b] == before[b]);
                            }
                        }
                        assert forall|x: u64| crate::outside::id_set_view(*seen).contains(x) <==> exists|i: int|
                            0 <= i < ids@.len() && #[trigger] ids@[i] as u64 == x by {
                            if set_before.contains(x) {
                                let i = choose|i: int| 0 <= i < before.len() && #[trigger] before[i] as u64 == x;
                                assert(ids@[i] == before[i]);
                            }
                            if x == id as u64 {
                                assert(ids@[before.len() as int] == id);
                            }
                            if exists|i: int| 0 <= i < ids@.len() && #[trigger] ids@[i] as u64 == x {
                                let i = choose|i: int| 0 <= i < ids@.len() && #[trigger] ids@[i] as u64 == x;
                                if i < before.len() {
                                    assert(ids@[i] == before[i]);
                                }
                            }
                        }
                        assert(ids@.take(ids_at_token.len() as int) =~= before.take(ids_at_token.len() as int));
                        assert forall|i: int| start_ids.len() <= i < ids@.len() implies under_prefix(tokens@, q@, #[trigger] ids@[i]) by {
                            if i < before.len() {
                                assert(ids@[i] == before[i]);
                            }
                        }
                        assert forall|c: int| 0 <= c < j + 1 implies ids@.contains(#[trigger] postings@[c]) by {
                            if c < j {
                                let a = choose|a: int| 0 <= a < before.len() && before[a] == postings@[c];
                                assert(ids@[a] == before[a]);
                            } else {
                                assert(ids@[before.len() as int] == postings@[c]);
                            }
                        }
                    }
                } else {
                    proof {
                        let i = choose|i: int| 0 <= i < ids@.len() && #[trigger] ids@[i] as u64 == id as u64;
                        assert(ids@[i] == id);
                        assert(before.contains(id));
                    }
                }
                let ghost matches_before = crate::outside::id_map_view(*matches);
                if exact {
                    crate::outside::id_map_insert(matches, id as u64, 1);
                } else if crate::outside::id_map_get(matches, id as u64).is_none() {
                    crate::outside::id_map_insert(matches, id as u64, 0);
                }
                proof {
                    assert(under_prefix(tokens@, q@, id));
                    if exact {
                        assert(under_exact(tokens@, q@, id));
                    }
                    let m = crate::outside::id_map_view(*matches);
                    assert forall|x: u64| #[trigger] m.contains_key(x) implies x <= u32::MAX && m[x] <= 1 && under_prefix(tokens@, q@, x as u32)
                        && (m[x] == 1 ==> under_exact(tokens@, q@, x as u32)) by {
                        if x != id as u64 {
                            assert(matches_before.contains_key(x));
                        }
                    }
                }
                j = j + 1;
            }
            proof {
                if j < postings@.len() {
                    lemma_extend_full(ids_at_token, postings@, j as int, primary as nat);
                    lemma_posting_marks_step(state, postings@, exact, primary as nat, j as int);
                    lemma_posting_marks_stopped(state, postings@, exact, primary as nat, j + 1);
                } else {
                    assert(postings@.take(j as int) =~= postings@);
                }
                lemma_token_marks_step(tokens@, q@, start_ids, primary as nat, t as int);
                lemma_prefix_ids_step(tokens@, q@, t as int);
                lemma_extend_append(start_ids, prefix_ids(tokens@.take(t as int), q@), postings@, primary as nat);
                assert(ids@ == extend_seq(start_ids, prefix_ids(tokens@.take(t + 1), q@), primary as nat));
                if ids@.len() == primary {
                    let whole = prefix_ids(tokens@, q@);
                    let upto = prefix_ids(tokens@.take(t + 1), q@);
                    assert(tokens@.take(tokens@.len() as int) =~= tokens@);
                    lemma_prefix_ids_grow(tokens@, q@, t + 1, tokens@.len() as int);
                    lemma_extend_full(start_ids, whole, upto.len() as int, primary as nat);
                }
            }
            if ids.len() == primary {
                done = true;
            }
            proof {
                assert(ids@.take(start_ids.len() as int) =~= ids_at_token.take(start_ids.len() as int));
                if !done {
                    assert(j == postings@.len());
                    assert forall|k: int, c: int|
                        start <= k < t + 1 && 0 <= c < tokens@[k].ids@.len() implies ids@.contains(#[trigger] tokens@[k].ids@[c]) by {
                        if k < t {
                            let a = choose|a: int| 0 <= a < ids_at_token.len() && ids_at_token[a] == tokens@[k].ids@[c];
                            assert(ids@[a] == ids_at_token[a]);
                        }
                    }
                }
            }
            t = t + 1;
        }
        proof {
            if !done {
                if t < tokens@.len() {
                    let a = tokens@[t as int].key@;
                    lemma_not_prefix_mismatch(q@, a);
                    assert forall|k: int| t <= k < tokens@.len() implies !q@.is_prefix_of(#[trigger] tokens@[k].key@) by {
                        if k > t {
                            assert(text_le(a, tokens@[k].key@));
                            assert(text_le_from(q@, a, 0));
                            lemma_past_prefix_block(q@, a, tokens@[k].key@, 0);
                        }
                    }
                    lemma_prefix_ids_rest(tokens@, q@, t as int, tokens@.len() as int);
                    lemma_token_marks_rest(tokens@, q@, start_ids, primary as nat, t as int, tokens@.len() as int);
                }
                assert(tokens@.take(tokens@.len() as int) =~= tokens@);
            } else {
                lemma_token_marks_rest(tokens@, q@, start_ids, primary as nat, t as int, tokens@.len() as int);
                assert(tokens@.take(tokens@.len() as int) =~= tokens@);
            }
            if ids@.len() < primary {
                assert(!done);
                assert forall|x: u32| under_prefix(tokens@, q@, x) implies ids@.contains(x) by {
                    let k = choose|k: int| 0 <= k < tokens@.len() && q@.is_prefix_of(tokens@[k].key@) && #[trigger] tokens@[k].ids@.contains(x);
                    let c = choose|c: int| 0 <= c < tokens@[k].ids@.len() && tokens@[k].ids@[c] == x;
                    if k < start {
                        lemma_prefix_le(q@, tokens@[k].key@, 0);
                    } else if k >= t {
                        let a = tokens@[t as int].key@;
                        lemma_not_prefix_mismatch(q@, a);
                        if k > t {
                            assert(text_le(a, tokens@[k].key@));
                            assert(text_le_from(q@, a, 0));
                            lemma_past_prefix_block(q@, a, tokens@[k].key@, 0);
                        }
                    }
                    assert(ids@.contains(tokens@[k].ids@[c]));
                }
            }
        }
    }
}


/// Whether `id` is posted under the initials of every one of the first `len`
/// characters of the query, for some `len` of at least two.
pub open spec fn initials_match(m: Map<u64, Seq<u32>>, q: Seq<char>, id: u32) -> bool {
    exists|len: int| 2 <= len <= q.len() && #[trigger] in_all(m, q.take(len), id)
}

/// Whether `id` is posted under an adjacent pair of the query.
pub open spec fn bigram_match(m: Map<u64, Seq<u32>>, q: Seq<char>, id: u32) -> bool {
    exists|b: int| 0 <= b && b + 1 < q.len() && #[trigger] posts(m, super::pair_key(q[b], q[b + 1])).contains(id)
}

/// Whether `id` is posted under a pair of query characters at most two
/// apart.
pub open spec fn near_match(m: Map<u64, Seq<u32>>, q: Seq<char>, id: u32) -> bool {
    exists|f: int, r: int|
        0 <= f < r < q.len() && r <= f + 2 && #[trigger] posts(m, super::pair_key(q[f], q[r])).contains(id)
}

/// How many times `id` is posted under the first `b` adjacent pairs of `q`.
pub open spec fn adjacent_count(m: Map<u64, Seq<u32>>, q: Seq<char>, b: int, id: u32) -> nat
    decreases b,
{
    if b <= 0 {
        0
    } else {
        adjacent_count(m, q, b - 1, id) + occurrences(posts(m, super::pair_key(q[b - 1], q[b])), id)
    }
}

/// The keys of the pairs of `q` that start at position `f` and end before
/// position `r`.
pub open spec fn near_row(q: Seq<char>, f: int, r: int) -> Seq<u64>
    decreases r - f,
{
    if r <= f + 1 {
        Seq::empty()
    } else {
        near_row(q, f, r - 1).push(super::pair_key(q[f], q[r - 1]))
    }
}

/// The keys of the ordered pairs of `q` at most two apart that start before
/// position `f`, first position by first position.
pub open spec fn near_keys(q: Seq<char>, f: int) -> Seq<u64>
    decreases f,
{
    if f <= 0 {
        Seq::empty()
    } else {
        near_keys(q, f - 1) + near_row(q, f - 1, if f + 2 < q.len() {
            f + 2
        } else {
            q.len() as int
        })
    }
}

/// How many times `id` is posted under the keys of `ks`, each key counted
/// once.
pub open spec fn distinct_count(m: Map<u64, Seq<u32>>, ks: Seq<u64>, id: u32) -> nat
    decreases ks.len(),
{
    if ks.len() == 0 {
        0
    } else {
        distinct_count(m, ks.drop_last(), id) + if ks.drop_last().contains(ks.last()) {
            0
        } else {
            occurrences(posts(m, ks.last()), id)
        }
    }
}

/// How many distinct near pairs of `q` post `id`.
pub open spec fn near_count(m: Map<u64, Seq<u32>>, q: Seq<char>, id: u32) -> nat {
    distinct_count(m, near_keys(q, q.len() as int), id)
}

/// An id at or past `n` is posted nowhere.
proof fn lemma_unposted(m: Map<u64, Seq<u32>>, n: nat, k: u64, x: u32)
    requires
        posting_ok(m, n),
        x >= n,
    ensures
        occurrences(posts(m, k), x) == 0,
{
    if m.contains_key(k) {
        assert forall|j: int| 0 <= j < m[k].len() implies m[k][j] < x by {
            assert(m[k][j] < n);
        }
        super::lemma_occurrences_absent(m[k], x);
    }
}

proof fn lemma_adjacent_unposted(m: Map<u64, Seq<u32>>, n: nat, q: Seq<char>, b: int, x: u32)
    requires
        posting_ok(m, n),
        x >= n,
    ensures
        adjacent_count(m, q, b, x) == 0,
    decreases b,
{
    if b > 0 {
        lemma_adjacent_unposted(m, n, q, b - 1, x);
        lemma_unposted(m, n, super::pair_key(q[b - 1], q[b]), x);
    }
}

proof fn lemma_distinct_unposted(m: Map<u64, Seq<u32>>, n: nat, ks: Seq<u64>, x: u32)
    requires
        posting_ok(m, n),
        x >= n,
    ensures
        distinct_count(m, ks, x) == 0,
    decreases ks.len(),
{
    if ks.len() > 0 {
        lemma_distinct_unposted(m, n, ks.drop_last(), x);
        lemma_unposted(m, n, ks.last(), x);
    }
}

proof fn lemma_occurrences_take(s: Seq<u32>, j: int, v: u32)
    requires
        0 <= j < s.len(),
    ensures
        occurrences(s.take(j + 1), v) == occurrences(s.take(j), v) + if s[j] == v {
            1nat
        } else {
            0nat
        },
        occurrences(s.take(j + 1), v) <= occurrences(s, v),
    decreases s.len() - j,
{
    assert(s.take(j + 1) =~= s.take(j).push(s[j]));
    super::lemma_occurrences_push(s.take(j), s[j], v);
    if j + 1 < s.len() {
        lemma_occurrences_take(s, j + 1, v);
    } else {
        assert(s.take(j + 1) =~= s);
    }
}

/// The ids outside `ids` that the adjacent pairs of `q` post.
pub open spec fn adjacent_pool(index: Index, q: Seq<char>, ids: Seq<u32>) -> spec_fn(u32) -> bool {
    |x: u32| !ids.contains(x) && adjacent_count(index.spec_bigrams(), q, q.len() - 1, x) > 0
}

/// How many times the adjacent pairs of `q` post an id.
pub open spec fn adjacent_score(index: Index, q: Seq<char>) -> spec_fn(u32) -> nat {
    |x: u32| adjacent_count(index.spec_bigrams(), q, q.len() - 1, x)
}

/// What the pair channels make of `ids`: `ids` and then the best of the
/// other ids by how many times the adjacent pairs of `q` post them, up to
/// `limit`; then the near-pair fallback.
pub open spec fn pair_stage(index: Index, q: Seq<char>, ids: Seq<u32>, limit: nat, result: Seq<u32>) -> bool {
    exists|chosen: Seq<u32>|
        #[trigger] is_top_by(adjacent_pool(index, q, ids), adjacent_score(index, q), (limit - ids.len()) as nat, chosen)
            && near_stage(index, q, ids + chosen, limit, result)
}

/// What the token-initials channel makes of `ids`, trying the initials of the
/// first `len` characters of `q`, then of one fewer at a time down to two:
/// it stops once `limit` ids are held, or once a run shorter than the query
/// has added ids.
pub open spec fn initials_seq(m: Map<u64, Seq<u32>>, q: Seq<char>, ids: Seq<u32>, limit: nat, len: int) -> Seq<u32>
    decreases len,
{
    if len < 2 || ids.len() >= limit {
        ids
    } else {
        let next = extend_seq(ids, ascending_in_all(m, q.take(len)), limit);
        if len < q.len() && next.len() > ids.len() {
            next
        } else {
            initials_seq(m, q, next, limit, len - 1)
        }
    }
}

impl super::Index {
    /// Adds terms posted under the initials of the query's first characters,
    /// longest first: all of them, then only the longest shorter run that
    /// brings new ones.
    fn initials_channel(&self, q: &[char], limit: usize, ids: &mut Vec<u32>, seen: &mut rapidhash::RapidHashSet<u64>)
        requires
            self.wf(),
            seen_ok(old(ids)@, crate::outside::id_set_view(*old(seen))),
            old(ids)@.len() <= limit,
        ensures
            final(ids)@ == initials_seq(crate::outside::posting_map_view(self.token_initials), q@, old(ids)@, limit as nat, q@.len() as int),
            seen_ok(final(ids)@, crate::outside::id_set_view(*final(seen))),
            final(ids)@.len() <= limit,
            old(ids)@.len() <= final(ids)@.len(),
            final(ids)@.take(old(ids)@.len() as int) == old(ids)@,
            forall|i: int|
                old(ids)@.len() <= i < final(ids)@.len() ==> initials_match(
                    crate::outside::posting_map_view(self.token_initials),
                    q@,
                    #[trigger] final(ids)@[i],
                ),
    {
        let ghost start_ids = ids@;
        let ghost m = crate::outside::posting_map_view(self.token_initials);
        let mut prefix_len = q.len();
        while prefix_len >= 2
            invariant_except_break
                initials_seq(m, q@, ids@, limit as nat, prefix_len as int) == initials_seq(m, q@, start_ids, limit as nat, q@.len() as int),
            invariant
                prefix_len <= q@.len(),
                self.wf(),
                m == crate::outside::posting_map_view(self.token_initials),
                seen_ok(ids@, crate::outside::id_set_view(*seen)),
                ids@.len() <= limit,
                start_ids.len() <= ids@.len(),
                ids@.take(start_ids.len() as int) == start_ids,
                forall|i: int| start_ids.len() <= i < ids@.len() ==> initials_match(m, q@, #[trigger] ids@[i]),
            ensures
                ids@ == initials_seq(m, q@, start_ids, limit as nat, q@.len() as int),
            decreases prefix_len,
        {
            if ids.len() == limit {
                break;
            }
            let previous = ids.len();
            let ghost before = ids@;
            let inter = intersect(&self.token_initials, q, prefix_len, Ghost(self.terms@.len()));
            extend_unseen(ids, seen, &inter, limit);
            proof {
                assert(ids@.take(start_ids.len() as int) =~= before.take(start_ids.len() as int));
                assert forall|i: int| start_ids.len() <= i < ids@.len() implies initials_match(m, q@, #[trigger] ids@[i]) by {
                    if i < before.len() {
                        assert(ids@[i] == before[i]);
                    } else {
                        let k = choose|k: int| 0 <= k < inter@.len() && inter@[k] == ids@[i];
                        assert(in_all(m, q@.take(prefix_len as int), inter@[k]));
                    }
                }
            }
            proof {
                assert(ids@ == extend_seq(before, ascending_in_all(m, q@.take(prefix_len as int)), limit as nat));
            }
            if prefix_len < q.len() && ids.len() > previous {
                break;
            }
            prefix_len = prefix_len - 1;
        }
    }

    /// Adds terms that share adjacent pairs with the query, most shared
    /// first; for a query of three characters or more, when slots remain,
    /// then terms that share pairs at most two apart.
    fn pair_channel(&self, q: &[char], limit: usize, ids: &mut Vec<u32>)
        requires
            self.wf(),
            q@.len() >= 2,
            4 * super::max_repeats() * q@.len() <= u32::MAX,
            distinct(old(ids)@),
            forall|i: int| 0 <= i < old(ids)@.len() ==> old(ids)@[i] < self.terms@.len(),
            old(ids)@.len() < limit,
        ensures
            pair_stage(*self, q@, old(ids)@, limit as nat, final(ids)@),
            distinct(final(ids)@),
            final(ids)@.len() <= limit,
            old(ids)@.len() <= final(ids)@.len(),
            final(ids)@.take(old(ids)@.len() as int) == old(ids)@,
            forall|i: int|
                old(ids)@.len() <= i < final(ids)@.len() ==> bigram_match(
                    crate::outside::posting_map_view(self.bigrams),
                    q@,
                    #[trigger] final(ids)@[i],
                ) || (q@.len() >= 3 && near_match(crate::outside::posting_map_view(self.near_pairs), q@, final(ids)@[i])),
    {
        let ghost start_ids = ids@;
        let ghost bg = crate::outside::posting_map_view(self.bigrams);
        let ghost np = crate::outside::posting_map_view(self.near_pairs);
        let ghost r = super::max_repeats();
        let n = self.terms.len();
        let qlen = q.len();
        let mut counts: Vec<u32> = Vec::new();
        while counts.len() < n
            invariant
                counts@.len() <= n,
                forall|x: int| 0 <= x < counts@.len() ==> counts@[x] == 0,
            decreases n - counts@.len(),
        {
            counts.push(0);
        }
        let mut fuzzy: Vec<u32> = Vec::new();
        let mut b: usize = 0;
        while b + 1 < qlen
            invariant
                self.wf(),
                n == self.terms@.len(),
                qlen == q@.len(),
                2 <= qlen,
                4 * r * qlen <= u32::MAX,
                r == super::max_repeats(),
                bg == crate::outside::posting_map_view(self.bigrams),
                b + 1 <= qlen,
                counts@.len() == n,
                forall|x: int| 0 <= x < n ==> #[trigger] counts@[x] <= b * r,
                forall|x: int| 0 <= x < n ==> #[trigger] counts@[x] == adjacent_count(bg, q@, b as int, x as u32),
                distinct(fuzzy@),
                forall|i: int| 0 <= i < fuzzy@.len() ==> (#[trigger] fuzzy@[i]) < n && counts@[fuzzy@[i] as int] > 0
                    && bigram_match(bg, q@, fuzzy@[i]),
                forall|x: int| 0 <= x < n && #[trigger] counts@[x] > 0 ==> fuzzy@.contains(x as u32),
            decreases qlen - b,
        {
            let key = super::pair_key_exec(q[b], q[b + 1]);
            match crate::outside::posting_map_get(&self.bigrams, key) {
                Some(matches) => {
                    let mut j: usize = 0;
                    while j < matches.len()
                        invariant
                            self.wf(),
                            n == self.terms@.len(),
                            bg == crate::outside::posting_map_view(self.bigrams),
                            r == super::max_repeats(),
                            b + 1 < qlen,
                            qlen == q@.len(),
                            4 * r * qlen <= u32::MAX,
                            bg.contains_key(key),
                            key == super::pair_key(q@[b as int], q@[b + 1]),
                            matches@ == bg[key],
                            j <= matches@.len(),
                            counts@.len() == n,
                            forall|x: int| 0 <= x < n ==> #[trigger] counts@[x] <= b * r + occurrences(matches@.take(j as int), x as u32),
                            forall|x: int| 0 <= x < n ==> #[trigger] counts@[x] == adjacent_count(bg, q@, b as int, x as u32) + occurrences(matches@.take(j as int), x as u32),
                            distinct(fuzzy@),
                            forall|i: int| 0 <= i < fuzzy@.len() ==> (#[trigger] fuzzy@[i]) < n && counts@[fuzzy@[i] as int] > 0
                                && bigram_match(bg, q@, fuzzy@[i]),
                            forall|x: int| 0 <= x < n && #[trigger] counts@[x] > 0 ==> fuzzy@.contains(x as u32),
                        decreases matches@.len() - j,
                    {
                        let id = matches[j];
                        proof {
                            assert(bg[key][j as int] < n);
                            lemma_occurrences_take(matches@, j as int, id);
                            assert(occurrences(bg[key], id) <= r);
                            assert(b * r + r <= qlen * r) by (nonlinear_arith)
                                requires b + 1 <= qlen;
                            assert(posts(bg, super::pair_key(q@[b as int], q@[b + 1])).contains(id)) by {
                                assert(matches@[j as int] == id);
                            }
                        }
                        let ghost before = fuzzy@;
                        let ghost counts_before = counts@;
                        let c = counts[id as usize];
                        proof {
                            assert(c <= b * r + occurrences(matches@.take(j as int), id));
                            assert(qlen * r <= u32::MAX) by (nonlinear_arith)
                                requires 4 * r * qlen <= u32::MAX;
                        }
                        if c == 0 {
                            fuzzy.push(id);
                        }
                        counts.set(id as usize, c + 1);
                        proof {
                            assert forall|x: int| 0 <= x < n implies #[trigger] counts@[x] <= b * r + occurrences(matches@.take(j + 1), x as u32)
                                && counts@[x] == adjacent_count(bg, q@, b as int, x as u32) + occurrences(matches@.take(j + 1), x as u32) by {
                                lemma_occurrences_take(matches@, j as int, x as u32);
                                if x != id as int {
                                    assert(counts@[x] == counts_before[x]);
                                }
                            }
                            assert forall|a: int, z: int| 0 <= a < z < fuzzy@.len() implies fuzzy@[a] != fuzzy@[z] by {
                                if z == before.len() {
                                    assert(fuzzy@[a] == before[a]);
                                } else {
                                    assert(fuzzy@[a] == before[a] && fuzzy@[z] == before[z]);
                                }
                            }
                            assert forall|i: int| 0 <= i < fuzzy@.len() implies (#[trigger] fuzzy@[i]) < n && counts@[fuzzy@[i] as int] > 0
                                && bigram_match(bg, q@, fuzzy@[i]) by {
                                if i < before.len() {
                                    assert(fuzzy@[i] == before[i]);
                                }
                            }
                            assert forall|x: int| 0 <= x < n && #[trigger] counts@[x] > 0 implies fuzzy@.contains(x as u32) by {
                                if x == id {
                                    if c == 0 {
                                        assert(fuzzy@[before.len() as int] == id);
                                    } else {
                                        assert(counts_before[x] > 0);
                                    }
                                } else {
                                    assert(counts_before[x] > 0);
                                    let k = choose|k: int| 0 <= k < before.len() && before[k] == x as u32;
                                    assert(fuzzy@[k] == before[k]);
                                }
                            }
                        }
                        j = j + 1;
                    }
                    proof {
                        assert(matches@.take(matches@.len() as int) =~= matches@);
                        assert forall|x: int| 0 <= x < n implies #[trigger] counts@[x] <= (b + 1) * r
                            && counts@[x] == adjacent_count(bg, q@, b + 1, x as u32) by {
                            if bg.contains_key(key) {
                                assert(occurrences(bg[key], x as u32) <= r);
                            }
                            assert(b * r + r == (b + 1) * r) by (nonlinear_arith);
                        }
                    }
                },
                None => {
                    proof {
                        assert forall|x: int| 0 <= x < n implies #[trigger] counts@[x] <= (b + 1) * r
                            && counts@[x] == adjacent_count(bg, q@, b + 1, x as u32) by {
                            assert(b * r <= (b + 1) * r) by (nonlinear_arith);
                            assert(occurrences(posts(bg, key), x as u32) == 0);
                        }
                    }
                },
            }
            b = b + 1;
        }
        proof {
            assert forall|x: int| 0 <= x < n && adjacent_count(bg, q@, qlen - 1, x as u32) > 0 implies #[trigger] fuzzy@.contains(x as u32) by {
                assert(counts@[x] == adjacent_count(bg, q@, b as int, x as u32));
            }
        }
        let mut k: usize = 0;
        while k < ids.len()
            invariant
                k <= ids@.len(),
                ids@ == start_ids,
                qlen >= 2,
                r == super::max_repeats(),
                forall|i: int| 0 <= i < start_ids.len() ==> start_ids[i] < n,
                counts@.len() == n,
                forall|x: int| 0 <= x < n ==> #[trigger] counts@[x] <= (qlen - 1) * r,
                forall|i: int| 0 <= i < k ==> counts@[#[trigger] start_ids[i] as int] == 0,
                forall|i: int| 0 <= i < fuzzy@.len() ==> (#[trigger] fuzzy@[i]) < n && bigram_match(bg, q@, fuzzy@[i]),
                forall|x: int| 0 <= x < n ==> #[trigger] counts@[x] == 0 || counts@[x] == adjacent_count(bg, q@, qlen - 1, x as u32),
                forall|x: int| 0 <= x < n && !start_ids.contains(x as u32) ==> #[trigger] counts@[x] == adjacent_count(bg, q@, qlen - 1, x as u32),
                forall|x: int| 0 <= x < n && adjacent_count(bg, q@, qlen - 1, x as u32) > 0 ==> #[trigger] fuzzy@.contains(x as u32),
                distinct(fuzzy@),
            decreases ids@.len() - k,
        {
            proof {
                assert(start_ids.contains(start_ids[k as int]));
            }
            counts.set(ids[k] as usize, 0);
            k = k + 1;
        }
        proof {
            assert forall|x: int| 0 <= x < n && start_ids.contains(x as u32) implies #[trigger] counts@[x] == 0 by {
                let i = choose|i: int| 0 <= i < start_ids.len() && start_ids[i] == x as u32;
                assert(counts@[start_ids[i] as int] == 0);
            }
        }
        let mut kept: Vec<u32> = Vec::new();
        let mut k: usize = 0;
        while k < fuzzy.len()
            invariant
                k <= fuzzy@.len(),
                distinct(fuzzy@),
                counts@.len() == n,
                forall|i: int| 0 <= i < start_ids.len() ==> counts@[#[trigger] start_ids[i] as int] == 0,
                forall|i: int| 0 <= i < fuzzy@.len() ==> (#[trigger] fuzzy@[i]) < n && bigram_match(bg, q@, fuzzy@[i]),
                distinct(kept@),
                forall|i: int| 0 <= i < kept@.len() ==> (#[trigger] kept@[i]) < n && counts@[kept@[i] as int] != 0
                    && bigram_match(bg, q@, kept@[i]),
                forall|i: int| 0 <= i < kept@.len() ==> exists|z: int| 0 <= z < k && fuzzy@[z] == #[trigger] kept@[i],
                forall|z: int| 0 <= z < k && counts@[#[trigger] fuzzy@[z] as int] != 0 ==> kept@.contains(fuzzy@[z]),
                forall|x: int| 0 <= x < n && start_ids.contains(x as u32) ==> #[trigger] counts@[x] == 0,
                forall|x: int| 0 <= x < n && !start_ids.contains(x as u32) ==> #[trigger] counts@[x] == adjacent_count(bg, q@, qlen - 1, x as u32),
                forall|x: int| 0 <= x < n && adjacent_count(bg, q@, qlen - 1, x as u32) > 0 ==> #[trigger] fuzzy@.contains(x as u32),
            decreases fuzzy@.len() - k,
        {
            let id = fuzzy[k];
            let ghost before = kept@;
            if counts[id as usize] != 0 {
                kept.push(id);
                proof {
                    assert forall|a: int, z: int| 0 <= a < z < kept@.len() implies kept@[a] != kept@[z] by {
                        if z == before.len() {
                            assert(kept@[a] == before[a]);
                            let w = choose|w: int| 0 <= w < k && fuzzy@[w] == #[trigger] before[a];
                        } else {
                            assert(kept@[a] == before[a] && kept@[z] == before[z]);
                        }
                    }
                }
            }
            proof {
                assert forall|i: int| 0 <= i < kept@.len() implies (#[trigger] kept@[i]) < n && counts@[kept@[i] as int] != 0
                    && bigram_match(bg, q@, kept@[i]) by {
                    if i < before.len() {
                        assert(kept@[i] == before[i]);
                    }
                }
                assert forall|i: int| 0 <= i < kept@.len() implies exists|z: int| 0 <= z < k + 1 && fuzzy@[z] == #[trigger] kept@[i] by {
                    if i < before.len() {
                        assert(kept@[i] == before[i]);
                        let w = choose|w: int| 0 <= w < k && fuzzy@[w] == #[trigger] before[i];
                    } else {
                        assert(fuzzy@[k as int] == kept@[i]);
                    }
                }
                assert forall|z: int| 0 <= z < k + 1 && counts@[#[trigger] fuzzy@[z] as int] != 0 implies kept@.contains(fuzzy@[z]) by {
                    if z < k {
                        let w = choose|w: int| 0 <= w < before.len() && before[w] == fuzzy@[z];
                        assert(kept@[w] == before[w]);
                    } else {
                        assert(kept@[before.len() as int] == fuzzy@[z]);
                    }
                }
            }
            k = k + 1;
        }
        let ghost unranked = kept@;
        let ghost pool = adjacent_pool(*self, q@, start_ids);
        let ghost score = adjacent_score(*self, q@);
        proof {
            assert forall|x: u32| unranked.contains(x) <==> pool(x) by {
                if unranked.contains(x) {
                    let w = choose|w: int| 0 <= w < unranked.len() && unranked[w] == x;
                    assert(x < n && counts@[x as int] != 0);
                    if start_ids.contains(x) {
                        assert(counts@[x as int] == 0);
                    }
                }
                if pool(x) {
                    if x >= n {
                        lemma_adjacent_unposted(bg, n as nat, q@, qlen - 1, x);
                    }
                    assert(fuzzy@.contains((x as int) as u32));
                    let z = choose|z: int| 0 <= z < fuzzy@.len() && fuzzy@[z] == x;
                    assert(counts@[fuzzy@[z] as int] != 0);
                }
            }
        }
        retain_best(&mut kept, &counts, limit - ids.len());
        let ghost ranked = kept@;
        ids.append(&mut kept);
        proof {
            assert(ids@.take(start_ids.len() as int) =~= start_ids);
            let s = start_ids.len() as int;
            assert forall|a: int, z: int| 0 <= a < z < ids@.len() implies ids@[a] != ids@[z] by {
                if a < s && z >= s {
                    let x = ids@[z];
                    assert(ranked[z - s] == x);
                    assert(unranked.contains(x));
                    let w = choose|w: int| 0 <= w < unranked.len() && unranked[w] == x;
                    assert(counts@[unranked[w] as int] != 0);
                    assert(counts@[start_ids[a] as int] == 0);
                } else if a >= s {
                    assert(better(counts@, ranked[a - s], ranked[z - s]));
                } else {
                    assert(ids@[a] == start_ids[a] && ids@[z] == start_ids[z]);
                }
            }
            assert forall|i: int| s <= i < ids@.len() implies bigram_match(bg, q@, #[trigger] ids@[i]) by {
                assert(ranked[i - s] == ids@[i]);
                assert(unranked.contains(ids@[i]));
                let w = choose|w: int| 0 <= w < unranked.len() && unranked[w] == ids@[i];
            }
        }
        proof {
            let s = start_ids.len() as int;
            assert forall|i: int| 0 <= i < ids@.len() implies ids@[i] < n by {
                if i >= s {
                    assert(ranked[i - s] == ids@[i]);
                    assert(unranked.contains(ids@[i]));
                } else {
                    assert(ids@[i] == start_ids[i]);
                }
            }
        }
        let ghost mid = ids@;
        proof {
            assert(mid == start_ids + ranked);
            assert forall|x: u32| #[trigger] pool(x) implies score(x) == counts@[x as int] by {
                if pool(x) {
                    assert(unranked.contains(x));
                    let w = choose|w: int| 0 <= w < unranked.len() && unranked[w] == x;
                }
            }
            let k = (limit - start_ids.len()) as nat;
            assert forall|i: int, j: int| 0 <= i < j < ranked.len() implies ranks_before(score, #[trigger] ranked[i], #[trigger] ranked[j]) by {
                assert(better(counts@, ranked[i], ranked[j]));
                assert(unranked.contains(ranked[i]) && unranked.contains(ranked[j]));
                assert(pool(ranked[i]) && pool(ranked[j]));
            }
            assert forall|i: int| 0 <= i < ranked.len() implies pool(#[trigger] ranked[i]) by {
                assert(unranked.contains(ranked[i]));
            }
            assert forall|x: u32| pool(x) && !ranked.contains(x) implies ranked.len() == k && forall|i: int|
                0 <= i < ranked.len() ==> ranks_before(score, #[trigger] ranked[i], x) by {
                assert(unranked.contains(x));
                assert forall|i: int| 0 <= i < ranked.len() implies ranks_before(score, #[trigger] ranked[i], x) by {
                    assert(better(counts@, ranked[i], x));
                    assert(unranked.contains(ranked[i]));
                    assert(pool(ranked[i]));
                }
            }
            assert(is_top_by(pool, score, k, ranked));
        }
        if qlen >= 3 && ids.len() < limit {
            proof {
                assert forall|x: int| 0 <= x < counts@.len() && !ids@.contains(x as u32) implies #[trigger] counts@[x] == 0 by {
                    assert(!start_ids.contains(x as u32)) by {
                        if start_ids.contains(x as u32) {
                            let i = choose|i: int| 0 <= i < start_ids.len() && start_ids[i] == x as u32;
                            assert(ids@[i] == start_ids[i]);
                        }
                    }
                    if counts@[x] != 0 {
                        assert(pool(x as u32));
                        if ranked.contains(x as u32) {
                            let i = choose|i: int| 0 <= i < ranked.len() && ranked[i] == x as u32;
                            assert(ids@[start_ids.len() + i] == ranked[i]);
                        }
                    }
                }
            }
            self.near_pair_fallback(q, limit, ids, &mut counts);
            proof {
                assert(ids@.take(start_ids.len() as int) =~= mid.take(start_ids.len() as int));
                assert forall|i: int| start_ids.len() <= i < ids@.len() implies bigram_match(bg, q@, #[trigger] ids@[i])
                    || (q@.len() >= 3 && near_match(crate::outside::posting_map_view(self.near_pairs), q@, ids@[i])) by {
                    if i < mid.len() {
                        assert(ids@[i] == mid[i]);
                    }
                }
            }
        }
        proof {
            assert(is_top_by(pool, score, (limit - start_ids.len()) as nat, ranked));
            assert(near_stage(*self, q@, start_ids + ranked, limit as nat, ids@));
        }
    }
}


/// The ids outside `ids` that the near pairs of `q` post.
pub open spec fn near_pool(index: Index, q: Seq<char>, ids: Seq<u32>) -> spec_fn(u32) -> bool {
    |x: u32| !ids.contains(x) && near_count(index.spec_near_pairs(), q, x) > 0
}

/// How many distinct near pairs of `q` post an id.
pub open spec fn near_score(index: Index, q: Seq<char>) -> spec_fn(u32) -> nat {
    |x: u32| near_count(index.spec_near_pairs(), q, x)
}

/// What the near-pair fallback makes of `ids`: for a query of three
/// characters or more, while fewer than `limit` ids are held, `ids` and then
/// the best of the other ids by the distinct near pairs of the query that
/// post them; otherwise `ids`.
pub open spec fn near_stage(index: Index, q: Seq<char>, ids: Seq<u32>, limit: nat, result: Seq<u32>) -> bool {
    if q.len() >= 3 && ids.len() < limit {
        exists|chosen: Seq<u32>|
            #[trigger] is_top_by(near_pool(index, q, ids), near_score(index, q), (limit - ids.len()) as nat, chosen)
                && result == ids + chosen
    } else {
        result == ids
    }
}

proof fn lemma_distinct_push(m: Map<u64, Seq<u32>>, ks: Seq<u64>, k: u64)
    ensures
        forall|x: u32|
            #[trigger] distinct_count(m, ks.push(k), x) == distinct_count(m, ks, x) + if ks.contains(k) {
                0
            } else {
                occurrences(posts(m, k), x)
            },
{
    assert(ks.push(k).drop_last() =~= ks);
}

impl super::Index {
    /// Adds terms that share pairs of query characters at most two apart,
    /// most shared first, skipping the ids taken and counting each distinct
    /// pair once.
    fn near_pair_fallback(
        &self,
        q: &[char],
        limit: usize,
        ids: &mut Vec<u32>,
        counts: &mut Vec<u32>,
    )
        requires
            self.wf(),
            q@.len() >= 3,
            4 * super::max_repeats() * q@.len() <= u32::MAX,
            distinct(old(ids)@),
            forall|i: int| 0 <= i < old(ids)@.len() ==> old(ids)@[i] < self.terms@.len(),
            old(ids)@.len() < limit,
            old(counts)@.len() == self.terms@.len(),
            forall|x: int| 0 <= x < old(counts)@.len() && !old(ids)@.contains(x as u32) ==> #[trigger] old(counts)@[x] == 0,
        ensures
            near_stage(*self, q@, old(ids)@, limit as nat, final(ids)@),
            distinct(final(ids)@),
            final(ids)@.len() <= limit,
            old(ids)@.len() <= final(ids)@.len(),
            final(ids)@.take(old(ids)@.len() as int) == old(ids)@,
            forall|i: int|
                old(ids)@.len() <= i < final(ids)@.len() ==> near_match(
                    crate::outside::posting_map_view(self.near_pairs),
                    q@,
                    #[trigger] final(ids)@[i],
                ),
    {
        let ghost start_ids = ids@;
        let ghost np = crate::outside::posting_map_view(self.near_pairs);
        let ghost r = super::max_repeats();
        let n = self.terms.len();
        let qlen = q.len();
        let mut k: usize = 0;
        while k < ids.len()
            invariant
                k <= ids@.len(),
                ids@ == start_ids,
                forall|i: int| 0 <= i < start_ids.len() ==> start_ids[i] < n,
                counts@.len() == n,
                qlen >= 3,
                r == super::max_repeats(),
                forall|x: int| 0 <= x < n && !start_ids.contains(x as u32) ==> #[trigger] counts@[x] == 0,
                forall|i: int| 0 <= i < k ==> counts@[#[trigger] start_ids[i] as int] == u32::MAX,
            decreases ids@.len() - k,
        {
            proof {
                assert(start_ids.contains(start_ids[k as int]));
            }
            counts.set(ids[k] as usize, u32::MAX);
            k = k + 1;
        }
        proof {
            assert forall|x: int| 0 <= x < n && start_ids.contains(x as u32) implies #[trigger] counts@[x] == u32::MAX by {
                let i = choose|i: int| 0 <= i < start_ids.len() && start_ids[i] == x as u32;
                assert(counts@[start_ids[i] as int] == u32::MAX);
            }
        }
        let mut pairs = crate::outside::id_set_new();
        let mut fuzzy: Vec<u32> = Vec::new();
        let ghost mut p: nat = 0;
        let ghost mut ks: Seq<u64> = Seq::empty();
        let mut first: usize = 0;
        while first < qlen
            invariant
                self.wf(),
                n == self.terms@.len(),
                qlen == q@.len(),
                3 <= qlen,
                4 * r * qlen <= u32::MAX,
                r == super::max_repeats(),
                np == crate::outside::posting_map_view(self.near_pairs),
                first <= qlen,
                p <= 2 * first,
                counts@.len() == n,
                forall|i: int| 0 <= i < start_ids.len() ==> counts@[#[trigger] start_ids[i] as int] == u32::MAX && start_ids[i] < n,
                forall|x: int| 0 <= x < n && !start_ids.contains(x as u32) ==> #[trigger] counts@[x] <= (qlen - 1) * r + p * r,
                forall|x: int| 0 <= x < n && start_ids.contains(x as u32) ==> #[trigger] counts@[x] == u32::MAX,
                forall|x: int| 0 <= x < n && !start_ids.contains(x as u32) ==> #[trigger] counts@[x] == distinct_count(np, ks, x as u32),
                forall|x: int| 0 <= x < n && !start_ids.contains(x as u32) && #[trigger] counts@[x] > 0 ==> fuzzy@.contains(x as u32),
                ks == near_keys(q@, first as int),
                forall|key: u64| crate::outside::id_set_view(pairs).contains(key) <==> ks.contains(key),
                distinct(fuzzy@),
                forall|i: int| 0 <= i < fuzzy@.len() ==> (#[trigger] fuzzy@[i]) < n && counts@[fuzzy@[i] as int] > 0
                    && counts@[fuzzy@[i] as int] != u32::MAX && near_match(np, q@, fuzzy@[i]),
            decreases qlen - first,
        {
            let ghost keys_before = ks;
            let mut right = first + 1;
            while right < qlen && right <= first + 2
                invariant
                    self.wf(),
                    n == self.terms@.len(),
                    qlen == q@.len(),
                    3 <= qlen,
                    4 * r * qlen <= u32::MAX,
                    r == super::max_repeats(),
                    np == crate::outside::posting_map_view(self.near_pairs),
                    first < qlen,
                    first + 1 <= right <= first + 3,
                    right <= qlen,
                    p <= 2 * first + (right - first - 1),
                    counts@.len() == n,
                    forall|i: int| 0 <= i < start_ids.len() ==> counts@[#[trigger] start_ids[i] as int] == u32::MAX && start_ids[i] < n,
                    forall|x: int| 0 <= x < n && !start_ids.contains(x as u32) ==> #[trigger] counts@[x] <= (qlen - 1) * r + p * r,
                    forall|x: int| 0 <= x < n && start_ids.contains(x as u32) ==> #[trigger] counts@[x] == u32::MAX,
                    forall|x: int| 0 <= x < n && !start_ids.contains(x as u32) ==> #[trigger] counts@[x] == distinct_count(np, ks, x as u32),
                    forall|x: int| 0 <= x < n && !start_ids.contains(x as u32) && #[trigger] counts@[x] > 0 ==> fuzzy@.contains(x as u32),
                    keys_before == near_keys(q@, first as int),
                    ks == keys_before + near_row(q@, first as int, right as int),
                    forall|key: u64| crate::outside::id_set_view(pairs).contains(key) <==> ks.contains(key),
                    distinct(fuzzy@),
                    forall|i: int| 0 <= i < fuzzy@.len() ==> (#[trigger] fuzzy@[i]) < n && counts@[fuzzy@[i] as int] > 0
                        && counts@[fuzzy@[i] as int] != u32::MAX && near_match(np, q@, fuzzy@[i]),
                decreases qlen - right,
            {
                let key = super::pair_key_exec(q[first], q[right]);
                let ghost counts_at_key = counts@;
                let ghost fuzzy_at_key = fuzzy@;
                let ghost pairs_before = crate::outside::id_set_view(pairs);
                if crate::outside::id_set_insert(&mut pairs, key) {
                    match crate::outside::posting_map_get(&self.near_pairs, key) {
                        Some(matches) => {
                            let mut j: usize = 0;
                            while j < matches.len()
                                invariant
                                    self.wf(),
                                    n == self.terms@.len(),
                                    qlen == q@.len(),
                                    3 <= qlen,
                                    4 * r * qlen <= u32::MAX,
                                    r == super::max_repeats(),
                                    np == crate::outside::posting_map_view(self.near_pairs),
                                    first < right < qlen,
                                    right <= first + 2,
                                    p <= 2 * qlen,
                                    np.contains_key(key),
                                    key == super::pair_key(q@[first as int], q@[right as int]),
                                    matches@ == np[key],
                                    j <= matches@.len(),
                                    counts@.len() == n,
                                    forall|i: int| 0 <= i < start_ids.len() ==> counts@[#[trigger] start_ids[i] as int] == u32::MAX && start_ids[i] < n,
                                    forall|x: int| 0 <= x < n && !start_ids.contains(x as u32) ==> #[trigger] counts@[x] <= (qlen - 1) * r + p * r
                                        + occurrences(matches@.take(j as int), x as u32),
                                    forall|x: int| 0 <= x < n && start_ids.contains(x as u32) ==> #[trigger] counts@[x] == u32::MAX,
                                    forall|x: int| 0 <= x < n && !start_ids.contains(x as u32) ==> #[trigger] counts@[x] == distinct_count(np, ks, x as u32)
                                        + occurrences(matches@.take(j as int), x as u32),
                                    forall|x: int| 0 <= x < n && !start_ids.contains(x as u32) && #[trigger] counts@[x] > 0 ==> fuzzy@.contains(x as u32),
                                    !ks.contains(key),
                                    distinct(fuzzy@),
                                    forall|i: int| 0 <= i < fuzzy@.len() ==> (#[trigger] fuzzy@[i]) < n && counts@[fuzzy@[i] as int] > 0
                                        && counts@[fuzzy@[i] as int] != u32::MAX && near_match(np, q@, fuzzy@[i]),
                                decreases matches@.len() - j,
                            {
                                let id = matches[j];
                                proof {
                                    assert(np[key][j as int] < n);
                                    lemma_occurrences_take(matches@, j as int, id);
                                    assert(occurrences(np[key], id) <= r);
                                    assert((qlen - 1) * r + p * r + r < 4 * r * qlen) by (nonlinear_arith)
                                        requires p <= 2 * qlen, r == 8192, qlen >= 3;
                                    assert(posts(np, super::pair_key(q@[first as int], q@[right as int])).contains(id)) by {
                                        assert(matches@[j as int] == id);
                                    }
                                    assert(near_match(np, q@, id));
                                }
                                let ghost before = fuzzy@;
                                let ghost counts_before = counts@;
                                let c = counts[id as usize];
                                if c != u32::MAX {
                                    proof {
                                        assert(!start_ids.contains(id));
                                    }
                                    if c == 0 {
                                        fuzzy.push(id);
                                    }
                                    counts.set(id as usize, c + 1);
                                    proof {
                                        assert(counts@ == counts_before.update(id as int, (c + 1) as u32));
                                        assert forall|a: int, z: int| 0 <= a < z < fuzzy@.len() implies fuzzy@[a] != fuzzy@[z] by {
                                            if z == before.len() {
                                                assert(fuzzy@[a] == before[a]);
                                            } else {
                                                assert(fuzzy@[a] == before[a] && fuzzy@[z] == before[z]);
                                            }
                                        }
                                        assert forall|i: int| 0 <= i < fuzzy@.len() implies (#[trigger] fuzzy@[i]) < n && counts@[fuzzy@[i] as int] > 0
                                            && counts@[fuzzy@[i] as int] != u32::MAX && near_match(np, q@, fuzzy@[i]) by {
                                            if i < before.len() {
                                                assert(fuzzy@[i] == before[i]);
                                            }
                                        }
                                        assert forall|i: int| 0 <= i < start_ids.len() implies counts@[#[trigger] start_ids[i] as int] == u32::MAX by {
                                            assert(counts_before[start_ids[i] as int] == u32::MAX);
                                            if start_ids[i] == id {
                                                assert(counts_before[id as int] == c);
                                            } else {
                                                assert(counts@[start_ids[i] as int] == counts_before[start_ids[i] as int]);
                                            }
                                        }
                                    }
                                } else {
                                    proof {
                                        if !start_ids.contains(id) {
                                            assert(counts_before[id as int] <= (qlen - 1) * r + p * r + occurrences(matches@.take(j as int), id));
                                        }
                                    }
                                }
                                proof {
                                    assert forall|x: int| 0 <= x < n && !start_ids.contains(x as u32) implies #[trigger] counts@[x] <= (qlen - 1) * r + p * r
                                        + occurrences(matches@.take(j + 1), x as u32) && counts@[x] == distinct_count(np, ks, x as u32)
                                        + occurrences(matches@.take(j + 1), x as u32) by {
                                        lemma_occurrences_take(matches@, j as int, x as u32);
                                        if x != id as int {
                                            assert(counts@[x] == counts_before[x]);
                                        }
                                    }
                                    assert forall|x: int| 0 <= x < n && start_ids.contains(x as u32) implies #[trigger] counts@[x] == u32::MAX by {
                                        assert(counts_before[x] == u32::MAX);
                                        if x == id as int {
                                            assert(c == u32::MAX);
                                        }
                                    }
                                    assert forall|x: int| 0 <= x < n && !start_ids.contains(x as u32) && #[trigger] counts@[x] > 0 implies fuzzy@.contains(x as u32) by {
                                        if x == id as int && c == 0 {
                                            assert(fuzzy@[before.len() as int] == id);
                                        } else {
                                            assert(counts_before[x] > 0);
                                            let w = choose|w: int| 0 <= w < before.len() && before[w] == x as u32;
                                            assert(fuzzy@[w] == before[w]);
                                        }
                                    }
                                }
                                j = j + 1;
                            }
                            proof {
                                assert(matches@.take(matches@.len() as int) =~= matches@);
                                lemma_distinct_push(np, ks, key);
                                assert forall|x: int| 0 <= x < n && !start_ids.contains(x as u32) implies #[trigger] counts@[x] <= (qlen - 1) * r + (p + 1) * r
                                    && counts@[x] == distinct_count(np, ks.push(key), x as u32) by {
                                    assert(occurrences(np[key], x as u32) <= r);
                                    assert(p * r + r == (p + 1) * r) by (nonlinear_arith);
                                }
                            }
                        },
                        None => {
                            proof {
                                lemma_distinct_push(np, ks, key);
                                assert forall|x: int| 0 <= x < n && !start_ids.contains(x as u32) implies #[trigger] counts@[x] <= (qlen - 1) * r + (p + 1) * r
                                    && counts@[x] == distinct_count(np, ks.push(key), x as u32) by {
                                    assert(p * r <= (p + 1) * r) by (nonlinear_arith);
                                    assert(occurrences(posts(np, key), x as u32) == 0);
                                }
                            }
                        },
                    }
                } else {
                    proof {
                        lemma_distinct_push(np, ks, key);
                        assert forall|x: int| 0 <= x < n && !start_ids.contains(x as u32) implies #[trigger] counts@[x] <= (qlen - 1) * r + (p + 1) * r
                            && counts@[x] == distinct_count(np, ks.push(key), x as u32) by {
                            assert(p * r <= (p + 1) * r) by (nonlinear_arith);
                        }
                    }
                }
                proof {
                    p = p + 1;
                    assert(crate::outside::id_set_view(pairs) == pairs_before.insert(key));
                    assert forall|k: u64| crate::outside::id_set_view(pairs).contains(k) <==> ks.push(key).contains(k) by {
                        if k == key {
                            assert(ks.push(key)[ks.len() as int] == key);
                        }
                        if ks.push(key).contains(k) && k != key {
                            let w = choose|w: int| 0 <= w < ks.push(key).len() && ks.push(key)[w] == k;
                            assert(ks[w] == k);
                        }
                        if ks.contains(k) {
                            let w = choose|w: int| 0 <= w < ks.len() && ks[w] == k;
                            assert(ks.push(key)[w] == k);
                        }
                    }
                    assert(near_row(q@, first as int, right + 1) == near_row(q@, first as int, right as int).push(key));
                    assert(keys_before + near_row(q@, first as int, right + 1) =~= ks.push(key));
                    ks = ks.push(key);
                }
                right = right + 1;
            }
            proof {
                let end = if first + 3 < qlen { first + 3 } else { qlen as int };
                assert(right == end);
                assert(near_keys(q@, first + 1) == near_keys(q@, first as int) + near_row(q@, first as int, end));
            }
            first = first + 1;
        }
        let ghost unranked = fuzzy@;
        let ghost pool = near_pool(*self, q@, start_ids);
        let ghost score = near_score(*self, q@);
        proof {
            assert forall|x: u32| unranked.contains(x) <==> pool(x) by {
                if unranked.contains(x) {
                    let w = choose|w: int| 0 <= w < unranked.len() && unranked[w] == x;
                    assert(x < n && counts@[x as int] > 0 && counts@[x as int] != u32::MAX);
                }
                if pool(x) {
                    if x >= n {
                        lemma_distinct_unposted(np, n as nat, ks, x);
                    }
                    assert(counts@[x as int] > 0);
                }
            }
        }
        retain_best(&mut fuzzy, &counts, limit - ids.len());
        let ghost ranked = fuzzy@;
        ids.append(&mut fuzzy);
        proof {
            assert(ids@.take(start_ids.len() as int) =~= start_ids);
            let s = start_ids.len() as int;
            assert forall|a: int, z: int| 0 <= a < z < ids@.len() implies ids@[a] != ids@[z] by {
                if a < s && z >= s {
                    let x = ids@[z];
                    assert(ranked[z - s] == x);
                    assert(unranked.contains(x));
                    let w = choose|w: int| 0 <= w < unranked.len() && unranked[w] == x;
                    assert(counts@[unranked[w] as int] != u32::MAX);
                    assert(counts@[start_ids[a] as int] == u32::MAX);
                } else if a >= s {
                    assert(better(counts@, ranked[a - s], ranked[z - s]));
                } else {
                    assert(ids@[a] == start_ids[a] && ids@[z] == start_ids[z]);
                }
            }
            assert forall|i: int| s <= i < ids@.len() implies near_match(np, q@, #[trigger] ids@[i]) by {
                assert(ranked[i - s] == ids@[i]);
                assert(unranked.contains(ids@[i]));
                let w = choose|w: int| 0 <= w < unranked.len() && unranked[w] == ids@[i];
            }
            assert forall|x: u32| #[trigger] pool(x) implies score(x) == counts@[x as int] by {
                if pool(x) {
                    assert(unranked.contains(x));
                    let w = choose|w: int| 0 <= w < unranked.len() && unranked[w] == x;
                }
            }
            let k = (limit - start_ids.len()) as nat;
            assert forall|i: int, j: int| 0 <= i < j < ranked.len() implies ranks_before(score, #[trigger] ranked[i], #[trigger] ranked[j]) by {
                assert(better(counts@, ranked[i], ranked[j]));
                assert(unranked.contains(ranked[i]) && unranked.contains(ranked[j]));
                assert(pool(ranked[i]) && pool(ranked[j]));
            }
            assert forall|i: int| 0 <= i < ranked.len() implies pool(#[trigger] ranked[i]) by {
                assert(unranked.contains(ranked[i]));
            }
            assert forall|x: u32| pool(x) && !ranked.contains(x) implies ranked.len() == k && forall|i: int|
                0 <= i < ranked.len() ==> ranks_before(score, #[trigger] ranked[i], x) by {
                assert(unranked.contains(x));
                assert forall|i: int| 0 <= i < ranked.len() implies ranks_before(score, #[trigger] ranked[i], x) by {
                    assert(better(counts@, ranked[i], x));
                    assert(unranked.contains(ranked[i]));
                    assert(pool(ranked[i]));
                }
            }
            assert(is_top_by(pool, score, k, ranked));
            assert(ids@ == start_ids + ranked);
        }
    }
}


/// The slots left to the prefix and token channels: eight are kept for the
/// fallback channels when the limit exceeds eight and the query has two
/// characters or more.
pub open spec fn primary_limit(limit: nat, qlen: nat) -> nat {
    if limit > 8 && qlen >= 2 {
        (limit - 8) as nat
    } else {
        limit
    }
}

/// Whether some channel of the index retrieves `id` for the query `q`: a
/// term or token key starting with `q`, the initials of its first two or
/// more characters, for two characters their near pair, for fewer than three
/// all their characters, an adjacent pair, or for three characters or more a
/// pair at most two apart.
pub open spec fn from_channels(index: Index, q: Seq<char>, id: u32) -> bool {
    ||| under_prefix(index.spec_sorted_terms(), q, id)
    ||| under_prefix(index.spec_tokens(), q, id)
    ||| initials_match(index.spec_token_initials(), q, id)
    ||| q.len() == 2 && posts(index.spec_near_pairs(), super::pair_key(q[0], q[1])).contains(id)
    ||| q.len() < 3 && in_all(index.spec_characters(), q, id)
    ||| bigram_match(index.spec_bigrams(), q, id)
    ||| q.len() >= 3 && near_match(index.spec_near_pairs(), q, id)
}

/// The ids of the prefix and token channels: the first `primary` ids filed
/// under term keys that start with `q`, in key order, then, while fewer than
/// `primary` are held, the ids filed under token keys that start with `q`,
/// in key order, each once.
pub open spec fn primary_seq(index: Index, q: Seq<char>, primary: nat) -> Seq<u32> {
    let pre = prefix_ids(index.spec_sorted_terms(), q);
    let m = if primary < pre.len() {
        primary
    } else {
        pre.len()
    };
    extend_seq(pre.take(m as int), prefix_ids(index.spec_tokens(), q), primary)
}

/// The term ids retrieved for `q`: the ids of the prefix and token channels
/// up to the primary limit, then what the fallback channels add up to
/// `limit` (one list: see `law_retrieved_unique`). Hence at most `limit`
/// distinct known ids, each from a channel, led by the ids filed under term
/// keys that start with `q`; when fewer than the primary limit were
/// retrieved, every id under a term or token key that starts with `q`.
pub open spec fn retrieved(index: Index, q: Seq<char>, limit: nat, ids: Seq<u32>) -> bool {
    let pre = prefix_ids(index.spec_sorted_terms(), q);
    let primary = primary_limit(limit, q.len());
    let m = if primary < pre.len() {
        primary
    } else {
        pre.len()
    };
    &&& ids.len() <= limit
    &&& distinct(ids)
    &&& forall|i: int| 0 <= i < ids.len() ==> ids[i] < index.spec_terms().len()
    &&& m <= ids.len()
    &&& ids.take(m as int) == pre.take(m as int)
    &&& forall|i: int| 0 <= i < ids.len() ==> from_channels(index, q, #[trigger] ids[i])
    &&& ids.len() < primary ==> forall|x: u32|
        (under_prefix(index.spec_sorted_terms(), q, x) || under_prefix(index.spec_tokens(), q, x)) ==> ids.contains(x)
    &&& fallback_stage(index, q, primary_seq(index, q, primary), limit, ids)
}

/// The token matches recorded for `q` by the token channel with `primary`
/// slots, from the ids of the prefix channel (see `token_marks`).
pub open spec fn token_matches(index: Index, q: Seq<char>, primary: nat) -> Map<u64, u64> {
    let pre = prefix_ids(index.spec_sorted_terms(), q);
    let m = if primary < pre.len() {
        primary
    } else {
        pre.len()
    };
    token_marks(index.spec_tokens(), q, pre.take(m as int), primary).1
}

/// How the token channel matched `id`: `Exact` when it met the id under the
/// token key equal to the query, `Prefix` when only under longer keys,
/// none when it did not meet it.
pub open spec fn token_of(matches: Map<u64, u64>, id: u32) -> Option<TokenMatch> {
    if matches.contains_key(id as u64) {
        if matches[id as u64] == 1 {
            Some(TokenMatch::Exact)
        } else {
            Some(TokenMatch::Prefix)
        }
    } else {
        None
    }
}

/// The retrieved ids are determined by the index, the query and the limit:
/// two id lists that are both retrieved for them are the same list.
pub proof fn law_retrieved_unique(index: Index, q: Seq<char>, limit: nat, a: Seq<u32>, b: Seq<u32>)
    requires
        retrieved(index, q, limit, a),
        retrieved(index, q, limit, b),
    ensures
        a == b,
{
    let s3 = initials_seq(index.spec_token_initials(), q, primary_seq(index, q, primary_limit(limit, q.len())), limit, q.len() as int);
    let s4 = if q.len() == 2 && s3.len() < limit {
        extend_seq(s3, posts(index.spec_near_pairs(), super::pair_key(q[0], q[1])), limit)
    } else {
        s3
    };
    let s5 = if q.len() < 3 && s4.len() < limit {
        extend_seq(s4, ascending_in_all(index.spec_characters(), q), limit)
    } else {
        s4
    };
    if q.len() >= 2 && s5.len() < limit {
        let pool = adjacent_pool(index, q, s5);
        let score = adjacent_score(index, q);
        let k = (limit - s5.len()) as nat;
        let ca = choose|c: Seq<u32>| #[trigger] is_top_by(pool, score, k, c) && near_stage(index, q, s5 + c, limit, a);
        let cb = choose|c: Seq<u32>| #[trigger] is_top_by(pool, score, k, c) && near_stage(index, q, s5 + c, limit, b);
        lemma_top_by_unique(pool, score, k, ca, cb);
        let s6 = s5 + ca;
        if q.len() >= 3 && s6.len() < limit {
            let pool2 = near_pool(index, q, s6);
            let score2 = near_score(index, q);
            let k2 = (limit - s6.len()) as nat;
            let da = choose|c: Seq<u32>| #[trigger] is_top_by(pool2, score2, k2, c) && a == s6 + c;
            let db = choose|c: Seq<u32>| #[trigger] is_top_by(pool2, score2, k2, c) && b == s6 + c;
            lemma_top_by_unique(pool2, score2, k2, da, db);
        }
    }
}

/// How a token match is reported: `Exact` only under a token equal to `q`,
/// `Prefix` only under a token that starts with it.
pub open spec fn token_ok(index: Index, q: Seq<char>, id: u32, token: Option<TokenMatch>) -> bool {
    match token {
        Some(TokenMatch::Exact) => under_exact(index.spec_tokens(), q, id),
        Some(TokenMatch::Prefix) => under_prefix(index.spec_tokens(), q, id),
        None => true,
    }
}

proof fn lemma_posts_bound(m: Map<u64, Seq<u32>>, n: nat, k: u64, x: u32)
    requires
        posting_ok(m, n),
        posts(m, k).contains(x),
    ensures
        x < n,
{
    let c = choose|c: int| 0 <= c < posts(m, k).len() && posts(m, k)[c] == x;
    assert(m[k][c] < n);
}

/// Each term id is filed under one key of the term dictionary: the prefix
/// postings of a query hold no id twice.
pub proof fn lemma_unique_owner(index: Index)
    requires
        index.wf(),
    ensures
        unique_owner(index.spec_sorted_terms()),
{
    let list = index.spec_sorted_terms();
    assert forall|i: int, j: int, a: int, b: int|
        0 <= i < list.len() && 0 <= j < list.len() && 0 <= a < list[i].ids@.len() && 0 <= b
            < list[j].ids@.len() && #[trigger] list[i].ids@[a] == #[trigger] list[j].ids@[b] implies i == j by {
        let x = list[i].ids@[a];
        assert(filed(list, list[i].key@, x));
        assert(filed(list, list[j].key@, x));
        if i < j {
            assert(list[i].key@ != list[j].key@);
        } else if j < i {
            assert(list[j].key@ != list[i].key@);
        }
    }
}

/// Whether the ids hold the first `primary` ids of `pre`, or all of them.
pub open spec fn leads_with(ids: Seq<u32>, pre: Seq<u32>, primary: nat) -> bool {
    let m = if primary < pre.len() {
        primary
    } else {
        pre.len()
    };
    m <= ids.len() && ids.take(m as int) == pre.take(m as int)
}

/// What the fallback channels make of `ids`, each while fewer than `limit`
/// ids are held: token initials; for a two-character query, the ids posted
/// under its pair; for a query shorter than three characters, the ids posted
/// under all of its characters; then, for two characters or more, the pair
/// channels.
pub open spec fn fallback_stage(index: Index, q: Seq<char>, ids: Seq<u32>, limit: nat, result: Seq<u32>) -> bool {
    let s3 = initials_seq(index.spec_token_initials(), q, ids, limit, q.len() as int);
    let s4 = if q.len() == 2 && s3.len() < limit {
        extend_seq(s3, posts(index.spec_near_pairs(), super::pair_key(q[0], q[1])), limit)
    } else {
        s3
    };
    let s5 = if q.len() < 3 && s4.len() < limit {
        extend_seq(s4, ascending_in_all(index.spec_characters(), q), limit)
    } else {
        s4
    };
    if q.len() >= 2 && s5.len() < limit {
        pair_stage(index, q, s5, limit, result)
    } else {
        result == s5
    }
}

impl Index {
    /// The prefix and token channels: the ids filed under term keys, then
    /// under token keys, that start with the query, up to `primary`.
    fn primary_ids(&self, q: &[char], primary: usize) -> (r: (Vec<u32>, rapidhash::RapidHashSet<u64>, rapidhash::RapidHashMap<u64, u64>))
        requires
            self.wf(),
        ensures
            r.0@ == primary_seq(*self, q@, primary as nat),
            crate::outside::id_map_view(r.2) == token_matches(*self, q@, primary as nat),
            seen_ok(r.0@, crate::outside::id_set_view(r.1)),
            matches_ok(self.spec_tokens(), q@, crate::outside::id_map_view(r.2)),
            r.0@.len() <= primary,
            forall|i: int| 0 <= i < r.0@.len() ==> #[trigger] r.0@[i] < self.spec_terms().len() && (under_prefix(
                self.spec_sorted_terms(),
                q@,
                r.0@[i],
            ) || under_prefix(self.spec_tokens(), q@, r.0@[i])),
            leads_with(r.0@, prefix_ids(self.spec_sorted_terms(), q@), primary as nat),
            r.0@.len() < primary ==> forall|x: u32|
                (under_prefix(self.spec_sorted_terms(), q@, x) || under_prefix(self.spec_tokens(), q@, x)) ==> r.0@.contains(x),
    {
        let ghost n = self.terms@.len();
        let mut ids = prefix_channel(&self.sorted_terms, q, primary, Ghost(n));
        let ghost pre = prefix_ids(self.sorted_terms@, q@);
        let ghost m = ids@.len();
        proof {
            lemma_unique_owner(*self);
            lemma_prefix_ids_members(self.sorted_terms@, q@, self.sorted_terms@.len() as int, n);
            assert(self.sorted_terms@.take(self.sorted_terms@.len() as int) =~= self.sorted_terms@);
            assert forall|i: int| 0 <= i < ids@.len() implies under_prefix(self.sorted_terms@, q@, #[trigger] ids@[i]) && ids@[i] < n by {
                assert(pre[i] == ids@[i]);
                assert(pre.contains(ids@[i]));
                let k = choose|k: int| 0 <= k < self.sorted_terms@.len() && q@.is_prefix_of(self.sorted_terms@[k].key@) && #[trigger] self.sorted_terms@[k].ids@.contains(ids@[i]);
                let c = choose|c: int| 0 <= c < self.sorted_terms@[k].ids@.len() && self.sorted_terms@[k].ids@[c] == ids@[i];
                assert(self.sorted_terms@[k].ids@[c] < n);
            }
        }
        let mut seen = crate::outside::id_set_new();
        let mut k: usize = 0;
        while k < ids.len()
            invariant
                k <= ids@.len(),
                ids@ == pre.take(m as int),
                distinct(pre),
                m <= pre.len(),
                forall|x: u64| crate::outside::id_set_view(seen).contains(x) <==> exists|i: int| 0 <= i < k && #[trigger] ids@[i] as u64 == x,
            decreases ids@.len() - k,
        {
            crate::outside::id_set_insert(&mut seen, ids[k] as u64);
            proof {
                assert forall|x: u64| crate::outside::id_set_view(seen).contains(x) <==> exists|i: int| 0 <= i < k + 1 && #[trigger] ids@[i] as u64 == x by {
                    if x == ids@[k as int] as u64 {
                        assert(ids@[k as int] as u64 == x);
                    }
                }
            }
            k = k + 1;
        }
        let ghost after_prefix = ids@;
        let mut matches = crate::outside::id_map_new();
        proof {
            assert forall|a: int, b: int| 0 <= a < b < ids@.len() implies ids@[a] != ids@[b] by {
                assert(ids@[a] == pre[a] && ids@[b] == pre[b]);
            }
            assert(matches_ok(self.tokens@, q@, crate::outside::id_map_view(matches)));
            assert(crate::outside::id_map_view(matches) =~= Map::<u64, u64>::empty());
            assert(after_prefix.take(m as int) =~= after_prefix);
        }
        self.token_channel(q, primary, &mut ids, &mut seen, &mut matches);
        proof {
            assert forall|i: int| 0 <= i < ids@.len() implies #[trigger] ids@[i] < n && (under_prefix(self.sorted_terms@, q@, ids@[i])
                || under_prefix(self.tokens@, q@, ids@[i])) by {
                if i < after_prefix.len() {
                    assert(ids@[i] == after_prefix[i]);
                } else {
                    let x = ids@[i];
                    assert(under_prefix(self.tokens@, q@, x));
                    let k = choose|k: int| 0 <= k < self.tokens@.len() && q@.is_prefix_of(self.tokens@[k].key@) && #[trigger] self.tokens@[k].ids@.contains(x);
                    let c = choose|c: int| 0 <= c < self.tokens@[k].ids@.len() && self.tokens@[k].ids@[c] == x;
                    assert(self.tokens@[k].ids@[c] < n);
                }
            }
            assert(ids@.take(m as int) =~= after_prefix);
            if ids@.len() < primary {
                assert(m == pre.len());
                assert forall|x: u32| under_prefix(self.sorted_terms@, q@, x) implies ids@.contains(x) by {
                    assert(pre.contains(x));
                    let c = choose|c: int| 0 <= c < pre.len() && pre[c] == x;
                    assert(after_prefix[c] == pre[c]);
                    assert(ids@[c] == after_prefix[c]);
                }
            }
        }
        (ids, seen, matches)
    }

    /// The fallback channels, while fewer than `limit` ids are taken: token
    /// initials, the near pair of a two-character query, the characters of
    /// a short query, then shared character pairs.
    fn fallback_ids(&self, q: &[char], limit: usize, ids: &mut Vec<u32>, seen: &mut rapidhash::RapidHashSet<u64>)
        requires
            self.wf(),
            4 * max_repeats() * q@.len() <= u32::MAX,
            seen_ok(old(ids)@, crate::outside::id_set_view(*old(seen))),
            old(ids)@.len() <= limit,
            forall|i: int| 0 <= i < old(ids)@.len() ==> old(ids)@[i] < self.spec_terms().len(),
        ensures
            fallback_stage(*self, q@, old(ids)@, limit as nat, final(ids)@),
            distinct(final(ids)@),
            final(ids)@.len() <= limit,
            old(ids)@.len() <= final(ids)@.len(),
            final(ids)@.take(old(ids)@.len() as int) == old(ids)@,
            forall|i: int| 0 <= i < final(ids)@.len() ==> #[trigger] final(ids)@[i] < self.spec_terms().len(),
            forall|i: int|
                old(ids)@.len() <= i < final(ids)@.len() ==> from_channels(*self, q@, #[trigger] final(ids)@[i]),
    {
        let ghost n = self.terms@.len();
        let ghost start = ids@;
        let qlen = q.len();
        self.initials_channel(q, limit, ids, seen);
        let ghost after_initials = ids@;
        if qlen == 2 && ids.len() < limit {
            match crate::outside::posting_map_get(&self.near_pairs, super::pair_key_exec(q[0], q[1])) {
                Some(postings) => {
                    extend_unseen(ids, seen, postings, limit);
                },
                None => {
                    proof {
                        assert(posts(crate::outside::posting_map_view(self.near_pairs), super::pair_key(q@[0], q@[1])) =~= Seq::<u32>::empty());
                    }
                },
            }
        }
        let ghost after_near = ids@;
        if qlen < 3 && ids.len() < limit {
            let inter = intersect(&self.characters, q, qlen, Ghost(n));
            proof {
                assert(q@.take(qlen as int) =~= q@);
            }
            extend_unseen(ids, seen, &inter, limit);
        }
        let ghost after_characters = ids@;
        proof {
            assert(after_characters == if q@.len() < 3 && after_near.len() < limit {
                extend_seq(after_near, ascending_in_all(self.spec_characters(), q@), limit as nat)
            } else {
                after_near
            });
        }
        proof {
            assert(ids@.take(start.len() as int) =~= start) by {
                assert(ids@.take(after_near.len() as int) == after_near);
                assert(after_near.take(after_initials.len() as int) == after_initials);
            }
            assert forall|i: int| 0 <= i < ids@.len() implies #[trigger] ids@[i] < n && (i >= start.len() ==> from_channels(*self, q@, ids@[i])) by {
                let x = ids@[i];
                if i < start.len() {
                    assert(ids@[i] == start[i]);
                } else if i < after_initials.len() {
                    assert(ids@[i] == after_initials[i]);
                    let m = crate::outside::posting_map_view(self.token_initials);
                    assert(initials_match(m, q@, x));
                    let len = choose|len: int| 2 <= len <= q@.len() && #[trigger] in_all(m, q@.take(len), x);
                    assert(posts(m, super::char_key(q@.take(len)[0])).contains(x));
                    lemma_posts_bound(m, n, super::char_key(q@.take(len)[0]), x);
                } else if i < after_near.len() {
                    assert(ids@[i] == after_near[i]);
                    let m = crate::outside::posting_map_view(self.near_pairs);
                    assert(posts(m, super::pair_key(q@[0], q@[1])).contains(x));
                    lemma_posts_bound(m, n, super::pair_key(q@[0], q@[1]), x);
                } else {
                    assert(q@.take(qlen as int) =~= q@);
                    let m = crate::outside::posting_map_view(self.characters);
                    assert(in_all(m, q@, x));
                    assert(posts(m, super::char_key(q@[0])).contains(x));
                    lemma_posts_bound(m, n, super::char_key(q@[0]), x);
                }
            }
        }
        if qlen >= 2 && ids.len() < limit {
            self.pair_channel(q, limit, ids);
            proof {
                assert(ids@.take(start.len() as int) =~= start) by {
                    assert(ids@.take(after_characters.len() as int) == after_characters);
                }
                assert forall|i: int| 0 <= i < ids@.len() implies #[trigger] ids@[i] < n && (i >= start.len() ==> from_channels(*self, q@, ids@[i])) by {
                    let x = ids@[i];
                    if i < after_characters.len() {
                        assert(ids@[i] == after_characters[i]);
                    } else {
                        let bg = crate::outside::posting_map_view(self.bigrams);
                        let np = crate::outside::posting_map_view(self.near_pairs);
                        if bigram_match(bg, q@, x) {
                            let b = choose|b: int| 0 <= b && b + 1 < q@.len() && #[trigger] posts(bg, super::pair_key(q@[b], q@[b + 1])).contains(x);
                            lemma_posts_bound(bg, n, super::pair_key(q@[b], q@[b + 1]), x);
                        } else {
                            let (f, r) = choose|f: int, r: int| 0 <= f < r < q@.len() && r <= f + 2 && #[trigger] posts(np, super::pair_key(q@[f], q@[r])).contains(x);
                            lemma_posts_bound(np, n, super::pair_key(q@[f], q@[r]), x);
                        }
                    }
                }
            }
        }
    }

    /// The ids of the candidate terms for a query, and how token keys
    /// matched them.
    fn candidate_ids(&self, q: &[char], limit: usize) -> (r: (Vec<u32>, rapidhash::RapidHashMap<u64, u64>))
        requires
            self.wf(),
            4 * max_repeats() * q@.len() <= u32::MAX,
        ensures
            retrieved(*self, q@, limit as nat, r.0@),
            matches_ok(self.spec_tokens(), q@, crate::outside::id_map_view(r.1)),
            crate::outside::id_map_view(r.1) == token_matches(*self, q@, primary_limit(limit as nat, q@.len())),
    {
        let qlen = q.len();
        let reserved: usize = if limit > 8 && qlen >= 2 {
            8
        } else {
            0
        };
        let primary = limit - reserved;
        let (mut ids, mut seen, matches) = self.primary_ids(q, primary);
        let ghost first = ids@;
        self.fallback_ids(q, limit, &mut ids, &mut seen);
        proof {
            let pre = prefix_ids(self.spec_sorted_terms(), q@);
            assert(primary_limit(limit as nat, qlen as nat) == primary);
            let mm = if primary < pre.len() { primary as int } else { pre.len() as int };
            assert(first.take(mm) == pre.take(mm));
            assert(ids@.take(mm) =~= first.take(mm)) by {
                assert(ids@.take(first.len() as int) == first);
            }
            assert forall|i: int| 0 <= i < ids@.len() implies from_channels(*self, q@, #[trigger] ids@[i]) by {
                if i < first.len() {
                    assert(ids@[i] == first[i]);
                    assert(first[i] < self.spec_terms().len());
                }
            }
            if ids@.len() < primary {
                assert forall|x: u32| under_prefix(self.spec_sorted_terms(), q@, x) || under_prefix(self.spec_tokens(), q@, x) implies ids@.contains(x) by {
                    assert(first.contains(x));
                    let c = choose|c: int| 0 <= c < first.len() && first[c] == x;
                    assert(ids@[c] == first[c]);
                }
            }
        }
        (ids, matches)
    }

    /// The candidate terms for a query, at most `limit` of them, channel by
    /// channel: term keys and token keys that start with the query, then
    /// token initials, pairs and characters, then terms that share character
    /// pairs with the query, most shared first.
    pub fn candidates(&self, query: &NormalizedText, limit: usize) -> (found: Vec<Candidate<'_>>)
        requires
            self.wf(),
            4 * max_repeats() * query@.chars.len() <= u32::MAX,
        ensures
            found@.len() <= limit,
            exists|ids: Seq<u32>|
                {
                    &&& retrieved(*self, query@.chars, limit as nat, ids)
                    &&& ids.len() == found@.len()
                    &&& forall|a: int|
                        0 <= a < ids.len() ==> *(#[trigger] found@[a]).term == self.spec_terms()[ids[a] as int]
                            && token_ok(*self, query@.chars, ids[a], found@[a].token) && found@[a].token == token_of(
                            token_matches(*self, query@.chars, primary_limit(limit as nat, query@.chars.len())),
                            ids[a],
                        )
                },
    {
        let ghost n = self.terms@.len();
        let q = query.chars();
        let (ids, matches) = self.candidate_ids(q, limit);
        let mut found: Vec<Candidate<'_>> = Vec::new();
        let mut a: usize = 0;
        while a < ids.len()
            invariant
                a <= ids@.len(),
                found@.len() == a,
                forall|i: int| 0 <= i < ids@.len() ==> ids@[i] < n,
                n == self.terms@.len(),
                matches_ok(self.tokens@, q@, crate::outside::id_map_view(matches)),
                crate::outside::id_map_view(matches) == token_matches(*self, q@, primary_limit(limit as nat, q@.len())),
                forall|c: int|
                    0 <= c < a ==> *(#[trigger] found@[c]).term == self.spec_terms()[ids@[c] as int]
                        && token_ok(*self, q@, ids@[c], found@[c].token) && found@[c].token == token_of(
                        token_matches(*self, q@, primary_limit(limit as nat, q@.len())),
                        ids@[c],
                    ),
            decreases ids@.len() - a,
        {
            let id = ids[a];
            let token = match crate::outside::id_map_get(&matches, id as u64) {
                Some(v) => if v == 1 {
                    Some(TokenMatch::Exact)
                } else {
                    Some(TokenMatch::Prefix)
                },
                None => None,
            };
            proof {
                if crate::outside::id_map_view(matches).contains_key(id as u64) {
                    assert(id as u64 as u32 == id);
                }
            }
            found.push(Candidate { term: &self.terms[id as usize], token });
            a = a + 1;
        }
        found
    }
}

} // verus!
