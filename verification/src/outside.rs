//! The outside collection types that the library uses, and the trusted
//! wrappers around the methods it calls.
use vstd::prelude::*;
use smallvec::SmallVec;
use rapidhash::{RapidHashMap, RapidHashSet};
use arrayvec::{ArrayString, ArrayVec};
use string_interner::backend::StringBackend;
use string_interner::symbol::SymbolU32;
use string_interner::{StringInterner, Symbol};

verus! {

/// Token start positions, kept inline for up to four tokens.
///
/// A `smallvec::SmallVec<[u16; 4]>` held privately, since `SmallVec`, whose
/// parameter is bound by an outside trait, cannot be declared as a type of
/// its own.
#[verifier::external_body]
pub struct TokenStarts {
    inner: SmallVec<[u16; 4]>,
}

/// The positions held in a `TokenStarts`.
pub uninterp spec fn token_starts_view(v: TokenStarts) -> Seq<u16>;

/// `SmallVec::new`: an empty vector.
#[verifier::external_body]
pub(crate) fn token_starts_new() -> (v: TokenStarts)
    ensures
        token_starts_view(v) == Seq::<u16>::empty(),
{
    TokenStarts { inner: SmallVec::new() }
}

/// `SmallVec::push`: appends `value` at the end.
#[verifier::external_body]
pub(crate) fn token_starts_push(v: &mut TokenStarts, value: u16)
    requires
        token_starts_view(*old(v)).len() < usize::MAX,
    ensures
        token_starts_view(*final(v)) == token_starts_view(*old(v)).push(value),
{
    v.inner.push(value)
}

/// `SmallVec::as_slice`: the elements, in order, as a slice.
#[verifier::external_body]
pub(crate) fn token_starts_slice(v: &TokenStarts) -> (s: &[u16])
    ensures
        s@ == token_starts_view(*v),
{
    v.inner.as_slice()
}

} // verus!

verus! {

#[verifier::external_type_specification]
#[verifier::external_body]
pub struct ExRapidState<const A: bool, const S: bool, const C: bool, const P: bool>(
    rapidhash::inner::RandomState<A, S, C, P>,
);

/// The postings held in a map from a `u64` key to term ids.
pub uninterp spec fn posting_map_view(m: RapidHashMap<u64, Vec<u32>>) -> Map<u64, Seq<u32>>;

/// `RapidHashMap::default`: an empty map.
#[verifier::external_body]
pub(crate) fn posting_map_new() -> (m: RapidHashMap<u64, Vec<u32>>)
    ensures
        posting_map_view(m).dom() == Set::<u64>::empty(),
{
    RapidHashMap::default()
}

/// `HashMap::get`: the postings under `key`, if any.
#[verifier::external_body]
pub(crate) fn posting_map_get(m: &RapidHashMap<u64, Vec<u32>>, key: u64) -> (r: Option<&Vec<u32>>)
    ensures
        match r {
            Some(v) => posting_map_view(*m).contains_key(key) && v@ == posting_map_view(*m)[key],
            None => !posting_map_view(*m).contains_key(key),
        },
{
    m.get(&key)
}

/// `HashMap::entry(key).or_default().push(id)`: appends `id` to the postings
/// under `key`, starting from an empty list when the key is new.
#[verifier::external_body]
pub(crate) fn posting_map_push(m: &mut RapidHashMap<u64, Vec<u32>>, key: u64, id: u32)
    ensures
        posting_map_view(*final(m)) == posting_map_view(*old(m)).insert(
            key,
            if posting_map_view(*old(m)).contains_key(key) {
                posting_map_view(*old(m))[key]
            } else {
                Seq::empty()
            }.push(id),
        ),
{
    m.entry(key).or_default().push(id)
}

/// The members of a set of `u64` values.
pub uninterp spec fn id_set_view(s: RapidHashSet<u64>) -> Set<u64>;

/// `RapidHashSet::default`: an empty set.
#[verifier::external_body]
pub(crate) fn id_set_new() -> (s: RapidHashSet<u64>)
    ensures
        id_set_view(s) == Set::<u64>::empty(),
{
    RapidHashSet::default()
}

/// `HashSet::insert`: adds `value`; returns whether it was not present.
#[verifier::external_body]
pub(crate) fn id_set_insert(s: &mut RapidHashSet<u64>, value: u64) -> (inserted: bool)
    ensures
        inserted == !id_set_view(*old(s)).contains(value),
        id_set_view(*final(s)) == id_set_view(*old(s)).insert(value),
{
    s.insert(value)
}

/// `HashSet::contains`: whether `value` is a member.
#[verifier::external_body]
pub(crate) fn id_set_contains(s: &RapidHashSet<u64>, value: u64) -> (r: bool)
    ensures
        r == id_set_view(*s).contains(value),
{
    s.contains(&value)
}

/// The entries of a map from `u64` to `u64`.
pub uninterp spec fn id_map_view(m: RapidHashMap<u64, u64>) -> Map<u64, u64>;

/// `RapidHashMap::default`: an empty map.
#[verifier::external_body]
pub(crate) fn id_map_new() -> (m: RapidHashMap<u64, u64>)
    ensures
        id_map_view(m).dom() == Set::<u64>::empty(),
{
    RapidHashMap::default()
}

/// `HashMap::get`: the value under `key`, if any.
#[verifier::external_body]
pub(crate) fn id_map_get(m: &RapidHashMap<u64, u64>, key: u64) -> (r: Option<u64>)
    ensures
        match r {
            Some(v) => id_map_view(*m).contains_key(key) && v == id_map_view(*m)[key],
            None => !id_map_view(*m).contains_key(key),
        },
{
    m.get(&key).copied()
}

/// `HashMap::insert`: sets the value under `key`.
#[verifier::external_body]
pub(crate) fn id_map_insert(m: &mut RapidHashMap<u64, u64>, key: u64, value: u64)
    ensures
        id_map_view(*final(m)) == id_map_view(*old(m)).insert(key, value),
{
    m.insert(key, value);
}

} // verus!

verus! {

#[verifier::external_type_specification]
#[verifier::external_body]
pub struct ExArrayString<const CAP: usize>(ArrayString<CAP>);

#[verifier::external_type_specification]
#[verifier::external_body]
#[verifier::reject_recursive_types(T)]
pub struct ExArrayVec<T, const CAP: usize>(ArrayVec<T, CAP>);

/// The characters of a deletion key.
pub uninterp spec fn delete_key_view(k: ArrayString<28>) -> Seq<char>;

/// `ArrayString::new`: an empty key.
#[verifier::external_body]
pub(crate) fn delete_key_new() -> (k: ArrayString<28>)
    ensures
        delete_key_view(k) == Seq::<char>::empty(),
{
    ArrayString::new()
}

/// An interner of strings into `u32` symbols, each symbol the index of its
/// string in the order of interning.
///
/// A `string_interner::StringInterner` with a string backend, held
/// privately, since `StringInterner`, whose parameter is bound by an outside
/// trait, cannot be declared as a type of its own.
#[verifier::external_body]
pub struct Interner {
    inner: StringInterner<StringBackend<SymbolU32>, rapidhash::fast::RandomState>,
}

/// The strings of an interner, in the order of their symbols.
pub uninterp spec fn interner_view(i: Interner) -> Seq<Seq<char>>;

/// `StringInterner::with_hasher`: an empty interner.
#[verifier::external_body]
pub(crate) fn interner_new() -> (i: Interner)
    ensures
        interner_view(i) == Seq::<Seq<char>>::empty(),
{
    Interner { inner: StringInterner::with_hasher(rapidhash::fast::RandomState::default()) }
}

/// `ArrayString::push`: appends `c`; a key of fewer than seven characters
/// holds at most 24 of its 28 bytes, so the character fits.
#[verifier::external_body]
pub(crate) fn delete_key_push(k: &mut ArrayString<28>, c: char)
    requires
        delete_key_view(*old(k)).len() < 7,
    ensures
        delete_key_view(*final(k)) == delete_key_view(*old(k)).push(c),
{
    k.push(c)
}

/// `ArrayString::as_str`: the key as a string slice.
#[verifier::external_body]
pub(crate) fn delete_key_as_str(k: &ArrayString<28>) -> (s: &str)
    ensures
        s@ == delete_key_view(*k),
{
    k.as_str()
}

/// The keys held in a vector of deletion keys, in order.
pub uninterp spec fn delete_keys_view(v: ArrayVec<ArrayString<28>, 29>) -> Seq<Seq<char>>;

/// `ArrayVec::new`: no keys.
#[verifier::external_body]
pub(crate) fn delete_keys_new() -> (v: ArrayVec<ArrayString<28>, 29>)
    ensures
        delete_keys_view(v) == Seq::<Seq<char>>::empty(),
{
    ArrayVec::new()
}

/// `ArrayVec::len`: the number of keys.
#[verifier::external_body]
pub(crate) fn delete_keys_len(v: &ArrayVec<ArrayString<28>, 29>) -> (n: usize)
    ensures
        n == delete_keys_view(*v).len(),
{
    v.len()
}

/// `contains` on the keys: whether one of them spells the same string.
#[verifier::external_body]
pub(crate) fn delete_keys_contains(v: &ArrayVec<ArrayString<28>, 29>, k: &ArrayString<28>) -> (r: bool)
    ensures
        r == delete_keys_view(*v).contains(delete_key_view(*k)),
{
    v.contains(k)
}

/// `ArrayVec::push`: appends a key below the capacity of 29.
#[verifier::external_body]
pub(crate) fn delete_keys_push(v: &mut ArrayVec<ArrayString<28>, 29>, k: ArrayString<28>)
    requires
        delete_keys_view(*old(v)).len() < 29,
    ensures
        delete_keys_view(*final(v)) == delete_keys_view(*old(v)).push(delete_key_view(k)),
{
    v.push(k)
}

/// Indexing the keys: the key at position `i`.
#[verifier::external_body]
pub(crate) fn delete_keys_get(v: &ArrayVec<ArrayString<28>, 29>, i: usize) -> (k: &ArrayString<28>)
    requires
        i < delete_keys_view(*v).len(),
    ensures
        delete_key_view(*k) == delete_keys_view(*v)[i as int],
{
    &v[i]
}

/// `StringInterner::get_or_intern`: the index of the symbol of `s`, interned
/// at the end when new. Below `u32::MAX` strings the next symbol is valid.
#[verifier::external_body]
pub(crate) fn interner_intern(i: &mut Interner, s: &str) -> (index: usize)
    requires
        interner_view(*old(i)).len() < u32::MAX,
    ensures
        interner_view(*old(i)).contains(s@) ==> interner_view(*final(i)) == interner_view(*old(i))
            && index < interner_view(*old(i)).len() && interner_view(*old(i))[index as int] == s@,
        !interner_view(*old(i)).contains(s@) ==> interner_view(*final(i)) == interner_view(*old(i)).push(s@)
            && index == interner_view(*old(i)).len(),
{
    i.inner.get_or_intern(s).to_usize()
}

/// `StringInterner::get`: the index of the symbol of `s`, if interned.
#[verifier::external_body]
pub(crate) fn interner_get(i: &Interner, s: &str) -> (index: Option<usize>)
    ensures
        match index {
            Some(x) => x < interner_view(*i).len() && interner_view(*i)[x as int] == s@,
            None => !interner_view(*i).contains(s@),
        },
{
    match i.inner.get(s) {
        Some(symbol) => Some(symbol.to_usize()),
        None => None,
    }
}

/// `StringInterner::resolve` of the symbol with index `index`: its string,
/// or `None` past the last symbol.
#[verifier::external_body]
pub(crate) fn interner_resolve(i: &Interner, index: usize) -> (s: Option<&str>)
    requires
        index < u32::MAX,
    ensures
        match s {
            Some(t) => index < interner_view(*i).len() && t@ == interner_view(*i)[index as int],
            None => index >= interner_view(*i).len(),
        },
{
    i.inner.resolve(SymbolU32::try_from_usize(index).unwrap())
}

/// `StringInterner::len`: the number of interned strings.
#[verifier::external_body]
pub(crate) fn interner_len(i: &Interner) -> (n: usize)
    ensures
        n == interner_view(*i).len(),
{
    i.inner.len()
}

/// Term symbols filed under one deletion key, kept inline for one.
///
/// A `smallvec::SmallVec<[SymbolU32; 1]>` held privately, as for
/// `TokenStarts`.
#[verifier::external_body]
pub struct SymbolList {
    inner: SmallVec<[SymbolU32; 1]>,
}

/// The symbol indices held in a `SymbolList`.
pub uninterp spec fn symbol_list_view(l: SymbolList) -> Seq<usize>;

/// `SmallVec::new`: an empty list.
#[verifier::external_body]
pub(crate) fn symbol_list_new() -> (l: SymbolList)
    ensures
        symbol_list_view(l) == Seq::<usize>::empty(),
{
    SymbolList { inner: SmallVec::new() }
}

/// `SmallVec::push` of the symbol with index `index`, a valid symbol below
/// `u32::MAX`.
#[verifier::external_body]
pub(crate) fn symbol_list_push(l: &mut SymbolList, index: usize)
    requires
        index < u32::MAX,
        symbol_list_view(*old(l)).len() < usize::MAX,
    ensures
        symbol_list_view(*final(l)) == symbol_list_view(*old(l)).push(index),
{
    l.inner.push(SymbolU32::try_from_usize(index).unwrap())
}

/// `SmallVec::len`: the number of symbols.
#[verifier::external_body]
pub(crate) fn symbol_list_len(l: &SymbolList) -> (n: usize)
    ensures
        n == symbol_list_view(*l).len(),
{
    l.inner.len()
}

/// Indexing the list: the index of the symbol at position `j`.
#[verifier::external_body]
pub(crate) fn symbol_list_get(l: &SymbolList, j: usize) -> (index: usize)
    requires
        j < symbol_list_view(*l).len(),
    ensures
        index == symbol_list_view(*l)[j as int],
{
    l.inner[j].to_usize()
}

} // verus!
