//! Trusted interface to `lru::LruCache`, keyed by `u64`, holding for each
//! key the second (counted from the map's anchor time) at which it was
//! last written or read.
//!
//! The contents of a cache are named by `lru_entries`: the entries in
//! recency order, the least recently used one first. The crate's source
//! keeps them in a doubly linked list, `head` being the most recently used
//! end and `tail` the least recently used one; every wrapper below states
//! what the method does to that list.
use vstd::prelude::*;
use lru::LruCache;
use std::collections::BTreeSet;

verus! {

#[verifier::external_type_specification]
#[verifier::external_body]
#[verifier::reject_recursive_types(K)]
#[verifier::reject_recursive_types(V)]
#[verifier::reject_recursive_types(S)]
pub struct ExLruCache<K, V, S>(LruCache<K, V, S>);

#[verifier::external_type_specification]
#[verifier::external_body]
pub struct ExDefaultHasher(lru::DefaultHasher);

/// The entries of the cache in recency order, the least recently used first.
pub uninterp spec fn lru_entries(c: LruCache<u64, i32>) -> Seq<(u64, i32)>;

/// The capacity the cache was made with.
pub uninterp spec fn lru_capacity(c: LruCache<u64, i32>) -> nat;

/// The keys of a sequence of entries, in the same order.
pub open spec fn entry_keys(s: Seq<(u64, i32)>) -> Seq<u64> {
    s.map_values(|e: (u64, i32)| e.0)
}

/// `lru::LruCache::unbounded`: an empty cache whose capacity is
/// `NonZeroUsize::MAX`, so that `put` never pushes an entry out.
#[verifier::external_body]
pub fn lru_unbounded() -> (c: LruCache<u64, i32>)
    ensures
        lru_entries(c) == Seq::<(u64, i32)>::empty(),
        lru_capacity(c) == usize::MAX,
{
    LruCache::unbounded()
}

/// `lru::LruCache::len`: the number of entries.
#[verifier::external_body]
pub fn lru_len(c: &LruCache<u64, i32>) -> (n: usize)
    ensures
        n == lru_entries(*c).len(),
{
    c.len()
}

/// `lru::LruCache::put`. Where the key is present, its value is replaced,
/// the entry moves to the most recently used end and the old value is
/// returned. Otherwise the entry is attached at the most recently used end,
/// after the least recently used entry was dropped if the cache was full,
/// and `None` is returned.
#[verifier::external_body]
pub fn lru_put(c: &mut LruCache<u64, i32>, k: u64, v: i32) -> (r: Option<i32>)
    ensures
        lru_capacity(*final(c)) == lru_capacity(*old(c)),
        match r {
            Some(old_v) => exists|i: int|
                0 <= i < lru_entries(*old(c)).len() && lru_entries(*old(c))[i] == (k, old_v)
                    && lru_entries(*final(c)) == lru_entries(*old(c)).remove(i).push((k, v)),
            None => {
                &&& !entry_keys(lru_entries(*old(c))).contains(k)
                &&& lru_entries(*old(c)).len() < lru_capacity(*old(c)) ==> lru_entries(*final(c))
                    == lru_entries(*old(c)).push((k, v))
                &&& lru_entries(*old(c)).len() >= lru_capacity(*old(c)) ==> lru_entries(*final(c))
                    == lru_entries(*old(c)).drop_first().push((k, v))
            },
        },
{
    c.put(k, v)
}

/// `lru::LruCache::get`: where the key is present, its entry moves to the
/// most recently used end and its value is returned; otherwise nothing
/// changes and `None` is returned.
#[verifier::external_body]
pub fn lru_get(c: &mut LruCache<u64, i32>, k: u64) -> (r: Option<i32>)
    ensures
        lru_capacity(*final(c)) == lru_capacity(*old(c)),
        match r {
            Some(v) => exists|i: int|
                0 <= i < lru_entries(*old(c)).len() && lru_entries(*old(c))[i] == (k, v)
                    && lru_entries(*final(c)) == lru_entries(*old(c)).remove(i).push((k, v)),
            None => !entry_keys(lru_entries(*old(c))).contains(k) && lru_entries(*final(c))
                == lru_entries(*old(c)),
        },
{
    c.get(&k).copied()
}

/// `lru::LruCache::peek`: the value of the key, with the order unchanged.
#[verifier::external_body]
pub fn lru_peek(c: &LruCache<u64, i32>, k: u64) -> (r: Option<i32>)
    ensures
        match r {
            Some(v) => exists|i: int|
                0 <= i < lru_entries(*c).len() && lru_entries(*c)[i] == (k, v),
            None => !entry_keys(lru_entries(*c)).contains(k),
        },
{
    c.peek(&k).copied()
}

/// `lru::LruCache::peek_lru`: the least recently used entry, if any.
#[verifier::external_body]
pub fn lru_peek_lru(c: &LruCache<u64, i32>) -> (r: Option<(u64, i32)>)
    ensures
        match r {
            Some(e) => lru_entries(*c).len() > 0 && e == lru_entries(*c)[0],
            None => lru_entries(*c).len() == 0,
        },
{
    c.peek_lru().map(|(k, v)| (*k, *v))
}

/// `lru::LruCache::pop_lru`: removes and returns the least recently used
/// entry, if any.
#[verifier::external_body]
pub fn lru_pop_lru(c: &mut LruCache<u64, i32>) -> (r: Option<(u64, i32)>)
    ensures
        lru_capacity(*final(c)) == lru_capacity(*old(c)),
        match r {
            Some(e) => lru_entries(*old(c)).len() > 0 && e == lru_entries(*old(c))[0]
                && lru_entries(*final(c)) == lru_entries(*old(c)).drop_first(),
            None => lru_entries(*old(c)).len() == 0 && lru_entries(*final(c)) == lru_entries(
                *old(c),
            ),
        },
{
    c.pop_lru()
}

/// `lru::LruCache::pop`: removes the key's entry and returns its value;
/// `None`, with nothing changed, where the key is absent.
#[verifier::external_body]
pub fn lru_pop(c: &mut LruCache<u64, i32>, k: u64) -> (r: Option<i32>)
    ensures
        lru_capacity(*final(c)) == lru_capacity(*old(c)),
        match r {
            Some(v) => exists|i: int|
                0 <= i < lru_entries(*old(c)).len() && lru_entries(*old(c))[i] == (k, v)
                    && lru_entries(*final(c)) == lru_entries(*old(c)).remove(i),
            None => !entry_keys(lru_entries(*old(c))).contains(k) && lru_entries(*final(c))
                == lru_entries(*old(c)),
        },
{
    c.pop(&k)
}

/// `lru::LruCache::iter`, of which only the keys are kept, collected into
/// a `BTreeSet`: the set of the cache's keys.
#[verifier::external_body]
pub fn lru_key_set(c: &LruCache<u64, i32>) -> (r: BTreeSet<u64>)
    ensures
        r@ == entry_keys(lru_entries(*c)).to_set(),
{
    c.iter().map(|(k, _)| *k).collect()
}

} // verus!
