//! A map that keeps its entries in least recently used order and evicts
//! them by total size, by count and by age.
use vstd::prelude::*;
use vstd::std_specs::btree::{increasing_seq, into_iter_btree_keys};
use vstd::std_specs::cmp::OrdSpec;

use std::collections::BTreeSet;
use std::collections::HashMap;
use std::sync::Arc;

use lru::LruCache;
use opentelemetry::KeyValue;

use crate::lru_order::{
    entry_keys, lru_capacity, lru_entries, lru_get, lru_key_set, lru_len, lru_peek,
    lru_peek_lru, lru_pop, lru_pop_lru, lru_put, lru_unbounded,
};
use crate::metrics::{instance_attributes, instance_attributes_spec};
use crate::visitor::RangeVisitor;
use crate::laws::{batch_len, lemma_batch_len_prefix};
use crate::model::{
    in_range, keys_in_range, lemma_increasing_unique, lemma_key_position, lemma_put,
    lemma_range_filter, lemma_range_filter_push, lemma_remove_at, lemma_touch, range_filter,
    strictly_increasing, valid_range, CacheView,
};

verus! {

broadcast use vstd::std_specs::hash::group_hash_axioms, vstd::std_specs::btree::group_btree_axioms,
    vstd::laws_cmp::group_laws_cmp;

/// The keys of an evicting map with the second, counted from the map's
/// anchor time, at which each was last written or read.
#[derive(PartialEq, Eq, Debug, Clone)]
pub struct SerializedLRU<K> {
    pub data: Vec<(K, i32)>,
    pub anchor_time: u64,
}

/// Data that can be stored in an evicting map.
pub trait LenEntry: 'static {
    /// The length of the referenced data; the map takes it to be the same
    /// at every call.
    spec fn spec_len(&self) -> u64;

    /// Length of referenced data.
    fn len(&self) -> (r: u64)
        ensures
            r == self.spec_len(),
    ;

    /// Returns `true` if `self` has zero length.
    fn is_empty(&self) -> (r: bool)
        ensures
            r == (self.spec_len() == 0),
    ;
}

impl<T: LenEntry + Send + Sync> LenEntry for Arc<T> {
    open spec fn spec_len(&self) -> u64 {
        (**self).spec_len()
    }

    fn len(&self) -> (r: u64) {
        T::len(&**self)
    }

    fn is_empty(&self) -> (r: bool) {
        T::is_empty(&**self)
    }
}

/// One end of a range of keys.
#[derive(Clone, Copy, Debug, PartialEq, Eq)]
pub enum KeyBound {
    Included(u64),
    Excluded(u64),
    Unbounded,
}

/// Data that left a map: replaced by an insert under the same key, or
/// evicted or removed. Each must still be told that it was unreferenced.
#[derive(Debug, PartialEq, Eq)]
pub enum Released<T> {
    Replaced(T),
    Evicted(T),
}

/// Limits of a store, as configured.
#[derive(Clone, Copy, Debug, Default, PartialEq, Eq)]
pub struct EvictionPolicy {
    /// Maximum size of the store in bytes (0: no limit).
    pub max_bytes: usize,
    /// Number of bytes to evict when the store is full.
    pub evict_bytes: usize,
    /// Maximum number of seconds to keep an item (0: no limit).
    pub max_seconds: u32,
    /// Maximum number of items (0: no limit).
    pub max_count: u64,
}

/// The limits an evicting map works with.
#[derive(Clone, Copy, Debug, PartialEq, Eq)]
pub struct EvictionLimits {
    /// Maximum size of the store in bytes.
    pub max_bytes: u64,
    /// Number of bytes to evict when the store is full.
    pub evict_bytes: u64,
    /// Maximum number of seconds to keep an item in the store.
    pub max_seconds: i32,
    /// Maximum number of items to keep in the store.
    pub max_count: u64,
}

/// The recency order lives in `lru`, which holds for each key the second at
/// which it was last written or read; the data lives in `data` under the
/// same keys.
struct State<T> {
    lru: LruCache<u64, i32>,
    data: HashMap<u64, T>,
    btree: Option<BTreeSet<u64>>,
    /// Total size of all items in the store.
    sum_store_size: u64,
}

impl<T: LenEntry> View for State<T> {
    type V = CacheView<T>;

    closed spec fn view(&self) -> CacheView<T> {
        CacheView {
            entries: lru_entries(self.lru),
            data: self.data@,
            index: match self.btree {
                Some(b) => Some(b@),
                None => None,
            },
        }
    }
}

impl<T: LenEntry> State<T> {
    closed spec fn inv(&self) -> bool {
        &&& self@.well_formed()
        &&& self.sum_store_size == self@.size()
        &&& lru_capacity(self.lru) == usize::MAX
    }

    /// Bookkeeping for data that left the map: drops its length from the
    /// total and, unless it was replaced under a key that stays, its key from
    /// the index.
    fn remove(&mut self, key: u64, item: &T, replaced: bool)
        requires
            old(self).sum_store_size >= item.spec_len(),
        ensures
            final(self).lru == old(self).lru,
            final(self).data == old(self).data,
            final(self).sum_store_size == old(self).sum_store_size - item.spec_len(),
            final(self)@.index == (match old(self)@.index {
                Some(ix) => Some(if replaced {
                    ix
                } else {
                    ix.remove(key)
                }),
                None => None,
            }),
    {
        // The key of replaced data is still stored, so it stays indexed.
        if !replaced {
            if let Some(btree) = &mut self.btree {
                btree.remove(&key);
            }
        }
        let item_size = item.len();
        self.sum_store_size -= item_size;
    }

    /// Stores `data` under `key` as the most recently used entry and returns
    /// the data it replaced, after the bookkeeping for that data. The total
    /// does not count the new data yet.
    fn put(&mut self, key: u64, seconds_since_anchor: i32, data: T) -> (r: Option<T>)
        requires
            old(self).inv(),
            old(self)@.len() < usize::MAX,
        ensures
            (final(self)@, r) == old(self)@.put(key, seconds_since_anchor, data),
            final(self).sum_store_size == old(self)@.size() - (if old(self)@.contains(key) {
                old(self)@.data[key].spec_len() as int
            } else {
                0
            }),
            lru_capacity(final(self).lru) == usize::MAX,
    {
        let ghost v = self@;
        proof {
            lemma_put(v, key, seconds_since_anchor, data);
        }
        // If we are maintaining a btree index, we need to update it.
        if let Some(btree) = &mut self.btree {
            btree.insert(key);
        }
        let old_data = self.data.insert(key, data);
        match lru_put(&mut self.lru, key, seconds_since_anchor) {
            Some(old_secs) => {
                proof {
                    let i = choose|i: int|
                        0 <= i < v.entries.len() && v.entries[i] == (key, old_secs)
                            && lru_entries(self.lru) == v.entries.remove(i).push(
                            (key, seconds_since_anchor),
                        );
                    assert(entry_keys(v.entries)[i] == key);
                    lemma_key_position(v.entries, i);
                }
                let old_item = old_data.unwrap();
                self.remove(key, &old_item, true);
                Some(old_item)
            },
            None => {
                assert(!v.contains(key));
                None
            },
        }
    }
}

} // verus!

verus! {

/// A map from `u64` keys to data that keeps its entries in least recently
/// used order and evicts them by total size, by count and by age.
///
/// Times are seconds elapsed since the map's anchor time; the caller reads
/// the clock and hands the value to every operation that needs it.
pub struct EvictingMap<T> {
    state: State<T>,
    limits: EvictionLimits,
    /// Attributes recorded with every metric of the map.
    metric_attributes: Vec<KeyValue>,
}

impl<T: LenEntry> View for EvictingMap<T> {
    type V = CacheView<T>;

    closed spec fn view(&self) -> CacheView<T> {
        self.state@
    }
}

impl<T: LenEntry + Clone> EvictingMap<T> {
    /// The map's internal invariant, which every operation keeps.
    pub closed spec fn wf(&self) -> bool {
        self.state.inv()
    }

    /// The total size, as kept by the map.
    pub closed spec fn sum_store_size(&self) -> u64 {
        self.state.sum_store_size
    }

    /// The limits the map works with.
    pub closed spec fn limits(&self) -> EvictionLimits {
        self.limits
    }

    pub proof fn lemma_wf(&self)
        requires
            self.wf(),
        ensures
            self@.well_formed(),
            self.sum_store_size() == self@.size(),
    {
    }

    /// The attributes recorded with every metric of the map.
    pub closed spec fn metric_attrs(&self) -> Seq<KeyValue> {
        self.metric_attributes@
    }

    /// A new empty map with the limits of `config`, converted as `as`
    /// converts them, whose metrics carry `instance_name=unknown` followed
    /// by `attributes`.
    pub fn new(config: &EvictionPolicy, attributes: &[KeyValue]) -> (m: Self)
        ensures
            m.wf(),
            m.metric_attrs() == instance_attributes_spec(attributes@),
            m@.entries == Seq::<(u64, i32)>::empty(),
            m@.data == Map::<u64, T>::empty(),
            m@.index == Option::<Set<u64>>::None,
            m.limits() == (EvictionLimits {
                max_bytes: config.max_bytes as u64,
                evict_bytes: config.evict_bytes as u64,
                max_seconds: config.max_seconds as i32,
                max_count: config.max_count,
            }),
    {
        let m = EvictingMap {
            state: State {
                lru: lru_unbounded(),
                data: HashMap::new(),
                btree: None,
                sum_store_size: 0,
            },
            limits: EvictionLimits {
                max_bytes: config.max_bytes as u64,
                evict_bytes: config.evict_bytes as u64,
                max_seconds: config.max_seconds as i32,
                max_count: config.max_count,
            },
            metric_attributes: instance_attributes(attributes),
        };
        assert(m@.data =~= Map::<u64, T>::empty());
        assert(entry_keys(m@.entries) =~= Seq::<u64>::empty());
        m
    }

    /// The attributes recorded with every metric of the map.
    pub fn metric_attributes(&self) -> (r: &[KeyValue])
        ensures
            r@ == self.metric_attrs(),
    {
        self.metric_attributes.as_slice()
    }

    /// The eviction rule for an entry last used at `seconds_since_anchor`,
    /// with `lru_len` entries holding `sum_store_size` bytes in all.
    fn should_evict(
        &self,
        lru_len: usize,
        seconds_since_anchor: i32,
        sum_store_size: u64,
        max_bytes: u64,
        elapsed_secs: u64,
    ) -> (r: bool)
        requires
            self.limits.clock_ok(elapsed_secs),
        ensures
            r == self.limits.should_evict(
                lru_len as int,
                seconds_since_anchor,
                sum_store_size as int,
                max_bytes,
                elapsed_secs,
            ),
    {
        // A round limit that saturated to 0 on a store with a byte limit
        // evicts down to an empty store.
        let is_over_size = if max_bytes == 0 {
            self.limits.max_bytes != 0
        } else {
            sum_store_size >= max_bytes
        };

        let evict_older_than_seconds = (elapsed_secs as i32) - self.limits.max_seconds;
        let old_item_exists = self.limits.max_seconds != 0 && seconds_since_anchor
            < evict_older_than_seconds;

        let is_over_count = self.limits.max_count != 0 && (lru_len as u64) > self.limits.max_count;

        is_over_size || old_item_exists || is_over_count
    }

    /// One round of eviction: while the eviction rule holds for the least
    /// recently used entry, that entry is evicted. Where both `max_bytes`
    /// and `evict_bytes` are set and the rule holds at the start, the round
    /// runs with `evict_bytes` below `max_bytes` as its byte limit.
    fn evict_items(&mut self, elapsed_secs: u64) -> (released: Vec<Released<T>>)
        requires
            old(self).wf(),
            old(self)@.len() > 0 ==> old(self).limits().clock_ok(elapsed_secs),
        ensures
            final(self).wf(),
            final(self).limits() == old(self).limits(),
            final(self).metric_attrs() == old(self).metric_attrs(),
            (final(self)@, released@) == old(self).limits().evict(old(self)@, elapsed_secs),
    {
        let mut released: Vec<Released<T>> = Vec::new();
        let mut peek_secs: i32 = match lru_peek_lru(&self.state.lru) {
            Some((_, secs)) => secs,
            None => {
                return released;
            },
        };
        let max_bytes = if self.limits.max_bytes != 0 && self.limits.evict_bytes != 0
            && self.should_evict(
            lru_len(&self.state.lru),
            peek_secs,
            self.state.sum_store_size,
            self.limits.max_bytes,
            elapsed_secs,
        ) {
            self.limits.max_bytes.saturating_sub(self.limits.evict_bytes)
        } else {
            self.limits.max_bytes
        };
        let ghost v0 = self@;
        let ghost target = self.limits.evict_loop(v0, max_bytes, elapsed_secs);
        assert(max_bytes == self.limits.evict_threshold(v0, elapsed_secs));
        while self.should_evict(
            lru_len(&self.state.lru),
            peek_secs,
            self.state.sum_store_size,
            max_bytes,
            elapsed_secs,
        )
            invariant
                self.wf(),
                self.limits == old(self).limits(),
                self.metric_attrs() == old(self).metric_attrs(),
                self.limits.clock_ok(elapsed_secs),
                self@.entries.len() > 0,
                target == old(self).limits().evict(old(self)@, elapsed_secs),
                peek_secs == self@.entries[0].1,
                self.limits.evict_loop(self@, max_bytes, elapsed_secs).0 == target.0,
                released@ + self.limits.evict_loop(self@, max_bytes, elapsed_secs).1 == target.1,
            decreases self@.entries.len(),
        {
            let ghost before = self@;
            let ghost before_released = released@;
            proof {
                lemma_remove_at(before, 0);
            }
            let (key, _) = lru_pop_lru(&mut self.state.lru).unwrap();
            assert(entry_keys(before.entries)[0] == key);
            assert(before.data.contains_key(key));
            let item = self.state.data.remove(&key).unwrap();
            self.state.remove(key, &item, false);
            released.push(Released::Evicted(item));
            proof {
                assert(self@.entries =~= before.remove_at(0).entries);
                assert(self@.data =~= before.remove_at(0).data);
                assert(self@ == before.remove_at(0));
                assert(released@ + self.limits.evict_loop(self@, max_bytes, elapsed_secs).1
                    =~= before_released + self.limits.evict_loop(before, max_bytes, elapsed_secs).1);
            }
            match lru_peek_lru(&self.state.lru) {
                Some((_, secs)) => {
                    peek_secs = secs;
                },
                None => {
                    assert(self.limits.evict_loop(self@, max_bytes, elapsed_secs) == (
                        self@,
                        Seq::<Released<T>>::empty(),
                    ));
                    assert(released@ =~= target.1);
                    return released;
                },
            }
        }
        assert(released@ =~= target.1);
        released
    }

    /// Stores each item in turn with time `seconds_since_anchor`, running a
    /// round of eviction after each; returns the replaced and evicted data
    /// in the order they left the map.
    fn inner_insert_many(
        &mut self,
        inserts: Vec<(u64, T)>,
        seconds_since_anchor: i32,
        elapsed_secs: u64,
    ) -> (released: Vec<Released<T>>)
        requires
            old(self).wf(),
            old(self).limits().clock_ok(elapsed_secs),
            old(self).limits().insert_all_fits(old(self)@, inserts@, seconds_since_anchor, elapsed_secs),
        ensures
            final(self).wf(),
            final(self).limits() == old(self).limits(),
            final(self).metric_attrs() == old(self).metric_attrs(),
            (final(self)@, released@) == old(self).limits().insert_all(
                old(self)@,
                inserts@,
                seconds_since_anchor,
                elapsed_secs,
            ),
    {
        let mut released: Vec<Released<T>> = Vec::new();
        let ghost items = inserts@;
        let ghost target = self.limits.insert_all(self@, items, seconds_since_anchor, elapsed_secs);
        assert(items.skip(0) =~= items);
        for item in it: inserts.into_iter()
            invariant
                it.seq() == items,
                self.wf(),
                self.limits == old(self).limits(),
                self.metric_attrs() == old(self).metric_attrs(),
                self.limits.clock_ok(elapsed_secs),
                self.limits.insert_all_fits(
                    self@,
                    items.skip(it.index() as int),
                    seconds_since_anchor,
                    elapsed_secs,
                ),
                self.limits.insert_all(
                    self@,
                    items.skip(it.index() as int),
                    seconds_since_anchor,
                    elapsed_secs,
                ).0 == target.0,
                released@ + self.limits.insert_all(
                    self@,
                    items.skip(it.index() as int),
                    seconds_since_anchor,
                    elapsed_secs,
                ).1 == target.1,
                target == old(self).limits().insert_all(
                    old(self)@,
                    items,
                    seconds_since_anchor,
                    elapsed_secs,
                ),
        {
            let ghost before = self@;
            let ghost before_released = released@;
            let ghost rest = items.skip(it.index() as int);
            let (key, data) = item;
            assert(rest[0] == (key, data));
            assert(rest.drop_first() =~= items.skip(it.index() + 1));
            let new_item_size = data.len();
            proof {
                lemma_put(before, key, seconds_since_anchor, data);
            }
            let replaced = self.state.put(key, seconds_since_anchor, data);
            match replaced {
                Some(old_item) => {
                    released.push(Released::Replaced(old_item));
                },
                None => {},
            }
            self.state.sum_store_size += new_item_size;
            assert(self.wf());
            let evicted = self.evict_items(elapsed_secs);
            let mut evicted = evicted;
            released.append(&mut evicted);
            proof {
                assert(released@ + self.limits.insert_all(
                    self@,
                    rest.drop_first(),
                    seconds_since_anchor,
                    elapsed_secs,
                ).1 =~= before_released + self.limits.insert_all(
                    before,
                    rest,
                    seconds_since_anchor,
                    elapsed_secs,
                ).1);
            }
        }
        proof {
            assert(items.skip(items.len() as int) =~= Seq::<(u64, T)>::empty());
        }
        assert(released@ =~= target.1);
        released
    }

    /// Returns the number of key-value pairs that are currently in the map.
    pub fn len_for_test(&self) -> (n: usize)
        requires
            self.wf(),
        ensures
            n == self@.len(),
    {
        lru_len(&self.state.lru)
    }

    /// Makes the stored entry of `key` the most recently used one, with
    /// time `seconds_since_anchor`.
    fn touch(&mut self, key: u64, seconds_since_anchor: i32)
        requires
            old(self).wf(),
            old(self)@.contains(key),
        ensures
            final(self).wf(),
            final(self).limits() == old(self).limits(),
            final(self).metric_attrs() == old(self).metric_attrs(),
            final(self)@ == old(self)@.touch(key, seconds_since_anchor),
    {
        let ghost v = self@;
        proof {
            lemma_touch(v, key, seconds_since_anchor);
        }
        let replaced = lru_put(&mut self.state.lru, key, seconds_since_anchor);
        proof {
            let old_secs = replaced->0;
            let i = choose|i: int|
                0 <= i < v.entries.len() && v.entries[i] == (key, old_secs) && lru_entries(
                    self.state.lru,
                ) == v.entries.remove(i).push((key, seconds_since_anchor));
            assert(entry_keys(v.entries)[i] == key);
            lemma_key_position(v.entries, i);
            assert(self@ == v.touch(key, seconds_since_anchor));
        }
    }

    /// Returns a clone of the data stored under `key`, after a round of
    /// eviction; the entry becomes the most recently used one, with time
    /// `elapsed_secs`. Also returns the evicted data.
    pub fn get(&mut self, key: u64, elapsed_secs: u64) -> (r: (Option<T>, Vec<Released<T>>))
        requires
            old(self).wf(),
            old(self)@.len() > 0 ==> old(self).limits().clock_ok(elapsed_secs),
        ensures
            final(self).wf(),
            final(self).limits() == old(self).limits(),
            final(self).metric_attrs() == old(self).metric_attrs(),
            final(self)@ == old(self).limits().get(old(self)@, key, elapsed_secs).0,
            r.1@ == old(self).limits().get(old(self)@, key, elapsed_secs).2,
            match r.0 {
                Some(x) => old(self).limits().get(old(self)@, key, elapsed_secs).1 matches Some(d)
                    && cloned(d, x),
                None => old(self).limits().get(old(self)@, key, elapsed_secs).1 is None,
            },
    {
        let released = self.evict_items(elapsed_secs);
        match lru_peek(&self.state.lru, key) {
            Some(_) => {
                proof {
                    let i = choose|i: int|
                        0 <= i < self@.entries.len() && self@.entries[i].0 == key;
                    assert(entry_keys(self@.entries)[i] == key);
                }
                self.touch(key, elapsed_secs as i32);
                let data = self.state.data.get(&key).unwrap().clone();
                (Some(data), released)
            },
            None => (None, released),
        }
    }

    /// Stores `data` under `key` with time `elapsed_secs`, then runs a
    /// round of eviction. Returns the replaced data, if any, followed by
    /// the evicted data.
    pub fn insert(&mut self, key: u64, data: T, elapsed_secs: u64) -> (released: Vec<Released<T>>)
        requires
            old(self).wf(),
            old(self).limits().clock_ok(elapsed_secs),
            old(self)@.fits(key, data),
        ensures
            final(self).wf(),
            final(self).limits() == old(self).limits(),
            final(self).metric_attrs() == old(self).metric_attrs(),
            (final(self)@, released@) == old(self).limits().insert_step(
                old(self)@,
                key,
                data,
                elapsed_secs as i32,
                elapsed_secs,
            ),
    {
        self.insert_with_time(key, data, elapsed_secs as i32, elapsed_secs)
    }

    /// Stores `data` under `key` with time `seconds_since_anchor`, then runs
    /// a round of eviction at time `elapsed_secs`. Returns the replaced data,
    /// if any, followed by the evicted data.
    pub fn insert_with_time(
        &mut self,
        key: u64,
        data: T,
        seconds_since_anchor: i32,
        elapsed_secs: u64,
    ) -> (released: Vec<Released<T>>)
        requires
            old(self).wf(),
            old(self).limits().clock_ok(elapsed_secs),
            old(self)@.fits(key, data),
        ensures
            final(self).wf(),
            final(self).limits() == old(self).limits(),
            final(self).metric_attrs() == old(self).metric_attrs(),
            (final(self)@, released@) == old(self).limits().insert_step(
                old(self)@,
                key,
                data,
                seconds_since_anchor,
                elapsed_secs,
            ),
    {
        let ghost items = seq![(key, data)];
        let inserts = vec![(key, data)];
        proof {
            assert(inserts@ =~= items);
            assert(items.drop_first() =~= Seq::<(u64, T)>::empty());
            let (v1, r1) = self.limits.insert_step(self@, key, data, seconds_since_anchor, elapsed_secs);
            assert(items[0] == (key, data));
            assert(self.limits.insert_all(v1, items.drop_first(), seconds_since_anchor, elapsed_secs)
                == (v1, Seq::<Released<T>>::empty()));
            assert(self.limits.insert_all_fits(v1, items.drop_first(), seconds_since_anchor, elapsed_secs));
            assert(r1 + Seq::<Released<T>>::empty() =~= r1);
            assert(self.limits.insert_all(self@, items, seconds_since_anchor, elapsed_secs) == (v1, r1));
        }
        self.inner_insert_many(inserts, seconds_since_anchor, elapsed_secs)
    }

    /// Same as `insert`, for each item in turn; returns the replaced and
    /// evicted data in the order they left the map.
    pub fn insert_many(&mut self, inserts: Vec<(u64, T)>, elapsed_secs: u64) -> (released: Vec<
        Released<T>,
    >)
        requires
            old(self).wf(),
            old(self).limits().clock_ok(elapsed_secs),
            old(self).limits().insert_all_fits(old(self)@, inserts@, elapsed_secs as i32, elapsed_secs),
        ensures
            final(self).wf(),
            final(self).limits() == old(self).limits(),
            final(self).metric_attrs() == old(self).metric_attrs(),
            (final(self)@, released@) == old(self).limits().insert_all(
                old(self)@,
                inserts@,
                elapsed_secs as i32,
                elapsed_secs,
            ),
    {
        // Shortcut for cases where there are no inserts.
        if inserts.len() == 0 {
            return Vec::new();
        }
        self.inner_insert_many(inserts, elapsed_secs as i32, elapsed_secs)
    }

    /// Runs a round of eviction, then removes `key`. Returns whether it was
    /// still stored, and the evicted data followed by the removed data.
    pub fn remove(&mut self, key: u64, elapsed_secs: u64) -> (r: (bool, Vec<Released<T>>))
        requires
            old(self).wf(),
            old(self)@.len() > 0 ==> old(self).limits().clock_ok(elapsed_secs),
        ensures
            final(self).wf(),
            final(self).limits() == old(self).limits(),
            final(self).metric_attrs() == old(self).metric_attrs(),
            (final(self)@, r.0, r.1@) == old(self).limits().remove(old(self)@, key, elapsed_secs),
    {
        self.inner_remove(key, elapsed_secs)
    }

    fn inner_remove(&mut self, key: u64, elapsed_secs: u64) -> (r: (bool, Vec<Released<T>>))
        requires
            old(self).wf(),
            old(self)@.len() > 0 ==> old(self).limits().clock_ok(elapsed_secs),
        ensures
            final(self).wf(),
            final(self).limits() == old(self).limits(),
            final(self).metric_attrs() == old(self).metric_attrs(),
            (final(self)@, r.0, r.1@) == old(self).limits().remove(old(self)@, key, elapsed_secs),
    {
        let mut released = self.evict_items(elapsed_secs);
        let ghost v1 = self@;
        let ghost before_released = released@;
        match self.pop_key(key) {
            Some(item) => {
                released.push(Released::Evicted(item));
                assert(released@ =~= before_released + v1.take(key).1);
                (true, released)
            },
            None => {
                assert(released@ =~= before_released + v1.take(key).1);
                (false, released)
            },
        }
    }

    /// Takes the entry of `key` out of the map, with its bookkeeping, and
    /// returns its data.
    fn pop_key(&mut self, key: u64) -> (r: Option<T>)
        requires
            old(self).wf(),
        ensures
            final(self).wf(),
            final(self).limits == old(self).limits,
            final(self).metric_attrs() == old(self).metric_attrs(),
            final(self)@ == old(self)@.take(key).0,
            match r {
                Some(item) => old(self)@.contains(key) && item == old(self)@.data[key],
                None => !old(self)@.contains(key),
            },
    {
        let ghost v1 = self@;
        match lru_pop(&mut self.state.lru, key) {
            Some(secs) => {
                proof {
                    let i = choose|i: int|
                        0 <= i < v1.entries.len() && v1.entries[i] == (key, secs) && lru_entries(
                            self.state.lru,
                        ) == v1.entries.remove(i);
                    assert(entry_keys(v1.entries)[i] == key);
                    lemma_key_position(v1.entries, i);
                    lemma_remove_at(v1, i);
                }
                let item = self.state.data.remove(&key).unwrap();
                self.state.remove(key, &item, false);
                proof {
                    assert(self@.data =~= v1.take(key).0.data);
                    assert(self@ == v1.take(key).0);
                }
                Some(item)
            },
            None => {
                assert(!v1.contains(key));
                None
            },
        }
    }

    /// Where `key` is stored, makes it the most recently used entry and
    /// hands its data to `cond`; where `cond` returns `true`, goes on as
    /// `remove` does. Returns whether the key was removed, and the evicted
    /// data followed by the removed data.
    pub fn remove_if<F>(&mut self, key: u64, cond: F, elapsed_secs: u64) -> (r: (
        bool,
        Vec<Released<T>>,
    )) where F: FnOnce(&T) -> bool
        requires
            old(self).wf(),
            old(self)@.contains(key) ==> old(self).limits().clock_ok(elapsed_secs),
            old(self)@.contains(key) ==> call_requires(cond, (&old(self)@.data[key],)),
        ensures
            final(self).wf(),
            final(self).limits() == old(self).limits(),
            final(self).metric_attrs() == old(self).metric_attrs(),
            !old(self)@.contains(key) ==> final(self)@ == old(self)@ && !r.0 && r.1@.len() == 0,
            old(self)@.contains(key) ==> {
                let v1 = old(self)@.promote(key);
                ||| call_ensures(cond, (&old(self)@.data[key],), false) && final(self)@ == v1 && !r.0
                    && r.1@.len() == 0
                ||| call_ensures(cond, (&old(self)@.data[key],), true) && (final(self)@, r.0, r.1@)
                    == old(self).limits().remove(v1, key, elapsed_secs)
            },
    {
        let ghost v = self@;
        match lru_get(&mut self.state.lru, key) {
            Some(secs) => {
                proof {
                    let i = choose|i: int|
                        0 <= i < v.entries.len() && v.entries[i] == (key, secs) && lru_entries(
                            self.state.lru,
                        ) == v.entries.remove(i).push((key, secs));
                    assert(entry_keys(v.entries)[i] == key);
                    lemma_key_position(v.entries, i);
                    lemma_touch(v, key, secs);
                    assert(self@ == v.promote(key));
                }
                let entry = self.state.data.get(&key).unwrap();
                if !cond(entry) {
                    return (false, Vec::new());
                }
                self.inner_remove(key, elapsed_secs)
            },
            None => (false, Vec::new()),
        }
    }

    /// Answers a size query for each of `keys`, writing the answers to the
    /// matching places of `results`; as many keys are answered as both
    /// hold places. Where `peek` is set, answered entries keep their place
    /// in the recency order. Returns the data evicted on the way.
    pub fn sizes_for_keys(
        &mut self,
        keys: &[u64],
        results: &mut [Option<u64>],
        peek: bool,
        elapsed_secs: u64,
    ) -> (released: Vec<Released<T>>)
        requires
            old(self).wf(),
            (exists|j: int|
                0 <= j < keys@.len() && j < old(results)@.len() && old(self)@.contains(
                    #[trigger] keys@[j],
                )) ==> old(self).limits().clock_ok(elapsed_secs),
        ensures
            final(self).wf(),
            final(self).limits() == old(self).limits(),
            final(self).metric_attrs() == old(self).metric_attrs(),
            ({
                let n = if keys@.len() < old(results)@.len() {
                    keys@.len() as int
                } else {
                    old(results)@.len() as int
                };
                let (v, answers, evicted) = old(self).limits().size_lookups(
                    old(self)@,
                    keys@.take(n),
                    peek,
                    old(self)@.len(),
                    elapsed_secs,
                );
                &&& final(self)@ == v
                &&& released@ == evicted
                &&& final(results)@ == answers + old(results)@.skip(n)
            }),
    {
        let lru_len = lru_len(&self.state.lru);
        let n = if keys.len() < results.len() {
            keys.len()
        } else {
            results.len()
        };
        let mut released: Vec<Released<T>> = Vec::new();
        let ghost all = keys@.take(n as int);
        let ghost target = self.limits.size_lookups(self@, all, peek, lru_len as int, elapsed_secs);
        assert(all.subrange(0, n as int) =~= all);
        assert((exists|j: int| 0 <= j < n && old(self)@.contains(#[trigger] all[j]))
            ==> self.limits.clock_ok(elapsed_secs)) by {
            if exists|j: int| 0 <= j < n && old(self)@.contains(#[trigger] all[j]) {
                let j = choose|j: int| 0 <= j < n && old(self)@.contains(#[trigger] all[j]);
                assert(keys@[j] == all[j]);
            }
        }
        let mut i: usize = 0;
        while i < n
            invariant
                0 <= i <= n,
                n <= keys@.len(),
                n <= old(results)@.len(),
                all == keys@.take(n as int),
                lru_len == old(self)@.len(),
                results@.len() == old(results)@.len(),
                self.wf(),
                self.limits == old(self).limits(),
                self.metric_attrs() == old(self).metric_attrs(),
                forall|k: u64| #[trigger] self@.contains(k) ==> old(self)@.contains(k),
                (exists|j: int| 0 <= j < n && old(self)@.contains(#[trigger] all[j]))
                    ==> self.limits.clock_ok(elapsed_secs),
                target == old(self).limits().size_lookups(
                    old(self)@,
                    all,
                    peek,
                    lru_len as int,
                    elapsed_secs,
                ),
                self.limits.size_lookups(
                    self@,
                    all.subrange(i as int, n as int),
                    peek,
                    lru_len as int,
                    elapsed_secs,
                ).0 == target.0,
                results@.take(i as int) + self.limits.size_lookups(
                    self@,
                    all.subrange(i as int, n as int),
                    peek,
                    lru_len as int,
                    elapsed_secs,
                ).1 == target.1,
                released@ + self.limits.size_lookups(
                    self@,
                    all.subrange(i as int, n as int),
                    peek,
                    lru_len as int,
                    elapsed_secs,
                ).2 == target.2,
                results@.skip(n as int) == old(results)@.skip(n as int),
            decreases n - i,
        {
            let ghost before = self@;
            let ghost before_results = results@;
            let ghost before_released = released@;
            let ghost rest = all.subrange(i as int, n as int);
            let key = keys[i];
            assert(rest[0] == key);
            assert(rest.drop_first() =~= all.subrange(i + 1, n as int));
            let ghost step = self.limits.size_lookup(before, key, peek, lru_len as int, elapsed_secs);
            let answer: Option<u64>;
            match lru_peek(&self.state.lru, key) {
                Some(secs) => {
                    proof {
                        let j = choose|j: int|
                            0 <= j < before.entries.len() && before.entries[j] == (key, secs);
                        assert(entry_keys(before.entries)[j] == key);
                        lemma_key_position(before.entries, j);
                        assert(before.contains(key));
                        assert(all[i as int] == key);
                        assert(old(self)@.contains(all[i as int]));
                    }
                    // The entry may have expired: it is then evicted here.
                    if self.should_evict(lru_len, secs, 0, u64::MAX, elapsed_secs) {
                        answer = None;
                        let popped = self.pop_key(key);
                        match popped {
                            Some(item) => {
                                released.push(Released::Evicted(item));
                            },
                            None => {},
                        }
                        assert(released@ =~= before_released + step.2);
                    } else {
                        if !peek {
                            self.touch(key, elapsed_secs as i32);
                        }
                        let data_len = self.state.data.get(&key).unwrap().len();
                        answer = Some(data_len);
                        assert(released@ =~= before_released + step.2);
                    }
                },
                None => {
                    answer = None;
                    assert(released@ =~= before_released + step.2);
                },
            }
            results[i] = answer;
            proof {
                assert forall|k: u64| #[trigger] self@.contains(k) implies old(self)@.contains(k) by {
                    assert(before.contains(k));
                }
                assert(self@ == step.0);
                assert(answer == step.1);
                assert(results@.take(i + 1) =~= before_results.take(i as int).push(answer));
                assert(results@.take(i + 1) + self.limits.size_lookups(
                    self@,
                    rest.drop_first(),
                    peek,
                    lru_len as int,
                    elapsed_secs,
                ).1 =~= before_results.take(i as int) + self.limits.size_lookups(
                    before,
                    rest,
                    peek,
                    lru_len as int,
                    elapsed_secs,
                ).1);
                assert(released@ + self.limits.size_lookups(
                    self@,
                    rest.drop_first(),
                    peek,
                    lru_len as int,
                    elapsed_secs,
                ).2 =~= before_released + self.limits.size_lookups(
                    before,
                    rest,
                    peek,
                    lru_len as int,
                    elapsed_secs,
                ).2);
                assert(results@.skip(n as int) =~= before_results.skip(n as int));
            }
            i = i + 1;
        }
        proof {
            assert(all.subrange(n as int, n as int) =~= Seq::<u64>::empty());
            assert(results@.take(n as int) =~= target.1);
            assert(results@ =~= results@.take(n as int) + results@.skip(n as int));
            assert(released@ =~= target.2);
        }
        released
    }

    /// The size of the data stored under `key`, as `sizes_for_keys` answers
    /// it for that key alone, without `peek`.
    pub fn size_for_key(&mut self, key: u64, elapsed_secs: u64) -> (r: (
        Option<u64>,
        Vec<Released<T>>,
    ))
        requires
            old(self).wf(),
            old(self)@.contains(key) ==> old(self).limits().clock_ok(elapsed_secs),
        ensures
            final(self).wf(),
            final(self).limits() == old(self).limits(),
            final(self).metric_attrs() == old(self).metric_attrs(),
            ({
                let (v, answer, evicted) = old(self).limits().size_lookup(
                    old(self)@,
                    key,
                    false,
                    old(self)@.len(),
                    elapsed_secs,
                );
                &&& final(self)@ == v
                &&& r.0 == answer
                &&& r.1@ == evicted
            }),
    {
        let keys = vec![key];
        let mut results: Vec<Option<u64>> = vec![None];
        let ghost v0 = self@;
        let released = self.sizes_for_keys(keys.as_slice(), results.as_mut_slice(), false, elapsed_secs);
        proof {
            let ks = seq![key];
            assert(keys@.take(1) =~= ks);
            assert(ks[0] == key);
            let (v1, a1, r1) = self.limits.size_lookup(v0, key, false, v0.len(), elapsed_secs);
            assert(self.limits.size_lookups(v1, ks.drop_first(), false, v0.len(), elapsed_secs) == (
                v1,
                Seq::<Option<u64>>::empty(),
                Seq::<Released<T>>::empty(),
            ));
            assert(ks.drop_first() =~= Seq::<u64>::empty());
            assert(released@ =~= r1);
        }
        (results[0], released)
    }

    /// Whether the map holds no entry; operations that run a round of
    /// eviction look at an entry, and so at the clock, only where it does.
    pub fn is_empty(&self) -> (r: bool)
        requires
            self.wf(),
        ensures
            r == (self@.len() == 0),
    {
        lru_len(&self.state.lru) == 0
    }

    /// Whether `key` is stored, without changing the recency order.
    pub fn contains_key(&self, key: u64) -> (r: bool)
        requires
            self.wf(),
        ensures
            r == self@.contains(key),
    {
        match lru_peek(&self.state.lru, key) {
            Some(secs) => {
                proof {
                    let i = choose|i: int|
                        0 <= i < self@.entries.len() && self@.entries[i] == (key, secs);
                    assert(entry_keys(self@.entries)[i] == key);
                }
                true
            },
            None => false,
        }
    }

    /// Whether `elapsed_secs` is a time the map's operations accept: the
    /// age rule's `elapsed_secs as i32 - max_seconds` fits in an `i32`.
    pub fn clock_ok(&self, elapsed_secs: u64) -> (r: bool)
        ensures
            r == self.limits().clock_ok(elapsed_secs),
    {
        let now = elapsed_secs as i32;
        let lhs = now as i64 - self.limits.max_seconds as i64;
        i32::MIN as i64 <= lhs && lhs <= i32::MAX as i64
    }

    /// Whether storing `data` under `key` keeps the total size and the
    /// number of entries within machine integers, as `insert` requires.
    pub fn fits(&self, key: u64, data: &T) -> (r: bool)
        requires
            self.wf(),
        ensures
            r == self@.fits(key, *data),
    {
        if lru_len(&self.state.lru) == usize::MAX {
            return false;
        }
        let old_len: u64 = match self.state.data.get(&key) {
            Some(old) => old.len(),
            None => 0,
        };
        proof {
            if self@.contains(key) {
                lemma_put(self@, key, 0, *data);
            }
        }
        let rest = self.state.sum_store_size - old_len;
        data.len() <= u64::MAX - rest
    }

    /// Whether the store's size plus the lengths of all of `inserts` fits
    /// in a `u64` and the number of entries plus their number stays below
    /// `usize::MAX`; where it does, `insert_many` accepts them.
    pub fn batch_fits(&self, inserts: &Vec<(u64, T)>) -> (r: bool)
        requires
            self.wf(),
        ensures
            r == (self@.size() + batch_len(inserts@) <= u64::MAX && self@.len() + inserts@.len()
                < usize::MAX),
    {
        let n = inserts.len();
        let count = lru_len(&self.state.lru);
        if count >= usize::MAX - n {
            return false;
        }
        let mut acc: u64 = self.state.sum_store_size;
        let mut i = n;
        assert(inserts@.skip(n as int) =~= Seq::<(u64, T)>::empty());
        while i > 0
            invariant
                i <= n,
                n == inserts@.len(),
                self.wf(),
                acc == self@.size() + batch_len(inserts@.skip(i as int)),
            decreases i,
        {
            i = i - 1;
            let item_len = inserts[i].1.len();
            assert(inserts@.skip(i as int).drop_first() =~= inserts@.skip(i + 1));
            if item_len > u64::MAX - acc {
                proof {
                    lemma_batch_len_prefix(inserts@, i as int);
                }
                return false;
            }
            acc = acc + item_len;
        }
        assert(inserts@.skip(0) =~= inserts@);
        true
    }

    /// Keeps an ordered index of the keys from now on, built from the
    /// stored keys where it was not kept yet.
    pub fn enable_filtering(&mut self)
        requires
            old(self).wf(),
        ensures
            final(self).wf(),
            final(self).limits() == old(self).limits(),
            final(self).metric_attrs() == old(self).metric_attrs(),
            final(self)@ == old(self)@.with_index(),
    {
        if self.state.btree.is_none() {
            self.rebuild_btree_index();
        }
    }

    /// Builds the ordered index from the stored keys.
    fn rebuild_btree_index(&mut self)
        requires
            old(self).wf(),
        ensures
            final(self).wf(),
            final(self).limits == old(self).limits,
            final(self).metric_attrs() == old(self).metric_attrs(),
            final(self)@ == (CacheView { index: Some(old(self)@.data.dom()), ..old(self)@ }),
    {
        let keys = lru_key_set(&self.state.lru);
        self.state.btree = Some(keys);
        proof {
            assert(keys@ =~= self@.data.dom());
        }
    }

    /// Builds the key index where it is not kept, then hands the visitor's
    /// handler the key and data of each stored key within the range, in
    /// increasing key order, until it returns `false`; no key is handed over
    /// after that. Returns the number of keys for which it returned `true`.
    pub fn range<F>(
        &mut self,
        start: KeyBound,
        end: KeyBound,
        visitor: &mut RangeVisitor<F>,
    ) -> (r: u64) where F: FnMut(&u64, &T) -> bool
        requires
            old(self).wf(),
            valid_range(start, end),
            forall|k: u64|
                old(self)@.contains(k) && in_range(start, end, k) ==> call_requires(
                    old(visitor).handler(),
                    (&k, &old(self)@.data[k]),
                ),
        ensures
            final(self).wf(),
            final(self).limits() == old(self).limits(),
            final(self).metric_attrs() == old(self).metric_attrs(),
            final(self)@ == old(self)@.with_index(),
            final(self)@.index == Some(old(self)@.data.dom()),
            final(visitor).handler() == old(visitor).handler(),
            ({
                let ks = keys_in_range(old(self)@.data.dom(), start, end);
                let made = if r < ks.len() {
                    r + 1
                } else {
                    r as int
                };
                &&& r <= ks.len()
                &&& final(visitor).calls() == old(visitor).calls() + Seq::new(
                    made as nat,
                    |j: int| (ks[j], j < r),
                )
                &&& forall|j: int|
                    0 <= j < made ==> call_ensures(
                        old(visitor).handler(),
                        (&ks[j], &old(self)@.data[ks[j]]),
                        j < r,
                    )
            }),
    {
        if self.state.btree.is_none() {
            self.rebuild_btree_index();
        }
        let ghost v = self@;
        let btree = self.state.btree.as_ref().unwrap();
        let data = &self.state.data;
        let mut continue_count: u64 = 0;
        let mut done = false;
        let ghost ix = btree@;
        let ghost full = into_iter_btree_keys(btree.iter());
        let ghost mut pre_g: Seq<u64> = Seq::empty();
        let ghost h0 = visitor.handler();
        let ghost c0 = visitor.calls();
        assert(full.take(0) =~= Seq::<u64>::empty());
        assert(btree.len() == ix.len());
        assert(c0 + Seq::new(0, |j: int| (pre_g[j], j < 0)) =~= c0);
        for key in it: btree.iter()
            invariant
                v == self@,
                visitor.handler() == h0,
                it.seq().unref() == full,
                pre_g == range_filter(full.take(it.index() as int), start, end),
                v.index == Some(ix),
                ix.subset_of(v.data.dom()),
                data@ == v.data,
                forall|k: u64|
                    v.contains(k) && in_range(start, end, k) ==> call_requires(
                        h0,
                        (&k, &v.data[k]),
                    ),
                full.to_set() == ix,
                full.len() == ix.len(),
                it.index() <= full.len(),
                ix.len() <= usize::MAX,
                increasing_seq(it.seq()),
                it.index() > 0 ==> strictly_increasing(full),
                continue_count <= pre_g.len(),
                pre_g.len() <= it.index(),
                !done ==> continue_count == pre_g.len(),
                done ==> continue_count < pre_g.len(),
                ({
                    let made = if done {
                        continue_count + 1
                    } else {
                        continue_count as int
                    };
                    &&& visitor.calls() == c0 + Seq::new(
                        made as nat,
                        |j: int| (pre_g[j], j < continue_count),
                    )
                    &&& forall|j: int|
                        0 <= j < made ==> call_ensures(
                            h0,
                            (&pre_g[j], &v.data[pre_g[j]]),
                            j < continue_count,
                        )
                }),
        {
            let ghost all = full;
            let ghost i = it.index() as int;
            let ghost pre = pre_g;
            let ghost calls_before = visitor.calls();
            let ghost count_before = continue_count;
            let ghost done_before = done;
            proof {
                lemma_increasing_refs(it.seq());
                lemma_range_filter(all.take(i + 1), start, end);
                assert(all.take(i + 1) =~= all.take(i).push(all[i]));
                lemma_range_filter_push(all.take(i), all[i], start, end);
                lemma_range_filter(all.take(i), start, end);
            }
            let k = *key;
            proof {
                pre_g = range_filter(all.take(i + 1), start, end);
                assert(forall|j: int| 0 <= j < pre.len() ==> pre_g[j] == pre[j]);
            }
            if !done && in_range_exec(start, end, k) {
                proof {
                    assert(all.contains(k));
                    assert(pre_g == pre.push(k));
                }
                let value = data.get(&k).unwrap();
                let should_continue = visitor.visit(&k, value);
                if should_continue {
                    continue_count += 1;
                } else {
                    done = true;
                }
                proof {
                    assert(visitor.calls() =~= c0 + Seq::new(
                        (if done {
                            continue_count + 1
                        } else {
                            continue_count as int
                        }) as nat,
                        |j: int| (pre_g[j], j < continue_count),
                    ));
                }
            } else {
                proof {
                    let made = if done {
                        continue_count + 1
                    } else {
                        continue_count as int
                    };
                    assert(made <= pre.len());
                    assert(visitor.calls() =~= c0 + Seq::new(
                        made as nat,
                        |j: int| (pre_g[j], j < continue_count),
                    ));
                }
            }
        }
        proof {
            if full.len() == 0 {
                assert(strictly_increasing(full));
            }
            assert(pre_g == range_filter(full, start, end)) by {
                assert(full.take(full.len() as int) =~= full);
            }
            lemma_range_filter(full, start, end);
            assert forall|k: u64| full.contains(k) <==> ix.contains(k) by {
                if full.contains(k) {
                    assert(full.to_set().contains(k));
                }
                if ix.contains(k) {
                    assert(full.to_set().contains(k));
                }
            }
            let ks = keys_in_range(ix, start, end);
            assert(strictly_increasing(pre_g) && forall|k: u64| #[trigger] pre_g.contains(k) <==> (
            ix.contains(k) && in_range(start, end, k)));
            lemma_increasing_unique(pre_g, ks);
        }
        continue_count
    }
}

proof fn lemma_increasing_refs(s: Seq<&u64>)
    requires
        increasing_seq(s),
    ensures
        strictly_increasing(s.unref()),
{
    assert(vstd::laws_cmp::obeys_cmp::<u64>());
    assert(vstd::laws_cmp::obeys_cmp::<&u64>());
    assert forall|i: int, j: int| 0 <= i < j < s.unref().len() implies s.unref()[i] < s.unref()[j] by {
        assert(OrdSpec::cmp_spec(&s[i], &s[j]) is Less);
    }
}

/// Whether `k` lies within the range from `start` to `end`.
fn in_range_exec(start: KeyBound, end: KeyBound, k: u64) -> (r: bool)
    ensures
        r == in_range(start, end, k),
{
    let above_start = match start {
        KeyBound::Included(s) => s <= k,
        KeyBound::Excluded(s) => s < k,
        KeyBound::Unbounded => true,
    };
    let below_end = match end {
        KeyBound::Included(e) => k <= e,
        KeyBound::Excluded(e) => k < e,
        KeyBound::Unbounded => true,
    };
    above_start && below_end
}

} // verus!
