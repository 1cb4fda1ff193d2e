//! What holds of every evicting map, over the model of `model.rs`.
use vstd::prelude::*;

use crate::evicting_map::{EvictingMap, EvictionLimits, KeyBound, LenEntry, Released};
use crate::model::{saturating_sub, key_position, lemma_contains_position, lemma_key_position,
    lemma_put, lemma_remove_at, lemma_touch, lemma_total_frame, lemma_total_nonneg,
    lemma_keys_in_range, keys_in_range, strictly_increasing, total_size,
    CacheView};
use crate::lru_order::entry_keys;

verus! {

/// A round of eviction with byte limit `max_bytes` takes a prefix of the
/// recency order: the least recently used entries, in that order. The rest
/// keeps its data, and the rule no longer holds for what is left.
pub proof fn lemma_evict_loop<T: LenEntry>(
    l: EvictionLimits,
    v: CacheView<T>,
    max_bytes: u64,
    now: u64,
)
    requires
        v.well_formed(),
    ensures
        ({
            let (w, released) = l.evict_loop(v, max_bytes, now);
            &&& released.len() <= v.entries.len()
            &&& w.entries == v.entries.skip(released.len() as int)
            &&& forall|j: int|
                0 <= j < released.len() ==> #[trigger] released[j] == Released::Evicted(
                    v.data[v.entries[j].0],
                )
            &&& w.well_formed()
            &&& w.size() <= v.size()
            &&& forall|k: u64| #[trigger] w.contains(k) ==> v.contains(k) && w.data[k] == v.data[k]
            &&& w.entries.len() == 0 || !l.should_evict(
                w.len(),
                w.entries[0].1,
                w.size(),
                max_bytes,
                now,
            )
        }),
    decreases v.entries.len(),
{
    if v.entries.len() > 0 && l.should_evict(v.len(), v.entries[0].1, v.size(), max_bytes, now) {
        lemma_remove_at(v, 0);
        let v1 = v.remove_at(0);
        lemma_evict_loop(l, v1, max_bytes, now);
        let (w, rest) = l.evict_loop(v1, max_bytes, now);
        let released = l.evict_loop(v, max_bytes, now).1;
        assert(released == seq![Released::Evicted(v.data[v.entries[0].0])] + rest);
        assert(v1.entries =~= v.entries.skip(1));
        assert(w.entries =~= v.entries.skip(released.len() as int));
        assert forall|j: int| 0 <= j < released.len() implies #[trigger] released[j]
            == Released::Evicted(v.data[v.entries[j].0]) by {
            if j > 0 {
                assert(released[j] == rest[j - 1]);
                assert(v1.entries[j - 1] == v.entries[j]);
                assert(entry_keys(v.entries)[0] != entry_keys(v.entries)[j]);
            }
        }
    } else {
        assert(v.entries.skip(0) =~= v.entries);
    }
}

/// The same for a whole round of eviction as run by the map.
pub proof fn lemma_evict<T: LenEntry>(l: EvictionLimits, v: CacheView<T>, now: u64)
    requires
        v.well_formed(),
    ensures
        ({
            let (w, released) = l.evict(v, now);
            &&& released.len() <= v.entries.len()
            &&& w.entries == v.entries.skip(released.len() as int)
            &&& forall|j: int|
                0 <= j < released.len() ==> #[trigger] released[j] == Released::Evicted(
                    v.data[v.entries[j].0],
                )
            &&& w.well_formed()
            &&& w.size() <= v.size()
            &&& forall|k: u64| #[trigger] w.contains(k) ==> v.contains(k) && w.data[k] == v.data[k]
        }),
{
    if v.entries.len() == 0 {
        assert(v.entries.skip(0) =~= v.entries);
    } else {
        lemma_evict_loop(l, v, l.evict_threshold(v, now), now);
    }
}

/// Eviction takes the least recently used entries first: what a round of
/// eviction leaves is the recency order without its first entries, and the
/// released data is theirs, in that order; the data of every remaining
/// key is unchanged.
pub proof fn law_eviction_takes_least_recently_used<T: LenEntry>(
    l: EvictionLimits,
    v: CacheView<T>,
    now: u64,
)
    requires
        v.well_formed(),
    ensures
        ({
            let (w, released) = l.evict(v, now);
            &&& w.entries == v.entries.skip(released.len() as int)
            &&& forall|j: int|
                0 <= j < released.len() ==> #[trigger] released[j] == Released::Evicted(
                    v.data[v.entries[j].0],
                )
            &&& forall|k: u64| #[trigger] w.contains(k) ==> w.data[k] == v.data[k]
        }),
{
    lemma_evict(l, v, now);
}

/// After a round of eviction: there are at most `max_count` entries (where
/// that is set); the least recently used entry is not older than
/// `max_seconds` (where that is set); where `max_bytes` is set, the store is
/// empty or under `max_bytes`; and where the round began with the rule
/// holding and `evict_bytes` set, the store is empty or under `evict_bytes`
/// below `max_bytes` (saturating: with `evict_bytes >= max_bytes` it is
/// empty).
pub proof fn law_eviction_enforces_limits<T: LenEntry>(
    l: EvictionLimits,
    v: CacheView<T>,
    now: u64,
)
    requires
        v.well_formed(),
    ensures
        ({
            let w = l.evict(v, now).0;
            &&& l.max_count != 0 ==> w.len() <= l.max_count
            &&& l.max_seconds != 0 && w.len() > 0 ==> w.entries[0].1 >= (now as i32)
                - l.max_seconds
            &&& l.max_bytes != 0 ==> w.len() == 0 || w.size() < l.max_bytes
            &&& l.max_bytes != 0 && l.evict_bytes != 0 && v.len() > 0 && l.should_evict(
                v.len(),
                v.entries[0].1,
                v.size(),
                l.max_bytes,
                now,
            ) ==> w.len() == 0 || w.size() < saturating_sub(l.max_bytes, l.evict_bytes)
        }),
{
    if v.entries.len() > 0 {
        lemma_evict_loop(l, v, l.evict_threshold(v, now), now);
    }
}

/// After an insert the same holds: the store respects `max_count` and, where
/// `max_bytes` is set, is empty or under it.
pub proof fn law_insert_enforces_limits<T: LenEntry>(
    l: EvictionLimits,
    v: CacheView<T>,
    k: u64,
    d: T,
    secs: i32,
    now: u64,
)
    requires
        v.well_formed(),
    ensures
        ({
            let w = l.insert_step(v, k, d, secs, now).0;
            &&& w.well_formed()
            &&& l.max_count != 0 ==> w.len() <= l.max_count
            &&& l.max_bytes != 0 ==> w.len() == 0 || w.size() < l.max_bytes
        }),
{
    lemma_put(v, k, secs, d);
    let v1 = v.put(k, secs, d).0;
    lemma_evict(l, v1, now);
    law_eviction_enforces_limits(l, v1, now);
}

/// A map whose limits are all 0 never evicts.
pub proof fn law_unlimited_map_never_evicts<T: LenEntry>(
    l: EvictionLimits,
    v: CacheView<T>,
    now: u64,
)
    requires
        l.max_bytes == 0,
        l.max_seconds == 0,
        l.max_count == 0,
    ensures
        l.evict(v, now) == (v, Seq::<Released<T>>::empty()),
{
}

/// What a read gives back of a write: after `d` is stored under `k`, a
/// read of `k` gives `d` back where `k` is still stored (it was not evicted
/// in between), and nothing otherwise. The written entry is the most
/// recently used one until something else is used.
pub proof fn law_read_after_write<T: LenEntry>(
    l: EvictionLimits,
    v: CacheView<T>,
    k: u64,
    d: T,
    secs: i32,
    now: u64,
    later: u64,
)
    requires
        v.well_formed(),
    ensures
        ({
            let w = l.insert_step(v, k, d, secs, now).0;
            let (u, read, _) = l.get(w, k, later);
            &&& w.contains(k) ==> w.data[k] == d && w.entries.last() == (k, secs)
            &&& read is Some ==> read == Some(d)
            &&& read is Some <==> l.evict(w, later).0.contains(k)
            &&& read is Some ==> u.entries.last() == (k, later as i32)
        }),
{
    lemma_put(v, k, secs, d);
    let v1 = v.put(k, secs, d).0;
    assert(v1.entries.last() == (k, secs));
    lemma_evict(l, v1, now);
    let w = l.insert_step(v, k, d, secs, now).0;
    if w.contains(k) {
        let n = l.evict(v1, now).1.len() as int;
        assert(w.entries.len() > 0) by {
            assert(entry_keys(w.entries).contains(k));
        }
        assert(w.entries.last() == v1.entries[v1.entries.len() - 1]);
    }
    lemma_evict(l, w, later);
    let w2 = l.evict(w, later).0;
    if w2.contains(k) {
        lemma_touch(w2, k, later as i32);
    }
}

/// A map with no limits gives back every write: after `d` is stored under
/// `k`, a read of `k` gives `d`.
pub proof fn law_unlimited_read_after_write<T: LenEntry>(
    l: EvictionLimits,
    v: CacheView<T>,
    k: u64,
    d: T,
    secs: i32,
    now: u64,
    later: u64,
)
    requires
        v.well_formed(),
        l.max_bytes == 0,
        l.max_seconds == 0,
        l.max_count == 0,
    ensures
        l.get(l.insert_step(v, k, d, secs, now).0, k, later).1 == Some(d),
{
    lemma_put(v, k, secs, d);
    let w = l.insert_step(v, k, d, secs, now).0;
    assert(w == v.put(k, secs, d).0);
    assert(w.data.contains_key(k));
    law_read_after_write(l, v, k, d, secs, now, later);
}

/// An insert releases the data it replaced first, where the key was
/// stored; every other released item was evicted.
pub proof fn law_insert_reports_replaced<T: LenEntry>(
    l: EvictionLimits,
    v: CacheView<T>,
    k: u64,
    d: T,
    secs: i32,
    now: u64,
)
    requires
        v.well_formed(),
    ensures
        ({
            let released = l.insert_step(v, k, d, secs, now).1;
            &&& v.contains(k) ==> released.len() > 0 && released[0] == Released::Replaced(v.data[k])
            &&& forall|j: int|
                (if v.contains(k) {
                    1int
                } else {
                    0int
                }) <= j < released.len() ==> #[trigger] released[j] is Evicted
        }),
{
    lemma_put(v, k, secs, d);
    let v1 = v.put(k, secs, d).0;
    lemma_evict(l, v1, now);
    let evicted = l.evict(v1, now).1;
    let released = l.insert_step(v, k, d, secs, now).1;
    assert forall|j: int|
        (if v.contains(k) {
            1int
        } else {
            0int
        }) <= j < released.len() implies #[trigger] released[j] is Evicted by {
        if v.contains(k) {
            assert(released[j] == evicted[j - 1]);
        } else {
            assert(released[j] == evicted[j]);
        }
    }
}

/// After a removal the key is not stored; the removal reports whether it
/// was stored once the round of eviction had run.
pub proof fn law_remove_then_absent<T: LenEntry>(
    l: EvictionLimits,
    v: CacheView<T>,
    k: u64,
    now: u64,
)
    requires
        v.well_formed(),
    ensures
        ({
            let (w, removed, _) = l.remove(v, k, now);
            &&& !w.contains(k)
            &&& removed == l.evict(v, now).0.contains(k)
            &&& w.well_formed()
        }),
{
    lemma_evict(l, v, now);
    let v1 = l.evict(v, now).0;
    if v1.contains(k) {
        lemma_contains_position(v1.entries, k);
        lemma_remove_at(v1, key_position(v1.entries, k));
    }
}

/// A size query answers the length of the data stored under the key, or
/// nothing; with `peek` it leaves the recency order as it was, but for the
/// key itself where the query evicted it.
pub proof fn law_size_query<T: LenEntry>(
    l: EvictionLimits,
    v: CacheView<T>,
    k: u64,
    peek: bool,
    lru_len: int,
    now: u64,
)
    requires
        v.well_formed(),
    ensures
        ({
            let (w, answer, _) = l.size_lookup(v, k, peek, lru_len, now);
            &&& answer matches Some(n) ==> v.contains(k) && n == v.data[k].spec_len()
            &&& answer is None ==> !w.contains(k)
            &&& peek && answer is Some ==> w == v
            &&& w.well_formed()
        }),
{
    if v.contains(k) {
        lemma_contains_position(v.entries, k);
        lemma_remove_at(v, key_position(v.entries, k));
        lemma_touch(v, k, now as i32);
    }
}

/// Total length of the data of a batch of inserts.
pub open spec fn batch_len<T: LenEntry>(items: Seq<(u64, T)>) -> int
    decreases items.len(),
{
    if items.len() == 0 {
        0
    } else {
        items[0].1.spec_len() + batch_len(items.drop_first())
    }
}

/// A batch of inserts stays within machine integers at every step where
/// the store's size plus the lengths of all new data fits in a `u64` and
/// the number of entries plus the batch size stays below `usize::MAX`:
/// replacements and evictions only make room.
pub proof fn law_batch_fits<T: LenEntry>(
    l: EvictionLimits,
    v: CacheView<T>,
    items: Seq<(u64, T)>,
    secs: i32,
    now: u64,
)
    requires
        v.well_formed(),
        v.size() + batch_len(items) <= u64::MAX,
        v.len() + items.len() < usize::MAX,
    ensures
        l.insert_all_fits(v, items, secs, now),
    decreases items.len(),
{
    if items.len() > 0 {
        let (k, d) = items[0];
        lemma_put(v, k, secs, d);
        lemma_batch_len_nonneg(items.drop_first());
        let v1 = v.put(k, secs, d).0;
        lemma_evict(l, v1, now);
        let w = l.insert_step(v, k, d, secs, now).0;
        assert(w.len() <= v1.len()) by {
            assert(w.entries.len() == v1.entries.skip(l.evict(v1, now).1.len() as int).len());
        }
        law_batch_fits(l, w, items.drop_first(), secs, now);
    }
}

/// The lengths of a batch are at least those of any of its tails.
pub proof fn lemma_batch_len_prefix<T: LenEntry>(items: Seq<(u64, T)>, i: int)
    requires
        0 <= i <= items.len(),
    ensures
        batch_len(items) >= batch_len(items.skip(i)),
    decreases i,
{
    if i > 0 {
        assert(items.skip(1).skip(i - 1) =~= items.skip(i));
        assert(items.drop_first() =~= items.skip(1));
        lemma_batch_len_prefix(items.drop_first(), i - 1);
        lemma_batch_len_nonneg(items.drop_first());
        lemma_batch_len_nonneg(items);
    } else {
        assert(items.skip(0) =~= items);
    }
}

pub proof fn lemma_batch_len_nonneg<T: LenEntry>(items: Seq<(u64, T)>)
    ensures
        batch_len(items) >= 0,
    decreases items.len(),
{
    if items.len() > 0 {
        lemma_batch_len_nonneg(items.drop_first());
    }
}

/// A batch of inserts is one insert after another: a batch of one item is
/// exactly `insert_step` of that item, and the batch `a + b` is the batch
/// `a` followed by the batch `b`, releasing what `a` releases and then what
/// `b` releases.
pub proof fn law_batch_is_inserts_in_turn<T: LenEntry>(
    l: EvictionLimits,
    v: CacheView<T>,
    a: Seq<(u64, T)>,
    b: Seq<(u64, T)>,
    secs: i32,
    now: u64,
)
    ensures
        a.len() == 1 ==> l.insert_all(v, a, secs, now) == l.insert_step(
            v,
            a[0].0,
            a[0].1,
            secs,
            now,
        ),
        l.insert_all(v, a + b, secs, now) == ({
            let (v1, r1) = l.insert_all(v, a, secs, now);
            let (v2, r2) = l.insert_all(v1, b, secs, now);
            (v2, r1 + r2)
        }),
    decreases a.len(),
{
    if a.len() == 1 {
        let (v1, r1) = l.insert_step(v, a[0].0, a[0].1, secs, now);
        assert(a.drop_first() =~= Seq::<(u64, T)>::empty());
        assert(l.insert_all(v1, a.drop_first(), secs, now) == (v1, Seq::<Released<T>>::empty()));
        assert(r1 + Seq::<Released<T>>::empty() =~= r1);
    }
    if a.len() == 0 {
        assert(a + b =~= b);
        let r2 = l.insert_all(v, b, secs, now).1;
        assert(Seq::<Released<T>>::empty() + r2 =~= r2);
    } else {
        let (v1, r1) = l.insert_step(v, a[0].0, a[0].1, secs, now);
        assert((a + b)[0] == a[0]);
        assert((a + b).drop_first() =~= a.drop_first() + b);
        law_batch_is_inserts_in_turn(l, v1, a.drop_first(), b, secs, now);
        let (v2, r2) = l.insert_all(v1, a.drop_first(), secs, now);
        let r3 = l.insert_all(v2, b, secs, now).1;
        assert(r1 + (r2 + r3) =~= (r1 + r2) + r3);
    }
}

/// Where the key index is kept, it holds exactly the stored keys, so every
/// key that `range` meets is stored.
pub proof fn law_index_is_stored_keys<T: LenEntry + Clone>(m: &EvictingMap<T>)
    requires
        m.wf(),
    ensures
        m@.index matches Some(ix) ==> ix == m@.data.dom(),
        m.sum_store_size() == m@.size(),
{
    m.lemma_wf();
}

/// A batch is the inserts of its items one after another: the batch with
/// one more item at its end is the batch, then `insert_step` of that item,
/// releasing what the batch released and then what the insert released.
pub proof fn law_batch_then_insert<T: LenEntry>(
    l: EvictionLimits,
    v: CacheView<T>,
    items: Seq<(u64, T)>,
    k: u64,
    d: T,
    secs: i32,
    now: u64,
)
    ensures
        l.insert_all(v, items.push((k, d)), secs, now) == ({
            let (v1, r1) = l.insert_all(v, items, secs, now);
            let (v2, r2) = l.insert_step(v1, k, d, secs, now);
            (v2, r1 + r2)
        }),
{
    let one = seq![(k, d)];
    assert(items.push((k, d)) =~= items + one);
    law_batch_is_inserts_in_turn(l, v, items, one, secs, now);
    let v1 = l.insert_all(v, items, secs, now).0;
    law_batch_is_inserts_in_turn(l, v1, one, Seq::<(u64, T)>::empty(), secs, now);
}

/// Storing under a key keeps the key index, where it is kept, equal to the
/// stored keys: a new key joins it and a replaced key stays in it.
pub proof fn law_put_keeps_index<T: LenEntry>(v: CacheView<T>, k: u64, secs: i32, d: T)
    requires
        v.well_formed(),
    ensures
        v.index is Some ==> v.put(k, secs, d).0.index == Some(v.put(k, secs, d).0.data.dom()),
        v.put(k, secs, d).0.contains(k),
{
    lemma_put(v, k, secs, d);
}

/// A size query never reports an expired entry: where the entry of `k` was
/// last used before `now` minus `max_seconds` (`max_seconds` set), or the
/// map held more than `max_count` entries when the batch began
/// (`max_count` set), the query answers nothing, evicts the entry and
/// releases its data, whether `peek` is set or not.
pub proof fn law_size_query_evicts_expired<T: LenEntry>(
    l: EvictionLimits,
    v: CacheView<T>,
    i: int,
    peek: bool,
    lru_len: int,
    now: u64,
)
    requires
        v.well_formed(),
        0 <= i < v.entries.len(),
        (l.max_seconds != 0 && v.entries[i].1 < (now as i32) - l.max_seconds) || (l.max_count
            != 0 && lru_len > l.max_count),
    ensures
        ({
            let k = v.entries[i].0;
            let (w, answer, released) = l.size_lookup(v, k, peek, lru_len, now);
            &&& answer is None
            &&& !w.contains(k)
            &&& released == seq![Released::Evicted(v.data[k])]
        }),
{
    let k = v.entries[i].0;
    lemma_key_position(v.entries, i);
    assert(entry_keys(v.entries)[i] == k);
    assert(v.contains(k));
}

/// A size query for a stored key whose entry is not older than
/// `max_seconds` (where that is set), in a map within `max_count` (where
/// that is set), answers the length of its data and keeps it, releasing
/// nothing, whatever the byte limit. With `peek` the map is left as it
/// was; without it the entry becomes the most recently used, with time
/// `now`.
pub proof fn law_size_query_keeps_fresh<T: LenEntry>(
    l: EvictionLimits,
    v: CacheView<T>,
    i: int,
    peek: bool,
    lru_len: int,
    now: u64,
)
    requires
        v.well_formed(),
        0 <= i < v.entries.len(),
        l.max_seconds == 0 || v.entries[i].1 >= (now as i32) - l.max_seconds,
        l.max_count == 0 || lru_len <= l.max_count,
    ensures
        ({
            let k = v.entries[i].0;
            let (w, answer, released) = l.size_lookup(v, k, peek, lru_len, now);
            &&& answer == Some(v.data[k].spec_len())
            &&& w.contains(k)
            &&& w.data == v.data
            &&& released.len() == 0
            &&& peek ==> w == v
            &&& !peek ==> w.entries.last() == (k, now as i32) && w.len() == v.len()
        }),
{
    let k = v.entries[i].0;
    lemma_key_position(v.entries, i);
    assert(entry_keys(v.entries)[i] == k);
    assert(v.contains(k));
    lemma_touch(v, k, now as i32);
}

/// A round of eviction evicts nothing when the store is under `max_bytes`,
/// holds at most `max_count` entries and its least recently used entry is
/// not older than `max_seconds` (each where it is set).
pub proof fn law_eviction_within_limits_keeps_all<T: LenEntry>(
    l: EvictionLimits,
    v: CacheView<T>,
    now: u64,
)
    requires
        l.max_bytes == 0 || v.size() < l.max_bytes,
        l.max_count == 0 || v.len() <= l.max_count,
        v.len() == 0 || l.max_seconds == 0 || v.entries[0].1 >= (now as i32) - l.max_seconds,
    ensures
        l.evict(v, now) == (v, Seq::<Released<T>>::empty()),
{
}

/// An insert after which the store is under `max_bytes`, holds at most
/// `max_count` entries and whose least recently used entry is not older
/// than `max_seconds` keeps every entry: it releases at most the data it
/// replaced.
pub proof fn law_insert_within_limits_keeps_all<T: LenEntry>(
    l: EvictionLimits,
    v: CacheView<T>,
    k: u64,
    d: T,
    secs: i32,
    now: u64,
)
    requires
        v.well_formed(),
        ({
            let v1 = v.put(k, secs, d).0;
            &&& l.max_bytes == 0 || v1.size() < l.max_bytes
            &&& l.max_count == 0 || v1.len() <= l.max_count
            &&& l.max_seconds == 0 || v1.entries[0].1 >= (now as i32) - l.max_seconds
        }),
    ensures
        ({
            let (w, released) = l.insert_step(v, k, d, secs, now);
            &&& w == v.put(k, secs, d).0
            &&& released == (if v.contains(k) {
                seq![Released::Replaced(v.data[k])]
            } else {
                Seq::<Released<T>>::empty()
            })
        }),
{
    lemma_put(v, k, secs, d);
    let v1 = v.put(k, secs, d).0;
    law_eviction_within_limits_keeps_all(l, v1, now);
    if v.contains(k) {
        assert(seq![Released::Replaced(v.data[k])] + Seq::<Released<T>>::empty() =~= seq![
            Released::Replaced(v.data[k]),
        ]);
    } else {
        assert(Seq::<Released<T>>::empty() + Seq::<Released<T>>::empty() =~= Seq::<
            Released<T>,
        >::empty());
    }
}

/// Each entry that a round of eviction with byte limit `max_bytes` takes
/// met the rule at the moment it was taken: with the entries before it
/// gone, the count, its own time and the size of what was left.
pub proof fn lemma_evict_loop_reasons<T: LenEntry>(
    l: EvictionLimits,
    v: CacheView<T>,
    max_bytes: u64,
    now: u64,
)
    requires
        v.well_formed(),
    ensures
        ({
            let released = l.evict_loop(v, max_bytes, now).1;
            forall|j: int|
                0 <= j < released.len() ==> l.should_evict(
                    v.len() - j,
                    v.entries[j].1,
                    #[trigger] total_size(v.entries.skip(j), v.data),
                    max_bytes,
                    now,
                )
        }),
    decreases v.entries.len(),
{
    if v.entries.len() > 0 && l.should_evict(v.len(), v.entries[0].1, v.size(), max_bytes, now) {
        lemma_remove_at(v, 0);
        let v1 = v.remove_at(0);
        lemma_evict_loop_reasons(l, v1, max_bytes, now);
        lemma_evict_loop(l, v, max_bytes, now);
        let rest = l.evict_loop(v1, max_bytes, now).1;
        let released = l.evict_loop(v, max_bytes, now).1;
        assert(released.len() == rest.len() + 1);
        assert(v.entries.skip(0) =~= v.entries);
        assert forall|j: int| 0 <= j < released.len() implies l.should_evict(
            v.len() - j,
            v.entries[j].1,
            #[trigger] total_size(v.entries.skip(j), v.data),
            max_bytes,
            now,
        ) by {
            if j > 0 {
                let s = v.entries.skip(j);
                assert(v1.entries.skip(j - 1) =~= s);
                assert(v1.entries[j - 1] == v.entries[j]);
                assert forall|x: int| 0 <= x < s.len() implies v1.data[#[trigger] s[x].0].spec_len()
                    == v.data[s[x].0].spec_len() by {
                    assert(s[x] == v.entries[j + x]);
                    assert(entry_keys(v.entries)[0] != entry_keys(v.entries)[j + x]);
                }
                lemma_total_frame(s, v1.data, v.data);
                assert(total_size(v1.entries.skip(j - 1), v1.data) == total_size(s, v.data));
            }
        }
    }
}

/// Whether a round of eviction has a reason to take the entry at position
/// `j` of `v`, the entries before it being gone: the entry is older than
/// `max_seconds`, more than `max_count` entries are left, the store is at
/// or over `max_bytes`, or the round began over a limit (with `max_bytes`
/// set) and `evict_bytes` is set and the store is still at or over
/// `evict_bytes` below `max_bytes` (saturating). Each limit counts where it
/// is set.
pub open spec fn eviction_reason<T: LenEntry>(
    l: EvictionLimits,
    v: CacheView<T>,
    j: int,
    now: u64,
) -> bool {
    let size_before = total_size(v.entries.skip(j), v.data);
    let began_over = v.len() > 0 && l.max_bytes != 0 && (v.size() >= l.max_bytes || (l.max_seconds
        != 0 && v.entries[0].1 < (now as i32) - l.max_seconds) || (l.max_count != 0 && v.len()
        > l.max_count));
    ||| l.max_seconds != 0 && v.entries[j].1 < (now as i32) - l.max_seconds
    ||| l.max_count != 0 && v.len() - j > l.max_count
    ||| l.max_bytes != 0 && size_before >= l.max_bytes
    ||| began_over && l.evict_bytes != 0 && size_before >= saturating_sub(
        l.max_bytes,
        l.evict_bytes,
    )
}

/// A round of eviction takes an entry only for a reason (`eviction_reason`).
/// So a round never takes the store below `max_bytes - evict_bytes` but to
/// evict expired entries or to respect `max_count`, and `evict_bytes` only
/// lowers the byte limit of a round that began over a limit.
pub proof fn law_eviction_only_for_a_reason<T: LenEntry>(
    l: EvictionLimits,
    v: CacheView<T>,
    now: u64,
)
    requires
        v.well_formed(),
    ensures
        forall|j: int|
            0 <= j < l.evict(v, now).1.len() ==> #[trigger] eviction_reason(l, v, j, now),
{
    if v.entries.len() > 0 {
        let limit = l.evict_threshold(v, now);
        lemma_evict_loop_reasons(l, v, limit, now);
        lemma_evict_loop(l, v, limit, now);
        assert(v.entries.skip(0) =~= v.entries);
        assert forall|j: int| 0 <= j < l.evict(v, now).1.len() implies #[trigger] eviction_reason(
            l,
            v,
            j,
            now,
        ) by {
            lemma_total_nonneg(v.entries.skip(j), v.data);
            assert(l.should_evict(
                v.len() - j,
                v.entries[j].1,
                total_size(v.entries.skip(j), v.data),
                limit,
                now,
            ));
        }
    }
}

/// The keys that `range` visits are the stored keys within the bounds, and
/// only those, in increasing order: every one is above an included start
/// or at it, strictly above an excluded start, below an included end or at
/// it, strictly below an excluded end. A key equal to an excluded bound is
/// never visited, whatever the other bound.
pub proof fn law_range_keys_within_bounds<T: LenEntry>(
    v: CacheView<T>,
    start: KeyBound,
    end: KeyBound,
)
    requires
        v.well_formed(),
    ensures
        ({
            let ks = keys_in_range(v.data.dom(), start, end);
            &&& strictly_increasing(ks)
            &&& forall|k: u64| #[trigger]
                ks.contains(k) <==> {
                    &&& v.contains(k)
                    &&& start matches KeyBound::Included(s) ==> s <= k
                    &&& start matches KeyBound::Excluded(s) ==> s < k
                    &&& end matches KeyBound::Included(e) ==> k <= e
                    &&& end matches KeyBound::Excluded(e) ==> k < e
                }
            &&& start matches KeyBound::Excluded(s) ==> !ks.contains(s)
            &&& end matches KeyBound::Excluded(e) ==> !ks.contains(e)
        }),
{
    vstd::seq_lib::seq_to_set_is_finite(entry_keys(v.entries));
    assert(v.data.dom() =~= entry_keys(v.entries).to_set());
    lemma_keys_in_range(v.data.dom(), start, end);
}

} // verus!
