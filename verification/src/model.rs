//! The mathematical model of an evicting map: its entries in recency order,
//! the data stored under each key and the optional ordered key index, with
//! the eviction rules stated over that model.
use vstd::prelude::*;

use crate::evicting_map::{EvictionLimits, KeyBound, LenEntry, Released};
use crate::lru_order::entry_keys;

verus! {

/// What an evicting map holds.
pub struct CacheView<T> {
    /// Keys with the second at which each was last written or read,
    /// least recently used first.
    pub entries: Seq<(u64, i32)>,
    /// The data stored under each key.
    pub data: Map<u64, T>,
    /// The ordered key index used by range queries, where it is kept.
    pub index: Option<Set<u64>>,
}

/// Sum of the lengths of the data stored under the keys of `s`.
pub open spec fn total_size<T: LenEntry>(s: Seq<(u64, i32)>, data: Map<u64, T>) -> int
    decreases s.len(),
{
    if s.len() == 0 {
        0
    } else {
        total_size(s.drop_last(), data) + data[s.last().0].spec_len()
    }
}

/// The position of key `k` among the entries `s`.
pub open spec fn key_position(s: Seq<(u64, i32)>, k: u64) -> int {
    choose|i: int| 0 <= i < s.len() && s[i].0 == k
}

/// `a` saturating-minus `b`.
pub open spec fn saturating_sub(a: u64, b: u64) -> u64 {
    if a >= b {
        (a - b) as u64
    } else {
        0
    }
}

impl<T: LenEntry> CacheView<T> {
    /// Keys are unique, the stored data is keyed exactly by the entries'
    /// keys, and the index, where it is kept, holds exactly the stored keys.
    pub open spec fn well_formed(self) -> bool {
        &&& entry_keys(self.entries).no_duplicates()
        &&& forall|k: u64| #[trigger] self.data.contains_key(k) <==> entry_keys(self.entries).contains(k)
        &&& self.index matches Some(ix) ==> ix == self.data.dom()
    }

    /// Total length of the stored data.
    pub open spec fn size(self) -> int {
        total_size(self.entries, self.data)
    }

    /// Number of entries.
    pub open spec fn len(self) -> int {
        self.entries.len() as int
    }

    pub open spec fn contains(self, k: u64) -> bool {
        self.data.contains_key(k)
    }

    /// The model after the entry at position `i` left the map.
    pub open spec fn remove_at(self, i: int) -> CacheView<T> {
        let k = self.entries[i].0;
        CacheView {
            entries: self.entries.remove(i),
            data: self.data.remove(k),
            index: match self.index {
                Some(ix) => Some(ix.remove(k)),
                None => None,
            },
        }
    }

    /// The model after the entry of `k`, which is present, became the most
    /// recently used one with time `secs`.
    pub open spec fn touch(self, k: u64, secs: i32) -> CacheView<T> {
        CacheView {
            entries: self.entries.remove(key_position(self.entries, k)).push((k, secs)),
            ..self
        }
    }

    /// The model after `d` was stored under `k` with time `secs`, and the
    /// data it replaced. The index, where it is kept, holds `k` afterwards.
    pub open spec fn put(self, k: u64, secs: i32, d: T) -> (CacheView<T>, Option<T>) {
        if self.contains(k) {
            (
                CacheView {
                    entries: self.entries.remove(key_position(self.entries, k)).push((k, secs)),
                    data: self.data.insert(k, d),
                    index: match self.index {
                        Some(ix) => Some(ix.insert(k)),
                        None => None,
                    },
                },
                Some(self.data[k]),
            )
        } else {
            (
                CacheView {
                    entries: self.entries.push((k, secs)),
                    data: self.data.insert(k, d),
                    index: match self.index {
                        Some(ix) => Some(ix.insert(k)),
                        None => None,
                    },
                },
                None,
            )
        }
    }

    /// The model after the entry of `k` left the map, and the data released.
    pub open spec fn take(self, k: u64) -> (CacheView<T>, Seq<Released<T>>) {
        if self.contains(k) {
            (self.remove_at(key_position(self.entries, k)), seq![Released::Evicted(self.data[k])])
        } else {
            (self, seq![])
        }
    }

    /// Whether storing `d` under `k` keeps the total size and the number of
    /// entries within machine integers.
    pub open spec fn fits(self, k: u64, d: T) -> bool {
        &&& self.len() < usize::MAX
        &&& self.size() - (if self.contains(k) {
            self.data[k].spec_len() as int
        } else {
            0
        }) + d.spec_len() <= u64::MAX
    }
}

impl EvictionLimits {
    /// `now as i32` minus `max_seconds` fits in an `i32`.
    pub open spec fn clock_ok(self, now: u64) -> bool {
        i32::MIN <= (now as i32) - self.max_seconds <= i32::MAX
    }

    /// The eviction rule: the store is at or over the byte limit
    /// `max_bytes` of the round (where that is not 0; a round limit that
    /// saturated to 0 while the store has a byte limit counts as always
    /// reached), the item written or read at `secs` is older than
    /// `max_seconds` (where that is not 0), or there are more than
    /// `max_count` items (where that is not 0). A round whose byte limit
    /// saturated to 0 evicts down to an empty store.
    pub open spec fn should_evict(
        self,
        len: int,
        secs: i32,
        sum: int,
        max_bytes: u64,
        now: u64,
    ) -> bool {
        ||| (if max_bytes == 0 {
            self.max_bytes != 0
        } else {
            sum >= max_bytes
        })
        ||| (self.max_seconds != 0 && secs < (now as i32) - self.max_seconds)
        ||| (self.max_count != 0 && len > self.max_count)
    }

    /// Evict least recently used entries while the rule holds with
    /// `max_bytes`; the evicted data, in eviction order.
    pub open spec fn evict_loop<T: LenEntry>(self, v: CacheView<T>, max_bytes: u64, now: u64) -> (
        CacheView<T>,
        Seq<Released<T>>,
    )
        decreases v.entries.len(),
    {
        if v.entries.len() > 0 && self.should_evict(
            v.len(),
            v.entries[0].1,
            v.size(),
            max_bytes,
            now,
        ) {
            let (rest, released) = self.evict_loop(v.remove_at(0), max_bytes, now);
            (rest, seq![Released::Evicted(v.data[v.entries[0].0])] + released)
        } else {
            (v, seq![])
        }
    }

    /// The byte limit the loop runs with: where both `max_bytes` and
    /// `evict_bytes` are set and the rule holds, `evict_bytes` below
    /// `max_bytes` (saturating); otherwise `max_bytes`.
    pub open spec fn evict_threshold<T: LenEntry>(self, v: CacheView<T>, now: u64) -> u64 {
        if self.max_bytes != 0 && self.evict_bytes != 0 && self.should_evict(
            v.len(),
            v.entries[0].1,
            v.size(),
            self.max_bytes,
            now,
        ) {
            saturating_sub(self.max_bytes, self.evict_bytes)
        } else {
            self.max_bytes
        }
    }

    /// One round of eviction as run before reads, removals and after each
    /// insert.
    pub open spec fn evict<T: LenEntry>(self, v: CacheView<T>, now: u64) -> (
        CacheView<T>,
        Seq<Released<T>>,
    ) {
        if v.entries.len() == 0 {
            (v, seq![])
        } else {
            self.evict_loop(v, self.evict_threshold(v, now), now)
        }
    }
}

impl EvictionLimits {
    /// Storing `d` under `k` with time `secs`, then a round of eviction;
    /// the replaced data, then the evicted data.
    pub open spec fn insert_step<T: LenEntry>(
        self,
        v: CacheView<T>,
        k: u64,
        d: T,
        secs: i32,
        now: u64,
    ) -> (CacheView<T>, Seq<Released<T>>) {
        let (v1, replaced) = v.put(k, secs, d);
        let (v2, evicted) = self.evict(v1, now);
        (
            v2,
            match replaced {
                Some(x) => seq![Released::Replaced(x)],
                None => Seq::<Released<T>>::empty(),
            } + evicted,
        )
    }

    /// `insert_step` for each item in turn.
    pub open spec fn insert_all<T: LenEntry>(
        self,
        v: CacheView<T>,
        items: Seq<(u64, T)>,
        secs: i32,
        now: u64,
    ) -> (CacheView<T>, Seq<Released<T>>)
        decreases items.len(),
    {
        if items.len() == 0 {
            (v, seq![])
        } else {
            let (v1, r1) = self.insert_step(v, items[0].0, items[0].1, secs, now);
            let (v2, r2) = self.insert_all(v1, items.drop_first(), secs, now);
            (v2, r1 + r2)
        }
    }

    /// Every step of `insert_all` stays within machine integers.
    pub open spec fn insert_all_fits<T: LenEntry>(
        self,
        v: CacheView<T>,
        items: Seq<(u64, T)>,
        secs: i32,
        now: u64,
    ) -> bool
        decreases items.len(),
    {
        items.len() == 0 || (v.fits(items[0].0, items[0].1) && self.insert_all_fits(
            self.insert_step(v, items[0].0, items[0].1, secs, now).0,
            items.drop_first(),
            secs,
            now,
        ))
    }
}

impl EvictionLimits {
    /// A read: a round of eviction, then, where `k` is still stored, its
    /// entry becomes the most recently used with time `now as i32`. Returns
    /// the data stored under `k` at that point, if any, and the evicted data.
    pub open spec fn get<T: LenEntry>(self, v: CacheView<T>, k: u64, now: u64) -> (
        CacheView<T>,
        Option<T>,
        Seq<Released<T>>,
    ) {
        let (v1, evicted) = self.evict(v, now);
        if v1.contains(k) {
            (v1.touch(k, now as i32), Some(v1.data[k]), evicted)
        } else {
            (v1, None, evicted)
        }
    }

    /// A removal: a round of eviction, then `k` leaves the map where it is
    /// still stored. Returns whether it was, and the evicted data followed
    /// by the removed data.
    pub open spec fn remove<T: LenEntry>(self, v: CacheView<T>, k: u64, now: u64) -> (
        CacheView<T>,
        bool,
        Seq<Released<T>>,
    ) {
        let (v1, evicted) = self.evict(v, now);
        let (v2, removed) = v1.take(k);
        (v2, v1.contains(k), evicted + removed)
    }
}

impl<T: LenEntry> CacheView<T> {
    /// The entry of `k`, which is present, becomes the most recently used,
    /// keeping its time.
    pub open spec fn promote(self, k: u64) -> CacheView<T> {
        self.touch(k, self.entries[key_position(self.entries, k)].1)
    }
}

impl EvictionLimits {
    /// A size query for `k`, against a map that held `lru_len` entries when
    /// the batch began. Where `k` is stored and the rule holds for it with
    /// no byte limit, it is evicted and the answer is `None`; where it is
    /// stored and the rule does not hold, the answer is its length and,
    /// unless `peek`, its entry becomes the most recently used with time
    /// `now as i32`.
    pub open spec fn size_lookup<T: LenEntry>(
        self,
        v: CacheView<T>,
        k: u64,
        peek: bool,
        lru_len: int,
        now: u64,
    ) -> (CacheView<T>, Option<u64>, Seq<Released<T>>) {
        if !v.contains(k) {
            (v, None, seq![])
        } else if self.should_evict(
            lru_len,
            v.entries[key_position(v.entries, k)].1,
            0,
            u64::MAX,
            now,
        ) {
            let (v2, removed) = v.take(k);
            (v2, None, removed)
        } else if peek {
            (v, Some(v.data[k].spec_len()), seq![])
        } else {
            (v.touch(k, now as i32), Some(v.data[k].spec_len()), seq![])
        }
    }

    /// `size_lookup` for each key in turn: the final model, the answers and
    /// the evicted data.
    pub open spec fn size_lookups<T: LenEntry>(
        self,
        v: CacheView<T>,
        keys: Seq<u64>,
        peek: bool,
        lru_len: int,
        now: u64,
    ) -> (CacheView<T>, Seq<Option<u64>>, Seq<Released<T>>)
        decreases keys.len(),
    {
        if keys.len() == 0 {
            (v, seq![], seq![])
        } else {
            let (v1, answer, released) = self.size_lookup(v, keys[0], peek, lru_len, now);
            let (v2, answers, more) = self.size_lookups(v1, keys.drop_first(), peek, lru_len, now);
            (v2, seq![answer] + answers, released + more)
        }
    }
}

/// `k` lies within the range from `start` to `end`.
pub open spec fn in_range(start: KeyBound, end: KeyBound, k: u64) -> bool {
    &&& match start {
        KeyBound::Included(s) => s <= k,
        KeyBound::Excluded(s) => s < k,
        KeyBound::Unbounded => true,
    }
    &&& match end {
        KeyBound::Included(e) => k <= e,
        KeyBound::Excluded(e) => k < e,
        KeyBound::Unbounded => true,
    }
}

/// The range is one that `BTreeSet::range` accepts: the start is not above
/// the end, and they are not equal where both are excluded.
pub open spec fn valid_range(start: KeyBound, end: KeyBound) -> bool {
    match (start, end) {
        (KeyBound::Excluded(s), KeyBound::Excluded(e)) => s < e,
        (KeyBound::Included(s), KeyBound::Included(e)) => s <= e,
        (KeyBound::Included(s), KeyBound::Excluded(e)) => s <= e,
        (KeyBound::Excluded(s), KeyBound::Included(e)) => s <= e,
        _ => true,
    }
}

pub open spec fn strictly_increasing(s: Seq<u64>) -> bool {
    forall|i: int, j: int| 0 <= i < j < s.len() ==> s[i] < s[j]
}

/// The keys of `ix` within the range, in increasing order.
pub open spec fn keys_in_range(ix: Set<u64>, start: KeyBound, end: KeyBound) -> Seq<u64> {
    choose|s: Seq<u64>|
        strictly_increasing(s) && forall|k: u64| #[trigger] s.contains(k) <==> (ix.contains(k)
            && in_range(start, end, k))
}

/// The elements of `s` within the range, in the order of `s`.
pub open spec fn range_filter(s: Seq<u64>, start: KeyBound, end: KeyBound) -> Seq<u64>
    decreases s.len(),
{
    if s.len() == 0 {
        seq![]
    } else {
        range_filter(s.drop_last(), start, end) + if in_range(start, end, s.last()) {
            seq![s.last()]
        } else {
            Seq::<u64>::empty()
        }
    }
}

impl<T: LenEntry> CacheView<T> {
    /// The model with its key index built where it was not kept.
    pub open spec fn with_index(self) -> CacheView<T> {
        CacheView {
            index: Some(
                match self.index {
                    Some(ix) => ix,
                    None => self.data.dom(),
                },
            ),
            ..self
        }
    }
}

// ---------------------------------------------------------------------------
// Lemmas on keys and sizes.

pub proof fn lemma_keys_remove(s: Seq<(u64, i32)>, i: int)
    requires
        0 <= i < s.len(),
    ensures
        entry_keys(s.remove(i)) == entry_keys(s).remove(i),
{
    assert(entry_keys(s.remove(i)) =~= entry_keys(s).remove(i));
}

pub proof fn lemma_keys_push(s: Seq<(u64, i32)>, e: (u64, i32))
    ensures
        entry_keys(s.push(e)) == entry_keys(s).push(e.0),
{
    assert(entry_keys(s.push(e)) =~= entry_keys(s).push(e.0));
}

pub proof fn lemma_total_push<T: LenEntry>(s: Seq<(u64, i32)>, e: (u64, i32), data: Map<u64, T>)
    ensures
        total_size(s.push(e), data) == total_size(s, data) + data[e.0].spec_len(),
{
    assert(s.push(e).drop_last() =~= s);
}

pub proof fn lemma_total_nonneg<T: LenEntry>(s: Seq<(u64, i32)>, data: Map<u64, T>)
    ensures
        total_size(s, data) >= 0,
    decreases s.len(),
{
    if s.len() > 0 {
        lemma_total_nonneg(s.drop_last(), data);
    }
}

pub proof fn lemma_total_remove<T: LenEntry>(s: Seq<(u64, i32)>, i: int, data: Map<u64, T>)
    requires
        0 <= i < s.len(),
    ensures
        total_size(s.remove(i), data) == total_size(s, data) - data[s[i].0].spec_len(),
    decreases s.len(),
{
    if i == s.len() - 1 {
        assert(s.remove(i) =~= s.drop_last());
    } else {
        lemma_total_remove(s.drop_last(), i, data);
        assert(s.remove(i).drop_last() =~= s.drop_last().remove(i));
        assert(s.remove(i).last() == s.last());
    }
}

/// The total only depends on the data stored under the keys of `s`.
pub proof fn lemma_total_frame<T: LenEntry>(
    s: Seq<(u64, i32)>,
    d1: Map<u64, T>,
    d2: Map<u64, T>,
)
    requires
        forall|i: int| 0 <= i < s.len() ==> d1[#[trigger] s[i].0].spec_len() == d2[s[i].0].spec_len(),
    ensures
        total_size(s, d1) == total_size(s, d2),
    decreases s.len(),
{
    if s.len() > 0 {
        assert forall|i: int| 0 <= i < s.drop_last().len() implies d1[#[trigger] s.drop_last()[i].0].spec_len()
            == d2[s.drop_last()[i].0].spec_len() by {
            assert(s.drop_last()[i] == s[i]);
        }
        lemma_total_frame(s.drop_last(), d1, d2);
        assert(d1[s[s.len() - 1].0].spec_len() == d2[s[s.len() - 1].0].spec_len());
    }
}

pub proof fn lemma_no_duplicates_remove(s: Seq<u64>, i: int)
    requires
        s.no_duplicates(),
        0 <= i < s.len(),
    ensures
        s.remove(i).no_duplicates(),
        !s.remove(i).contains(s[i]),
        forall|k: u64| #[trigger] s.remove(i).contains(k) <==> (s.contains(k) && k != s[i]),
{
    let r = s.remove(i);
    assert forall|a: int, b: int| 0 <= a < b < r.len() implies r[a] != r[b] by {
        let a2 = if a < i { a } else { a + 1 };
        let b2 = if b < i { b } else { b + 1 };
        assert(r[a] == s[a2] && r[b] == s[b2]);
    }
    assert forall|k: u64| #[trigger] r.contains(k) implies (s.contains(k) && k != s[i]) by {
        let a = choose|a: int| 0 <= a < r.len() && r[a] == k;
        let a2 = if a < i { a } else { a + 1 };
        assert(s[a2] == k);
    }
    assert forall|k: u64| s.contains(k) && k != s[i] implies #[trigger] r.contains(k) by {
        let a = choose|a: int| 0 <= a < s.len() && s[a] == k;
        assert(a != i);
        let a2 = if a < i { a } else { a - 1 };
        assert(r[a2] == k);
    }
}

/// Removing an entry keeps the model well formed and takes the entry's
/// length off the total.
pub proof fn lemma_remove_at<T: LenEntry>(v: CacheView<T>, i: int)
    requires
        v.well_formed(),
        0 <= i < v.entries.len(),
    ensures
        v.remove_at(i).well_formed(),
        v.remove_at(i).size() == v.size() - v.data[v.entries[i].0].spec_len(),
        v.data[v.entries[i].0].spec_len() <= v.size(),
        v.remove_at(i).entries.len() == v.entries.len() - 1,
{
    let k = v.entries[i].0;
    let w = v.remove_at(i);
    lemma_keys_remove(v.entries, i);
    assert(entry_keys(v.entries)[i] == k);
    lemma_no_duplicates_remove(entry_keys(v.entries), i);
    assert forall|j: int| 0 <= j < w.entries.len() implies w.data[#[trigger] w.entries[j].0].spec_len()
        == v.data[w.entries[j].0].spec_len() by {
        assert(entry_keys(w.entries)[j] == w.entries[j].0);
        assert(entry_keys(w.entries).contains(w.entries[j].0));
    }
    lemma_total_frame(w.entries, w.data, v.data);
    lemma_total_remove(v.entries, i, v.data);
    lemma_total_nonneg(w.entries, v.data);
}

/// With unique keys, the key found at position `i` is at `key_position`.
pub proof fn lemma_key_position(s: Seq<(u64, i32)>, i: int)
    requires
        entry_keys(s).no_duplicates(),
        0 <= i < s.len(),
    ensures
        key_position(s, s[i].0) == i,
{
    let k = s[i].0;
    assert(entry_keys(s)[i] == k);
    let j = key_position(s, k);
    assert(0 <= j < s.len() && s[j].0 == k);
    assert(entry_keys(s)[j] == k);
}

/// A key that is stored has a position among the entries.
pub proof fn lemma_contains_position(s: Seq<(u64, i32)>, k: u64)
    requires
        entry_keys(s).contains(k),
    ensures
        0 <= key_position(s, k) < s.len(),
        s[key_position(s, k)].0 == k,
{
    let j = choose|j: int| 0 <= j < entry_keys(s).len() && entry_keys(s)[j] == k;
    assert(s[j].0 == k);
}


pub proof fn lemma_no_duplicates_push(s: Seq<u64>, k: u64)
    requires
        s.no_duplicates(),
        !s.contains(k),
    ensures
        s.push(k).no_duplicates(),
        forall|x: u64| #[trigger] s.push(k).contains(x) <==> (s.contains(x) || x == k),
{
    let r = s.push(k);
    assert forall|a: int, b: int| 0 <= a < b < r.len() implies r[a] != r[b] by {
        if b == s.len() {
            assert(r[a] == s[a]);
        } else {
            assert(r[a] == s[a] && r[b] == s[b]);
        }
    }
    assert forall|x: u64| #[trigger] r.contains(x) implies (s.contains(x) || x == k) by {
        let a = choose|a: int| 0 <= a < r.len() && r[a] == x;
        if a < s.len() {
            assert(s[a] == x);
        }
    }
    assert forall|x: u64| s.contains(x) || x == k implies #[trigger] r.contains(x) by {
        if x == k {
            assert(r[s.len() as int] == k);
        } else {
            let a = choose|a: int| 0 <= a < s.len() && s[a] == x;
            assert(r[a] == x);
        }
    }
}

/// Storing data keeps the model well formed; the total loses the length of
/// the replaced data and gains that of the new data.
pub proof fn lemma_put<T: LenEntry>(v: CacheView<T>, k: u64, secs: i32, d: T)
    requires
        v.well_formed(),
    ensures
        v.put(k, secs, d).0.well_formed(),
        v.put(k, secs, d).0.size() == v.size() - (if v.contains(k) {
            v.data[k].spec_len() as int
        } else {
            0
        }) + d.spec_len(),
        v.put(k, secs, d).0.len() == v.len() + (if v.contains(k) { 0int } else { 1int }),
        v.contains(k) ==> v.data[k].spec_len() <= v.size(),
{
    let w = v.put(k, secs, d).0;
    if v.contains(k) {
        lemma_contains_position(v.entries, k);
        let i = key_position(v.entries, k);
        let base = v.entries.remove(i);
        lemma_keys_remove(v.entries, i);
        assert(entry_keys(v.entries)[i] == k);
        lemma_no_duplicates_remove(entry_keys(v.entries), i);
        lemma_keys_push(base, (k, secs));
        lemma_no_duplicates_push(entry_keys(base), k);
        assert forall|j: int| 0 <= j < base.len() implies w.data[#[trigger] base[j].0].spec_len()
            == v.data[base[j].0].spec_len() by {
            assert(entry_keys(base)[j] == base[j].0);
        }
        lemma_total_frame(base, w.data, v.data);
        lemma_total_push(base, (k, secs), w.data);
        lemma_total_remove(v.entries, i, v.data);
        lemma_total_nonneg(base, v.data);
        assert forall|x: u64| #[trigger] w.data.contains_key(x) <==> entry_keys(w.entries).contains(x) by {
            if x != k {
                assert(v.data.contains_key(x) <==> entry_keys(v.entries).contains(x));
            }
        }
    } else {
        assert(!entry_keys(v.entries).contains(k));
        lemma_keys_push(v.entries, (k, secs));
        lemma_no_duplicates_push(entry_keys(v.entries), k);
        assert forall|j: int| 0 <= j < v.entries.len() implies w.data[#[trigger] v.entries[j].0].spec_len()
            == v.data[v.entries[j].0].spec_len() by {
            assert(entry_keys(v.entries)[j] == v.entries[j].0);
            assert(entry_keys(v.entries).contains(v.entries[j].0));
        }
        lemma_total_frame(v.entries, w.data, v.data);
        lemma_total_push(v.entries, (k, secs), w.data);
        assert forall|x: u64| #[trigger] w.data.contains_key(x) <==> entry_keys(w.entries).contains(x) by {
            if x != k {
                assert(v.data.contains_key(x) <==> entry_keys(v.entries).contains(x));
            }
        }
    }
}

/// Making a stored key the most recently used keeps the model well formed
/// and its total unchanged.
pub proof fn lemma_touch<T: LenEntry>(v: CacheView<T>, k: u64, secs: i32)
    requires
        v.well_formed(),
        v.contains(k),
    ensures
        v.touch(k, secs).well_formed(),
        v.touch(k, secs).size() == v.size(),
        v.touch(k, secs).len() == v.len(),
{
    lemma_put(v, k, secs, v.data[k]);
    assert(v.data.insert(k, v.data[k]) =~= v.data);
    let w = v.touch(k, secs);
    assert forall|x: u64| #[trigger] w.data.contains_key(x) <==> entry_keys(w.entries).contains(x) by {
        assert(v.put(k, secs, v.data[k]).0.data.contains_key(x) <==> entry_keys(w.entries).contains(x));
    }
}


pub proof fn lemma_range_filter_push(s: Seq<u64>, x: u64, start: KeyBound, end: KeyBound)
    ensures
        range_filter(s.push(x), start, end) == range_filter(s, start, end) + if in_range(
            start,
            end,
            x,
        ) {
            seq![x]
        } else {
            Seq::<u64>::empty()
        },
{
    assert(s.push(x).drop_last() =~= s);
}

/// The filtered sequence holds exactly the elements of `s` within the
/// range, and keeps `s` increasing.
pub proof fn lemma_range_filter(s: Seq<u64>, start: KeyBound, end: KeyBound)
    ensures
        forall|k: u64| #[trigger] range_filter(s, start, end).contains(k) <==> (s.contains(k)
            && in_range(start, end, k)),
        strictly_increasing(s) ==> strictly_increasing(range_filter(s, start, end)),
        range_filter(s, start, end).len() <= s.len(),
    decreases s.len(),
{
    if s.len() > 0 {
        let p = s.drop_last();
        lemma_range_filter(p, start, end);
        assert(s =~= p.push(s.last()));
        lemma_range_filter_push(p, s.last(), start, end);
        let fp = range_filter(p, start, end);
        let f = range_filter(s, start, end);
        assert forall|k: u64| #[trigger] f.contains(k) <==> (s.contains(k) && in_range(start, end, k)) by {
            if f.contains(k) {
                let i = choose|i: int| 0 <= i < f.len() && f[i] == k;
                if i < fp.len() {
                    assert(fp[i] == k);
                    assert(fp.contains(k));
                    let j = choose|j: int| 0 <= j < p.len() && p[j] == k;
                    assert(s[j] == k);
                } else {
                    assert(k == s.last());
                    assert(s[s.len() - 1] == k);
                }
            }
            if s.contains(k) && in_range(start, end, k) {
                let j = choose|j: int| 0 <= j < s.len() && s[j] == k;
                if j < s.len() - 1 {
                    assert(p[j] == k);
                    assert(fp.contains(k));
                    let i = choose|i: int| 0 <= i < fp.len() && fp[i] == k;
                    assert(f[i] == k);
                } else {
                    assert(f[f.len() - 1] == k);
                }
            }
        }
        if strictly_increasing(s) {
            assert(strictly_increasing(p));
            assert forall|i: int, j: int| 0 <= i < j < f.len() implies f[i] < f[j] by {
                if j < fp.len() {
                    assert(f[i] == fp[i] && f[j] == fp[j]);
                } else {
                    assert(f[i] == fp[i]);
                    assert(fp.contains(fp[i]));
                    let a = choose|a: int| 0 <= a < p.len() && p[a] == fp[i];
                    assert(s[a] == fp[i]);
                    assert(f[j] == s[s.len() - 1]);
                }
            }
        }
    }
}

/// Two increasing sequences with the same elements are equal.
pub proof fn lemma_increasing_unique(a: Seq<u64>, b: Seq<u64>)
    requires
        strictly_increasing(a),
        strictly_increasing(b),
        forall|k: u64| a.contains(k) <==> b.contains(k),
    ensures
        a == b,
    decreases a.len(),
{
    if a.len() == 0 {
        if b.len() > 0 {
            assert(b.contains(b[0]));
        }
        assert(a =~= b);
    } else {
        assert(a.contains(a[0]));
        assert(b.len() > 0);
        assert(b.contains(b[0]));
        let i = choose|i: int| 0 <= i < b.len() && b[i] == a[0];
        let j = choose|j: int| 0 <= j < a.len() && a[j] == b[0];
        assert(a[0] == b[0]) by {
            if i > 0 {
                assert(b[0] < b[i]);
                assert(a[0] <= a[j]);
            }
        }
        let a1 = a.drop_first();
        let b1 = b.drop_first();
        assert forall|k: u64| a1.contains(k) <==> b1.contains(k) by {
            if a1.contains(k) {
                let x = choose|x: int| 0 <= x < a1.len() && a1[x] == k;
                assert(a[x + 1] == k);
                assert(a.contains(k));
                assert(b.contains(k));
                let y = choose|y: int| 0 <= y < b.len() && b[y] == k;
                assert(y != 0);
                assert(b1[y - 1] == k);
            }
            if b1.contains(k) {
                let x = choose|x: int| 0 <= x < b1.len() && b1[x] == k;
                assert(b[x + 1] == k);
                assert(b.contains(k));
                assert(a.contains(k));
                let y = choose|y: int| 0 <= y < a.len() && a[y] == k;
                assert(y != 0);
                assert(a1[y - 1] == k);
            }
        }
        lemma_increasing_unique(a1, b1);
        assert(a =~= b) by {
            assert forall|x: int| 0 <= x < a.len() implies a[x] == b[x] by {
                if x > 0 {
                    assert(a[x] == a1[x - 1]);
                    assert(b[x] == b1[x - 1]);
                }
            }
        }
    }
}

/// A finite nonempty set of keys has a greatest key.
pub proof fn lemma_greatest_key(ix: Set<u64>) -> (m: u64)
    requires
        ix.finite(),
        ix.len() > 0,
    ensures
        ix.contains(m),
        forall|k: u64| #[trigger] ix.contains(k) ==> k <= m,
    decreases ix.len(),
{
    let x = ix.choose();
    assert(ix.contains(x));
    let rest = ix.remove(x);
    if rest.len() == 0 {
        rest.lemma_len0_is_empty();
        assert forall|k: u64| #[trigger] ix.contains(k) implies k <= x by {
            if k != x {
                assert(rest.contains(k));
            }
        }
        x
    } else {
        let m = lemma_greatest_key(rest);
        if m < x {
            assert forall|k: u64| #[trigger] ix.contains(k) implies k <= x by {
                if k != x {
                    assert(rest.contains(k));
                }
            }
            x
        } else {
            assert forall|k: u64| #[trigger] ix.contains(k) implies k <= m by {
                if k != x {
                    assert(rest.contains(k));
                }
            }
            m
        }
    }
}

/// The keys of a finite set, in increasing order.
pub proof fn lemma_sorted_keys(ix: Set<u64>) -> (s: Seq<u64>)
    requires
        ix.finite(),
    ensures
        strictly_increasing(s),
        forall|k: u64| #[trigger] s.contains(k) <==> ix.contains(k),
    decreases ix.len(),
{
    if ix.len() == 0 {
        ix.lemma_len0_is_empty();
        let s = Seq::<u64>::empty();
        assert forall|k: u64| #[trigger] s.contains(k) <==> ix.contains(k) by {}
        s
    } else {
        let m = lemma_greatest_key(ix);
        let rest = ix.remove(m);
        let s0 = lemma_sorted_keys(rest);
        let s = s0.push(m);
        assert forall|i: int, j: int| 0 <= i < j < s.len() implies s[i] < s[j] by {
            if j == s0.len() {
                assert(s0.contains(s0[i]));
                assert(rest.contains(s0[i]));
            } else {
                assert(s[i] == s0[i] && s[j] == s0[j]);
            }
        }
        assert forall|k: u64| #[trigger] s.contains(k) <==> ix.contains(k) by {
            if s.contains(k) {
                let a = choose|a: int| 0 <= a < s.len() && s[a] == k;
                if a < s0.len() {
                    assert(s0[a] == k);
                    assert(s0.contains(k));
                }
            }
            if ix.contains(k) {
                if k == m {
                    assert(s[s0.len() as int] == k);
                } else {
                    assert(rest.contains(k));
                    assert(s0.contains(k));
                    let a = choose|a: int| 0 <= a < s0.len() && s0[a] == k;
                    assert(s[a] == k);
                }
            }
        }
        s
    }
}

/// For a finite set of keys, `keys_in_range` is the increasing sequence of
/// its keys within the range.
pub proof fn lemma_keys_in_range(ix: Set<u64>, start: KeyBound, end: KeyBound)
    requires
        ix.finite(),
    ensures
        strictly_increasing(keys_in_range(ix, start, end)),
        forall|k: u64| #[trigger] keys_in_range(ix, start, end).contains(k) <==> (ix.contains(k)
            && in_range(start, end, k)),
{
    let all = lemma_sorted_keys(ix);
    lemma_range_filter(all, start, end);
    let w = range_filter(all, start, end);
    assert(strictly_increasing(w) && forall|k: u64| #[trigger] w.contains(k) <==> (ix.contains(k)
        && in_range(start, end, k)));
}

} // verus!
