use std::sync::Arc;

use opentelemetry::KeyValue;

use nativelink_util::visitor::RangeVisitor;
use nativelink_util::evicting_map::{
    EvictingMap, EvictionLimits, EvictionPolicy, KeyBound, LenEntry, Released, SerializedLRU,
};

#[derive(Clone, Debug, PartialEq, Eq)]
struct Blob(Vec<u8>);

impl LenEntry for Blob {
    fn spec_len(&self) -> u64 {
        self.0.len() as u64
    }
    fn len(&self) -> u64 {
        self.0.len() as u64
    }
    fn is_empty(&self) -> bool {
        self.0.is_empty()
    }
}

fn blob(tag: u8, len: usize) -> Blob {
    Blob(vec![tag; len])
}

fn policy(max_bytes: usize, evict_bytes: usize, max_seconds: u32, max_count: u64) -> EvictionPolicy {
    EvictionPolicy {
        max_bytes,
        evict_bytes,
        max_seconds,
        max_count,
    }
}

fn unlimited() -> EvictingMap<Blob> {
    EvictingMap::new(&policy(0, 0, 0, 0), &[])
}

fn range_keys(map: &mut EvictingMap<Blob>, start: KeyBound, end: KeyBound) -> (u64, Vec<u64>) {
    let mut seen = Vec::new();
    let mut visitor = RangeVisitor::new(|k: &u64, _d: &Blob| {
        seen.push(*k);
        true
    });
    let n = map.range(start, end, &mut visitor);
    drop(visitor);
    (n, seen)
}

#[test]
fn new_map_is_empty_with_converted_limits() {
    let map: EvictingMap<Blob> = EvictingMap::new(&policy(100, 10, 60, 5), &[]);
    assert_eq!(map.len_for_test(), 0);
    assert!(map.clock_ok(0));
    let _ = EvictionLimits {
        max_bytes: 100,
        evict_bytes: 10,
        max_seconds: 60,
        max_count: 5,
    };
}

#[test]
fn read_after_write_gives_the_data_back() {
    let mut map = unlimited();
    let released = map.insert(7, blob(1, 3), 0);
    assert!(released.is_empty());
    let (got, released) = map.get(7, 5);
    assert_eq!(got, Some(blob(1, 3)));
    assert!(released.is_empty());
    assert_eq!(map.len_for_test(), 1);
}

#[test]
fn unlimited_map_never_evicts() {
    let mut map = unlimited();
    for k in 0..100u64 {
        assert!(map.insert(k, blob(k as u8, 1000), k * 1000).is_empty());
    }
    assert_eq!(map.len_for_test(), 100);
    let (got, released) = map.get(0, 1_000_000);
    assert_eq!(got, Some(blob(0, 1000)));
    assert!(released.is_empty());
}

#[test]
fn get_of_missing_key_is_none() {
    let mut map = unlimited();
    map.insert(1, blob(1, 1), 0);
    let (got, released) = map.get(2, 0);
    assert_eq!(got, None);
    assert!(released.is_empty());
}

#[test]
fn count_limit_evicts_least_recently_used() {
    let mut map = EvictingMap::new(&policy(0, 0, 0, 2), &[]);
    assert!(map.insert(1, blob(1, 1), 0).is_empty());
    assert!(map.insert(2, blob(2, 1), 0).is_empty());
    let released = map.insert(3, blob(3, 1), 0);
    assert_eq!(released, vec![Released::Evicted(blob(1, 1))]);
    assert_eq!(map.len_for_test(), 2);
    assert_eq!(map.get(1, 0).0, None);
    assert_eq!(map.get(2, 0).0, Some(blob(2, 1)));
}

#[test]
fn get_makes_an_entry_most_recently_used() {
    let mut map = EvictingMap::new(&policy(0, 0, 0, 2), &[]);
    map.insert(1, blob(1, 1), 0);
    map.insert(2, blob(2, 1), 0);
    assert_eq!(map.get(1, 0).0, Some(blob(1, 1)));
    let released = map.insert(3, blob(3, 1), 0);
    assert_eq!(released, vec![Released::Evicted(blob(2, 1))]);
    assert_eq!(map.get(1, 0).0, Some(blob(1, 1)));
}

#[test]
fn byte_limit_evicts_down_to_max_minus_evict_bytes() {
    let mut map = EvictingMap::new(&policy(10, 5, 0, 0), &[]);
    assert!(map.insert(1, blob(1, 4), 0).is_empty());
    assert!(map.insert(2, blob(2, 4), 0).is_empty());
    let released = map.insert(3, blob(3, 4), 0);
    assert_eq!(
        released,
        vec![Released::Evicted(blob(1, 4)), Released::Evicted(blob(2, 4))]
    );
    assert_eq!(map.len_for_test(), 1);
    assert_eq!(map.get(3, 0).0, Some(blob(3, 4)));
}

#[test]
fn byte_limit_without_evict_bytes_evicts_below_max() {
    let mut map = EvictingMap::new(&policy(10, 0, 0, 0), &[]);
    map.insert(1, blob(1, 4), 0);
    map.insert(2, blob(2, 4), 0);
    let released = map.insert(3, blob(3, 4), 0);
    assert_eq!(released, vec![Released::Evicted(blob(1, 4))]);
    assert_eq!(map.len_for_test(), 2);
}

#[test]
fn evict_bytes_not_below_max_bytes_evicts_down_to_empty() {
    let mut map = EvictingMap::new(&policy(10, 10, 0, 0), &[]);
    assert!(map.insert(1, blob(1, 6), 0).is_empty());
    let released = map.insert(2, blob(2, 6), 0);
    assert_eq!(
        released,
        vec![Released::Evicted(blob(1, 6)), Released::Evicted(blob(2, 6))]
    );
    assert_eq!(map.size_for_key(1, 0), (None, vec![]));
    assert_eq!(map.len_for_test(), 0);
    assert!(map.is_empty());
}

#[test]
fn oversized_item_is_evicted_at_once() {
    let mut map = EvictingMap::new(&policy(10, 15, 0, 0), &[]);
    let released = map.insert(1, blob(1, 12), 0);
    assert_eq!(released, vec![Released::Evicted(blob(1, 12))]);
    assert_eq!(map.len_for_test(), 0);
}

#[test]
fn expired_entries_are_evicted_on_read() {
    let mut map = EvictingMap::new(&policy(0, 0, 10, 0), &[]);
    map.insert(1, blob(1, 2), 0);
    assert_eq!(map.get(1, 5).0, Some(blob(1, 2)));
    // The read at 5 refreshed the entry's time.
    let (got, released) = map.get(1, 14);
    assert_eq!(got, Some(blob(1, 2)));
    assert!(released.is_empty());
    let (got, released) = map.get(1, 30);
    assert_eq!(got, None);
    assert_eq!(released, vec![Released::Evicted(blob(1, 2))]);
    assert_eq!(map.len_for_test(), 0);
}

#[test]
fn insert_with_old_time_is_evicted_at_once() {
    let mut map = EvictingMap::new(&policy(0, 0, 10, 0), &[]);
    let released = map.insert_with_time(1, blob(1, 2), 0, 100);
    assert_eq!(released, vec![Released::Evicted(blob(1, 2))]);
    assert_eq!(map.len_for_test(), 0);
}

#[test]
fn insert_reports_the_replaced_data() {
    let mut map = unlimited();
    map.insert(1, blob(1, 2), 0);
    let released = map.insert(1, blob(9, 3), 1);
    assert_eq!(released, vec![Released::Replaced(blob(1, 2))]);
    assert_eq!(map.get(1, 2).0, Some(blob(9, 3)));
    assert_eq!(map.len_for_test(), 1);
    assert_eq!(map.size_for_key(1, 2), (Some(3), vec![]));
}

#[test]
fn insert_many_runs_eviction_after_each_item() {
    let mut map = EvictingMap::new(&policy(0, 0, 0, 1), &[]);
    let released = map.insert_many(vec![(1, blob(1, 1)), (2, blob(2, 1)), (1, blob(3, 1))], 0);
    assert_eq!(
        released,
        vec![Released::Evicted(blob(1, 1)), Released::Evicted(blob(2, 1))]
    );
    assert_eq!(map.get(1, 0).0, Some(blob(3, 1)));
    assert!(map.insert_many(Vec::new(), 0).is_empty());
}

#[test]
fn insert_many_reports_replacements_in_order() {
    let mut map = unlimited();
    map.insert(1, blob(1, 1), 0);
    let released = map.insert_many(vec![(1, blob(2, 1)), (1, blob(3, 1))], 0);
    assert_eq!(
        released,
        vec![Released::Replaced(blob(1, 1)), Released::Replaced(blob(2, 1))]
    );
}

#[test]
fn remove_then_absent() {
    let mut map = unlimited();
    map.insert(1, blob(1, 2), 0);
    assert_eq!(map.remove(1, 0), (true, vec![Released::Evicted(blob(1, 2))]));
    assert_eq!(map.remove(1, 0), (false, vec![]));
    assert_eq!(map.get(1, 0).0, None);
}

#[test]
fn remove_reports_false_for_a_key_evicted_first() {
    let mut map = EvictingMap::new(&policy(0, 0, 10, 0), &[]);
    map.insert(1, blob(1, 2), 0);
    assert_eq!(map.remove(1, 50), (false, vec![Released::Evicted(blob(1, 2))]));
}

#[test]
fn remove_if_keeps_the_entry_when_the_condition_fails() {
    let mut map = EvictingMap::new(&policy(0, 0, 0, 2), &[]);
    map.insert(1, blob(1, 1), 0);
    map.insert(2, blob(2, 1), 0);
    assert_eq!(map.remove_if(1, |d: &Blob| d.0.len() > 5, 0), (false, vec![]));
    // The failed condition still made key 1 the most recently used one.
    assert_eq!(map.insert(3, blob(3, 1), 0), vec![Released::Evicted(blob(2, 1))]);
    assert_eq!(
        map.remove_if(1, |d: &Blob| d.0.len() == 1, 0),
        (true, vec![Released::Evicted(blob(1, 1))])
    );
    assert_eq!(map.remove_if(9, |_d: &Blob| true, 0), (false, vec![]));
}

#[test]
fn sizes_for_keys_answers_each_key() {
    let mut map = unlimited();
    map.insert(1, blob(1, 3), 0);
    map.insert(2, blob(2, 5), 0);
    let mut results = [Some(77); 3];
    let released = map.sizes_for_keys(&[1, 9, 2], &mut results, false, 0);
    assert!(released.is_empty());
    assert_eq!(results, [Some(3), None, Some(5)]);
}

#[test]
fn sizes_for_keys_answers_as_many_as_both_hold() {
    let mut map = unlimited();
    map.insert(1, blob(1, 3), 0);
    map.insert(2, blob(2, 5), 0);
    let mut results = [None; 1];
    map.sizes_for_keys(&[2, 1], &mut results, false, 0);
    assert_eq!(results, [Some(5)]);
    let mut results = [Some(1), Some(1), Some(1)];
    map.sizes_for_keys(&[1], &mut results, true, 0);
    assert_eq!(results, [Some(3), Some(1), Some(1)]);
}

#[test]
fn sizes_for_keys_with_peek_keeps_the_order() {
    let mut map = EvictingMap::new(&policy(0, 0, 0, 2), &[]);
    map.insert(1, blob(1, 1), 0);
    map.insert(2, blob(2, 1), 0);
    let mut results = [None];
    map.sizes_for_keys(&[1], &mut results, true, 0);
    assert_eq!(results, [Some(1)]);
    assert_eq!(map.insert(3, blob(3, 1), 0), vec![Released::Evicted(blob(1, 1))]);

    let mut map = EvictingMap::new(&policy(0, 0, 0, 2), &[]);
    map.insert(1, blob(1, 1), 0);
    map.insert(2, blob(2, 1), 0);
    map.sizes_for_keys(&[1], &mut results, false, 0);
    assert_eq!(map.insert(3, blob(3, 1), 0), vec![Released::Evicted(blob(2, 1))]);
}

#[test]
fn sizes_for_keys_evicts_expired_entries() {
    let mut map = EvictingMap::new(&policy(0, 0, 10, 0), &[]);
    map.insert(1, blob(1, 4), 0);
    let mut results = [Some(0)];
    let released = map.sizes_for_keys(&[1], &mut results, true, 20);
    assert_eq!(results, [None]);
    assert_eq!(released, vec![Released::Evicted(blob(1, 4))]);
    assert_eq!(map.len_for_test(), 0);
}

#[test]
fn size_for_key_answers_one_key() {
    let mut map = unlimited();
    map.insert(4, blob(4, 6), 0);
    assert_eq!(map.size_for_key(4, 0), (Some(6), vec![]));
    assert_eq!(map.size_for_key(5, 0), (None, vec![]));
}

#[test]
fn range_visits_keys_in_increasing_order() {
    let mut map = unlimited();
    for k in [5u64, 1, 9, 3] {
        map.insert(k, blob(k as u8, 1), 0);
    }
    assert_eq!(
        range_keys(&mut map, KeyBound::Unbounded, KeyBound::Unbounded),
        (4, vec![1, 3, 5, 9])
    );
    assert_eq!(
        range_keys(&mut map, KeyBound::Included(3), KeyBound::Excluded(9)),
        (2, vec![3, 5])
    );
    assert_eq!(
        range_keys(&mut map, KeyBound::Excluded(3), KeyBound::Included(9)),
        (2, vec![5, 9])
    );
}

#[test]
fn range_stops_when_the_handler_returns_false() {
    let mut map = unlimited();
    for k in [5u64, 1, 9, 3] {
        map.insert(k, blob(k as u8, 1), 0);
    }
    let mut seen = Vec::new();
    let mut visitor = RangeVisitor::new(|k: &u64, d: &Blob| {
        seen.push((*k, d.0[0]));
        *k < 5
    });
    let n = map.range(KeyBound::Unbounded, KeyBound::Unbounded, &mut visitor);
    drop(visitor);
    assert_eq!(n, 2);
    assert_eq!(seen, vec![(1, 1), (3, 3), (5, 5)]);
}

#[test]
fn filtering_index_follows_inserts_and_removals() {
    let mut map = unlimited();
    map.insert(2, blob(2, 1), 0);
    map.enable_filtering();
    map.insert(4, blob(4, 1), 0);
    map.insert(6, blob(6, 1), 0);
    map.remove(2, 0);
    assert_eq!(
        range_keys(&mut map, KeyBound::Unbounded, KeyBound::Unbounded),
        (2, vec![4, 6])
    );
}

#[test]
fn filtering_index_keeps_a_replaced_key() {
    let mut map = unlimited();
    map.enable_filtering();
    map.insert(1, blob(1, 1), 0);
    map.insert(2, blob(2, 1), 0);
    map.insert(1, blob(3, 1), 0);
    let mut seen = Vec::new();
    let mut visitor = RangeVisitor::new(|k: &u64, d: &Blob| {
        seen.push((*k, d.0[0]));
        true
    });
    let n = map.range(KeyBound::Unbounded, KeyBound::Unbounded, &mut visitor);
    drop(visitor);
    assert_eq!(n, 2);
    assert_eq!(seen, vec![(1, 3), (2, 2)]);
}

#[test]
fn range_after_a_replace_sees_the_new_data() {
    let mut map = unlimited();
    map.enable_filtering();
    map.insert(1, blob(1, 1), 0);
    map.insert(1, blob(1, 2), 0);
    let mut seen = Vec::new();
    let mut visitor = RangeVisitor::new(|k: &u64, d: &Blob| {
        seen.push((*k, d.0.len()));
        true
    });
    let n = map.range(KeyBound::Unbounded, KeyBound::Unbounded, &mut visitor);
    drop(visitor);
    assert_eq!(n, 1);
    assert_eq!(seen, vec![(1, 2)]);
}

#[test]
fn insert_preconditions_can_be_checked() {
    let mut map = unlimited();
    map.insert(1, blob(1, 10), 0);
    assert!(map.fits(1, &blob(1, 5)));
    assert!(map.fits(2, &blob(1, 5)));
    assert!(map.batch_fits(&vec![(2, blob(2, 3)), (3, blob(3, 4))]));
    assert!(map.clock_ok(1000));
    let strict: EvictingMap<Blob> = EvictingMap::new(&policy(0, 0, u32::MAX, 0), &[]);
    // `u32::MAX as i32` is -1, so the age rule subtracts -1.
    assert!(strict.clock_ok(0));
    assert!(!strict.clock_ok(i32::MAX as u64));
}

#[test]
fn arc_entries_report_the_inner_length() {
    let a = Arc::new(blob(1, 4));
    assert_eq!(LenEntry::len(&a), 4);
    assert!(!LenEntry::is_empty(&a));
    let e = Arc::new(blob(1, 0));
    assert!(LenEntry::is_empty(&e));
}

#[test]
fn serialized_lru_holds_keys_with_times() {
    let s = SerializedLRU {
        data: vec![(1u64, 5i32), (2, -3)],
        anchor_time: 1000,
    };
    let t = s.clone();
    assert_eq!(s, t);
    assert_eq!(t.data[1], (2, -3));
}

/// Data that reports a given length without holding it.
#[derive(Clone, Debug, PartialEq, Eq)]
struct Claimed(u64);

impl LenEntry for Claimed {
    fn spec_len(&self) -> u64 {
        self.0
    }
    fn len(&self) -> u64 {
        self.0
    }
    fn is_empty(&self) -> bool {
        self.0 == 0
    }
}

#[test]
fn fits_counts_the_replaced_length() {
    let mut map: EvictingMap<Claimed> = EvictingMap::new(&policy(0, 0, 0, 0), &[]);
    map.insert(1, Claimed(u64::MAX - 5), 0);
    assert!(!map.fits(2, &Claimed(10)));
    assert!(map.fits(2, &Claimed(5)));
    assert!(map.fits(1, &Claimed(10)));
    assert!(!map.batch_fits(&vec![(1, Claimed(3)), (2, Claimed(3))]));
    assert!(map.batch_fits(&vec![(1, Claimed(2)), (2, Claimed(3))]));
    let released = map.insert(1, Claimed(u64::MAX), 0);
    assert_eq!(released, vec![Released::Replaced(Claimed(u64::MAX - 5))]);
}

#[test]
fn metrics_carry_the_instance_name_then_the_given_attributes() {
    let map: EvictingMap<Blob> =
        EvictingMap::new(&policy(0, 0, 0, 0), &[KeyValue::new("store", "cas")]);
    assert_eq!(
        map.metric_attributes(),
        &[
            KeyValue::new("instance_name", "unknown"),
            KeyValue::new("store", "cas")
        ]
    );
    let plain: EvictingMap<Blob> = EvictingMap::new(&policy(0, 0, 0, 0), &[]);
    assert_eq!(plain.metric_attributes(), &[KeyValue::new("instance_name", "unknown")]);
}

#[test]
fn clock_is_only_read_where_an_entry_is_looked_at() {
    // `u32::MAX as i32` is -1: at `i32::MAX` the age rule would overflow.
    let mut map: EvictingMap<Blob> = EvictingMap::new(&policy(0, 0, u32::MAX, 0), &[]);
    let late = i32::MAX as u64;
    assert!(!map.clock_ok(late));
    assert!(map.is_empty());
    assert_eq!(map.get(1, late), (None, vec![]));
    assert_eq!(map.remove(1, late), (false, vec![]));
    // Written at second 10, the entry is not older than `0 - (-1)` at 0.
    assert!(map.insert_with_time(1, blob(1, 1), 10, 0).is_empty());
    assert!(!map.contains_key(2));
    assert!(map.contains_key(1));
    assert_eq!(map.remove_if(2, |_d: &Blob| true, late), (false, vec![]));
    let mut results = [Some(0)];
    map.sizes_for_keys(&[2], &mut results, false, late);
    assert_eq!(results, [None]);
    assert_eq!(map.size_for_key(2, late), (None, vec![]));
}

#[test]
fn a_batch_equals_inserts_in_turn() {
    let items = vec![(1, blob(1, 4)), (2, blob(2, 4)), (1, blob(3, 4)), (3, blob(4, 4))];
    let mut batch = EvictingMap::new(&policy(10, 2, 0, 0), &[]);
    let from_batch = batch.insert_many(items.clone(), 5);
    let mut single = EvictingMap::new(&policy(10, 2, 0, 0), &[]);
    let mut from_single = Vec::new();
    for (k, d) in items {
        from_single.extend(single.insert(k, d, 5));
    }
    assert_eq!(from_batch, from_single);
    for k in 1..4u64 {
        assert_eq!(batch.get(k, 5).0, single.get(k, 5).0);
    }
}

#[test]
fn range_skips_keys_below_and_stops_at_the_first_false() {
    let mut map = unlimited();
    for k in 1..5u64 {
        map.insert(k, blob(k as u8, k as usize), 0);
    }
    let mut seen = Vec::new();
    let mut visitor = RangeVisitor::new(|k: &u64, _d: &Blob| {
        seen.push(*k);
        *k != 3
    });
    let n = map.range(KeyBound::Included(2), KeyBound::Unbounded, &mut visitor);
    drop(visitor);
    assert_eq!(n, 1);
    assert_eq!(seen, vec![2, 3]);
}

#[test]
fn a_visitor_gives_its_handler_back() {
    let mut map = unlimited();
    map.insert(1, blob(1, 1), 0);
    let mut total = 0u64;
    let visitor = RangeVisitor::new(|_k: &u64, d: &Blob| {
        total += d.0.len() as u64;
        true
    });
    let mut visitor = visitor;
    assert_eq!(map.range(KeyBound::Unbounded, KeyBound::Unbounded, &mut visitor), 1);
    let mut handler = visitor.into_handler();
    assert!(handler(&9, &blob(9, 2)));
    drop(handler);
    assert_eq!(total, 3);
}
