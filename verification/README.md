# nativelink_util (verified)

An LRU map that evicts its entries by total size, by count and by age, and
the vocabulary of cache metrics, written in Verus.

- `src/evicting_map.rs`: the map. Every operation takes the seconds elapsed
  since the map's anchor time and returns, besides its result, the data that
  left the map (replaced or evicted), which the caller must still unreference.
- `src/model.rs`: the mathematical model of the map and of its eviction rules.
- `src/laws.rs`: what holds of every map, proved over the model.
- `src/lru_order.rs`: the trusted interface to `lru::LruCache`.
- `src/visitor.rs`: the handler of a range query, with the record of the
  calls made to it.
- `src/metrics.rs`: cache operation names, results and metric attribute sets.
- `app/`: the asynchronous front: the lock, the clock, the `unref` calls,
  the OpenTelemetry instruments and the serde form of `SerializedLRU`.
