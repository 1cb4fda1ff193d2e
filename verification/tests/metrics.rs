use nativelink_util::metrics::{
    CacheMetricAttrs, CacheOperationName, CacheOperationResult, CACHE_OPERATION, CACHE_RESULT,
    CACHE_TYPE,
};
use opentelemetry::{KeyValue, Value};

#[test]
fn attribute_keys() {
    assert_eq!(CACHE_TYPE, "cache.type");
    assert_eq!(CACHE_OPERATION, "cache.operation.name");
    assert_eq!(CACHE_RESULT, "cache.operation.result");
}

#[test]
fn operation_names_and_results_as_values() {
    assert_eq!(Value::from(CacheOperationName::Read), Value::from("read"));
    assert_eq!(Value::from(CacheOperationName::Write), Value::from("write"));
    assert_eq!(Value::from(CacheOperationName::Delete), Value::from("delete"));
    assert_eq!(Value::from(CacheOperationName::Evict), Value::from("evict"));
    assert_eq!(Value::from(CacheOperationResult::Hit), Value::from("hit"));
    assert_eq!(Value::from(CacheOperationResult::Miss), Value::from("miss"));
    assert_eq!(Value::from(CacheOperationResult::Expired), Value::from("expired"));
    assert_eq!(Value::from(CacheOperationResult::Success), Value::from("success"));
    assert_eq!(Value::from(CacheOperationResult::Error), Value::from("error"));
    assert_eq!(CacheOperationName::Delete.as_str(), "delete");
    assert_eq!(CacheOperationResult::Expired.as_str(), "expired");
}

fn expected(base: &[KeyValue], op: &'static str, result: &'static str) -> Vec<KeyValue> {
    let mut v = base.to_vec();
    v.push(KeyValue::new(CACHE_OPERATION, op));
    v.push(KeyValue::new(CACHE_RESULT, result));
    v
}

#[test]
fn metric_attrs_append_operation_and_result() {
    let base = [KeyValue::new(CACHE_TYPE, "memory"), KeyValue::new("instance", "main")];
    let attrs = CacheMetricAttrs::new(&base);
    assert_eq!(attrs.read_hit(), expected(&base, "read", "hit").as_slice());
    assert_eq!(attrs.read_miss(), expected(&base, "read", "miss").as_slice());
    assert_eq!(attrs.read_expired(), expected(&base, "read", "expired").as_slice());
    assert_eq!(attrs.write_success(), expected(&base, "write", "success").as_slice());
    assert_eq!(attrs.write_error(), expected(&base, "write", "error").as_slice());
    assert_eq!(attrs.delete_success(), expected(&base, "delete", "success").as_slice());
    assert_eq!(attrs.delete_miss(), expected(&base, "delete", "miss").as_slice());
    assert_eq!(attrs.delete_error(), expected(&base, "delete", "error").as_slice());
    assert_eq!(attrs.evict_success(), expected(&base, "evict", "success").as_slice());
    assert_eq!(attrs.evict_expired(), expected(&base, "evict", "expired").as_slice());
}

#[test]
fn metric_attrs_with_no_base() {
    let attrs = CacheMetricAttrs::new(&[]);
    assert_eq!(attrs.read_hit().len(), 2);
    assert_eq!(attrs.read_hit()[0], KeyValue::new(CACHE_OPERATION, "read"));
}
