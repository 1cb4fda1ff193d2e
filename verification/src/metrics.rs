//! The vocabulary of cache metrics: operation kinds, their results, and
//! the attribute sets recorded with each pair of them.
use vstd::prelude::*;

use opentelemetry::{KeyValue, Value};

verus! {

/// Used as `Key` for a store type. Currently this is a bit free-form.
///
/// `Value` examples: `memory`, `existence_cache`, `filesystem`
pub const CACHE_TYPE: &'static str = "cache.type";

/// Used as `Key` for a `CacheOperationName`.
pub const CACHE_OPERATION: &'static str = "cache.operation.name";

/// Used as `Key` for a `CacheOperationResult`.
pub const CACHE_RESULT: &'static str = "cache.operation.result";

/// Types of cache operations for metrics classification.
#[derive(Debug, Clone, Copy)]
pub enum CacheOperationName {
    /// Reading data from cache (get, peek, size queries, etc.)
    Read,
    /// Writing data to cache (insert, update, replace, etc.)
    Write,
    /// Explicit removal of cache entries (user/application initiated)
    Delete,
    /// Automatic cache maintenance (evictions, TTL expiry, size management)
    Evict,
}

/// Results of cache operations, with context-specific meanings.
#[derive(Debug, Clone, Copy)]
pub enum CacheOperationResult {
    /// Successfully found valid data (Read operations only)
    Hit,
    /// Data not found in cache (Read operations only)
    Miss,
    /// Data found but no longer valid (Read operations only)
    Expired,
    /// Operation completed successfully (Write/Delete/Evict operations)
    Success,
    /// Operation failed (any operation type)
    Error,
}

impl CacheOperationName {
    /// The attribute value recorded for the operation.
    pub open spec fn label(self) -> Seq<char> {
        match self {
            CacheOperationName::Read => "read"@,
            CacheOperationName::Write => "write"@,
            CacheOperationName::Delete => "delete"@,
            CacheOperationName::Evict => "evict"@,
        }
    }

    pub fn as_str(&self) -> (s: &'static str)
        ensures
            s@ == self.label(),
    {
        match self {
            CacheOperationName::Read => "read",
            CacheOperationName::Write => "write",
            CacheOperationName::Delete => "delete",
            CacheOperationName::Evict => "evict",
        }
    }
}

impl CacheOperationResult {
    /// The attribute value recorded for the result.
    pub open spec fn label(self) -> Seq<char> {
        match self {
            CacheOperationResult::Hit => "hit"@,
            CacheOperationResult::Miss => "miss"@,
            CacheOperationResult::Expired => "expired"@,
            CacheOperationResult::Success => "success"@,
            CacheOperationResult::Error => "error"@,
        }
    }

    pub fn as_str(&self) -> (s: &'static str)
        ensures
            s@ == self.label(),
    {
        match self {
            CacheOperationResult::Hit => "hit",
            CacheOperationResult::Miss => "miss",
            CacheOperationResult::Expired => "expired",
            CacheOperationResult::Success => "success",
            CacheOperationResult::Error => "error",
        }
    }
}

#[verifier::external_type_specification]
#[verifier::external_body]
pub struct ExOtelValue(Value);

#[verifier::external_type_specification]
#[verifier::external_body]
pub struct ExOtelKeyValue(KeyValue);

/// What `opentelemetry::Value::from` makes of a static string: a string
/// value holding it.
pub uninterp spec fn otel_string_value(s: Seq<char>) -> Value;

/// What `opentelemetry::KeyValue::new` makes of a static key and a static
/// string value: the pair of the key and the string value.
pub uninterp spec fn otel_key_value(key: Seq<char>, value: Seq<char>) -> KeyValue;

/// `opentelemetry::Value::from(&'static str)`: `Value::String` holding `s`,
/// determined by the characters of `s`.
#[verifier::external_body]
fn value_from_static_str(s: &'static str) -> (v: Value)
    ensures
        v == otel_string_value(s@),
{
    Value::from(s)
}

/// `opentelemetry::KeyValue::new` with a static key and a static string
/// value: the pair, determined by the characters of both.
#[verifier::external_body]
fn key_value_new(key: &'static str, value: &'static str) -> (kv: KeyValue)
    ensures
        kv == otel_key_value(key@, value@),
{
    KeyValue::new(key, value)
}

/// `<[KeyValue]>::to_vec`: clones of the attributes in the same order;
/// `KeyValue`'s `Clone` is derived, so each clone equals its original.
#[verifier::external_body]
fn clone_key_values(attrs: &[KeyValue]) -> (r: Vec<KeyValue>)
    ensures
        r@ == attrs@,
{
    attrs.to_vec()
}

impl From<CacheOperationName> for Value {
    fn from(op: CacheOperationName) -> (v: Value) {
        value_from_static_str(op.as_str())
    }
}

impl vstd::std_specs::convert::FromSpecImpl<CacheOperationName> for Value {
    open spec fn obeys_from_spec() -> bool {
        true
    }

    open spec fn from_spec(op: CacheOperationName) -> Value {
        otel_string_value(op.label())
    }
}

impl From<CacheOperationResult> for Value {
    fn from(result: CacheOperationResult) -> (v: Value) {
        value_from_static_str(result.as_str())
    }
}

impl vstd::std_specs::convert::FromSpecImpl<CacheOperationResult> for Value {
    open spec fn obeys_from_spec() -> bool {
        true
    }

    open spec fn from_spec(result: CacheOperationResult) -> Value {
        otel_string_value(result.label())
    }
}

/// The attributes recorded for an operation with a result: the base
/// attributes, then the operation, then the result.
pub open spec fn operation_attrs(
    base: Seq<KeyValue>,
    op: CacheOperationName,
    result: CacheOperationResult,
) -> Seq<KeyValue> {
    base + seq![
        otel_key_value(CACHE_OPERATION@, op.label()),
        otel_key_value(CACHE_RESULT@, result.label()),
    ]
}

fn make_attrs(
    base_attrs: &[KeyValue],
    op: CacheOperationName,
    result: CacheOperationResult,
) -> (attrs: Vec<KeyValue>)
    ensures
        attrs@ == operation_attrs(base_attrs@, op, result),
{
    let mut attrs = clone_key_values(base_attrs);
    attrs.push(key_value_new(CACHE_OPERATION, op.as_str()));
    attrs.push(key_value_new(CACHE_RESULT, result.as_str()));
    assert(attrs@ =~= operation_attrs(base_attrs@, op, result));
    attrs
}

/// The attributes of a store's metrics: `instance_name=unknown`, then the
/// store's own.
pub open spec fn instance_attributes_spec(attributes: Seq<KeyValue>) -> Seq<KeyValue> {
    seq![otel_key_value("instance_name"@, "unknown"@)] + attributes
}

pub fn instance_attributes(attributes: &[KeyValue]) -> (r: Vec<KeyValue>)
    ensures
        r@ == instance_attributes_spec(attributes@),
{
    let mut metric_attributes = vec![key_value_new("instance_name", "unknown")];
    let mut rest = clone_key_values(attributes);
    metric_attributes.append(&mut rest);
    assert(metric_attributes@ =~= instance_attributes_spec(attributes@));
    metric_attributes
}

/// Pre-computed attribute combinations for zero-allocation cache metrics
pub struct CacheMetricAttrs {
    // Read operations
    read_hit: Vec<KeyValue>,
    read_miss: Vec<KeyValue>,
    read_expired: Vec<KeyValue>,
    // Write operations
    write_success: Vec<KeyValue>,
    write_error: Vec<KeyValue>,
    // Delete operations
    delete_success: Vec<KeyValue>,
    delete_miss: Vec<KeyValue>,
    delete_error: Vec<KeyValue>,
    // Evict operations
    evict_success: Vec<KeyValue>,
    evict_expired: Vec<KeyValue>,
}

impl CacheMetricAttrs {
    /// The base attributes the set was made from.
    pub closed spec fn base(&self) -> Seq<KeyValue> {
        self.read_hit@.take(self.read_hit@.len() - 2)
    }

    /// Every attribute set is the base followed by its operation and result.
    pub closed spec fn well_formed(&self) -> bool {
        let base = self.base();
        &&& self.read_hit@ == operation_attrs(
            base,
            CacheOperationName::Read,
            CacheOperationResult::Hit,
        )
        &&& self.read_miss@ == operation_attrs(
            base,
            CacheOperationName::Read,
            CacheOperationResult::Miss,
        )
        &&& self.read_expired@ == operation_attrs(
            base,
            CacheOperationName::Read,
            CacheOperationResult::Expired,
        )
        &&& self.write_success@ == operation_attrs(
            base,
            CacheOperationName::Write,
            CacheOperationResult::Success,
        )
        &&& self.write_error@ == operation_attrs(
            base,
            CacheOperationName::Write,
            CacheOperationResult::Error,
        )
        &&& self.delete_success@ == operation_attrs(
            base,
            CacheOperationName::Delete,
            CacheOperationResult::Success,
        )
        &&& self.delete_miss@ == operation_attrs(
            base,
            CacheOperationName::Delete,
            CacheOperationResult::Miss,
        )
        &&& self.delete_error@ == operation_attrs(
            base,
            CacheOperationName::Delete,
            CacheOperationResult::Error,
        )
        &&& self.evict_success@ == operation_attrs(
            base,
            CacheOperationName::Evict,
            CacheOperationResult::Success,
        )
        &&& self.evict_expired@ == operation_attrs(
            base,
            CacheOperationName::Evict,
            CacheOperationResult::Expired,
        )
    }

    pub fn new(base_attrs: &[KeyValue]) -> (r: Self)
        ensures
            r.well_formed(),
            r.base() == base_attrs@,
    {
        let r = Self {
            read_hit: make_attrs(base_attrs, CacheOperationName::Read, CacheOperationResult::Hit),
            read_miss: make_attrs(base_attrs, CacheOperationName::Read, CacheOperationResult::Miss),
            read_expired: make_attrs(
                base_attrs,
                CacheOperationName::Read,
                CacheOperationResult::Expired,
            ),
            write_success: make_attrs(
                base_attrs,
                CacheOperationName::Write,
                CacheOperationResult::Success,
            ),
            write_error: make_attrs(
                base_attrs,
                CacheOperationName::Write,
                CacheOperationResult::Error,
            ),
            delete_success: make_attrs(
                base_attrs,
                CacheOperationName::Delete,
                CacheOperationResult::Success,
            ),
            delete_miss: make_attrs(
                base_attrs,
                CacheOperationName::Delete,
                CacheOperationResult::Miss,
            ),
            delete_error: make_attrs(
                base_attrs,
                CacheOperationName::Delete,
                CacheOperationResult::Error,
            ),
            evict_success: make_attrs(
                base_attrs,
                CacheOperationName::Evict,
                CacheOperationResult::Success,
            ),
            evict_expired: make_attrs(
                base_attrs,
                CacheOperationName::Evict,
                CacheOperationResult::Expired,
            ),
        };
        assert(r.base() =~= base_attrs@);
        r
    }

    pub fn read_hit(&self) -> (r: &[KeyValue])
        requires
            self.well_formed(),
        ensures
            r@ == operation_attrs(self.base(), CacheOperationName::Read, CacheOperationResult::Hit),
    {
        self.read_hit.as_slice()
    }

    pub fn read_miss(&self) -> (r: &[KeyValue])
        requires
            self.well_formed(),
        ensures
            r@ == operation_attrs(self.base(), CacheOperationName::Read, CacheOperationResult::Miss),
    {
        self.read_miss.as_slice()
    }

    pub fn read_expired(&self) -> (r: &[KeyValue])
        requires
            self.well_formed(),
        ensures
            r@ == operation_attrs(
                self.base(),
                CacheOperationName::Read,
                CacheOperationResult::Expired,
            ),
    {
        self.read_expired.as_slice()
    }

    pub fn write_success(&self) -> (r: &[KeyValue])
        requires
            self.well_formed(),
        ensures
            r@ == operation_attrs(
                self.base(),
                CacheOperationName::Write,
                CacheOperationResult::Success,
            ),
    {
        self.write_success.as_slice()
    }

    pub fn write_error(&self) -> (r: &[KeyValue])
        requires
            self.well_formed(),
        ensures
            r@ == operation_attrs(
                self.base(),
                CacheOperationName::Write,
                CacheOperationResult::Error,
            ),
    {
        self.write_error.as_slice()
    }

    pub fn delete_success(&self) -> (r: &[KeyValue])
        requires
            self.well_formed(),
        ensures
            r@ == operation_attrs(
                self.base(),
                CacheOperationName::Delete,
                CacheOperationResult::Success,
            ),
    {
        self.delete_success.as_slice()
    }

    pub fn delete_miss(&self) -> (r: &[KeyValue])
        requires
            self.well_formed(),
        ensures
            r@ == operation_attrs(
                self.base(),
                CacheOperationName::Delete,
                CacheOperationResult::Miss,
            ),
    {
        self.delete_miss.as_slice()
    }

    pub fn delete_error(&self) -> (r: &[KeyValue])
        requires
            self.well_formed(),
        ensures
            r@ == operation_attrs(
                self.base(),
                CacheOperationName::Delete,
                CacheOperationResult::Error,
            ),
    {
        self.delete_error.as_slice()
    }

    pub fn evict_success(&self) -> (r: &[KeyValue])
        requires
            self.well_formed(),
        ensures
            r@ == operation_attrs(
                self.base(),
                CacheOperationName::Evict,
                CacheOperationResult::Success,
            ),
    {
        self.evict_success.as_slice()
    }

    pub fn evict_expired(&self) -> (r: &[KeyValue])
        requires
            self.well_formed(),
        ensures
            r@ == operation_attrs(
                self.base(),
                CacheOperationName::Evict,
                CacheOperationResult::Expired,
            ),
    {
        self.evict_expired.as_slice()
    }
}

} // verus!
