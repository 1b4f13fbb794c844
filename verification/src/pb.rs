//! Wire message types of the EidosDB protocol, as plain Rust values.
//!
//! Enumerations carry their protobuf numbers through `as_i32`/`from_i32`;
//! `oneof` fields are enums named after their message (`ValueKind`, ...).

use vstd::prelude::*;

verus! {

/// Wire metric enumeration. `Unspecified` (0) is the proto3 default.
#[derive(Clone, Copy, Debug, PartialEq, Eq, Hash, Structural)]
pub enum Metric {
    /// Number 0: no metric given.
    Unspecified,
    /// Number 1.
    Cosine,
    /// Number 2.
    DotProduct,
    /// Number 3.
    Euclidean,
}

/// The protobuf number of a wire metric.
pub open spec fn metric_number(m: Metric) -> i32 {
    match m {
        Metric::Unspecified => 0,
        Metric::Cosine => 1,
        Metric::DotProduct => 2,
        Metric::Euclidean => 3,
    }
}

impl Metric {
    /// The wire metric with a given protobuf number, if any.
    pub open spec fn from_i32_spec(raw: i32) -> Option<Metric> {
        if raw == 0 { Some(Metric::Unspecified) }
        else if raw == 1 { Some(Metric::Cosine) }
        else if raw == 2 { Some(Metric::DotProduct) }
        else if raw == 3 { Some(Metric::Euclidean) }
        else { None }
    }

    /// The protobuf number of this value.
    pub fn as_i32(self) -> (r: i32)
        ensures
            r == metric_number(self),
    {
        match self {
            Metric::Unspecified => 0,
            Metric::Cosine => 1,
            Metric::DotProduct => 2,
            Metric::Euclidean => 3,
        }
    }

    /// Decodes a protobuf number; `None` for a number the enum lacks.
    pub fn from_i32(raw: i32) -> (r: Option<Metric>)
        ensures
            r == Metric::from_i32_spec(raw),
    {
        if raw == 0 {
            Some(Metric::Unspecified)
        } else if raw == 1 {
            Some(Metric::Cosine)
        } else if raw == 2 {
            Some(Metric::DotProduct)
        } else if raw == 3 {
            Some(Metric::Euclidean)
        } else {
            None
        }
    }
}

/// Wire index-type enumeration. `Unspecified` (0) is the proto3 default.
#[derive(Clone, Copy, Debug, PartialEq, Eq, Hash, Structural)]
pub enum IndexType {
    /// Number 0: no index type given.
    Unspecified,
    /// Number 1.
    Flat,
    /// Number 2.
    Hnsw,
}

/// The protobuf number of a wire index type.
pub open spec fn index_type_number(t: IndexType) -> i32 {
    match t {
        IndexType::Unspecified => 0,
        IndexType::Flat => 1,
        IndexType::Hnsw => 2,
    }
}

impl IndexType {
    /// The wire index type with a given protobuf number, if any.
    pub open spec fn from_i32_spec(raw: i32) -> Option<IndexType> {
        if raw == 0 { Some(IndexType::Unspecified) }
        else if raw == 1 { Some(IndexType::Flat) }
        else if raw == 2 { Some(IndexType::Hnsw) }
        else { None }
    }

    /// The protobuf number of this value.
    pub fn as_i32(self) -> (r: i32)
        ensures
            r == index_type_number(self),
    {
        match self {
            IndexType::Unspecified => 0,
            IndexType::Flat => 1,
            IndexType::Hnsw => 2,
        }
    }

    /// Decodes a protobuf number; `None` for a number the enum lacks.
    pub fn from_i32(raw: i32) -> (r: Option<IndexType>)
        ensures
            r == IndexType::from_i32_spec(raw),
    {
        if raw == 0 {
            Some(IndexType::Unspecified)
        } else if raw == 1 {
            Some(IndexType::Flat)
        } else if raw == 2 {
            Some(IndexType::Hnsw)
        } else {
            None
        }
    }
}

/// Wire description of a collection.
#[derive(Clone, Debug, PartialEq, Eq)]
pub struct CollectionInfo {
    /// Collection name.
    pub name: String,
    /// Metric number.
    pub metric: i32,
    /// Vector dimension.
    pub dimension: u32,
    /// Index type number.
    pub index_type: i32,
    /// Number of stored vectors.
    pub count: u64,
}

/// HNSW tuning parameters on the wire; zero means "use the default".
#[derive(Clone, Copy, Debug, PartialEq, Eq, Structural)]
pub struct HnswParams {
    /// Links per node.
    pub m: u32,
    /// Construction beam width.
    pub ef_construction: u32,
    /// Search beam width.
    pub ef_search: u32,
    /// Generator seed.
    pub seed: u64,
}

/// Wire request creating a collection.
#[derive(Clone, Debug, PartialEq, Eq)]
pub struct CreateCollectionRequest {
    /// Collection name.
    pub name: String,
    /// Metric number.
    pub metric: i32,
    /// Vector dimension.
    pub dimension: u32,
    /// Index type number.
    pub index_type: i32,
    /// HNSW parameters, if given.
    pub hnsw_params: Option<HnswParams>,
}

/// The `oneof kind` of a wire value. Floats travel as their IEEE-754 bits.
#[derive(Clone, Debug, PartialEq)]
pub enum ValueKind {
    /// Text.
    Text(String),
    /// Signed integer.
    Integer(i64),
    /// Binary64 float, as its bit pattern.
    FloatValue(u64),
    /// Boolean.
    BoolValue(bool),
}

/// Wire scalar value; `kind` is absent when the sender set none.
#[derive(Clone, Debug, PartialEq)]
pub struct Value {
    /// The value, if any.
    pub kind: Option<ValueKind>,
}

/// Wire array of scalar values.
#[derive(Clone, Debug, PartialEq)]
pub struct ValueArray {
    /// The values, in order.
    pub values: Vec<Value>,
}

/// The `oneof kind` of a wire field value.
#[derive(Clone, Debug, PartialEq)]
pub enum FieldValueKind {
    /// One scalar.
    Scalar(Value),
    /// Several scalars.
    Array(ValueArray),
}

/// Wire field value; `kind` is absent when the sender set none.
#[derive(Clone, Debug, PartialEq)]
pub struct FieldValue {
    /// The contents, if any.
    pub kind: Option<FieldValueKind>,
}

/// Wire payload: the entries of a `map<string, FieldValue>`.
#[derive(Clone, Debug, PartialEq)]
pub struct Payload {
    /// `(name, value)` entries.
    pub fields: Vec<(String, FieldValue)>,
}

/// Wire comparison leaf: a field name and the value to compare with.
#[derive(Clone, Debug, PartialEq)]
pub struct Comparison {
    /// Field name.
    pub field: String,
    /// Operand, if given.
    pub value: Option<Value>,
}

/// Wire membership leaf.
#[derive(Clone, Debug, PartialEq)]
pub struct InFilter {
    /// Field name.
    pub field: String,
    /// Accepted values.
    pub values: Vec<Value>,
}

/// Wire array-containment leaf.
#[derive(Clone, Debug, PartialEq)]
pub struct ContainsFilter {
    /// Field name.
    pub field: String,
    /// The value looked for, if given.
    pub value: Option<Value>,
}

/// Wire list of sub-filters.
#[derive(Debug, PartialEq)]
pub struct FilterList {
    /// Sub-filters, in order.
    pub filters: Vec<Filter>,
}

/// The `oneof kind` of a wire filter.
#[derive(Debug, PartialEq)]
pub enum FilterKind {
    /// Equality leaf.
    Eq(Comparison),
    /// Inequality leaf.
    Ne(Comparison),
    /// Strictly-less leaf.
    Lt(Comparison),
    /// Less-or-equal leaf.
    Lte(Comparison),
    /// Strictly-greater leaf.
    Gt(Comparison),
    /// Greater-or-equal leaf.
    Gte(Comparison),
    /// Membership leaf.
    In(InFilter),
    /// Array-containment leaf.
    Contains(ContainsFilter),
    /// Presence of a field.
    Exists(String),
    /// Conjunction.
    And(FilterList),
    /// Disjunction.
    Or(FilterList),
    /// Negation.
    Not(Box<Filter>),
}

/// Wire filter; `kind` is absent when the sender set none.
#[derive(Debug, PartialEq)]
pub struct Filter {
    /// The filter, if any.
    pub kind: Option<FilterKind>,
}

/// Wire request deleting every point whose payload matches a filter.
#[derive(Debug, PartialEq)]
pub struct DeleteByFilterRequest {
    /// Collection name.
    pub collection: String,
    /// The filter, if given.
    pub filter: Option<Filter>,
}

} // verus!
