//! Error types of the index, lexical, payload, query, wire and server layers,
//! each with the human-readable message of its variants.

use vstd::prelude::*;
use crate::metric::Metric;
use crate::vector_id::{VectorId, uuid_hyphenated_text};
use crate::text::{append_decimal, concat, decimal_text};

verus! {

/// The name `Debug` prints for a metric.
pub open spec fn metric_debug_name(m: Metric) -> Seq<char> {
    match m {
        Metric::Cosine => "Cosine"@,
        Metric::DotProduct => "DotProduct"@,
        Metric::Euclidean => "Euclidean"@,
    }
}

/// Returns the name `Debug` prints for a metric.
pub fn metric_name(m: Metric) -> (r: &'static str)
    ensures
        r@ == metric_debug_name(m),
{
    match m {
        Metric::Cosine => "Cosine",
        Metric::DotProduct => "DotProduct",
        Metric::Euclidean => "Euclidean",
    }
}

/// Failure modes of a vector index operation.
#[derive(Debug, Clone, PartialEq, Eq)]
pub enum IndexError {
    /// An embedding did not match the index dimension.
    DimensionMismatch {
        /// Dimension the index was created with.
        expected: usize,
        /// Dimension of the offending embedding.
        got: usize,
    },
    /// An id already present in the index was inserted again.
    DuplicateId(VectorId),
    /// An embedding was constructed from an empty vector.
    EmptyEmbedding,
    /// An embedding contained a non-finite component (NaN or infinity).
    NonFiniteComponent,
    /// The index cannot score with the requested metric.
    UnsupportedMetric(Metric),
    /// A persistence backend operation failed.
    Backend(String),
}

/// The message of an [`IndexError`].
pub open spec fn index_error_text(e: IndexError) -> Seq<char> {
    match e {
        IndexError::DimensionMismatch { expected, got } =>
            "dimension mismatch: index expects "@ + decimal_text(expected as nat) + ", got "@
                + decimal_text(got as nat),
        IndexError::DuplicateId(id) => "duplicate id: VectorId("@ + uuid_hyphenated_text(id@) + ")"@,
        IndexError::EmptyEmbedding => "embedding is empty"@,
        IndexError::NonFiniteComponent => "embedding contains a non-finite component"@,
        IndexError::UnsupportedMetric(m) => "metric not supported by this index: "@ + metric_debug_name(m),
        IndexError::Backend(msg) => "storage backend error: "@ + msg@,
    }
}

impl IndexError {
    /// Renders the error message.
    pub fn message(&self) -> (r: String)
        ensures
            r@ == index_error_text(*self),
    {
        match self {
            IndexError::DimensionMismatch { expected, got } => {
                let mut s = String::from_str("dimension mismatch: index expects ");
                append_decimal(&mut s, *expected as u64);
                s.append(", got ");
                append_decimal(&mut s, *got as u64);
                s
            },
            IndexError::DuplicateId(id) => {
                let mut s = String::from_str("duplicate id: VectorId(");
                let text = id.to_hyphenated();
                s.append(text.as_str());
                s.append(")");
                s
            },
            IndexError::EmptyEmbedding => String::from_str("embedding is empty"),
            IndexError::NonFiniteComponent => String::from_str("embedding contains a non-finite component"),
            IndexError::UnsupportedMetric(m) => concat("metric not supported by this index: ", metric_name(*m)),
            IndexError::Backend(msg) => concat("storage backend error: ", msg.as_str()),
        }
    }
}

/// Failure modes of a lexical index operation.
#[derive(Debug, Clone, PartialEq, Eq)]
pub enum LexicalError {
    /// A document was constructed from blank text.
    EmptyDocument,
    /// Encoding or decoding a stored value failed.
    Serialization(String),
    /// A persistence backend operation failed.
    Backend(String),
}

/// The message of a [`LexicalError`].
pub open spec fn lexical_error_text(e: LexicalError) -> Seq<char> {
    match e {
        LexicalError::EmptyDocument => "document text is empty"@,
        LexicalError::Serialization(msg) => "serialization error: "@ + msg@,
        LexicalError::Backend(msg) => "storage backend error: "@ + msg@,
    }
}

impl LexicalError {
    /// Renders the error message.
    pub fn message(&self) -> (r: String)
        ensures
            r@ == lexical_error_text(*self),
    {
        match self {
            LexicalError::EmptyDocument => String::from_str("document text is empty"),
            LexicalError::Serialization(msg) => concat("serialization error: ", msg.as_str()),
            LexicalError::Backend(msg) => concat("storage backend error: ", msg.as_str()),
        }
    }
}

/// Failure modes of a payload store operation.
#[derive(Debug, Clone, PartialEq, Eq)]
pub enum PayloadError {
    /// A payload carried a non-finite float (NaN or infinity).
    NonFiniteValue,
    /// (De)serialization of a stored payload failed.
    Serialization(String),
    /// The persistence backend reported an error.
    Backend(String),
}

/// The message of a [`PayloadError`].
pub open spec fn payload_error_text(e: PayloadError) -> Seq<char> {
    match e {
        PayloadError::NonFiniteValue => "payload contains a non-finite float value"@,
        PayloadError::Serialization(msg) => "payload serialization error: "@ + msg@,
        PayloadError::Backend(msg) => "payload backend error: "@ + msg@,
    }
}

impl PayloadError {
    /// Renders the error message.
    pub fn message(&self) -> (r: String)
        ensures
            r@ == payload_error_text(*self),
    {
        match self {
            PayloadError::NonFiniteValue => String::from_str("payload contains a non-finite float value"),
            PayloadError::Serialization(msg) => concat("payload serialization error: ", msg.as_str()),
            PayloadError::Backend(msg) => concat("payload backend error: ", msg.as_str()),
        }
    }
}

/// Failure modes of a collection query.
#[derive(Debug, Clone, PartialEq, Eq)]
pub enum QueryError {
    /// The requested metric is not supported by the index.
    UnsupportedMetric(Metric),
    /// An underlying index operation failed.
    Index(IndexError),
    /// An underlying payload store operation failed.
    Payload(PayloadError),
    /// A hybrid query supplied neither a dense vector nor query text.
    EmptyQuery,
    /// A lexical index operation failed.
    Lexical(LexicalError),
}

/// The message of a [`QueryError`]; wrapped errors show their own message.
pub open spec fn query_error_text(e: QueryError) -> Seq<char> {
    match e {
        QueryError::UnsupportedMetric(m) => "metric not supported by this index: "@ + metric_debug_name(m),
        QueryError::Index(inner) => index_error_text(inner),
        QueryError::Payload(inner) => payload_error_text(inner),
        QueryError::EmptyQuery => "query has neither a vector nor text"@,
        QueryError::Lexical(inner) => lexical_error_text(inner),
    }
}

impl QueryError {
    /// Renders the error message.
    pub fn message(&self) -> (r: String)
        ensures
            r@ == query_error_text(*self),
    {
        match self {
            QueryError::UnsupportedMetric(m) => concat("metric not supported by this index: ", metric_name(*m)),
            QueryError::Index(inner) => inner.message(),
            QueryError::Payload(inner) => inner.message(),
            QueryError::EmptyQuery => String::from_str("query has neither a vector nor text"),
            QueryError::Lexical(inner) => inner.message(),
        }
    }
}

/// Error produced when converting between wire types and domain types.
#[derive(Debug, Clone, PartialEq, Eq)]
pub enum ConversionError {
    /// A UUID field could not be parsed.
    InvalidUuid(String),
    /// A required field was absent or set to the unspecified sentinel value.
    MissingField(&'static str),
    /// The domain layer rejected a value.
    Domain(String),
}

/// The message of a [`ConversionError`].
pub open spec fn conversion_error_text(e: ConversionError) -> Seq<char> {
    match e {
        ConversionError::InvalidUuid(raw) => "invalid UUID: "@ + raw@,
        ConversionError::MissingField(field) => "missing required field: "@ + field@,
        ConversionError::Domain(msg) => "domain error: "@ + msg@,
    }
}

impl ConversionError {
    /// Renders the error message.
    pub fn message(&self) -> (r: String)
        ensures
            r@ == conversion_error_text(*self),
    {
        match self {
            ConversionError::InvalidUuid(raw) => concat("invalid UUID: ", raw.as_str()),
            ConversionError::MissingField(field) => concat("missing required field: ", field),
            ConversionError::Domain(msg) => concat("domain error: ", msg.as_str()),
        }
    }
}

/// Errors that can occur in the server layer.
#[derive(Debug, Clone, PartialEq, Eq)]
pub enum ServerError {
    /// An I/O error occurred while reading or writing a file.
    Io(String),
    /// A serialisation or deserialisation error occurred.
    Serde(String),
    /// A collection name is invalid.
    BadName(String),
    /// A collection with that name is already registered.
    AlreadyExists(String),
    /// A storage-layer error occurred.
    Storage(String),
    /// An index-layer error occurred.
    Index(String),
}

/// The message of a [`ServerError`].
pub open spec fn server_error_text(e: ServerError) -> Seq<char> {
    match e {
        ServerError::Io(msg) => "I/O error: "@ + msg@,
        ServerError::Serde(msg) => "serialisation error: "@ + msg@,
        ServerError::BadName(msg) => "invalid collection name: "@ + msg@,
        ServerError::AlreadyExists(msg) => "collection already exists: "@ + msg@,
        ServerError::Storage(msg) => "storage error: "@ + msg@,
        ServerError::Index(msg) => "index error: "@ + msg@,
    }
}

impl ServerError {
    /// Renders the error message.
    pub fn message(&self) -> (r: String)
        ensures
            r@ == server_error_text(*self),
    {
        match self {
            ServerError::Io(msg) => concat("I/O error: ", msg.as_str()),
            ServerError::Serde(msg) => concat("serialisation error: ", msg.as_str()),
            ServerError::BadName(msg) => concat("invalid collection name: ", msg.as_str()),
            ServerError::AlreadyExists(msg) => concat("collection already exists: ", msg.as_str()),
            ServerError::Storage(msg) => concat("storage error: ", msg.as_str()),
            ServerError::Index(msg) => concat("index error: ", msg.as_str()),
        }
    }
}

} // verus!
