//! Mapping from domain errors to RPC status outcomes (a code and a message).

use vstd::prelude::*;
use crate::errors::{ConversionError, IndexError, PayloadError, QueryError, ServerError, conversion_error_text, index_error_text, query_error_text};
use crate::text::concat;

verus! {

/// The RPC status codes the service answers with.
#[derive(Clone, Copy, Debug, PartialEq, Eq, Hash, Structural)]
pub enum StatusCode {
    /// The caller sent a malformed or invalid request.
    InvalidArgument,
    /// The named resource does not exist.
    NotFound,
    /// The named resource already exists.
    AlreadyExists,
    /// The server failed while handling a valid request.
    Internal,
}

/// An RPC error outcome: a status code and its message.
#[derive(Clone, Debug, PartialEq, Eq)]
pub struct RpcStatus {
    /// The status code.
    pub code: StatusCode,
    /// The human-readable message.
    pub message: String,
}

/// The code an index error maps to.
pub open spec fn index_error_code(e: IndexError) -> StatusCode {
    match e {
        IndexError::DuplicateId(_) => StatusCode::AlreadyExists,
        IndexError::DimensionMismatch { .. } => StatusCode::InvalidArgument,
        IndexError::EmptyEmbedding => StatusCode::InvalidArgument,
        IndexError::NonFiniteComponent => StatusCode::InvalidArgument,
        IndexError::UnsupportedMetric(_) => StatusCode::InvalidArgument,
        IndexError::Backend(_) => StatusCode::Internal,
    }
}

/// The code a query error maps to; index errors keep their own mapping.
pub open spec fn query_error_code(e: QueryError) -> StatusCode {
    match e {
        QueryError::EmptyQuery => StatusCode::InvalidArgument,
        QueryError::UnsupportedMetric(_) => StatusCode::InvalidArgument,
        QueryError::Payload(PayloadError::NonFiniteValue) => StatusCode::InvalidArgument,
        QueryError::Index(inner) => index_error_code(inner),
        QueryError::Payload(_) => StatusCode::Internal,
        QueryError::Lexical(_) => StatusCode::Internal,
    }
}

/// The code a server error maps to.
pub open spec fn server_error_code(e: ServerError) -> StatusCode {
    match e {
        ServerError::BadName(_) => StatusCode::InvalidArgument,
        ServerError::AlreadyExists(_) => StatusCode::AlreadyExists,
        _ => StatusCode::Internal,
    }
}

/// The detail a server error carries, which becomes the status message.
pub open spec fn server_error_detail(e: ServerError) -> Seq<char> {
    match e {
        ServerError::Io(msg) => msg@,
        ServerError::Serde(msg) => msg@,
        ServerError::BadName(msg) => msg@,
        ServerError::AlreadyExists(msg) => msg@,
        ServerError::Storage(msg) => msg@,
        ServerError::Index(msg) => msg@,
    }
}

/// Maps an index error: duplicate ids to `AlreadyExists`, malformed input to
/// `InvalidArgument`, backend failures to `Internal`; the message is the
/// error's own.
pub fn index_error_to_status(error: &IndexError) -> (r: RpcStatus)
    ensures
        r.code == index_error_code(*error),
        r.message@ == index_error_text(*error),
{
    let code = match error {
        IndexError::DuplicateId(_) => StatusCode::AlreadyExists,
        IndexError::DimensionMismatch { .. } => StatusCode::InvalidArgument,
        IndexError::EmptyEmbedding => StatusCode::InvalidArgument,
        IndexError::NonFiniteComponent => StatusCode::InvalidArgument,
        IndexError::UnsupportedMetric(_) => StatusCode::InvalidArgument,
        IndexError::Backend(_) => StatusCode::Internal,
    };
    RpcStatus { code, message: error.message() }
}

/// Maps a query error: an empty query, an unsupported metric and a
/// non-finite payload are `InvalidArgument`; a wrapped index error maps as
/// `index_error_to_status` does; other payload and lexical failures are
/// `Internal`.
pub fn query_error_to_status(error: &QueryError) -> (r: RpcStatus)
    ensures
        r.code == query_error_code(*error),
        r.message@ == query_error_text(*error),
{
    match error {
        QueryError::Index(inner) => index_error_to_status(inner),
        _ => {
            let code = match error {
                QueryError::EmptyQuery => StatusCode::InvalidArgument,
                QueryError::UnsupportedMetric(_) => StatusCode::InvalidArgument,
                QueryError::Payload(PayloadError::NonFiniteValue) => StatusCode::InvalidArgument,
                _ => StatusCode::Internal,
            };
            RpcStatus { code, message: error.message() }
        },
    }
}

/// Maps a conversion error: every one is malformed caller input.
pub fn conversion_error_to_status(error: &ConversionError) -> (r: RpcStatus)
    ensures
        r.code == StatusCode::InvalidArgument,
        r.message@ == conversion_error_text(*error),
{
    RpcStatus { code: StatusCode::InvalidArgument, message: error.message() }
}

/// Maps a server error: a bad name is `InvalidArgument`, a taken name is
/// `AlreadyExists`, everything else `Internal`; the message is the detail
/// the error carries.
pub fn server_error_to_status(error: &ServerError) -> (r: RpcStatus)
    ensures
        r.code == server_error_code(*error),
        r.message@ == server_error_detail(*error),
{
    match error {
        ServerError::BadName(msg) => RpcStatus { code: StatusCode::InvalidArgument, message: msg.clone() },
        ServerError::AlreadyExists(msg) => RpcStatus { code: StatusCode::AlreadyExists, message: msg.clone() },
        ServerError::Io(msg) => RpcStatus { code: StatusCode::Internal, message: msg.clone() },
        ServerError::Serde(msg) => RpcStatus { code: StatusCode::Internal, message: msg.clone() },
        ServerError::Storage(msg) => RpcStatus { code: StatusCode::Internal, message: msg.clone() },
        ServerError::Index(msg) => RpcStatus { code: StatusCode::Internal, message: msg.clone() },
    }
}

/// A `NotFound` status naming the resource.
pub fn not_found(name: &str) -> (r: RpcStatus)
    ensures
        r.code == StatusCode::NotFound,
        r.message@ == "resource not found: "@ + name@,
{
    RpcStatus { code: StatusCode::NotFound, message: concat("resource not found: ", name) }
}

/// An `AlreadyExists` status naming the resource.
pub fn already_exists(name: &str) -> (r: RpcStatus)
    ensures
        r.code == StatusCode::AlreadyExists,
        r.message@ == "resource already exists: "@ + name@,
{
    RpcStatus { code: StatusCode::AlreadyExists, message: concat("resource already exists: ", name) }
}

/// An `InvalidArgument` status with the given message.
pub fn invalid_argument(message: &str) -> (r: RpcStatus)
    ensures
        r.code == StatusCode::InvalidArgument,
        r.message@ == message@,
{
    RpcStatus { code: StatusCode::InvalidArgument, message: String::from_str(message) }
}

} // verus!
