//! Conversions for the delete-by-filter request.

use vstd::prelude::*;
use crate::convert_filter::{filter_decode_error, filter_encodes, filter_from_pb, filter_to_pb};
use crate::errors::ConversionError;
use crate::filter::Filter;
use crate::pb;

verus! {

/// Builds the wire request deleting the points of `collection` that match
/// `filter`.
pub fn delete_by_filter_to_pb(collection: &str, filter: &Filter) -> (r: pb::DeleteByFilterRequest)
    ensures
        r.collection@ == collection@,
        r.filter matches Some(w) && filter_encodes(w, *filter),
{
    pb::DeleteByFilterRequest { collection: String::from_str(collection), filter: Some(filter_to_pb(filter)) }
}

/// Parses a wire delete-by-filter request into the collection name and the
/// domain filter; `MissingField("delete_by_filter.filter")` when the filter is
/// absent, and the filter's own decoding error when it does not decode.
pub fn delete_by_filter_from_pb(request: pb::DeleteByFilterRequest) -> (r: Result<(String, Filter), ConversionError>)
    ensures
        match request.filter {
            None => r == Err::<(String, Filter), ConversionError>(ConversionError::MissingField("delete_by_filter.filter")),
            Some(w) => match r {
                Ok((c, f)) => c == request.collection && filter_decode_error(w) is None && filter_encodes(w, f),
                Err(e) => filter_decode_error(w) == Some(e),
            },
        },
{
    let pb::DeleteByFilterRequest { collection, filter } = request;
    match filter {
        None => Err(ConversionError::MissingField("delete_by_filter.filter")),
        Some(w) => match filter_from_pb(w) {
            Ok(f) => Ok((collection, f)),
            Err(e) => Err(e),
        },
    }
}

} // verus!
