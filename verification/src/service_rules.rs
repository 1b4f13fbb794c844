//! The decisions the RPC handlers make around the collection operations:
//! admitting a new collection, choosing its index, checking vector
//! dimensions, and following a streamed bulk upsert.

use vstd::prelude::*;
use crate::collection_meta::{CollectionMeta, is_valid_name, spec_is_valid_name};
use crate::convert_enums::IndexTypeChoice;
use crate::errors::ServerError;
use crate::hnsw_config::{HnswConfig, default_config};
use crate::status::{RpcStatus, StatusCode, invalid_argument, conversion_error_to_status};
use crate::convert_point::DecodedPoint;
use crate::errors::{ConversionError, conversion_error_text};
use crate::text::{append_decimal, decimal_text};
use crate::value::{order_texts, text_order, lemma_text_order_zero};

verus! {

/// Decides whether a collection may be created: its name must be valid
/// (`BadName` with the name otherwise), then not registered yet
/// (`AlreadyExists` with the name otherwise).
pub fn admit_collection(meta: &CollectionMeta, registered: bool) -> (r: Result<(), ServerError>)
    ensures
        !spec_is_valid_name(meta.name@) ==> (r matches Err(ServerError::BadName(n)) && n@ == meta.name@),
        spec_is_valid_name(meta.name@) && registered ==> (r matches Err(ServerError::AlreadyExists(n)) && n@ == meta.name@),
        spec_is_valid_name(meta.name@) && !registered ==> r is Ok,
{
    if !is_valid_name(meta.name.as_str()) {
        return Err(ServerError::BadName(meta.name.clone()));
    }
    if registered {
        return Err(ServerError::AlreadyExists(meta.name.clone()));
    }
    Ok(())
}

/// The HNSW configuration a collection is built with: none for a flat
/// collection, the recorded one (the default when none is recorded) for an
/// HNSW collection.
pub fn hnsw_config_of(meta: &CollectionMeta) -> (r: Option<HnswConfig>)
    ensures
        r == match meta.index_type {
            IndexTypeChoice::Flat => None::<HnswConfig>,
            IndexTypeChoice::Hnsw => Some(match meta.hnsw {
                Some(c) => c,
                None => default_config(),
            }),
        },
{
    match meta.index_type {
        IndexTypeChoice::Flat => None,
        IndexTypeChoice::Hnsw => match meta.hnsw {
            Some(c) => Some(c),
            None => Some(HnswConfig::default()),
        },
    }
}

/// The message of a dimension mismatch between the collection and a vector
/// of the given kind (`"vector"` for points, `"query"` for queries).
pub open spec fn dimension_mismatch_text(kind: Seq<char>, expected: nat, got: nat) -> Seq<char> {
    kind + " dimension mismatch: expected "@ + decimal_text(expected) + ", got "@ + decimal_text(got)
}

/// Checks a vector's dimension against the collection's.
fn check_dimension(kind: &str, expected: usize, got: usize) -> (r: Result<(), RpcStatus>)
    ensures
        got == expected ==> r is Ok,
        got != expected ==> (r matches Err(s) && s.code == StatusCode::InvalidArgument
            && s.message@ == dimension_mismatch_text(kind@, expected as nat, got as nat)),
{
    if got == expected {
        return Ok(());
    }
    let mut m = String::from_str(kind);
    let ghost k = m@;
    let tail1 = " dimension mismatch: expected ";
    let tail2 = ", got ";
    m.append(tail1);
    append_decimal(&mut m, expected as u64);
    m.append(tail2);
    append_decimal(&mut m, got as u64);
    proof {
        assert(m@ =~= dimension_mismatch_text(kind@, expected as nat, got as nat));
    }
    Err(RpcStatus { code: StatusCode::InvalidArgument, message: m })
}

/// Checks the dimension of a point's vector against the collection's.
pub fn check_vector_dimension(expected: usize, got: usize) -> (r: Result<(), RpcStatus>)
    ensures
        got == expected ==> r is Ok,
        got != expected ==> (r matches Err(s) && s.code == StatusCode::InvalidArgument
            && s.message@ == dimension_mismatch_text("vector"@, expected as nat, got as nat)),
{
    check_dimension("vector", expected, got)
}

/// Checks the dimension of a query vector against the collection's.
pub fn check_query_dimension(expected: usize, got: usize) -> (r: Result<(), RpcStatus>)
    ensures
        got == expected ==> r is Ok,
        got != expected ==> (r matches Err(s) && s.code == StatusCode::InvalidArgument
            && s.message@ == dimension_mismatch_text("query"@, expected as nat, got as nat)),
{
    check_dimension("query", expected, got)
}

/// Whether a point of a batch passes the checks made before anything is
/// written: its vector has the collection's dimension, and it decoded.
pub open spec fn batch_point_ok<E>(expected: usize, len: usize, decoded: Result<DecodedPoint<E>, ConversionError>) -> bool {
    len == expected && decoded is Ok
}

/// The answer for the first point of a batch that fails its checks: the
/// dimension mismatch when its vector has another dimension, else its
/// decoding error.
pub open spec fn batch_point_rejection<E>(expected: usize, len: usize, decoded: Result<DecodedPoint<E>, ConversionError>, s: RpcStatus) -> bool {
    &&& s.code == StatusCode::InvalidArgument
    &&& if len != expected {
        s.message@ == dimension_mismatch_text("vector"@, expected as nat, len as nat)
    } else {
        decoded matches Err(e) && s.message@ == conversion_error_text(e)
    }
}

/// Admits a batch upsert before any point is written: every point, in
/// order, must have a vector of the collection's dimension (`lengths`) and
/// must have decoded (`decoded`). Answers the number of points to upsert,
/// or the rejection of the first point that fails, in which case nothing is
/// to be written.
pub fn admit_batch<E>(expected: usize, lengths: &Vec<usize>, decoded: &Vec<Result<DecodedPoint<E>, ConversionError>>) -> (r: Result<u64, RpcStatus>)
    requires
        lengths@.len() == decoded@.len(),
    ensures
        match r {
            Ok(n) => n == decoded@.len() && forall|i: int| 0 <= i < decoded@.len() ==> #[trigger] batch_point_ok(expected, lengths@[i], decoded@[i]),
            Err(s) => exists|i: int| 0 <= i < decoded@.len()
                && (forall|j: int| 0 <= j < i ==> #[trigger] batch_point_ok(expected, lengths@[j], decoded@[j]))
                && !batch_point_ok(expected, lengths@[i], decoded@[i])
                && #[trigger] batch_point_rejection(expected, lengths@[i], decoded@[i], s),
        },
{
    let mut i: usize = 0;
    while i < decoded.len()
        invariant
            lengths@.len() == decoded@.len(),
            i <= decoded@.len(),
            forall|j: int| 0 <= j < i ==> #[trigger] batch_point_ok(expected, lengths@[j], decoded@[j]),
        decreases decoded.len() - i,
    {
        if let Err(s) = check_vector_dimension(expected, lengths[i]) {
            proof {
                assert(batch_point_rejection(expected, lengths@[i as int], decoded@[i as int], s));
            }
            return Err(s);
        }
        match &decoded[i] {
            Ok(_) => {},
            Err(e) => {
                let s = conversion_error_to_status(e);
                proof {
                    assert(batch_point_rejection(expected, lengths@[i as int], decoded@[i as int], s));
                }
                return Err(s);
            },
        }
        i = i + 1;
    }
    Ok(decoded.len() as u64)
}

/// The progress of a streamed bulk upsert: the collection named by the
/// first message, the collection's dimension, and the points applied so far.
pub struct BulkUpsert {
    collection: String,
    expected_dimension: usize,
    upserted: u64,
}

impl BulkUpsert {
    /// The collection the stream writes to.
    pub closed spec fn collection_spec(&self) -> Seq<char> {
        self.collection@
    }

    /// The dimension every point must have.
    pub closed spec fn dimension_spec(&self) -> usize {
        self.expected_dimension
    }

    /// The number of points applied so far.
    pub closed spec fn upserted_spec(&self) -> u64 {
        self.upserted
    }

    /// Starts following a stream whose first message names `collection`.
    pub fn start(collection: String, expected_dimension: usize) -> (r: BulkUpsert)
        ensures
            r.collection_spec() == collection@,
            r.dimension_spec() == expected_dimension,
            r.upserted_spec() == 0,
    {
        BulkUpsert { collection, expected_dimension, upserted: 0 }
    }

    /// The collection the stream writes to.
    pub fn collection(&self) -> (r: &str)
        ensures
            r@ == self.collection_spec(),
    {
        self.collection.as_str()
    }

    /// Checks a message of the stream: a message may leave its collection
    /// empty or repeat the first one; any other collection is refused.
    pub fn check_message(&self, collection: &str) -> (r: Result<(), RpcStatus>)
        ensures
            (collection@.len() == 0 || collection@ == self.collection_spec()) ==> r is Ok,
            !(collection@.len() == 0 || collection@ == self.collection_spec()) ==> (r matches Err(s)
                && s.code == StatusCode::InvalidArgument
                && s.message@ == "bulk_upsert stream changed collection mid-stream"@),
    {
        if collection.is_empty() {
            return Ok(());
        }
        let o = order_texts(collection, self.collection.as_str());
        proof {
            lemma_text_order_zero(collection@, self.collection@);
        }
        if o == 0 {
            Ok(())
        } else {
            Err(invalid_argument("bulk_upsert stream changed collection mid-stream"))
        }
    }

    /// Checks the dimension of a point of the stream.
    pub fn check_point(&self, dimension: usize) -> (r: Result<(), RpcStatus>)
        ensures
            dimension == self.dimension_spec() ==> r is Ok,
            dimension != self.dimension_spec() ==> (r matches Err(s) && s.code == StatusCode::InvalidArgument
                && s.message@ == dimension_mismatch_text("vector"@, self.dimension_spec() as nat, dimension as nat)),
    {
        check_vector_dimension(self.expected_dimension, dimension)
    }

    /// Records a chunk of `points` points as applied.
    pub fn record_chunk(&mut self, points: usize)
        requires
            old(self).upserted_spec() + points <= u64::MAX,
        ensures
            final(self).upserted_spec() == old(self).upserted_spec() + points,
            final(self).collection_spec() == old(self).collection_spec(),
            final(self).dimension_spec() == old(self).dimension_spec(),
    {
        self.upserted = self.upserted + points as u64;
    }

    /// The number of points applied so far.
    pub fn upserted(&self) -> (r: u64)
        ensures
            r == self.upserted_spec(),
    {
        self.upserted
    }
}

} // verus!
