//! Conversions between wire points and domain point parts.
//!
//! A point's vector is decoded where floats are handled; the verified
//! decoder takes that outcome as an argument and does the rest.

use vstd::prelude::*;
use crate::convert_payload::{payload_decodes_to, payload_from_pb};
use crate::document::{Document, is_blank};
use crate::errors::{ConversionError, LexicalError, lexical_error_text};
use crate::payload::Payload;
use crate::pb;
use crate::vector_id::{VectorId, uuid_hyphenated_text, uuid_parsed_bits};

verus! {

/// A point decoded from the wire, with validated domain parts.
pub struct DecodedPoint<E> {
    /// The vector identifier.
    pub id: VectorId,
    /// The validated embedding.
    pub embedding: E,
    /// Optional searchable document text.
    pub document: Option<Document>,
    /// Optional payload.
    pub payload: Option<Payload>,
}

/// Renders an identifier as its wire form, the hyphenated UUID text.
pub fn vector_id_to_pb(id: VectorId) -> (r: String)
    ensures
        r@ == uuid_hyphenated_text(id@),
        uuid_parsed_bits(r@) == Some(id@),
{
    id.to_hyphenated()
}

/// Parses a wire identifier; `InvalidUuid` with the text when it is not a
/// UUID.
pub fn vector_id_from_pb(id: &str) -> (r: Result<VectorId, ConversionError>)
    ensures
        match uuid_parsed_bits(id@) {
            Some(bits) => r matches Ok(v) && v@ == bits,
            None => r matches Err(ConversionError::InvalidUuid(s)) && s@ == id@,
        },
{
    match VectorId::parse(id) {
        Some(v) => Ok(v),
        None => Err(ConversionError::InvalidUuid(String::from_str(id))),
    }
}

/// Decodes the parts of a wire point, in order: the identifier
/// (`InvalidUuid`), the already decoded embedding (its error is passed on),
/// the document (`Domain` with the lexical error's message when blank) and
/// the payload (its decoding error).
pub fn point_from_pb<E>(
    id: &str,
    embedding: Result<E, ConversionError>,
    document: Option<String>,
    payload: Option<pb::Payload>,
) -> (r: Result<DecodedPoint<E>, ConversionError>)
    ensures
        uuid_parsed_bits(id@) is None ==> (r matches Err(ConversionError::InvalidUuid(s)) && s@ == id@),
        uuid_parsed_bits(id@) is Some && embedding is Err ==> r == Err::<DecodedPoint<E>, ConversionError>(embedding->Err_0),
        uuid_parsed_bits(id@) is Some && embedding is Ok && (document matches Some(d) && is_blank(d@)) ==>
            (r matches Err(ConversionError::Domain(m)) && m@ == lexical_error_text(LexicalError::EmptyDocument)),
        uuid_parsed_bits(id@) is Some && embedding is Ok && !(document matches Some(d) && is_blank(d@)) ==> match payload {
            None => r matches Ok(p) && p.payload is None,
            Some(w) => exists|q: Result<Payload, ConversionError>| #[trigger] payload_decodes_to(w, q) && match q {
                Ok(qp) => r matches Ok(p) && p.payload matches Some(pp) && pp@ == qp@,
                Err(e) => r == Err::<DecodedPoint<E>, ConversionError>(e),
            },
        },
        r matches Ok(p) ==> p.id@ == uuid_parsed_bits(id@).unwrap() && embedding == Ok::<E, ConversionError>(p.embedding)
            && match document {
                None => p.document is None,
                Some(d) => p.document matches Some(doc) && doc@ == d@,
            },
{
    let vid = match vector_id_from_pb(id) {
        Ok(v) => v,
        Err(e) => return Err(e),
    };
    let emb = match embedding {
        Ok(x) => x,
        Err(e) => return Err(e),
    };
    let doc = match document {
        None => None,
        Some(text) => match Document::new(text.as_str()) {
            Ok(d) => Some(d),
            Err(e) => return Err(ConversionError::Domain(e.message())),
        },
    };
    let decoded = match payload {
        None => None,
        Some(w) => {
            let ghost wv = w;
            let q = payload_from_pb(w);
            match q {
                Ok(p) => {
                    let ghost qv = q;
                    assert(payload_decodes_to(wv, qv));
                    Some(p)
                },
                Err(e) => {
                    assert(payload_decodes_to(wv, q));
                    return Err(e);
                },
            }
        },
    };
    Ok(DecodedPoint { id: vid, embedding: emb, document: doc, payload: decoded })
}

} // verus!
