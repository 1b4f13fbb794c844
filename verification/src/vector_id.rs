//! Stable identifier for a stored vector: the raw 128 bits of a UUID.
//!
//! Any UUID version is accepted: nothing inspects the version nibble. The
//! ordering of identifiers is the ordering of the UUID bytes, which is the
//! numeric ordering of the big-endian 128-bit value held here.

use vstd::prelude::*;

verus! {

/// Unique identifier of a vector, the big-endian 128-bit value of a UUID.
#[derive(Clone, Copy, Debug, PartialEq, Eq, PartialOrd, Ord, Hash, Structural)]
pub struct VectorId(u128);

impl View for VectorId {
    type V = u128;

    closed spec fn view(&self) -> u128 {
        self.0
    }
}

/// The lowercase hexadecimal digit of a value below 16.
pub open spec fn hex_digit(v: int) -> char {
    if v < 10 { (48 + v) as char } else { (87 + v) as char }
}

/// The last `n` hexadecimal digits of `v`, most significant first.
pub open spec fn hex_digits(v: int, n: nat) -> Seq<char>
    decreases n,
{
    if n == 0 { Seq::empty() } else { hex_digits(v / 16, (n - 1) as nat).push(hex_digit(v % 16)) }
}

/// The hyphenated lowercase text that `uuid` prints for a 128-bit value:
/// its 32 hexadecimal digits, most significant first, with a hyphen after
/// the 8th, 12th, 16th and 20th.
pub open spec fn uuid_hyphenated_text(bits: u128) -> Seq<char> {
    let d = hex_digits(bits as int, 32);
    d.subrange(0, 8) + seq!['-'] + d.subrange(8, 12) + seq!['-'] + d.subrange(12, 16) + seq!['-']
        + d.subrange(16, 20) + seq!['-'] + d.subrange(20, 32)
}

/// The 128-bit value that `uuid` parses out of a text, if it accepts it.
pub uninterp spec fn uuid_parsed_bits(text: Seq<char>) -> Option<u128>;

/// The version field of a UUID held as its big-endian 128-bit value: the
/// high nibble of byte 6, bits 76 to 79 of the number.
pub open spec fn uuid_version(bits: u128) -> u128 {
    (bits / 0x1000_0000_0000_0000_0000) % 16
}

/// The variant field of a UUID held as its big-endian 128-bit value: the
/// two high bits of byte 8, bits 62 and 63 of the number. The RFC 4122
/// variant is `0b10`.
pub open spec fn uuid_variant(bits: u128) -> u128 {
    (bits / 0x4000_0000_0000_0000) % 4
}

/// Calls `uuid::Uuid::now_v7` and returns its big-endian 128-bit value.
/// The contract states what the crate's encoder always writes: the version
/// nibble 7 and the RFC 4122 variant bits. The other bits come from the
/// clock and from random numbers, and nothing is promised about them.
#[verifier::external_body]
fn fresh_uuid_bits() -> (r: u128)
    ensures
        uuid_version(r) == 7,
        uuid_variant(r) == 2,
{
    uuid::Uuid::now_v7().as_u128()
}

/// Formats a 128-bit value with `uuid::Uuid`'s `Display` (lowercase,
/// hyphenated). The contract states that the text is the hyphenated form
/// (32 lowercase hexadecimal digits, most significant first, hyphens after
/// the 8th, 12th, 16th and 20th), 36 characters long, and that
/// `Uuid::parse_str` reads the same value back from it (the parser accepts
/// the hyphenated format).
#[verifier::external_body]
fn uuid_bits_to_text(bits: u128) -> (r: String)
    ensures
        r@ == uuid_hyphenated_text(bits),
        r@.len() == 36,
        uuid_parsed_bits(r@) == Some(bits),
{
    uuid::Uuid::from_u128(bits).to_string()
}

/// Calls `uuid::Uuid::parse_str` and returns the parsed big-endian value,
/// or `None` when the crate rejects the text.
#[verifier::external_body]
fn uuid_text_to_bits(text: &str) -> (r: Option<u128>)
    ensures
        r == uuid_parsed_bits(text@),
{
    uuid::Uuid::parse_str(text).ok().map(|u| u.as_u128())
}

/// The identifier holding a given 128-bit value.
pub closed spec fn vector_id_spec(bits: u128) -> VectorId {
    VectorId(bits)
}

/// The identifier of a value holds that value, and is the only one that
/// does.
pub proof fn lemma_vector_id_spec(v: VectorId, bits: u128)
    ensures
        vector_id_spec(bits)@ == bits,
        v@ == bits ==> v == vector_id_spec(bits),
{
}

/// Two identifiers are equal exactly when their 128-bit values are.
pub proof fn lemma_vector_id_view_injective(a: VectorId, b: VectorId)
    ensures
        (a@ == b@) == (a == b),
{
}

impl VectorId {
    /// Generates a fresh, time-ordered (version 7) identifier: its version
    /// nibble is 7 and its variant is the RFC 4122 one.
    pub fn new() -> (r: VectorId)
        ensures
            uuid_version(r@) == 7,
            uuid_variant(r@) == 2,
    {
        VectorId(fresh_uuid_bits())
    }

    /// Wraps the big-endian 128-bit value of a UUID.
    pub fn from_u128(bits: u128) -> (r: VectorId)
        ensures
            r@ == bits,
    {
        VectorId(bits)
    }

    /// Returns the big-endian 128-bit value of the UUID.
    pub fn as_u128(self) -> (r: u128)
        ensures
            r == self@,
    {
        self.0
    }

    /// The nil identifier (all bits zero).
    pub fn nil() -> (r: VectorId)
        ensures
            r@ == 0,
    {
        VectorId(0)
    }

    /// Renders the identifier as a hyphenated lowercase UUID string.
    pub fn to_hyphenated(self) -> (r: String)
        ensures
            r@ == uuid_hyphenated_text(self@),
            r@.len() == 36,
            uuid_parsed_bits(r@) == Some(self@),
    {
        uuid_bits_to_text(self.0)
    }

    /// Parses a UUID string, returning `None` when it is not a valid UUID.
    pub fn parse(text: &str) -> (r: Option<VectorId>)
        ensures
            match uuid_parsed_bits(text@) {
                Some(bits) => r matches Some(id) && id@ == bits,
                None => r is None,
            },
    {
        match uuid_text_to_bits(text) {
            Some(bits) => Some(VectorId(bits)),
            None => None,
        }
    }

    /// Compares two identifiers by their UUID byte order.
    pub fn less_than(self, other: VectorId) -> (r: bool)
        ensures
            r == (self@ < other@),
    {
        self.0 < other.0
    }
}

} // verus!
