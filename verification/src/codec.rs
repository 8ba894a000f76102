//! Element and key encoding.
//!
//! Elements are `u64` values, serialized through `borsh` as exactly their 8
//! little-endian bytes. Store keys are a caller-chosen prefix followed by the
//! 4 little-endian bytes of the element's index.

use vstd::prelude::*;

verus! {

/// The 8-byte little-endian encoding of an element, as the serializer
/// produces it.
pub open spec fn encoded(v: u64) -> Seq<u8> {
    Seq::new(8, |k: int| (((v >> ((8 * k) as u64)) & 0xff) as u8))
}

/// The element read back from an 8-byte little-endian encoding.
pub open spec fn decoded(b: Seq<u8>) -> u64
    recommends
        b.len() == 8,
{
    (b[0] as u64) | ((b[1] as u64) << 8) | ((b[2] as u64) << 16) | ((b[3] as u64) << 24)
        | ((b[4] as u64) << 32) | ((b[5] as u64) << 40) | ((b[6] as u64) << 48)
        | ((b[7] as u64) << 56)
}

/// Law: decoding an encoded element gives the element back. Together with the
/// serializer's contract this is the serialize-then-deserialize round trip.
pub proof fn lemma_encode_decode(v: u64)
    ensures
        decoded(encoded(v)) == v,
        encoded(v).len() == 8,
{
    let b = encoded(v);
    assert(b[0] == ((v >> 0) & 0xff) as u8);
    assert(b[1] == ((v >> 8) & 0xff) as u8);
    assert(b[2] == ((v >> 16) & 0xff) as u8);
    assert(b[3] == ((v >> 24) & 0xff) as u8);
    assert(b[4] == ((v >> 32) & 0xff) as u8);
    assert(b[5] == ((v >> 40) & 0xff) as u8);
    assert(b[6] == ((v >> 48) & 0xff) as u8);
    assert(b[7] == ((v >> 56) & 0xff) as u8);
    assert((((((v >> 0) & 0xff) as u8) as u64) | (((((v >> 8) & 0xff) as u8) as u64) << 8)
        | (((((v >> 16) & 0xff) as u8) as u64) << 16) | (((((v >> 24) & 0xff) as u8) as u64) << 24)
        | (((((v >> 32) & 0xff) as u8) as u64) << 32) | (((((v >> 40) & 0xff) as u8) as u64) << 40)
        | (((((v >> 48) & 0xff) as u8) as u64) << 48) | (((((v >> 56) & 0xff) as u8) as u64) << 56))
        == v) by (bit_vector);
}

/// The 4-byte little-endian encoding of an index.
pub open spec fn index_bytes(i: u32) -> Seq<u8> {
    Seq::new(4, |k: int| (((i >> ((8 * k) as u32)) & 0xff) as u8))
}

/// The store key of an index: the collection's prefix followed by the index's
/// little-endian bytes.
pub open spec fn key_of(prefix: Seq<u8>, i: u32) -> Seq<u8> {
    prefix + index_bytes(i)
}

/// Distinct indices under one prefix have distinct store keys.
pub proof fn lemma_key_of_injective(prefix: Seq<u8>, i: u32, j: u32)
    requires
        key_of(prefix, i) == key_of(prefix, j),
    ensures
        i == j,
{
    let p = prefix.len() as int;
    assert forall|k: int| 0 <= k < 4 implies index_bytes(i)[k] == index_bytes(j)[k] by {
        assert(key_of(prefix, i)[p + k] == index_bytes(i)[k]);
        assert(key_of(prefix, j)[p + k] == index_bytes(j)[k]);
    }
    assert(index_bytes(i)[0] == ((i >> 0) & 0xff) as u8);
    assert(index_bytes(i)[1] == ((i >> 8) & 0xff) as u8);
    assert(index_bytes(i)[2] == ((i >> 16) & 0xff) as u8);
    assert(index_bytes(i)[3] == ((i >> 24) & 0xff) as u8);
    assert(index_bytes(j)[0] == ((j >> 0) & 0xff) as u8);
    assert(index_bytes(j)[1] == ((j >> 8) & 0xff) as u8);
    assert(index_bytes(j)[2] == ((j >> 16) & 0xff) as u8);
    assert(index_bytes(j)[3] == ((j >> 24) & 0xff) as u8);
    assert(((i >> 0) & 0xff) as u8 == ((j >> 0) & 0xff) as u8
        && ((i >> 8) & 0xff) as u8 == ((j >> 8) & 0xff) as u8
        && ((i >> 16) & 0xff) as u8 == ((j >> 16) & 0xff) as u8
        && ((i >> 24) & 0xff) as u8 == ((j >> 24) & 0xff) as u8 ==> i == j) by (bit_vector);
}

/// Relies on `borsh::to_vec`: a `u64` is serialized as exactly its 8
/// little-endian bytes, and serializing to a growable buffer cannot fail.
#[verifier::external_body]
pub(crate) fn serialize_element(element: u64) -> (r: Vec<u8>)
    ensures
        r@ == encoded(element),
{
    borsh::to_vec(&element).expect("serializing an integer to a buffer cannot fail")
}

/// Relies on `borsh::BorshDeserialize::try_from_slice` for `u64`: it succeeds
/// exactly when given 8 bytes, reading them as little-endian, and reports an
/// error for any other input length.
#[verifier::external_body]
pub(crate) fn deserialize_element(raw: &Vec<u8>) -> (r: Option<u64>)
    ensures
        raw@.len() == 8 ==> r == Some(decoded(raw@)),
        raw@.len() != 8 ==> r is None,
{
    <u64 as borsh::BorshDeserialize>::try_from_slice(raw).ok()
}

} // verus!
