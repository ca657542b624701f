use crate::error::StoreError;
use vstd::prelude::*;
use vstd::std_specs::hash::obeys_key_model;
use vstd::utf8::{decode_utf8, encode_utf8, encode_utf8_decode_utf8, encode_utf8_valid_utf8, valid_utf8};

verus! {

/// What a key type offers the store: a byte form for the log, a way back
/// from bytes, and equality and hashing so that it can index a map.
///
/// The view of a key is its mathematical value; `spec_serialize` and
/// `spec_deserialize` say what the two conversions do on that value.
pub trait Serializable: View + Eq + std::hash::Hash + Sized {
    /// The bytes a key is written as, or `None` when it has no byte form.
    spec fn spec_serialize(key: Self::V) -> Option<Seq<u8>>;

    /// The key that bytes stand for, or `None` when they stand for none.
    spec fn spec_deserialize(bytes: Seq<u8>) -> Option<Self::V>;

    fn serialize(&self) -> (r: Result<Vec<u8>, StoreError>)
        ensures
            r is Ok <==> Self::spec_serialize(self@) is Some,
            r is Ok ==> r->Ok_0@ == Self::spec_serialize(self@).unwrap(),
            r is Err ==> r->Err_0 == StoreError::KeySerializationFailure,
    ;

    fn deserialize(bytes: Vec<u8>) -> (r: Result<Self, StoreError>)
        ensures
            r is Ok <==> Self::spec_deserialize(bytes@) is Some,
            r is Ok ==> r->Ok_0@ == Self::spec_deserialize(bytes@).unwrap(),
            r is Err ==> r->Err_0 == StoreError::KeySerializationFailure,
    ;

    /// Reading back the bytes of a key gives the key again.
    proof fn lemma_serialize_round_trip(key: Self::V)
        requires
            Self::spec_serialize(key) is Some,
        ensures
            Self::spec_deserialize(Self::spec_serialize(key).unwrap()) == Some(key),
    ;
}

/// Whether hashing and equality of `T` agree with its view, and equal
/// views mean equal keys: what a hash map indexed by keys needs.
pub open spec fn key_model_ok<T: Serializable>() -> bool {
    &&& obeys_key_model::<T>()
    &&& forall|k1: T, k2: T| k1@ == k2@ ==> k1 == k2
}

/// Relies on `String::from_utf8`: it succeeds exactly on valid UTF-8, and
/// then holds the characters that the bytes encode.
#[verifier::external_body]
fn string_from_utf8(bytes: Vec<u8>) -> (r: Option<String>)
    ensures
        r is Some <==> valid_utf8(bytes@),
        r is Some ==> r.unwrap()@ == decode_utf8(bytes@),
{
    String::from_utf8(bytes).ok()
}

/// A string key is written as its UTF-8 bytes.
impl Serializable for String {
    open spec fn spec_serialize(key: Seq<char>) -> Option<Seq<u8>> {
        Some(encode_utf8(key))
    }

    open spec fn spec_deserialize(bytes: Seq<u8>) -> Option<Seq<char>> {
        if valid_utf8(bytes) {
            Some(decode_utf8(bytes))
        } else {
            None
        }
    }

    fn serialize(&self) -> (r: Result<Vec<u8>, StoreError>) {
        let bytes = self.as_str().as_bytes();
        Ok(vstd::slice::slice_to_vec(bytes))
    }

    fn deserialize(bytes: Vec<u8>) -> (r: Result<String, StoreError>) {
        match string_from_utf8(bytes) {
            Some(s) => Ok(s),
            None => Err(StoreError::KeySerializationFailure),
        }
    }

    proof fn lemma_serialize_round_trip(key: Seq<char>) {
        encode_utf8_valid_utf8(key);
        encode_utf8_decode_utf8(key);
    }
}

} // verus!
