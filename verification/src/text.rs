//! Between names as text and names as bytes.
use vstd::prelude::*;

verus! {

/// The bytes of each name in a row of names.
pub open spec fn names_bytes(names: Seq<String>) -> Seq<Seq<u8>> {
    Seq::new(names.len(), |i: int| vstd::utf8::encode_utf8(names[i]@))
}

/// Calls `String::from_utf8`. The bytes become a string exactly when they
/// are UTF-8, and the string then consists of these bytes.
#[verifier::external_body]
pub(crate) fn string_from_utf8(bytes: Vec<u8>) -> (r: Option<String>)
    ensures
        r is Some <==> vstd::utf8::valid_utf8(bytes@),
        r matches Some(s) ==> vstd::utf8::encode_utf8(s@) == bytes@,
{
    match String::from_utf8(bytes) {
        Ok(s) => Some(s),
        Err(_) => None,
    }
}

/// The bytes of a name.
pub fn name_bytes(name: &str) -> (bytes: Vec<u8>)
    ensures
        bytes@ == vstd::utf8::encode_utf8(name@),
{
    vstd::slice::slice_to_vec(name.as_bytes())
}

} // verus!
