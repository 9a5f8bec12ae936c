//! Strict UTF-8 decoding, against vstd's model of the encoding.

use vstd::prelude::*;
use vstd::utf8::{decode_utf8, valid_utf8};

verus! {

/// Relies on str::from_utf8: it accepts exactly the valid UTF-8 byte
/// sequences and yields the characters they encode, as vstd's `valid_utf8`
/// and `decode_utf8` define them.
#[verifier::external_body]
pub(crate) fn utf8_to_string(bytes: &[u8]) -> (r: Option<String>)
    ensures
        r is Some <==> valid_utf8(bytes@),
        r matches Some(s) ==> s@ == decode_utf8(bytes@),
{
    match core::str::from_utf8(bytes) {
        Ok(s) => Some(s.to_owned()),
        Err(_) => None,
    }
}

} // verus!
