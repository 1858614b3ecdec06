//! The crate's one trusted boundary: turning raw field bytes into an owned
//! string. Its contract is stated against vstd's mathematical model of
//! UTF-8 ([`vstd::utf8::valid_utf8`] and [`vstd::utf8::decode_utf8`]), the
//! same model the rest of the library's contracts use.

use vstd::prelude::*;
use vstd::utf8::decode_utf8;
use vstd::utf8::valid_utf8;

verus! {

/// Relies on `String::from_utf8`: it returns a string exactly when the
/// bytes are a valid UTF-8 encoding, and that string's characters are the
/// decoding of those bytes.
#[verifier::external_body]
pub(crate) fn bytes_to_string(bytes: Vec<u8>) -> (r: Option<String>)
    ensures
        r is Some <==> valid_utf8(bytes@),
        r matches Some(t) ==> t@ == decode_utf8(bytes@),
{
    String::from_utf8(bytes).ok()
}

} // verus!
