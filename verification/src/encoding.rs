//! Transport encoding of binary payloads.
//!
//! Image payloads travel and persist as base64 text. The encoding itself
//! is done by an outside crate; its results are named here and the rest of
//! the library reasons through those names.

use vstd::prelude::*;

use base64::Engine;

verus! {

/// The base64 text of a byte string, under the standard padded alphabet.
pub uninterp spec fn b64_of(bytes: Seq<u8>) -> Seq<u8>;

/// The byte string a base64 text decodes to, if it decodes at all.
pub uninterp spec fn b64_decode_of(text: Seq<u8>) -> Option<Seq<u8>>;

/// Relies on base64's `Engine::encode` with the standard padded engine:
/// the output is a function of the input bytes alone, four output bytes
/// for every three input bytes, and `Engine::decode` inverts it.
#[verifier::external_body]
pub(crate) fn b64_encode(bytes: &Vec<u8>) -> (r: Vec<u8>)
    requires
        bytes@.len() <= usize::MAX / 4 * 3,
    ensures
        r@ == b64_of(bytes@),
        r@.len() == 4 * ((bytes@.len() + 2) / 3),
        b64_decode_of(r@) == Some(bytes@),
{
    base64::engine::general_purpose::STANDARD.encode(bytes).into_bytes()
}

/// Relies on base64's `Engine::decode` with the standard padded engine:
/// whether and to what a text decodes is a function of the text alone.
#[verifier::external_body]
pub(crate) fn b64_decode(text: &Vec<u8>) -> (r: Option<Vec<u8>>)
    ensures
        match r {
            Some(v) => b64_decode_of(text@) == Some(v@),
            None => b64_decode_of(text@) is None,
        },
{
    match base64::engine::general_purpose::STANDARD.decode(text) {
        Ok(v) => Some(v),
        Err(_) => None,
    }
}

} // verus!
