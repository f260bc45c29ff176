//! Trusted boundary to the base64 crate.
//!
//! The envelopes store salts, nonces and ciphertexts as unpadded standard
//! base64.  The rendering of a byte sequence is given the opaque name
//! `b64_of`; the only facts assumed are that decoding inverts encoding and
//! that the strict decoder accepts canonical renderings alone.

use base64::Engine;
use vstd::prelude::*;

verus! {

/// The unpadded standard-alphabet base64 rendering of a byte sequence.
pub uninterp spec fn b64_of(data: Seq<u8>) -> Seq<char>;

/// What strict base64 decoding returns for a character sequence: the bytes,
/// or `None` when the string is not a canonical rendering.
pub uninterp spec fn b64_dec_of(s: Seq<char>) -> Option<Seq<u8>>;

/// Relies on base64's `Engine::encode` with `STANDARD_NO_PAD`: the rendering
/// is a function of the input bytes alone.
#[verifier::external_body]
pub(crate) fn b64_encode(data: &[u8]) -> (r: String)
    ensures
        r@ == b64_of(data@),
{
    base64::engine::general_purpose::STANDARD_NO_PAD.encode(data)
}

/// Relies on base64's `Engine::decode` with `STANDARD_NO_PAD`: decoding
/// inverts encoding, and the engine's default strict configuration (no
/// padding accepted, no trailing bits tolerated) accepts only strings that
/// `Engine::encode` itself produces.
#[verifier::external_body]
pub(crate) fn b64_decode(s: &str) -> (r: Option<Vec<u8>>)
    ensures
        forall|b: Seq<u8>| s@ == #[trigger] b64_of(b) ==> r is Some && r.unwrap()@ == b,
        r matches Some(b) ==> s@ == b64_of(b@),
        match r {
            Some(b) => b64_dec_of(s@) == Some(b@),
            None => b64_dec_of(s@) is None,
        },
{
    base64::engine::general_purpose::STANDARD_NO_PAD.decode(s.as_bytes()).ok()
}

} // verus!
