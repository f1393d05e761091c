//! Decoding of base64 document payloads.
use vstd::prelude::*;

verus! {

#[verifier::external_type_specification]
#[verifier::external_body]
pub struct ExDecodeError(base64::DecodeError);

/// What base64's standard engine decodes `s` to, or `None` when it rejects it.
pub uninterp spec fn base64_decoded(s: Seq<char>) -> Option<Seq<u8>>;

/// Relies on `base64::Engine::decode` with the `STANDARD` engine: the bytes
/// `s` encodes, or an error when `s` is not valid padded base64; the outcome
/// depends on `s` alone.
#[verifier::external_body]
fn decode_standard(s: &str) -> (r: Result<Vec<u8>, base64::DecodeError>)
    ensures
        match r {
            Ok(v) => base64_decoded(s@) == Some(v@),
            Err(_) => base64_decoded(s@) is None,
        },
{
    base64::Engine::decode(&base64::engine::general_purpose::STANDARD, s)
}

/// Why a payload could not be decoded.
#[derive(Clone, Copy, Debug, PartialEq, Eq, Structural)]
pub enum PayloadError {
    /// The payload is not valid standard base64.
    InvalidBase64,
}

/// The bytes of a base64 (standard alphabet, padded) payload.
pub fn decode_payload(b64: &str) -> (r: Result<Vec<u8>, PayloadError>)
    ensures
        match base64_decoded(b64@) {
            Some(bytes) => r is Ok && r->Ok_0@ == bytes,
            None => r == Err::<Vec<u8>, PayloadError>(PayloadError::InvalidBase64),
        },
{
    match decode_standard(b64) {
        Ok(v) => Ok(v),
        Err(_) => Err(PayloadError::InvalidBase64),
    }
}

} // verus!
