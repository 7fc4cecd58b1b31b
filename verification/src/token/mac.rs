//! The keyed hash that protects a token, computed by `jsonwebtoken`.

use vstd::prelude::*;

verus! {

/// The longest secret and the longest text that are handed to the keyed
/// hash. Both stay far below the input length at which the hash
/// implementation gives up.
pub const MAX_INPUT_LEN: usize = 0x4000_0000;

/// How many characters a signature has: the 32 bytes of the hash in the
/// URL-safe alphabet without padding.
pub const SIGNATURE_LEN: usize = 43;

/// The HS256 signature of `message` under `secret`, as the URL-safe
/// base64 text that `jsonwebtoken::crypto::sign` returns.
pub uninterp spec fn hs256_signature(secret: Seq<u8>, message: Seq<u8>) -> Seq<char>;

/// Whether a character is one of the 64 of the URL-safe alphabet.
pub open spec fn is_symbol_char(c: char) -> bool {
    'A' <= c <= 'Z' || 'a' <= c <= 'z' || '0' <= c <= '9' || c == '-' || c == '_'
}

/// Whether a text has the form of a signature: 43 characters of the
/// URL-safe alphabet.
pub open spec fn is_signature_text(text: Seq<char>) -> bool {
    &&& text.len() == SIGNATURE_LEN
    &&& forall|i: int| 0 <= i < text.len() ==> is_symbol_char(#[trigger] text[i])
}

#[verifier::external_type_specification]
#[verifier::external_body]
pub struct ExSigningFailure(jsonwebtoken::errors::Error);

/// Calls `jsonwebtoken::crypto::sign` with a key made by
/// `EncodingKey::from_secret` and the algorithm HS256. Trusted: for this
/// algorithm the crate always answers with a signature, which is the
/// 32-byte hash written in the URL-safe alphabet without padding, so 43
/// characters of that alphabet. Which characters they are depends on the
/// secret and the message alone and is given the name `hs256_signature`.
#[verifier::external_body]
pub(crate) fn sign_hs256(secret: &[u8], message: &[u8]) -> (signed: Result<
    String,
    jsonwebtoken::errors::Error,
>)
    requires
        secret@.len() <= MAX_INPUT_LEN,
        message@.len() <= MAX_INPUT_LEN,
    ensures
        match signed {
            Ok(signature) => signature@ == hs256_signature(secret@, message@)
                && is_signature_text(signature@),
            Err(_) => false,
        },
{
    jsonwebtoken::crypto::sign(
        message,
        &jsonwebtoken::EncodingKey::from_secret(secret),
        jsonwebtoken::Algorithm::HS256,
    )
}

/// Calls `jsonwebtoken::crypto::verify` with a key made by
/// `DecodingKey::from_secret` and the algorithm HS256. Trusted: for this
/// algorithm the crate signs the message again with the same secret and
/// compares the two signatures in constant time, so the call tells
/// whether `signature` is the one that signing gives.
#[verifier::external_body]
pub(crate) fn verify_hs256(signature: &str, secret: &[u8], message: &[u8]) -> (verdict: Result<
    bool,
    jsonwebtoken::errors::Error,
>)
    requires
        secret@.len() <= MAX_INPUT_LEN,
        message@.len() <= MAX_INPUT_LEN,
    ensures
        match verdict {
            Ok(same) => same == (signature@ == hs256_signature(secret@, message@)),
            Err(_) => false,
        },
{
    jsonwebtoken::crypto::verify(
        signature,
        message,
        &jsonwebtoken::DecodingKey::from_secret(secret),
        jsonwebtoken::Algorithm::HS256,
    )
}

} // verus!
