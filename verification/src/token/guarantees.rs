//! What issuing and checking promise together, proved from the
//! definitions of `issue_outcome` and `verify_outcome`.

use vstd::prelude::*;
use vstd::utf8::*;
use crate::token::claims::{claims_text, ClaimsView};
use crate::token::jwt::{
    can_issue, decode_payload, dot_at, dot_count, header_accepted, header_segment, header_text,
    is_verify_result, issue_outcome, issued_claims, join, lemma_accepted_claims,
    lemma_decode_payload_segment, lemma_dot_at_bounds, lemma_dot_count_behind_first,
    lemma_encoding_has_no_dot, lemma_join_split, lemma_signing_input_fits, lemma_split_join,
    payload_segment,
    signature_matches, signing_input, split, verify_outcome, TokenError, DOT,
    LIFETIME_SECONDS,
};
use crate::token::mac::MAX_INPUT_LEN;
use crate::token::jwt::Claims;
use crate::token::mac::hs256_signature;
use crate::token::unicode::lemma_encode_utf8_injective;

verus! {

/// A text splits into three segments exactly when it holds two dots or
/// more.
pub proof fn splits_with_two_dots(token: Seq<u8>)
    ensures
        split(token) is Some <==> dot_count(token) >= 2,
{
    lemma_dot_count_behind_first(token);
    lemma_dot_at_bounds(token);
    if dot_at(token) < token.len() {
        lemma_dot_count_behind_first(token.skip(dot_at(token) + 1));
    }
}

/// The three segments of an issued token.
proof fn lemma_issued_token_splits(secret: Seq<u8>, subject: Seq<char>, issued: int)
    requires
        can_issue(secret, subject, issued),
    ensures
        issue_outcome(secret, subject, issued) is Ok,
        signing_input(issued_claims(subject, issued)).len() <= MAX_INPUT_LEN,
        issued_claims(subject, issued).well_formed(),
        split(issue_outcome(secret, subject, issued)->Ok_0) == Some(
            (
                header_segment(),
                payload_segment(issued_claims(subject, issued)),
                encode_utf8(
                    hs256_signature(secret, signing_input(issued_claims(subject, issued))),
                ),
            ),
        ),
        header_accepted(header_segment()),
        decode_payload(payload_segment(issued_claims(subject, issued))) == Some(
            issued_claims(subject, issued),
        ),
{
    let claims = issued_claims(subject, issued);
    let signature = hs256_signature(secret, signing_input(claims));
    lemma_signing_input_fits(subject, issued);
    lemma_encoding_has_no_dot(header_text());
    lemma_encoding_has_no_dot(claims_text(claims));
    lemma_split_join(header_segment(), payload_segment(claims), encode_utf8(signature));
    lemma_decode_payload_segment(claims);
}

/// For every usable secret and every usable subject a token is issued,
/// and that token is accepted for that subject, at any time up to its
/// expiry, under the secret that signed it; the claims that come back are
/// the ones that were issued: this subject as subject and audience, the
/// time of issue, and an expiry time eight hours later.
pub proof fn issued_token_verifies(secret: Seq<u8>, subject: Seq<char>, issued: int, checked: int)
    requires
        can_issue(secret, subject, issued),
        checked <= issued + LIFETIME_SECONDS,
    ensures
        issue_outcome(secret, subject, issued) is Ok,
        verify_outcome(secret, issue_outcome(secret, subject, issued)->Ok_0, subject, checked)
            == Ok::<ClaimsView, TokenError>(issued_claims(subject, issued)),
{
    lemma_issued_token_splits(secret, subject, issued);
}

/// Of two tokens that differ in one byte of the signature and in nothing
/// else, at most one passes the signature check: where `token` is not
/// refused for its signature, the token with the changed byte is, whatever
/// subject is expected of it and whenever it is presented.
pub proof fn tampered_signature_is_refused(
    secret: Seq<u8>,
    token: Seq<u8>,
    expected_subject: Seq<char>,
    now: int,
    at: int,
    byte: u8,
    later_subject: Seq<char>,
    later: int,
)
    requires
        split(token) is Some,
        verify_outcome(secret, token, expected_subject, now) != Err::<ClaimsView, TokenError>(
            TokenError::SignatureInvalid,
        ),
        0 <= at < split(token)->Some_0.2.len(),
        byte != split(token)->Some_0.2[at],
    ensures
        verify_outcome(
            secret,
            join(
                join(split(token)->Some_0.0, split(token)->Some_0.1),
                split(token)->Some_0.2.update(at, byte),
            ),
            later_subject,
            later,
        ) == Err::<ClaimsView, TokenError>(TokenError::SignatureInvalid),
{
    let (header, payload, signature) = split(token)->Some_0;
    let changed = signature.update(at, byte);
    lemma_join_split(token);
    lemma_split_join(header, payload, changed);
    assert(signature_matches(secret, join(header, payload), signature));
    assert(changed[at] != signature[at]);
}

/// An issued token is accepted up to and including the second in which it
/// expires, eight hours after it was issued, and refused as expired from
/// the next second on.
pub proof fn token_expires_after_lifetime(
    secret: Seq<u8>,
    subject: Seq<char>,
    issued: int,
    checked: int,
)
    requires
        can_issue(secret, subject, issued),
    ensures
        checked <= issued + LIFETIME_SECONDS ==> verify_outcome(
            secret,
            issue_outcome(secret, subject, issued)->Ok_0,
            subject,
            checked,
        ) is Ok,
        checked > issued + LIFETIME_SECONDS ==> verify_outcome(
            secret,
            issue_outcome(secret, subject, issued)->Ok_0,
            subject,
            checked,
        ) == Err::<ClaimsView, TokenError>(TokenError::TokenExpired),
{
    lemma_issued_token_splits(secret, subject, issued);
}

/// A token that was issued for one subject is refused with
/// `SubjectMismatch` when another subject is expected, as long as it has
/// not expired.
pub proof fn other_subject_is_refused(
    secret: Seq<u8>,
    subject: Seq<char>,
    other: Seq<char>,
    issued: int,
    checked: int,
)
    requires
        can_issue(secret, subject, issued),
        other != subject,
        checked <= issued + LIFETIME_SECONDS,
    ensures
        verify_outcome(secret, issue_outcome(secret, subject, issued)->Ok_0, other, checked)
            == Err::<ClaimsView, TokenError>(TokenError::SubjectMismatch),
{
    lemma_issued_token_splits(secret, subject, issued);
}

/// An issued token is refused with `SignatureInvalid`, and with no other
/// error, under every secret that does not sign its header and payload as
/// the issuing secret did, whatever subject is expected and whenever it is
/// presented.
pub proof fn other_secret_is_refused(
    secret: Seq<u8>,
    other: Seq<u8>,
    subject: Seq<char>,
    issued: int,
    expected_subject: Seq<char>,
    checked: int,
)
    requires
        can_issue(secret, subject, issued),
        hs256_signature(other, signing_input(issued_claims(subject, issued))) != hs256_signature(
            secret,
            signing_input(issued_claims(subject, issued)),
        ),
    ensures
        verify_outcome(
            other,
            issue_outcome(secret, subject, issued)->Ok_0,
            expected_subject,
            checked,
        ) == Err::<ClaimsView, TokenError>(TokenError::SignatureInvalid),
{
    lemma_issued_token_splits(secret, subject, issued);
    let message = signing_input(issued_claims(subject, issued));
    let theirs = hs256_signature(other, message);
    let ours = hs256_signature(secret, message);
    assert(message == join(header_segment(), payload_segment(issued_claims(subject, issued))));
    if encode_utf8(theirs) == encode_utf8(ours) {
        lemma_encode_utf8_injective(theirs, ours);
    }
}

/// A text with fewer than two dots is refused as malformed, whatever the
/// secret.
pub proof fn text_without_two_dots_is_malformed(
    secret: Seq<u8>,
    token: Seq<u8>,
    expected_subject: Seq<char>,
    now: int,
)
    requires
        dot_count(token) < 2,
    ensures
        verify_outcome(secret, token, expected_subject, now) == Err::<ClaimsView, TokenError>(
            TokenError::MalformedToken,
        ),
{
    splits_with_two_dots(token);
}

/// A token that carries the right signature is refused as malformed
/// where its header is not accepted, or its payload carries no
/// well-formed claims, whatever subject is expected and whenever it is
/// presented.
pub proof fn foreign_header_or_payload_is_malformed(
    secret: Seq<u8>,
    token: Seq<u8>,
    expected_subject: Seq<char>,
    now: int,
)
    requires
        split(token) is Some,
        signature_matches(
            secret,
            join(split(token)->Some_0.0, split(token)->Some_0.1),
            split(token)->Some_0.2,
        ),
        !header_accepted(split(token)->Some_0.0) || decode_payload(split(token)->Some_0.1)
            is None,
    ensures
        verify_outcome(secret, token, expected_subject, now) == Err::<ClaimsView, TokenError>(
            TokenError::MalformedToken,
        ),
{
}

/// The same, said of the parts: take any secret, any header and any
/// payload without dots, none of them too long for the keyed hash. Where
/// the header is not accepted or the payload carries no well-formed
/// claims, the token that ends in the signature of header and payload
/// under the secret is refused as malformed.
pub proof fn signed_garbage_is_malformed(
    secret: Seq<u8>,
    header: Seq<u8>,
    payload: Seq<u8>,
    expected_subject: Seq<char>,
    now: int,
)
    requires
        secret.len() <= MAX_INPUT_LEN,
        join(header, payload).len() <= MAX_INPUT_LEN,
        forall|j: int| 0 <= j < header.len() ==> header[j] != DOT,
        forall|j: int| 0 <= j < payload.len() ==> payload[j] != DOT,
        !header_accepted(header) || decode_payload(payload) is None,
    ensures
        verify_outcome(
            secret,
            join(join(header, payload), encode_utf8(hs256_signature(secret, join(header, payload)))),
            expected_subject,
            now,
        ) == Err::<ClaimsView, TokenError>(TokenError::MalformedToken),
{
    lemma_split_join(
        header,
        payload,
        encode_utf8(hs256_signature(secret, join(header, payload))),
    );
}

/// Checking never reports `SigningError`, and the claims it accepts are
/// well formed, name the expected subject as subject and audience, and
/// have not expired.
pub proof fn accepted_claims_are_bound(
    secret: Seq<u8>,
    token: Seq<u8>,
    expected_subject: Seq<char>,
    now: int,
)
    ensures
        verify_outcome(secret, token, expected_subject, now) != Err::<ClaimsView, TokenError>(
            TokenError::SigningError,
        ),
        verify_outcome(secret, token, expected_subject, now) matches Ok(claims) ==> {
            &&& claims.well_formed()
            &&& claims.sub == expected_subject
            &&& claims.aud == expected_subject
            &&& now <= claims.exp
        },
{
    if split(token) is Some {
        let (header, payload, signature) = split(token)->Some_0;
        lemma_accepted_claims(header, payload, expected_subject, now);
    }
}

/// Time changes what becomes of a token in one way only: a token that is
/// presented later gets the same answer as before, or is by then expired.
pub proof fn only_expiry_changes_the_outcome(
    secret: Seq<u8>,
    token: Seq<u8>,
    expected_subject: Seq<char>,
    earlier: int,
    later: int,
)
    requires
        earlier <= later,
    ensures
        verify_outcome(secret, token, expected_subject, later) == verify_outcome(
            secret,
            token,
            expected_subject,
            earlier,
        ) || verify_outcome(secret, token, expected_subject, later) == Err::<
            ClaimsView,
            TokenError,
        >(TokenError::TokenExpired),
        verify_outcome(secret, token, expected_subject, earlier) == Err::<ClaimsView, TokenError>(
            TokenError::TokenExpired,
        ) ==> verify_outcome(secret, token, expected_subject, later) == Err::<
            ClaimsView,
            TokenError,
        >(TokenError::TokenExpired),
{
}

/// Checking the same token against the same secret and subject at the
/// same time gives the same claims or the same error each time.
pub proof fn verification_is_repeatable(
    first: Result<Claims, TokenError>,
    second: Result<Claims, TokenError>,
    secret: Seq<u8>,
    token: Seq<u8>,
    expected_subject: Seq<char>,
    now: int,
)
    requires
        is_verify_result(first, secret, token, expected_subject, now),
        is_verify_result(second, secret, token, expected_subject, now),
    ensures
        first is Ok <==> second is Ok,
        first is Ok ==> first->Ok_0@ == second->Ok_0@,
        first is Err ==> first->Err_0 == second->Err_0,
{
}

} // verus!
