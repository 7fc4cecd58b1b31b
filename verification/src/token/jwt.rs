//! Issuing and checking tokens.
//!
//! A token is three segments joined by dots: the header, the payload and
//! the signature. Header and payload are the URL-safe base64 of a JSON
//! text; the signature is the HS256 keyed hash of everything before the
//! second dot. What this service issues is written in one compact form,
//! which the library itself reads back; what it is handed to check may be
//! any JSON text, which `serde_json` reads.

use vstd::prelude::*;
use vstd::utf8::*;
use vstd::slice::{slice_subrange, slice_to_vec};
use crate::token::base64url;
pub use crate::token::claims::{Claims, ClaimsView};
use crate::token::claims::{
    claims_of_members, claims_text, lemma_claims_text_injective, lemma_claims_text_len,
    lemma_claims_text_not_empty,
    members_claims, parse_claims, text_of, view_of, write_claims,
};
use crate::token::clock::{current_timestamp, CLOCK_MAX};
use crate::token::json::{
    json_integer_member, json_string_member, read_integer_member, read_string_member,
};
use crate::token::mac::{
    hs256_signature, is_signature_text, is_symbol_char, sign_hs256, verify_hs256, MAX_INPUT_LEN,
};
use crate::token::unicode::string_from_utf8;

verus! {

/// How long a token stays valid after it was issued: eight hours.
pub const LIFETIME_SECONDS: i64 = 28800;

/// The byte that separates the segments of a token.
pub const DOT: u8 = 0x2e;

/// Why a token was not issued or not accepted.
#[derive(Debug, Clone, Copy, PartialEq, Eq, Structural)]
pub enum TokenError {
    /// No token could be produced from the secret and the subject.
    SigningError,
    /// The signature is not the one the secret gives for header and payload.
    SignatureInvalid,
    /// The token is presented after its expiry time.
    TokenExpired,
    /// The token was issued for another subject than the expected one.
    SubjectMismatch,
    /// The text has fewer than two dots, its header is no JSON object
    /// that names HS256, or its payload is no JSON object that holds
    /// well-formed claims.
    MalformedToken,
}

/// The name under which this service issues tokens.
pub const ISSUER: &'static str = "example_system";

/// The JSON text of the header of every token: it names the signing
/// algorithm.
pub const HEADER_JSON: &'static str = "{\"typ\":\"JWT\",\"alg\":\"HS256\"}";

/// The bytes of the header text.
pub open spec fn header_text() -> Seq<u8> {
    encode_utf8(HEADER_JSON@)
}

/// The first segment of every token.
pub open spec fn header_segment() -> Seq<u8> {
    base64url::encode(header_text())
}

/// The second segment of a token that carries `claims`.
pub open spec fn payload_segment(claims: ClaimsView) -> Seq<u8> {
    base64url::encode(claims_text(claims))
}

/// Two segments joined by a dot.
pub open spec fn join(left: Seq<u8>, right: Seq<u8>) -> Seq<u8> {
    left + (seq![DOT] + right)
}

/// What is signed for `claims`: header and payload, joined by a dot.
pub open spec fn signing_input(claims: ClaimsView) -> Seq<u8> {
    join(header_segment(), payload_segment(claims))
}

/// The claims of a token issued for `subject` at the time `now`.
pub open spec fn issued_claims(subject: Seq<char>, now: int) -> ClaimsView {
    ClaimsView { iss: ISSUER@, aud: subject, sub: subject, iat: now, exp: now + LIFETIME_SECONDS }
}

/// Whether a secret can be used as a signing key: it is not empty and not
/// longer than the keyed hash takes.
pub open spec fn usable_secret(secret: Seq<u8>) -> bool {
    0 < secret.len() <= MAX_INPUT_LEN
}

/// Whether `signature` is the signature of `message` under `secret`.
/// Nothing is the signature of a message, or under a secret, that is too
/// long for the keyed hash.
pub open spec fn signature_matches(secret: Seq<u8>, message: Seq<u8>, signature: Seq<u8>) -> bool {
    &&& secret.len() <= MAX_INPUT_LEN
    &&& message.len() <= MAX_INPUT_LEN
    &&& signature == encode_utf8(hs256_signature(secret, message))
}

/// The longest subject, in bytes, for which a token is issued. The text
/// to sign for such a subject is never too long for the keyed hash.
pub const MAX_SUBJECT_LEN: usize = 0x0200_0000;

/// Whether a token can be issued for a subject: it is not empty and not
/// longer than `MAX_SUBJECT_LEN` bytes.
pub open spec fn usable_subject(subject: Seq<char>) -> bool {
    0 < encode_utf8(subject).len() <= MAX_SUBJECT_LEN
}

/// The inputs for which a token is owed: a usable secret, a usable
/// subject, and a time whose expiry time fits in 64 bits.
pub open spec fn can_issue(secret: Seq<u8>, subject: Seq<char>, now: int) -> bool {
    &&& usable_secret(secret)
    &&& usable_subject(subject)
    &&& i64::MIN <= now
    &&& now + LIFETIME_SECONDS <= i64::MAX
}

/// The bytes of the token that `issue_at` returns, or the error it
/// returns.
pub open spec fn issue_outcome(secret: Seq<u8>, subject: Seq<char>, now: int) -> Result<
    Seq<u8>,
    TokenError,
> {
    let message = signing_input(issued_claims(subject, now));
    if !can_issue(secret, subject, now) {
        Err(TokenError::SigningError)
    } else {
        Ok(join(message, encode_utf8(hs256_signature(secret, message))))
    }
}

/// Where the first dot of `bytes` stands; the length of `bytes` where
/// there is none.
pub open spec fn dot_at(bytes: Seq<u8>) -> int
    decreases bytes.len(),
{
    if bytes.len() == 0 || bytes[0] == DOT {
        0
    } else {
        1 + dot_at(bytes.skip(1))
    }
}

/// The three segments of a token: what stands before the first dot,
/// between the first and the second dot, and behind the second dot.
/// `None` where the text has fewer than two dots.
pub open spec fn split(token: Seq<u8>) -> Option<(Seq<u8>, Seq<u8>, Seq<u8>)> {
    let i = dot_at(token);
    if i >= token.len() {
        None
    } else {
        let rest = token.skip(i + 1);
        let j = dot_at(rest);
        if j >= rest.len() {
            None
        } else {
            Some((token.take(i), rest.take(j), rest.skip(j + 1)))
        }
    }
}

/// How many dots a text holds.
pub open spec fn dot_count(bytes: Seq<u8>) -> nat
    decreases bytes.len(),
{
    if bytes.len() == 0 {
        0
    } else if bytes[0] == DOT {
        1 + dot_count(bytes.skip(1))
    } else {
        dot_count(bytes.skip(1))
    }
}

/// Whether a text can be a segment of an issued token: it is not empty
/// and holds characters of the URL-safe alphabet only.
pub open spec fn is_segment(bytes: Seq<u8>) -> bool {
    &&& bytes.len() > 0
    &&& forall|i: int| 0 <= i < bytes.len() ==> base64url::is_symbol(#[trigger] bytes[i])
}

/// Whether a text has the form of an issued token: exactly two dots, and
/// between them three segments, the first of which is the header that
/// this service writes.
pub open spec fn is_token_text(token: Seq<u8>) -> bool {
    &&& dot_count(token) == 2
    &&& match split(token) {
        Some((header, payload, signature)) => header == header_segment() && is_segment(header)
            && is_segment(payload) && is_segment(signature),
        None => false,
    }
}

/// The name of the member that holds the issuer.
pub const ISS_NAME: &'static str = "iss";

/// The name of the member that holds the audience.
pub const AUD_NAME: &'static str = "aud";

/// The name of the member that holds the subject.
pub const SUB_NAME: &'static str = "sub";

/// The name of the member that holds the time of issue.
pub const IAT_NAME: &'static str = "iat";

/// The name of the member that holds the expiry time.
pub const EXP_NAME: &'static str = "exp";

/// The name of the header member that holds the signing algorithm.
pub const ALG_NAME: &'static str = "alg";

/// The one signing algorithm that is accepted.
pub const ALGORITHM: &'static str = "HS256";

/// Whether `json` is the compact text of the well-formed claims set
/// `claims`, as this service writes it.
pub open spec fn is_text_of(json: Seq<u8>, claims: ClaimsView) -> bool {
    &&& claims.well_formed()
    &&& claims.representable()
    &&& claims_text(claims) == json
}

/// The claims whose compact text `json` is, where it is this service's
/// own text of well-formed claims. There is one such claims set at most.
pub open spec fn own_claims(json: Seq<u8>) -> Option<ClaimsView> {
    if exists|c: ClaimsView| is_text_of(json, c) {
        Some(choose|c: ClaimsView| is_text_of(json, c))
    } else {
        None
    }
}

/// The claims that `serde_json` reads from the JSON object `json`: its
/// members `iss`, `aud` and `sub` as strings and `iat` and `exp` as
/// integers, whatever their order and whatever else the object holds.
/// `None` where one of them cannot be read, or where they are not well
/// formed.
pub open spec fn json_claims(json: Seq<u8>) -> Option<ClaimsView> {
    members_claims(
        json_string_member(json, ISS_NAME@),
        json_string_member(json, AUD_NAME@),
        json_string_member(json, SUB_NAME@),
        json_integer_member(json, IAT_NAME@),
        json_integer_member(json, EXP_NAME@),
    )
}

/// The claims that a payload text denotes. The text that this service
/// writes is read by the library itself; every other text is read as a
/// JSON object by `serde_json`.
pub open spec fn read_claims(json: Seq<u8>) -> Option<ClaimsView> {
    match own_claims(json) {
        Some(claims) => Some(claims),
        None => json_claims(json),
    }
}

/// The claims that a payload segment carries: what the text that it
/// encodes denotes.
pub open spec fn decode_payload(segment: Seq<u8>) -> Option<ClaimsView> {
    match base64url::decoding(segment) {
        Some(json) => read_claims(json),
        None => None,
    }
}

/// Whether a header segment is accepted: it is the header that this
/// service writes, or it encodes a JSON object whose member `alg` is the
/// string `HS256`.
pub open spec fn header_accepted(header: Seq<u8>) -> bool {
    header == header_segment() || match base64url::decoding(header) {
        Some(json) => json_string_member(json, ALG_NAME@) == Some(ALGORITHM@),
        None => false,
    }
}

/// What becomes of a token of which three things are known: whether its
/// signature is good, whether its header is accepted, and what claims its
/// payload carries. The first of these that fails names the error: a bad
/// signature, a header that is not accepted or a payload without claims,
/// a time behind the expiry time, another subject or audience than
/// `expected_subject`.
pub open spec fn judge_outcome(
    signature_ok: bool,
    header_ok: bool,
    claims: Option<ClaimsView>,
    expected_subject: Seq<char>,
    now: int,
) -> Result<ClaimsView, TokenError> {
    if !signature_ok {
        Err(TokenError::SignatureInvalid)
    } else if !header_ok {
        Err(TokenError::MalformedToken)
    } else {
        match claims {
            None => Err(TokenError::MalformedToken),
            Some(claims) => if now > claims.exp {
                Err(TokenError::TokenExpired)
            } else if claims.aud != expected_subject || claims.sub != expected_subject {
                Err(TokenError::SubjectMismatch)
            } else {
                Ok(claims)
            },
        }
    }
}

/// What becomes of a token whose signature has been found good: its
/// header must be accepted, its payload must carry well-formed claims, it
/// must not be expired at `now`, and it must have been issued for
/// `expected_subject`, in this order.
pub open spec fn accept_outcome(
    header: Seq<u8>,
    payload: Seq<u8>,
    expected_subject: Seq<char>,
    now: int,
) -> Result<ClaimsView, TokenError> {
    judge_outcome(true, header_accepted(header), decode_payload(payload), expected_subject, now)
}

/// The claims that `verify_at` returns for the bytes of a token, or the
/// error it returns.
pub open spec fn verify_outcome(
    secret: Seq<u8>,
    token: Seq<u8>,
    expected_subject: Seq<char>,
    now: int,
) -> Result<ClaimsView, TokenError> {
    match split(token) {
        None => Err(TokenError::MalformedToken),
        Some((header, payload, signature)) => if !signature_matches(
            secret,
            join(header, payload),
            signature,
        ) {
            Err(TokenError::SignatureInvalid)
        } else {
            accept_outcome(header, payload, expected_subject, now)
        },
    }
}

/// Whether `outcome` is what issuing gives for these inputs: the token
/// with the bytes that `issue_outcome` names, or its error.
pub open spec fn is_issue_result(
    outcome: Result<String, TokenError>,
    secret: Seq<u8>,
    subject: Seq<char>,
    now: int,
) -> bool {
    match outcome {
        Ok(token) => issue_outcome(secret, subject, now) == Ok::<Seq<u8>, TokenError>(
            encode_utf8(token@),
        ),
        Err(e) => issue_outcome(secret, subject, now) == Err::<Seq<u8>, TokenError>(e),
    }
}

/// Whether `outcome` is what checking gives for these inputs: the claims
/// that `verify_outcome` names, or its error.
pub open spec fn is_verify_result(
    outcome: Result<Claims, TokenError>,
    secret: Seq<u8>,
    token: Seq<u8>,
    expected_subject: Seq<char>,
    now: int,
) -> bool {
    match outcome {
        Ok(claims) => verify_outcome(secret, token, expected_subject, now) == Ok::<
            ClaimsView,
            TokenError,
        >(claims@),
        Err(e) => verify_outcome(secret, token, expected_subject, now) == Err::<
            ClaimsView,
            TokenError,
        >(e),
    }
}

/// What `conclude` returns: `SignatureInvalid` where the signature was
/// found bad, and else what becomes of the token.
pub open spec fn conclude_outcome(
    signature_ok: bool,
    header: Seq<u8>,
    payload: Seq<u8>,
    expected_subject: Seq<char>,
    now: int,
) -> Result<ClaimsView, TokenError> {
    judge_outcome(
        signature_ok,
        header_accepted(header),
        decode_payload(payload),
        expected_subject,
        now,
    )
}

/// What `seal` returns: the message, a dot and the signature, where there
/// is a signature and that text is a string.
pub open spec fn seal_outcome(message: Seq<u8>, signature: Option<Seq<char>>) -> Result<
    Seq<u8>,
    TokenError,
> {
    match signature {
        Some(s) => if valid_utf8(message) {
            Ok(join(message, encode_utf8(s)))
        } else {
            Err(TokenError::SigningError)
        },
        None => Err(TokenError::SigningError),
    }
}

/// The first dot stands where `dot_at` says, and no dot stands before it.
pub proof fn lemma_dot_at_bounds(bytes: Seq<u8>)
    ensures
        0 <= dot_at(bytes) <= bytes.len(),
        forall|j: int| 0 <= j < dot_at(bytes) ==> bytes[j] != DOT,
        dot_at(bytes) < bytes.len() ==> bytes[dot_at(bytes)] == DOT,
    decreases bytes.len(),
{
    if bytes.len() == 0 || bytes[0] == DOT {
    } else {
        let rest = bytes.skip(1);
        lemma_dot_at_bounds(rest);
        assert forall|j: int| 0 <= j < dot_at(bytes) implies bytes[j] != DOT by {
            if j > 0 {
                assert(bytes[j] == rest[j - 1]);
            }
        }
        assert(dot_at(bytes) < bytes.len() ==> bytes[dot_at(bytes)] == rest[dot_at(rest)]);
    }
}

/// The first dot of a text that begins with a dotless segment and a dot
/// stands right behind that segment.
pub proof fn lemma_dot_at_join(left: Seq<u8>, right: Seq<u8>)
    requires
        forall|j: int| 0 <= j < left.len() ==> left[j] != DOT,
    ensures
        dot_at(join(left, right)) == left.len(),
    decreases left.len(),
{
    let whole = join(left, right);
    if left.len() == 0 {
        assert(whole[0] == DOT);
    } else {
        assert(whole[0] == left[0]);
        assert(whole.skip(1) =~= join(left.skip(1), right));
        assert forall|j: int| 0 <= j < left.skip(1).len() implies left.skip(1)[j] != DOT by {
            assert(left.skip(1)[j] == left[j + 1]);
        }
        lemma_dot_at_join(left.skip(1), right);
    }
}

/// A text of two dotless segments and a third one splits into these three.
pub proof fn lemma_split_join(header: Seq<u8>, payload: Seq<u8>, signature: Seq<u8>)
    requires
        forall|j: int| 0 <= j < header.len() ==> header[j] != DOT,
        forall|j: int| 0 <= j < payload.len() ==> payload[j] != DOT,
    ensures
        split(join(join(header, payload), signature)) == Some((header, payload, signature)),
{
    let token = join(join(header, payload), signature);
    let tail = join(payload, signature);
    assert(token =~= join(header, tail));
    lemma_dot_at_join(header, tail);
    lemma_dot_at_join(payload, signature);
    assert(token.skip(header.len() as int + 1) =~= tail);
    assert(token.take(header.len() as int) =~= header);
    assert(tail.take(payload.len() as int) =~= payload);
    assert(tail.skip(payload.len() as int + 1) =~= signature);
}

/// Whatever a text splits into, it is those three segments joined by dots.
pub proof fn lemma_join_split(token: Seq<u8>)
    requires
        split(token) is Some,
    ensures
        ({
            let (header, payload, signature) = split(token)->Some_0;
            &&& token == join(join(header, payload), signature)
            &&& forall|j: int| 0 <= j < header.len() ==> header[j] != DOT
            &&& forall|j: int| 0 <= j < payload.len() ==> payload[j] != DOT
        }),
{
    let (header, payload, signature) = split(token)->Some_0;
    let i = dot_at(token);
    let rest = token.skip(i + 1);
    lemma_dot_at_bounds(token);
    lemma_dot_at_bounds(rest);
    assert(token =~= join(join(header, payload), signature));
}

/// Behind its first dot a text holds one dot less; without a first dot it
/// holds none.
pub proof fn lemma_dot_count_behind_first(bytes: Seq<u8>)
    ensures
        dot_at(bytes) >= bytes.len() ==> dot_count(bytes) == 0,
        dot_at(bytes) < bytes.len() ==> dot_count(bytes) == 1 + dot_count(
            bytes.skip(dot_at(bytes) + 1),
        ),
    decreases bytes.len(),
{
    lemma_dot_at_bounds(bytes);
    if bytes.len() == 0 {
    } else if bytes[0] == DOT {
    } else {
        let rest = bytes.skip(1);
        lemma_dot_count_behind_first(rest);
        lemma_dot_at_bounds(rest);
        if dot_at(rest) < rest.len() {
            assert(rest.skip(dot_at(rest) + 1) == bytes.skip(dot_at(bytes) + 1));
        }
    }
}

/// Three segments joined by dots hold exactly two dots.
pub proof fn lemma_three_segments(header: Seq<u8>, payload: Seq<u8>, signature: Seq<u8>)
    requires
        is_segment(header),
        is_segment(payload),
        is_segment(signature),
    ensures
        dot_count(join(join(header, payload), signature)) == 2,
        split(join(join(header, payload), signature)) == Some((header, payload, signature)),
{
    let token = join(join(header, payload), signature);
    let tail = join(payload, signature);
    assert(token =~= join(header, tail));
    lemma_dot_at_join(header, tail);
    lemma_dot_at_join(payload, signature);
    lemma_split_join(header, payload, signature);
    assert(token.skip(header.len() as int + 1) =~= tail);
    assert(tail.skip(payload.len() as int + 1) =~= signature);
    lemma_dot_count_behind_first(token);
    lemma_dot_count_behind_first(tail);
    lemma_dot_count_behind_first(signature);
    lemma_dot_at_bounds(signature);
}

/// The bytes of a signature text are a segment.
pub proof fn lemma_signature_is_segment(signature: Seq<char>)
    requires
        is_signature_text(signature),
    ensures
        is_segment(encode_utf8(signature)),
{
    assert(is_ascii_chars(signature)) by {
        assert forall|i: int| 0 <= i < signature.len() implies '\0' <= #[trigger] signature[i]
            <= '\u{7f}' by {
            assert(is_symbol_char(signature[i]));
        }
    }
    is_ascii_chars_encode_utf8(signature);
    let bytes = encode_utf8(signature);
    assert forall|i: int| 0 <= i < bytes.len() implies base64url::is_symbol(
        #[trigger] bytes[i],
    ) by {
        assert(is_symbol_char(signature[i]));
        assert(bytes[i] == signature[i] as u8);
    }
}

/// A token made of the text to sign for some claims and of a signature
/// text has the form of an issued token.
pub proof fn lemma_token_shape(claims: ClaimsView, signature: Seq<char>)
    requires
        is_signature_text(signature),
    ensures
        is_token_text(join(signing_input(claims), encode_utf8(signature))),
{
    reveal_strlit("{\"typ\":\"JWT\",\"alg\":\"HS256\"}");
    is_ascii_chars_encode_utf8(HEADER_JSON@);
    base64url::lemma_encode_len(header_text());
    base64url::lemma_encode_symbols(header_text());
    lemma_claims_text_not_empty(claims);
    base64url::lemma_encode_len(claims_text(claims));
    base64url::lemma_encode_symbols(claims_text(claims));
    lemma_signature_is_segment(signature);
    lemma_three_segments(header_segment(), payload_segment(claims), encode_utf8(signature));
}

/// No segment in the URL-safe alphabet holds a dot.
pub proof fn lemma_encoding_has_no_dot(data: Seq<u8>)
    ensures
        forall|j: int| 0 <= j < base64url::encode(data).len() ==> base64url::encode(data)[j] != DOT,
        forall|j: int|
            0 <= j < base64url::encode(data).len() ==> base64url::encode(data)[j] < 0x80,
{
    base64url::lemma_encode_symbols(data);
    assert forall|j: int| 0 <= j < base64url::encode(data).len() implies base64url::encode(
        data,
    )[j] != DOT && base64url::encode(data)[j] < 0x80 by {
        assert(base64url::is_symbol(base64url::encode(data)[j]));
    }
}

/// A text is this service's own text of one claims set at most.
pub proof fn lemma_own_claims_unique(json: Seq<u8>, a: ClaimsView, b: ClaimsView)
    requires
        is_text_of(json, a),
        is_text_of(json, b),
    ensures
        a == b,
{
    lemma_claims_text_injective(a, b);
}

/// The text of well-formed claims denotes those claims.
pub proof fn lemma_read_claims_text(claims: ClaimsView)
    requires
        claims.well_formed(),
        claims.representable(),
    ensures
        read_claims(claims_text(claims)) == Some(claims),
{
    let json = claims_text(claims);
    assert(is_text_of(json, claims));
    let chosen = choose|c: ClaimsView| is_text_of(json, c);
    lemma_own_claims_unique(json, chosen, claims);
}

/// The payload segment of well-formed claims carries those claims.
pub proof fn lemma_decode_payload_segment(claims: ClaimsView)
    requires
        claims.well_formed(),
        claims.representable(),
    ensures
        decode_payload(payload_segment(claims)) == Some(claims),
{
    base64url::lemma_decoding_of_encode(claims_text(claims));
    lemma_read_claims_text(claims);
}

/// Bytes below 0x80 are a string.
pub proof fn lemma_ascii_is_utf8(bytes: Seq<u8>)
    requires
        forall|j: int| 0 <= j < bytes.len() ==> bytes[j] < 0x80,
    ensures
        valid_utf8(bytes),
{
    assert(bytes.subrange(0, 0) =~= Seq::<u8>::empty());
    assert(partial_valid_utf8(bytes, 0));
    assert forall|i: int| 0 <= 0 <= i < bytes.len() <= bytes.len() implies #[trigger] is_leading_byte_width_1(bytes[i]) by {}
    partial_valid_utf8_extend_ascii_block(bytes, 0, bytes.len() as int);
    assert(bytes.subrange(0, bytes.len() as int) =~= bytes);
}

/// Where the first dot at or behind `from` stands; the length of `bytes`
/// where there is none.
fn find_dot(bytes: &[u8], from: usize) -> (at: usize)
    requires
        from <= bytes@.len(),
    ensures
        from <= at <= bytes@.len(),
        at == from + dot_at(bytes@.skip(from as int)),
{
    let n: usize = bytes.len();
    let mut i: usize = from;
    while i < n && bytes[i] != DOT
        invariant
            n == bytes@.len(),
            from <= i <= n,
            dot_at(bytes@.skip(from as int)) == (i - from) + dot_at(bytes@.skip(i as int)),
        decreases n - i,
    {
        proof {
            let here = bytes@.skip(i as int);
            assert(here[0] == bytes@[i as int]);
            assert(here.skip(1) == bytes@.skip(i + 1));
        }
        i = i + 1;
    }
    proof {
        let here = bytes@.skip(i as int);
        if i < n {
            assert(here[0] == bytes@[i as int]);
        }
    }
    i
}

/// Whether two byte strings are the same.
fn bytes_equal(a: &[u8], b: &[u8]) -> (same: bool)
    ensures
        same == (a@ == b@),
{
    if a.len() != b.len() {
        return false;
    }
    let mut i: usize = 0;
    while i < a.len()
        invariant
            i <= a@.len(),
            a@.len() == b@.len(),
            forall|j: int| 0 <= j < i ==> a@[j] == b@[j],
        decreases a@.len() - i,
    {
        if a[i] != b[i] {
            return false;
        }
        i = i + 1;
    }
    assert(a@ =~= b@);
    true
}

/// Whether two strings are the same.
fn same_text(a: &str, b: &str) -> (same: bool)
    ensures
        same == (a@ == b@),
{
    proof {
        encode_utf8_decode_utf8(a@);
        encode_utf8_decode_utf8(b@);
    }
    bytes_equal(a.as_bytes(), b.as_bytes())
}

/// Reads the claims that a payload text denotes.
fn read_claims_text(json: &[u8]) -> (found: Option<Claims>)
    ensures
        view_of(found) == read_claims(json@),
{
    match parse_claims(json) {
        Some(claims) => {
            proof {
                claims.lemma_representable();
                lemma_read_claims_text(claims@);
            }
            Some(claims)
        },
        None => {
            assert(own_claims(json@) is None);
            let iss = read_string_member(json, ISS_NAME);
            let aud = read_string_member(json, AUD_NAME);
            let sub = read_string_member(json, SUB_NAME);
            let iat = read_integer_member(json, IAT_NAME);
            let exp = read_integer_member(json, EXP_NAME);
            claims_of_members(iss, aud, sub, iat, exp)
        },
    }
}

/// Reads the claims from a payload segment.
fn read_payload(segment: &[u8]) -> (found: Option<Claims>)
    ensures
        view_of(found) == decode_payload(segment@),
{
    match base64url::decode_bytes(segment) {
        Some(json) => read_claims_text(json.as_slice()),
        None => None,
    }
}

/// Whether a header segment is accepted.
fn accepts_header(header: &[u8]) -> (accepted: bool)
    ensures
        accepted == header_accepted(header@),
{
    let own_header = base64url::encode_bytes(HEADER_JSON.as_bytes());
    if bytes_equal(header, own_header.as_slice()) {
        return true;
    }
    match base64url::decode_bytes(header) {
        Some(json) => match read_string_member(json.as_slice(), ALG_NAME) {
            Some(algorithm) => same_text(algorithm.as_str(), ALGORITHM),
            None => false,
        },
        None => false,
    }
}

/// Decides on a token of which three things are known: whether its
/// signature is good, whether its header is accepted, and what claims its
/// payload carries, if any. The first of these that fails names the
/// error; then the expiry time and the subject are checked, in this
/// order.
pub fn judge(
    signature_ok: bool,
    header_ok: bool,
    claims: Option<Claims>,
    expected_subject: &str,
    now: i64,
) -> (outcome: Result<Claims, TokenError>)
    ensures
        match outcome {
            Ok(accepted) => judge_outcome(
                signature_ok,
                header_ok,
                view_of(claims),
                expected_subject@,
                now as int,
            ) == Ok::<ClaimsView, TokenError>(accepted@),
            Err(e) => judge_outcome(
                signature_ok,
                header_ok,
                view_of(claims),
                expected_subject@,
                now as int,
            ) == Err::<ClaimsView, TokenError>(e),
        },
{
    if !signature_ok {
        return Err(TokenError::SignatureInvalid);
    }
    if !header_ok {
        return Err(TokenError::MalformedToken);
    }
    let claims = match claims {
        Some(claims) => claims,
        None => {
            return Err(TokenError::MalformedToken);
        },
    };
    if now > claims.expires_at() {
        return Err(TokenError::TokenExpired);
    }
    if !same_text(claims.audience(), expected_subject) || !same_text(
        claims.subject(),
        expected_subject,
    ) {
        return Err(TokenError::SubjectMismatch);
    }
    Ok(claims)
}

/// Decides on a token once its signature has been checked: with a bad
/// signature it is refused as such; with a good one its header, its
/// payload, its expiry time and its subject are checked in this order.
pub fn conclude(
    signature_ok: bool,
    header: &[u8],
    payload: &[u8],
    expected_subject: &str,
    now: i64,
) -> (outcome: Result<Claims, TokenError>)
    ensures
        match outcome {
            Ok(claims) => conclude_outcome(
                signature_ok,
                header@,
                payload@,
                expected_subject@,
                now as int,
            ) == Ok::<ClaimsView, TokenError>(claims@),
            Err(e) => conclude_outcome(
                signature_ok,
                header@,
                payload@,
                expected_subject@,
                now as int,
            ) == Err::<ClaimsView, TokenError>(e),
        },
{
    if !signature_ok {
        return Err(TokenError::SignatureInvalid);
    }
    if !accepts_header(header) {
        return Err(TokenError::MalformedToken);
    }
    judge(true, true, read_payload(payload), expected_subject, now)
}

/// Puts a token together from the signed text and what signing gave: the
/// text, a dot and the signature. Without a signature there is no token.
pub fn seal(message: Vec<u8>, signature: Option<String>) -> (outcome: Result<String, TokenError>)
    ensures
        match outcome {
            Ok(token) => seal_outcome(message@, text_of(signature)) == Ok::<
                Seq<u8>,
                TokenError,
            >(encode_utf8(token@)),
            Err(e) => seal_outcome(message@, text_of(signature)) == Err::<
                Seq<u8>,
                TokenError,
            >(e),
        },
{
    let signature = match signature {
        Some(s) => s,
        None => {
            return Err(TokenError::SigningError);
        },
    };
    let ghost text = message@;
    let mut bytes = message;
    bytes.push(DOT);
    bytes.extend_from_slice(signature.as_str().as_bytes());
    assert(bytes@ =~= join(text, encode_utf8(signature@)));
    proof {
        encode_utf8_valid_utf8(signature@);
        let tail = seq![DOT] + encode_utf8(signature@);
        assert(valid_utf8(tail)) by {
            lemma_ascii_is_utf8(seq![DOT]);
            valid_utf8_concat(seq![DOT], encode_utf8(signature@));
        }
        if valid_utf8(text) {
            valid_utf8_concat(text, tail);
        } else {
            if valid_utf8(bytes@) {
                lemma_prefix_is_utf8(text, tail);
            }
        }
    }
    match string_from_utf8(bytes) {
        Some(token) => {
            proof {
                encode_utf8_valid_utf8(token@);
            }
            Ok(token)
        },
        None => Err(TokenError::SigningError),
    }
}

/// What stands before a string in a string is a string.
proof fn lemma_prefix_is_utf8(front: Seq<u8>, back: Seq<u8>)
    requires
        valid_utf8(front + back),
        valid_utf8(back),
    ensures
        valid_utf8(front),
{
    let whole = front + back;
    let at = front.len() as int;
    assert(whole.subrange(0, at) =~= front);
    assert(whole.subrange(at, whole.len() as int) =~= back);
    if back.len() == 0 {
        assert(whole =~= front);
    } else {
        if !valid_utf8(front) {
            lemma_cut_is_boundary(whole, at);
            valid_utf8_split(whole, at);
        }
    }
}

proof fn lemma_cut_is_boundary(whole: Seq<u8>, at: int)
    requires
        0 <= at < whole.len(),
        valid_utf8(whole),
        valid_utf8(whole.subrange(at, whole.len() as int)),
    ensures
        is_char_boundary(whole, at),
{
    let back = whole.subrange(at, whole.len() as int);
    is_char_boundary_start_end_of_seq(back);
    is_char_boundary_iff_is_leading_byte(back, 0);
    assert(back[0] == whole[at]);
    is_char_boundary_iff_is_leading_byte(whole, at);
}

/// Issues a token for `subject` at the time `now`, in seconds since the
/// epoch, signed with `secret`. The token names `subject` as its subject
/// and its audience and expires eight hours after `now`.
///
/// A token is owed, and comes, exactly where `can_issue` holds. Else the
/// call fails with `SigningError`, and only with it: on an empty or
/// over-long secret, an empty or over-long subject, and a time so late
/// that the expiry time does not fit in 64 bits.
pub fn issue_at(secret: &[u8], subject: &str, now: i64) -> (outcome: Result<String, TokenError>)
    ensures
        is_issue_result(outcome, secret@, subject@, now as int),
        outcome is Ok <==> can_issue(secret@, subject@, now as int),
        outcome matches Ok(token) ==> is_token_text(encode_utf8(token@)),
        outcome matches Err(e) ==> e == TokenError::SigningError,
{
    let subject_len: usize = subject.as_bytes().len();
    if secret.len() == 0 || secret.len() > MAX_INPUT_LEN || subject_len == 0 || subject_len
        > MAX_SUBJECT_LEN {
        return Err(TokenError::SigningError);
    }
    let expires = match now.checked_add(LIFETIME_SECONDS) {
        Some(t) => t,
        None => {
            return Err(TokenError::SigningError);
        },
    };
    proof {
        lemma_signing_input_fits(subject@, now as int);
    }
    let claims = Claims::new(
        ISSUER.to_owned(),
        subject.to_owned(),
        subject.to_owned(),
        now,
        expires,
    );
    let payload = write_claims(&claims);
    let mut message = base64url::encode_bytes(HEADER_JSON.as_bytes());
    message.push(DOT);
    let segment = base64url::encode_bytes(payload.as_slice());
    message.extend_from_slice(segment.as_slice());
    assert(message@ =~= signing_input(claims@));
    let signed = sign_hs256(secret, message.as_slice());
    proof {
        lemma_signing_input_is_utf8(claims@);
        lemma_token_shape(claims@, hs256_signature(secret@, signing_input(claims@)));
    }
    seal(message, signed.ok())
}

/// Checks `token` at the time `now`, in seconds since the epoch, against
/// `secret` and the subject that the caller expects. The expected subject
/// is always asked for: a token is never taken at its own word for whom
/// it speaks.
///
/// The checks run in a fixed order and the first that fails names the
/// error: the text must have two dots (`MalformedToken`); what stands
/// behind the second dot must be the signature that `secret` gives for what
/// stands before it (`SignatureInvalid`); the header must encode a JSON
/// object whose member `alg` is `HS256`, and the payload a JSON object
/// that holds the five claims, in any order and beside whatever else, and
/// these must be well formed (`MalformedToken`); `now` must not be later
/// than the expiry time (`TokenExpired`: a token is still good in the
/// second in which it expires); audience and subject must both be
/// `expected_subject` (`SubjectMismatch`).
///
/// A secret of any length up to `MAX_INPUT_LEN` is checked against, the
/// empty one too; under a longer one, and for a longer text, no signature
/// is good.
pub fn verify_at(secret: &[u8], token: &str, expected_subject: &str, now: i64) -> (outcome: Result<
    Claims,
    TokenError,
>)
    ensures
        is_verify_result(outcome, secret@, encode_utf8(token@), expected_subject@, now as int),
        outcome matches Ok(claims) ==> {
            &&& claims@.well_formed()
            &&& claims@.sub == expected_subject@
            &&& claims@.aud == expected_subject@
            &&& now <= claims@.exp
        },
        outcome matches Err(e) ==> e != TokenError::SigningError,
{
    let bytes = token.as_bytes();
    let n: usize = bytes.len();
    assert(bytes@.skip(0) == bytes@);
    let i = find_dot(bytes, 0);
    if i >= n {
        return Err(TokenError::MalformedToken);
    }
    let j = find_dot(bytes, i + 1);
    if j >= n {
        return Err(TokenError::MalformedToken);
    }
    let header = slice_subrange(bytes, 0, i);
    let payload = slice_subrange(bytes, i + 1, j);
    let message = slice_subrange(bytes, 0, j);
    let signature = slice_subrange(bytes, j + 1, n);
    proof {
        let rest = bytes@.skip(i + 1);
        lemma_dot_at_bounds(bytes@);
        assert(bytes@[i as int] == DOT);
        assert(header@ =~= bytes@.take(i as int));
        assert(payload@ =~= rest.take(j - i - 1));
        assert(signature@ =~= rest.skip(j - i));
        assert(message@ =~= join(header@, payload@));
    }
    if secret.len() > MAX_INPUT_LEN || j > MAX_INPUT_LEN {
        return Err(TokenError::SignatureInvalid);
    }
    let presented = match string_from_utf8(slice_to_vec(signature)) {
        Some(s) => s,
        None => {
            proof {
                encode_utf8_valid_utf8(hs256_signature(secret@, message@));
            }
            return Err(TokenError::SignatureInvalid);
        },
    };
    let signature_ok = match verify_hs256(presented.as_str(), secret, message) {
        Ok(same) => same,
        Err(_) => false,
    };
    proof {
        encode_utf8_decode_utf8(hs256_signature(secret@, message@));
        encode_utf8_decode_utf8(presented@);
        assert(signature_ok == signature_matches(secret@, message@, signature@));
    }
    let outcome = conclude(signature_ok, header, payload, expected_subject, now);
    proof {
        lemma_accepted_claims(header@, payload@, expected_subject@, now as int);
    }
    outcome
}

/// The claims of an accepted token are well formed, name the expected
/// subject as subject and audience, and have not expired.
pub proof fn lemma_accepted_claims(
    header: Seq<u8>,
    payload: Seq<u8>,
    expected_subject: Seq<char>,
    now: int,
)
    ensures
        accept_outcome(header, payload, expected_subject, now) matches Ok(claims) ==> {
            &&& claims.well_formed()
            &&& claims.representable()
            &&& claims.sub == expected_subject
            &&& claims.aud == expected_subject
            &&& now <= claims.exp
            &&& header_accepted(header)
            &&& decode_payload(payload) == Some(claims)
        },
        accept_outcome(header, payload, expected_subject, now) != Err::<ClaimsView, TokenError>(
            TokenError::SigningError,
        ),
        accept_outcome(header, payload, expected_subject, now) != Err::<ClaimsView, TokenError>(
            TokenError::SignatureInvalid,
        ),
{
    if base64url::decoding(payload) is Some {
        let json = base64url::decoding(payload)->Some_0;
        if own_claims(json) is Some {
            let chosen = choose|c: ClaimsView| is_text_of(json, c);
            assert(is_text_of(json, chosen));
        }
    }
}

/// Issues a token for `aud` now, signed with `secret`: what `issue_at`
/// gives at the time the clock shows. A token is owed, and comes, for
/// every usable secret and every usable subject, whatever the time.
pub fn make_jwt(secret: &str, aud: &str) -> (outcome: Result<String, TokenError>)
    ensures
        exists|now: int|
            0 <= now <= CLOCK_MAX && #[trigger] is_issue_result(
                outcome,
                encode_utf8(secret@),
                aud@,
                now,
            ),
        outcome is Ok <==> usable_secret(encode_utf8(secret@)) && usable_subject(aud@),
        outcome matches Ok(token) ==> is_token_text(encode_utf8(token@)),
        outcome matches Err(e) ==> e == TokenError::SigningError,
{
    let now = current_timestamp();
    let outcome = issue_at(secret.as_bytes(), aud, now);
    assert(is_issue_result(outcome, encode_utf8(secret@), aud@, now as int));
    outcome
}

/// Checks `token` now against `secret` and the subject `aud`: what
/// `verify_at` gives at the time the clock shows, whatever that time is.
pub fn decode_jwt(secret: &str, token: &str, aud: &str) -> (outcome: Result<Claims, TokenError>)
    ensures
        exists|now: int|
            0 <= now <= CLOCK_MAX && #[trigger] is_verify_result(
                outcome,
                encode_utf8(secret@),
                encode_utf8(token@),
                aud@,
                now,
            ),
        outcome matches Ok(claims) ==> {
            &&& claims@.well_formed()
            &&& claims@.sub == aud@
            &&& claims@.aud == aud@
        },
        outcome matches Err(e) ==> e != TokenError::SigningError,
{
    let now = current_timestamp();
    let outcome = verify_at(secret.as_bytes(), token, aud, now);
    assert(is_verify_result(
        outcome,
        encode_utf8(secret@),
        encode_utf8(token@),
        aud@,
        now as int,
    ));
    outcome
}

/// The text to sign for a usable subject is not too long for the keyed
/// hash, and its claims are well formed.
pub proof fn lemma_signing_input_fits(subject: Seq<char>, now: int)
    requires
        usable_subject(subject),
        i64::MIN <= now,
        now + LIFETIME_SECONDS <= i64::MAX,
    ensures
        signing_input(issued_claims(subject, now)).len() <= MAX_INPUT_LEN,
        issued_claims(subject, now).well_formed(),
        issued_claims(subject, now).representable(),
{
    let claims = issued_claims(subject, now);
    reveal_strlit("example_system");
    is_ascii_chars_encode_utf8(ISSUER@);
    reveal_strlit("{\"typ\":\"JWT\",\"alg\":\"HS256\"}");
    is_ascii_chars_encode_utf8(HEADER_JSON@);
    lemma_claims_text_len(claims);
    base64url::lemma_encode_len(header_text());
    base64url::lemma_encode_len(claims_text(claims));
    if subject.len() == 0 {
        assert(encode_utf8(subject) =~= Seq::<u8>::empty());
    }
}

/// What is signed is a string.
pub proof fn lemma_signing_input_is_utf8(claims: ClaimsView)
    ensures
        valid_utf8(signing_input(claims)),
{
    lemma_encoding_has_no_dot(header_text());
    lemma_encoding_has_no_dot(claims_text(claims));
    lemma_ascii_is_utf8(signing_input(claims));
}

} // verus!
