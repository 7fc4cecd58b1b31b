//! The claims that a token carries, and their compact JSON text.

use vstd::prelude::*;
use vstd::utf8::*;
use crate::token::text::{
    decimal, lemma_decimal_len, lemma_decimal_of_scan_int, lemma_quoted_len, lemma_quoted_of_scan_string,
    lemma_scan_int_of_decimal, lemma_scan_string_of_quoted, push_decimal, push_quoted, quoted,
    read_int, read_string, scan_int, scan_string,
};
use crate::token::unicode::string_from_utf8;

verus! {

/// The payload of a token.
#[derive(Debug)]
pub struct Claims {
    iss: String,
    aud: String,
    sub: String,
    iat: i64,
    exp: i64,
}

/// What a `Claims` value asserts, as mathematical values.
pub struct ClaimsView {
    /// The service that issued the token.
    pub iss: Seq<char>,
    /// The identity the token was issued for.
    pub aud: Seq<char>,
    /// The identity the token asserts.
    pub sub: Seq<char>,
    /// Seconds since the epoch at which the token was issued.
    pub iat: int,
    /// Seconds since the epoch after which the token is no longer valid.
    pub exp: int,
}

impl ClaimsView {
    /// The invariant of every claims set: it expires after it was issued,
    /// and names a subject and an audience.
    pub open spec fn well_formed(self) -> bool {
        &&& self.exp > self.iat
        &&& self.sub.len() > 0
        &&& self.aud.len() > 0
    }

    /// Whether both timestamps fit in 64 bits.
    pub open spec fn representable(self) -> bool {
        &&& i64::MIN <= self.iat <= i64::MAX
        &&& i64::MIN <= self.exp <= i64::MAX
    }
}

impl View for Claims {
    type V = ClaimsView;

    closed spec fn view(&self) -> ClaimsView {
        ClaimsView {
            iss: self.iss@,
            aud: self.aud@,
            sub: self.sub@,
            iat: self.iat as int,
            exp: self.exp as int,
        }
    }
}

impl Claims {
    #[verifier::type_invariant]
    closed spec fn holds_invariant(self) -> bool {
        self@.well_formed()
    }

    pub(crate) fn new(iss: String, aud: String, sub: String, iat: i64, exp: i64) -> (claims:
        Claims)
        requires
            exp > iat,
            sub@.len() > 0,
            aud@.len() > 0,
        ensures
            claims@ == (ClaimsView { iss: iss@, aud: aud@, sub: sub@, iat: iat as int, exp: exp as int }),
    {
        Claims { iss, aud, sub, iat, exp }
    }

    /// The timestamps of any claims value fit in 64 bits.
    pub proof fn lemma_representable(self)
        ensures
            self@.representable(),
    {
    }

    /// The service that issued the token.
    pub fn issuer(&self) -> (s: &str)
        ensures
            s@ == self@.iss,
    {
        self.iss.as_str()
    }

    /// The identity the token was issued for. It is never empty.
    pub fn audience(&self) -> (s: &str)
        ensures
            s@ == self@.aud,
            s@.len() > 0,
    {
        proof {
            use_type_invariant(self);
        }
        self.aud.as_str()
    }

    /// The identity the token asserts. It is never empty.
    pub fn subject(&self) -> (s: &str)
        ensures
            s@ == self@.sub,
            s@.len() > 0,
    {
        proof {
            use_type_invariant(self);
        }
        self.sub.as_str()
    }

    /// When the token was issued, in seconds since the epoch: always
    /// before it expires.
    pub fn issued_at(&self) -> (t: i64)
        ensures
            t == self@.iat,
            t < self@.exp,
    {
        proof {
            use_type_invariant(self);
        }
        self.iat
    }

    /// The last second at which the token is valid: always later than the
    /// second in which it was issued.
    pub fn expires_at(&self) -> (t: i64)
        ensures
            t == self@.exp,
            t > self@.iat,
    {
        proof {
            use_type_invariant(self);
        }
        self.exp
    }
}

/// The characters of a string that may be missing.
pub open spec fn text_of(s: Option<String>) -> Option<Seq<char>> {
    match s {
        Some(s) => Some(s@),
        None => None,
    }
}

/// What a claims value that may be missing asserts.
pub open spec fn view_of(claims: Option<Claims>) -> Option<ClaimsView> {
    match claims {
        Some(c) => Some(c@),
        None => None,
    }
}

/// The claims set with these five members: `None` where one of them is
/// missing, or where together they are not well formed.
pub open spec fn members_claims(
    iss: Option<Seq<char>>,
    aud: Option<Seq<char>>,
    sub: Option<Seq<char>>,
    iat: Option<i64>,
    exp: Option<i64>,
) -> Option<ClaimsView> {
    match (iss, aud, sub, iat, exp) {
        (Some(iss), Some(aud), Some(sub), Some(iat), Some(exp)) => {
            let claims = ClaimsView { iss, aud, sub, iat: iat as int, exp: exp as int };
            if claims.well_formed() {
                Some(claims)
            } else {
                None
            }
        },
        _ => None,
    }
}

/// Makes a claims value of five members that were read one by one, each
/// of which may be missing: `None` unless all five are there, the token
/// expires after it was issued, and subject and audience are not empty.
pub fn claims_of_members(
    iss: Option<String>,
    aud: Option<String>,
    sub: Option<String>,
    iat: Option<i64>,
    exp: Option<i64>,
) -> (claims: Option<Claims>)
    ensures
        view_of(claims) == members_claims(text_of(iss), text_of(aud), text_of(sub), iat, exp),
{
    match (iss, aud, sub, iat, exp) {
        (Some(iss), Some(aud), Some(sub), Some(iat), Some(exp)) => {
            if exp <= iat || sub.as_str().is_empty() || aud.as_str().is_empty() {
                None
            } else {
                Some(Claims::new(iss, aud, sub, iat, exp))
            }
        },
        _ => None,
    }
}

/// How the text begins, up to the issuer.
pub const ISS_KEY: &'static str = "{\"iss\":";

/// What stands between the issuer and the audience.
pub const AUD_KEY: &'static str = ",\"aud\":";

/// What stands between the audience and the subject.
pub const SUB_KEY: &'static str = ",\"sub\":";

/// What stands between the subject and the time of issue.
pub const IAT_KEY: &'static str = ",\"iat\":";

/// What stands between the time of issue and the expiry time.
pub const EXP_KEY: &'static str = ",\"exp\":";

/// How the text ends.
pub const CLOSING: &'static str = "}";

/// The bytes of `ISS_KEY`.
pub open spec fn key_iss() -> Seq<u8> {
    encode_utf8(ISS_KEY@)
}

/// The bytes of `AUD_KEY`.
pub open spec fn key_aud() -> Seq<u8> {
    encode_utf8(AUD_KEY@)
}

/// The bytes of `SUB_KEY`.
pub open spec fn key_sub() -> Seq<u8> {
    encode_utf8(SUB_KEY@)
}

/// The bytes of `IAT_KEY`.
pub open spec fn key_iat() -> Seq<u8> {
    encode_utf8(IAT_KEY@)
}

/// The bytes of `EXP_KEY`.
pub open spec fn key_exp() -> Seq<u8> {
    encode_utf8(EXP_KEY@)
}

/// The bytes of `CLOSING`.
pub open spec fn closing() -> Seq<u8> {
    encode_utf8(CLOSING@)
}

/// The claims with their strings as bytes.
pub struct RawClaims {
    pub iss: Seq<u8>,
    pub aud: Seq<u8>,
    pub sub: Seq<u8>,
    pub iat: int,
    pub exp: int,
}

/// The text of a claims set: the keys in their order, each followed by
/// its value, strings quoted and times in decimal.
pub open spec fn raw_text(raw: RawClaims) -> Seq<u8> {
    key_iss() + (quoted(raw.iss) + (key_aud() + (quoted(raw.aud) + (key_sub() + (quoted(raw.sub)
        + (key_iat() + (decimal(raw.iat) + (key_exp() + (decimal(raw.exp) + closing())))))))))
}

/// A claims set with its strings as their UTF-8 bytes.
pub open spec fn raw_of(claims: ClaimsView) -> RawClaims {
    RawClaims {
        iss: encode_utf8(claims.iss),
        aud: encode_utf8(claims.aud),
        sub: encode_utf8(claims.sub),
        iat: claims.iat,
        exp: claims.exp,
    }
}

/// The compact JSON text of a claims set: one object with the members
/// `iss`, `aud`, `sub`, `iat`, `exp` in this order and no white space.
pub open spec fn claims_text(claims: ClaimsView) -> Seq<u8> {
    raw_text(raw_of(claims))
}

/// What is left of `rest` behind `lit`, where `rest` begins with `lit`.
pub open spec fn strip(rest: Seq<u8>, lit: Seq<u8>) -> Option<Seq<u8>> {
    if lit.is_prefix_of(rest) {
        Some(rest.skip(lit.len() as int))
    } else {
        None
    }
}

/// Reads a string member: its key, then its value.
pub open spec fn scan_string_member(rest: Seq<u8>, key: Seq<u8>) -> Option<(Seq<u8>, Seq<u8>)> {
    match strip(rest, key) {
        Some(value) => scan_string(value),
        None => None,
    }
}

/// Reads an integer member: its key, then its value.
pub open spec fn scan_int_member(rest: Seq<u8>, key: Seq<u8>) -> Option<(int, Seq<u8>)> {
    match strip(rest, key) {
        Some(value) => scan_int(value),
        None => None,
    }
}

/// Reads the five members in their order; `None` unless `text` is that and
/// nothing more.
pub open spec fn scan_raw(text: Seq<u8>) -> Option<RawClaims> {
    match scan_string_member(text, key_iss()) {
        Some((iss, r1)) => match scan_string_member(r1, key_aud()) {
            Some((aud, r2)) => match scan_string_member(r2, key_sub()) {
                Some((sub, r3)) => match scan_int_member(r3, key_iat()) {
                    Some((iat, r4)) => match scan_int_member(r4, key_exp()) {
                        Some((exp, r5)) => if r5 == closing() {
                            Some(RawClaims { iss, aud, sub, iat, exp })
                        } else {
                            None
                        },
                        None => None,
                    },
                    None => None,
                },
                None => None,
            },
            None => None,
        },
        None => None,
    }
}

proof fn lemma_strip_of_concat(lit: Seq<u8>, tail: Seq<u8>)
    ensures
        strip(lit + tail, lit) == Some(tail),
{
    assert((lit + tail).subrange(0, lit.len() as int) =~= lit);
    assert((lit + tail).skip(lit.len() as int) =~= tail);
}

proof fn lemma_concat_of_strip(rest: Seq<u8>, lit: Seq<u8>)
    requires
        strip(rest, lit) is Some,
    ensures
        rest == lit + strip(rest, lit)->Some_0,
{
    assert(rest =~= rest.subrange(0, lit.len() as int) + rest.skip(lit.len() as int));
}

proof fn lemma_key_bytes()
    ensures
        key_exp().len() > 0 && key_exp()[0] == 0x2c,
        closing().len() > 0 && closing()[0] == 0x7d,
{
    reveal_strlit(",\"exp\":");
    reveal_strlit("}");
    is_ascii_chars_encode_utf8(EXP_KEY@);
    is_ascii_chars_encode_utf8(CLOSING@);
}

/// The text of a claims set reads back as that claims set.
pub proof fn lemma_scan_raw_of_text(raw: RawClaims)
    requires
        i64::MIN <= raw.iat <= i64::MAX,
        i64::MIN <= raw.exp <= i64::MAX,
    ensures
        scan_raw(raw_text(raw)) == Some(raw),
{
    let r10 = closing();
    let r9 = decimal(raw.exp) + r10;
    let r8 = key_exp() + r9;
    let r7 = decimal(raw.iat) + r8;
    let r6 = key_iat() + r7;
    let r5 = quoted(raw.sub) + r6;
    let r4 = key_sub() + r5;
    let r3 = quoted(raw.aud) + r4;
    let r2 = key_aud() + r3;
    let r1 = quoted(raw.iss) + r2;
    lemma_key_bytes();
    lemma_strip_of_concat(key_iss(), r1);
    lemma_scan_string_of_quoted(raw.iss, r2);
    lemma_strip_of_concat(key_aud(), r3);
    lemma_scan_string_of_quoted(raw.aud, r4);
    lemma_strip_of_concat(key_sub(), r5);
    lemma_scan_string_of_quoted(raw.sub, r6);
    lemma_strip_of_concat(key_iat(), r7);
    assert(r8[0] == key_exp()[0]);
    lemma_scan_int_of_decimal(raw.iat, r8);
    lemma_strip_of_concat(key_exp(), r9);
    lemma_scan_int_of_decimal(raw.exp, r10);
}

/// Whatever a text reads as, it is the text of that claims set.
pub proof fn lemma_text_of_scan_raw(text: Seq<u8>)
    requires
        scan_raw(text) is Some,
    ensures
        raw_text(scan_raw(text)->Some_0) == text,
        i64::MIN <= scan_raw(text)->Some_0.iat <= i64::MAX,
        i64::MIN <= scan_raw(text)->Some_0.exp <= i64::MAX,
{
    let v1 = strip(text, key_iss())->Some_0;
    lemma_concat_of_strip(text, key_iss());
    let r1 = scan_string(v1)->Some_0.1;
    lemma_quoted_of_scan_string(v1);
    let v2 = strip(r1, key_aud())->Some_0;
    lemma_concat_of_strip(r1, key_aud());
    let r2 = scan_string(v2)->Some_0.1;
    lemma_quoted_of_scan_string(v2);
    let v3 = strip(r2, key_sub())->Some_0;
    lemma_concat_of_strip(r2, key_sub());
    let r3 = scan_string(v3)->Some_0.1;
    lemma_quoted_of_scan_string(v3);
    let v4 = strip(r3, key_iat())->Some_0;
    lemma_concat_of_strip(r3, key_iat());
    let r4 = scan_int(v4)->Some_0.1;
    lemma_decimal_of_scan_int(v4);
    let v5 = strip(r4, key_exp())->Some_0;
    lemma_concat_of_strip(r4, key_exp());
    lemma_decimal_of_scan_int(v5);
}

/// The text of a claims set is at most twelve bytes for every byte of its
/// three strings, and 128 bytes more.
pub proof fn lemma_claims_text_len(claims: ClaimsView)
    requires
        claims.representable(),
    ensures
        claims_text(claims).len() <= 6 * (encode_utf8(claims.iss).len() + encode_utf8(
            claims.aud,
        ).len() + encode_utf8(claims.sub).len()) + 128,
{
    reveal_strlit("{\"iss\":");
    reveal_strlit(",\"aud\":");
    reveal_strlit(",\"sub\":");
    reveal_strlit(",\"iat\":");
    reveal_strlit(",\"exp\":");
    reveal_strlit("}");
    is_ascii_chars_encode_utf8(ISS_KEY@);
    is_ascii_chars_encode_utf8(AUD_KEY@);
    is_ascii_chars_encode_utf8(SUB_KEY@);
    is_ascii_chars_encode_utf8(IAT_KEY@);
    is_ascii_chars_encode_utf8(EXP_KEY@);
    is_ascii_chars_encode_utf8(CLOSING@);
    lemma_quoted_len(encode_utf8(claims.iss));
    lemma_quoted_len(encode_utf8(claims.aud));
    lemma_quoted_len(encode_utf8(claims.sub));
    lemma_decimal_len(claims.iat);
    lemma_decimal_len(claims.exp);
}

/// The text of a claims set is never empty.
pub proof fn lemma_claims_text_not_empty(claims: ClaimsView)
    ensures
        claims_text(claims).len() > 0,
{
    reveal_strlit("{\"iss\":");
    is_ascii_chars_encode_utf8(ISS_KEY@);
}

/// Two claims sets with the same text are the same.
pub proof fn lemma_claims_text_injective(a: ClaimsView, b: ClaimsView)
    requires
        a.representable(),
        b.representable(),
        claims_text(a) == claims_text(b),
    ensures
        a == b,
{
    lemma_scan_raw_of_text(raw_of(a));
    lemma_scan_raw_of_text(raw_of(b));
    encode_utf8_decode_utf8(a.iss);
    encode_utf8_decode_utf8(a.aud);
    encode_utf8_decode_utf8(a.sub);
    encode_utf8_decode_utf8(b.iss);
    encode_utf8_decode_utf8(b.aud);
    encode_utf8_decode_utf8(b.sub);
}

/// Looks for `lit` at `at`: the place behind it, if it stands there.
fn skip_literal(text: &[u8], at: usize, lit: &[u8]) -> (next: Option<usize>)
    requires
        at <= text@.len(),
    ensures
        match next {
            Some(to) => at <= to <= text@.len() && strip(text@.skip(at as int), lit@) == Some(
                text@.skip(to as int),
            ),
            None => strip(text@.skip(at as int), lit@) is None,
        },
{
    let ghost rest = text@.skip(at as int);
    let n: usize = text.len();
    let m: usize = lit.len();
    if n - at < m {
        return None;
    }
    let mut i: usize = 0;
    while i < m
        invariant
            i <= m,
            m == lit@.len(),
            n == text@.len(),
            at + m <= n,
            rest == text@.skip(at as int),
            forall|j: int| 0 <= j < i ==> rest[j] == lit@[j],
        decreases m - i,
    {
        assert(rest[i as int] == text@[at + i]);
        if text[at + i] != lit[i] {
            assert(rest.subrange(0, m as int)[i as int] != lit@[i as int]);
            return None;
        }
        i = i + 1;
    }
    assert(rest.subrange(0, m as int) =~= lit@);
    assert(rest.skip(m as int) == text@.skip(at + m));
    Some(at + m)
}

/// Reads the string member with the key `key` at `at`.
fn read_string_member(text: &[u8], at: usize, key: &str) -> (found: Option<(Vec<u8>, usize)>)
    requires
        at <= text@.len(),
    ensures
        match found {
            Some((s, next)) => at <= next <= text@.len() && scan_string_member(
                text@.skip(at as int),
                encode_utf8(key@),
            ) == Some((s@, text@.skip(next as int))),
            None => scan_string_member(text@.skip(at as int), encode_utf8(key@)) is None,
        },
{
    match skip_literal(text, at, key.as_bytes()) {
        Some(value) => read_string(text, value),
        None => None,
    }
}

/// Reads the integer member with the key `key` at `at`.
fn read_int_member(text: &[u8], at: usize, key: &str) -> (found: Option<(i64, usize)>)
    requires
        at <= text@.len(),
    ensures
        match found {
            Some((n, next)) => at <= next <= text@.len() && scan_int_member(
                text@.skip(at as int),
                encode_utf8(key@),
            ) == Some((n as int, text@.skip(next as int))),
            None => scan_int_member(text@.skip(at as int), encode_utf8(key@)) is None,
        },
{
    match skip_literal(text, at, key.as_bytes()) {
        Some(value) => read_int(text, value),
        None => None,
    }
}

proof fn lemma_concat_assoc(a: Seq<u8>, b: Seq<u8>, c: Seq<u8>)
    ensures
        (a + b) + c == a + (b + c),
{
    assert((a + b) + c =~= a + (b + c));
}

/// Writes the compact JSON text of `claims`.
pub fn write_claims(claims: &Claims) -> (out: Vec<u8>)
    ensures
        out@ == claims_text(claims@),
{
    let ghost raw = raw_of(claims@);
    let ghost t10 = closing();
    let ghost t9 = decimal(raw.exp) + t10;
    let ghost t8 = key_exp() + t9;
    let ghost t7 = decimal(raw.iat) + t8;
    let ghost t6 = key_iat() + t7;
    let ghost t5 = quoted(raw.sub) + t6;
    let ghost t4 = key_sub() + t5;
    let ghost t3 = quoted(raw.aud) + t4;
    let ghost t2 = key_aud() + t3;
    let ghost t1 = quoted(raw.iss) + t2;
    let mut out: Vec<u8> = Vec::new();
    out.extend_from_slice(ISS_KEY.as_bytes());
    assert(out@ =~= key_iss());
    let ghost o = out@;
    push_quoted(&mut out, claims.iss.as_str().as_bytes());
    proof {
        lemma_concat_assoc(o, quoted(raw.iss), t2);
    }
    let ghost o = out@;
    out.extend_from_slice(AUD_KEY.as_bytes());
    proof {
        lemma_concat_assoc(o, key_aud(), t3);
    }
    let ghost o = out@;
    push_quoted(&mut out, claims.aud.as_str().as_bytes());
    proof {
        lemma_concat_assoc(o, quoted(raw.aud), t4);
    }
    let ghost o = out@;
    out.extend_from_slice(SUB_KEY.as_bytes());
    proof {
        lemma_concat_assoc(o, key_sub(), t5);
    }
    let ghost o = out@;
    push_quoted(&mut out, claims.sub.as_str().as_bytes());
    proof {
        lemma_concat_assoc(o, quoted(raw.sub), t6);
    }
    let ghost o = out@;
    out.extend_from_slice(IAT_KEY.as_bytes());
    proof {
        lemma_concat_assoc(o, key_iat(), t7);
    }
    let ghost o = out@;
    push_decimal(&mut out, claims.iat);
    proof {
        lemma_concat_assoc(o, decimal(raw.iat), t8);
    }
    let ghost o = out@;
    out.extend_from_slice(EXP_KEY.as_bytes());
    proof {
        lemma_concat_assoc(o, key_exp(), t9);
    }
    let ghost o = out@;
    push_decimal(&mut out, claims.exp);
    proof {
        lemma_concat_assoc(o, decimal(raw.exp), t10);
    }
    out.extend_from_slice(CLOSING.as_bytes());
    out
}

/// Reads the five members of a claims text.
fn parse_raw(text: &[u8]) -> (found: Option<(Vec<u8>, Vec<u8>, Vec<u8>, i64, i64)>)
    ensures
        match found {
            Some((iss, aud, sub, iat, exp)) => scan_raw(text@) == Some(
                RawClaims { iss: iss@, aud: aud@, sub: sub@, iat: iat as int, exp: exp as int },
            ),
            None => scan_raw(text@) is None,
        },
{
    assert(text@.skip(0) == text@);
    let (iss, at_aud) = match read_string_member(text, 0, ISS_KEY) {
        Some(found) => found,
        None => {
            return None;
        },
    };
    let (aud, at_sub) = match read_string_member(text, at_aud, AUD_KEY) {
        Some(found) => found,
        None => {
            return None;
        },
    };
    let (sub, at_iat) = match read_string_member(text, at_sub, SUB_KEY) {
        Some(found) => found,
        None => {
            return None;
        },
    };
    let (iat, at_exp) = match read_int_member(text, at_iat, IAT_KEY) {
        Some(found) => found,
        None => {
            return None;
        },
    };
    let (exp, at_end) = match read_int_member(text, at_exp, EXP_KEY) {
        Some(found) => found,
        None => {
            return None;
        },
    };
    let ghost r5 = text@.skip(at_end as int);
    match skip_literal(text, at_end, CLOSING.as_bytes()) {
        Some(end) => {
            proof {
                lemma_concat_of_strip(r5, closing());
            }
            if end == text.len() {
                proof {
                    assert(text@.skip(end as int).len() == 0);
                    assert(r5 =~= closing());
                }
                Some((iss, aud, sub, iat, exp))
            } else {
                assert(r5.len() > closing().len());
                None
            }
        },
        None => {
            proof {
                if r5 == closing() {
                    assert(r5.subrange(0, closing().len() as int) =~= closing());
                }
            }
            None
        },
    }
}

/// Reads a claims set from its compact JSON text. `None` unless `text` is
/// exactly what `write_claims` gives for some well-formed claims set,
/// which is then the result.
pub fn parse_claims(text: &[u8]) -> (found: Option<Claims>)
    ensures
        match found {
            Some(claims) => claims@.well_formed() && claims_text(claims@) == text@,
            None => forall|m: ClaimsView|
                m.well_formed() && m.representable() ==> claims_text(m) != text@,
        },
{
    proof {
        assert forall|m: ClaimsView| m.representable() && claims_text(m) == text@ implies scan_raw(
            text@,
        ) == Some(raw_of(m)) by {
            lemma_scan_raw_of_text(raw_of(m));
        }
        assert forall|m: ClaimsView| #![trigger raw_of(m)] valid_utf8(raw_of(m).iss) && valid_utf8(raw_of(m).aud)
            && valid_utf8(raw_of(m).sub) by {
            encode_utf8_valid_utf8(m.iss);
            encode_utf8_valid_utf8(m.aud);
            encode_utf8_valid_utf8(m.sub);
        }
    }
    let (iss_bytes, aud_bytes, sub_bytes, iat, exp) = match parse_raw(text) {
        Some(raw) => raw,
        None => {
            return None;
        },
    };
    proof {
        lemma_text_of_scan_raw(text@);
    }
    let iss = match string_from_utf8(iss_bytes) {
        Some(s) => s,
        None => {
            return None;
        },
    };
    let aud = match string_from_utf8(aud_bytes) {
        Some(s) => s,
        None => {
            return None;
        },
    };
    let sub = match string_from_utf8(sub_bytes) {
        Some(s) => s,
        None => {
            return None;
        },
    };
    proof {
        assert forall|m: ClaimsView| m.representable() && claims_text(m) == text@ implies m == (
        ClaimsView { iss: iss@, aud: aud@, sub: sub@, iat: iat as int, exp: exp as int }) by {
            encode_utf8_decode_utf8(m.iss);
            encode_utf8_decode_utf8(m.aud);
            encode_utf8_decode_utf8(m.sub);
            encode_utf8_decode_utf8(iss@);
            encode_utf8_decode_utf8(aud@);
            encode_utf8_decode_utf8(sub@);
        }
    }
    if exp <= iat || sub.as_str().is_empty() || aud.as_str().is_empty() {
        return None;
    }
    Some(Claims::new(iss, aud, sub, iat, exp))
}

} // verus!
