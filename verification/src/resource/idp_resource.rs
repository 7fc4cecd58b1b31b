use vstd::prelude::*;
use vstd::utf8::*;
use crate::domain::mail_address::{is_mail_address, MailAddress};
use crate::entity::user::User;
use crate::error::my_error::MyError;
use crate::resource::model::response_model::{SingInResponse, TokenValidatedResponse};
use crate::token::clock::CLOCK_MAX;
use crate::token::jwt::{
    decode_jwt, is_issue_result, is_token_text, is_verify_result, issue_outcome, make_jwt,
    usable_secret, usable_subject, verify_outcome,
};

verus! {

/// The body of a sign-in request.
#[derive(Debug)]
pub struct AuthenticationReqBody {
    email: String,
    passwd: String,
}

/// The body of a request to check a token.
#[derive(Debug)]
pub struct AuthorizationReqBody {
    email: String,
    token: String,
}

impl AuthenticationReqBody {
    /// The characters of the mail address.
    pub closed spec fn email_text(&self) -> Seq<char> {
        self.email@
    }

    /// The characters of the password.
    pub closed spec fn passwd_text(&self) -> Seq<char> {
        self.passwd@
    }

    /// A sign-in request for `email` with the password `passwd`.
    pub fn new(email: String, passwd: String) -> (body: Self)
        ensures
            body.email_text() == email@,
            body.passwd_text() == passwd@,
    {
        Self { email, passwd }
    }

    /// The mail address that asks to sign in.
    pub fn email(&self) -> (text: &str)
        ensures
            text@ == self.email_text(),
    {
        self.email.as_str()
    }

    /// The password that was sent along.
    pub fn passwd(&self) -> (text: &str)
        ensures
            text@ == self.passwd_text(),
    {
        self.passwd.as_str()
    }
}

impl AuthorizationReqBody {
    /// The characters of the mail address.
    pub closed spec fn email_text(&self) -> Seq<char> {
        self.email@
    }

    /// The characters of the token.
    pub closed spec fn token_text(&self) -> Seq<char> {
        self.token@
    }

    /// A request to check `token` for `email`.
    pub fn new(email: String, token: String) -> (body: Self)
        ensures
            body.email_text() == email@,
            body.token_text() == token@,
    {
        Self { email, token }
    }

    /// The mail address that presents the token.
    pub fn email(&self) -> (text: &str)
        ensures
            text@ == self.email_text(),
    {
        self.email.as_str()
    }

    /// The token that is presented.
    pub fn token(&self) -> (text: &str)
        ensures
            text@ == self.token_text(),
    {
        self.token.as_str()
    }
}

/// Whether `response` is the answer to a sign-in of `email` at the time
/// `now`: the user and the token issued for them then, or `Encode` where
/// no token could be issued.
pub open spec fn is_sign_in_answer(
    response: Result<SingInResponse, MyError>,
    secret: Seq<u8>,
    email: Seq<char>,
    now: int,
) -> bool {
    match issue_outcome(secret, email, now) {
        Ok(token) => response matches Ok(answer) && answer.user.email@ == email && encode_utf8(
            answer.token@,
        ) == token,
        Err(_) => response matches Err(e) && e == MyError::Encode,
    }
}

/// Whether `response` is the answer to a check of `token` for `email` at
/// the time `now`: the claims of the token and the user, or `Decode` where
/// the token was refused.
pub open spec fn is_validation_answer(
    response: Result<TokenValidatedResponse, MyError>,
    secret: Seq<u8>,
    email: Seq<char>,
    token: Seq<u8>,
    now: int,
) -> bool {
    match verify_outcome(secret, token, email, now) {
        Ok(claims) => response matches Ok(answer) && answer.user.email@ == email && answer.claims@
            == claims,
        Err(_) => response matches Err(e) && e == MyError::Decode,
    }
}

/// Answers a sign-in request: issues a token for the mail address in
/// `body`, signed with `secret`.
///
/// The caller has checked the password. A text that is no mail address is
/// refused with `InvalidValue`; where no token can be issued the answer is
/// `Encode`. For a mail address that is a usable subject and a usable
/// secret a token is owed, and comes, whatever the time.
pub fn make_jwt_handler(secret: &str, body: &AuthenticationReqBody) -> (response: Result<
    SingInResponse,
    MyError,
>)
    ensures
        !is_mail_address(body.email_text()) ==> (response matches Err(e) && e
            == MyError::InvalidValue),
        is_mail_address(body.email_text()) ==> exists|now: int|
            0 <= now <= CLOCK_MAX && #[trigger] is_sign_in_answer(
                response,
                encode_utf8(secret@),
                body.email_text(),
                now,
            ),
        response is Ok <==> is_mail_address(body.email_text()) && usable_secret(
            encode_utf8(secret@),
        ) && usable_subject(body.email_text()),
        response matches Ok(answer) ==> is_token_text(encode_utf8(answer.token@)),
{
    let mail = match MailAddress::of(body.email()) {
        Ok(mail) => mail,
        Err(e) => {
            return Err(e);
        },
    };
    let issued = make_jwt(secret, mail.as_str());
    let ghost now = choose|now: int|
        0 <= now <= CLOCK_MAX && #[trigger] is_issue_result(
            issued,
            encode_utf8(secret@),
            mail@,
            now,
        );
    let response = match issued {
        Ok(token) => Ok(SingInResponse { user: User::of(mail), token }),
        Err(_) => Err(MyError::Encode),
    };
    assert(is_sign_in_answer(response, encode_utf8(secret@), body.email_text(), now));
    response
}

/// Answers a request to check a token: checks the token in `body` against
/// `secret` and the mail address in `body`.
///
/// A text that is no mail address is refused with `InvalidValue`; a token
/// that is refused for any reason gives `Decode`.
pub fn validate_jwt_handler(secret: &str, body: &AuthorizationReqBody) -> (response: Result<
    TokenValidatedResponse,
    MyError,
>)
    ensures
        !is_mail_address(body.email_text()) ==> (response matches Err(e) && e
            == MyError::InvalidValue),
        is_mail_address(body.email_text()) ==> exists|now: int|
            0 <= now <= CLOCK_MAX && #[trigger] is_validation_answer(
                response,
                encode_utf8(secret@),
                body.email_text(),
                encode_utf8(body.token_text()),
                now,
            ),
{
    let mail = match MailAddress::of(body.email()) {
        Ok(mail) => mail,
        Err(e) => {
            return Err(e);
        },
    };
    let checked = decode_jwt(secret, body.token(), mail.as_str());
    let ghost now = choose|now: int|
        0 <= now <= CLOCK_MAX && #[trigger] is_verify_result(
            checked,
            encode_utf8(secret@),
            encode_utf8(body.token_text()),
            mail@,
            now,
        );
    let response = match checked {
        Ok(claims) => Ok(TokenValidatedResponse { claims, user: User::of(mail) }),
        Err(_) => Err(MyError::Decode),
    };
    assert(is_validation_answer(
        response,
        encode_utf8(secret@),
        body.email_text(),
        encode_utf8(body.token_text()),
        now,
    ));
    response
}

} // verus!
