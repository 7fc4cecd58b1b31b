use idp::error::my_error::MyError;
use idp::resource::idp_resource::{
    make_jwt_handler, validate_jwt_handler, AuthenticationReqBody, AuthorizationReqBody,
};
use idp::token::jwt::{decode_jwt, issue_at};

#[test]
fn sign_in_then_validate() {
    let body = AuthenticationReqBody::new("test.test@gmail.com".to_string(), "pw".to_string());
    assert_eq!(body.email(), "test.test@gmail.com");
    assert_eq!(body.passwd(), "pw");
    let signed_in = make_jwt_handler("secret", &body).unwrap();
    assert_eq!(signed_in.user.email.as_str(), "test.test@gmail.com");
    let claims = decode_jwt("secret", &signed_in.token, "test.test@gmail.com").unwrap();
    assert_eq!(claims.subject(), "test.test@gmail.com");

    let check = AuthorizationReqBody::new("test.test@gmail.com".to_string(), signed_in.token);
    assert_eq!(check.email(), "test.test@gmail.com");
    let validated = validate_jwt_handler("secret", &check).unwrap();
    assert_eq!(validated.user.email.as_str(), "test.test@gmail.com");
    assert_eq!(validated.claims.subject(), "test.test@gmail.com");
    assert_eq!(validated.claims.audience(), "test.test@gmail.com");
    assert_eq!(validated.claims.issuer(), "example_system");
    assert_eq!(validated.claims.expires_at(), validated.claims.issued_at() + 28800);
}

#[test]
fn sign_in_refuses_what_is_no_mail_address() {
    let body = AuthenticationReqBody::new("test.test@@@gmail.com".to_string(), "pw".to_string());
    assert_eq!(make_jwt_handler("secret", &body).unwrap_err(), MyError::InvalidValue);
}

#[test]
fn sign_in_without_a_secret_is_an_encode_error() {
    let body = AuthenticationReqBody::new("test.test@gmail.com".to_string(), "pw".to_string());
    assert_eq!(make_jwt_handler("", &body).unwrap_err(), MyError::Encode);
}

#[test]
fn validation_refuses_what_is_no_mail_address() {
    let token = issue_at(b"secret", "x", 0).unwrap();
    let body = AuthorizationReqBody::new("x".to_string(), token);
    assert_eq!(validate_jwt_handler("secret", &body).unwrap_err(), MyError::InvalidValue);
}

#[test]
fn validation_refuses_a_token_of_someone_else() {
    let issued = make_jwt_handler(
        "secret",
        &AuthenticationReqBody::new("hoge.test@gmail.com".to_string(), String::new()),
    )
    .unwrap();
    let body = AuthorizationReqBody::new("fuga.test@gmail.com".to_string(), issued.token.clone());
    assert_eq!(body.token(), issued.token);
    assert_eq!(validate_jwt_handler("secret", &body).unwrap_err(), MyError::Decode);
    let body = AuthorizationReqBody::new("hoge.test@gmail.com".to_string(), issued.token.clone());
    assert_eq!(validate_jwt_handler("other", &body).unwrap_err(), MyError::Decode);
    let body = AuthorizationReqBody::new("hoge.test@gmail.com".to_string(), "a.b".to_string());
    assert_eq!(validate_jwt_handler("secret", &body).unwrap_err(), MyError::Decode);
    let old = issue_at(b"secret", "hoge.test@gmail.com", 1_000_000_000).unwrap();
    let body = AuthorizationReqBody::new("hoge.test@gmail.com".to_string(), old);
    assert_eq!(validate_jwt_handler("secret", &body).unwrap_err(), MyError::Decode);
}
