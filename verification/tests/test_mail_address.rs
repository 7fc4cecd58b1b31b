use idp::domain::mail_address::MailAddress;
use idp::error::my_error::MyError;

#[test]
fn test_mail_ok() {
    let mail_string = "test.test@gmail.com".to_string();
    let result = MailAddress::try_from(mail_string.clone());
    assert_eq!(String::from(result.unwrap()), mail_string);
}

#[test]
fn test_mail_from_str_ok() {
    let mail_string = "test.test@gmail.com";
    let result = MailAddress::of(mail_string);
    assert_eq!(String::from(result.unwrap()), mail_string.to_owned());
}

#[test]
fn test_mail_from_string_ok() {
    let mail_string = "test.test@gmail.com".to_string();
    let result = MailAddress::of(mail_string.clone());
    assert_eq!(String::from(result.unwrap()), mail_string);
}

#[test]
fn test_mail_ng() {
    let mail_string = "test.test@@@gmail.com".to_string();
    let result = MailAddress::try_from(mail_string);
    assert!(result.is_err());
}

#[test]
fn test_mail_ng_from_str() {
    let mail_string = "test.test@@@gmail.com";
    let result = MailAddress::of(mail_string);
    assert!(result.is_err());
}

#[test]
fn test_equals() {
    let mail_string_1 = "fuga.test@gmail.com";
    let mail_string_2 = "fuga.test@gmail.com";
    let mail_string_3 = "hoge.test@gmail.com";

    let mail_1 = MailAddress::of(mail_string_1).unwrap();
    let mail_2 = MailAddress::of(mail_string_2).unwrap();
    let mail_3 = MailAddress::of(mail_string_3).unwrap();

    assert_eq!(mail_1, mail_2);
    assert_ne!(mail_2, mail_3);
    assert_ne!(mail_1, mail_3);
}

#[test]
fn mail_error_is_invalid_value() {
    assert_eq!(MailAddress::of("no-at-sign").unwrap_err(), MyError::InvalidValue);
    assert_eq!(MailAddress::of("").unwrap_err(), MyError::InvalidValue);
    assert_eq!(
        MailAddress::try_from("a@b".to_string()).unwrap_err(),
        MyError::InvalidValue
    );
}

#[test]
fn mail_forms_accepted_and_refused() {
    assert!(MailAddress::of("a@b.cd").is_ok());
    assert!(MailAddress::of("first+tag_x-y@sub.example.org").is_ok());
    // a group of the local part starts with any one character
    assert!(MailAddress::of("a!b@example.com").is_ok());
    // the top level needs two letters
    assert!(MailAddress::of("a@b.c").is_err());
    assert!(MailAddress::of("a@b.c1").is_err());
    assert!(MailAddress::of("@example.com").is_err());
    assert!(MailAddress::of("a@-example.com").is_err());
    assert!(MailAddress::of("a@example.com\n").is_err());
    assert!(MailAddress::of(" a@example.com").is_err());
}

#[test]
fn mail_keeps_its_text() {
    let mail = MailAddress::of("hoge.test@gmail.com").unwrap();
    assert_eq!(mail.as_str(), "hoge.test@gmail.com");
    assert_eq!(mail.clone(), mail);
}

#[test]
fn mail_orders_by_text() {
    let a = MailAddress::of("a@example.com").unwrap();
    let b = MailAddress::of("b@example.com").unwrap();
    assert!(a < b);
}

#[test]
fn error_messages() {
    assert_eq!(MyError::InvalidValue.message(), "Invalid Value Error");
    assert_eq!(MyError::Decode.message(), "Decode Error");
    assert_eq!(MyError::Encode.message(), "Encode Error");
}

#[test]
fn mail_is_made_on_a_match_only() {
    let text = "test.test@gmail.com".to_string();
    assert_eq!(MailAddress::from_verdict(text.clone(), Some(true)).unwrap().as_str(), text);
    assert_eq!(
        MailAddress::from_verdict("test.test@@@gmail.com".to_string(), Some(false)).unwrap_err(),
        MyError::InvalidValue
    );
}
