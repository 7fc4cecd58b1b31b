use idp::domain::mail_address::MailAddress;
use idp::entity::user::User;

#[test]
fn test_user_ok() {
    let mail_string = "test.test@gmail.com".to_string();
    let mail = MailAddress::try_from(mail_string.clone());
    let user = User::of(mail.unwrap());
    assert_eq!(String::from(user.email), mail_string);
}

#[test]
fn users_compare_by_mail() {
    let a = User::of(MailAddress::of("a@example.com").unwrap());
    let b = User::of(MailAddress::of("a@example.com").unwrap());
    let c = User::of(MailAddress::of("c@example.com").unwrap());
    assert_eq!(a, b);
    assert_ne!(a, c);
}
