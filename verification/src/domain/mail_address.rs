use vstd::prelude::*;
use vstd::std_specs::convert::{FromSpec, FromSpecImpl, TryFromSpec, TryFromSpecImpl};
use crate::error::my_error::MyError;

verus! {

/// Whether `text` matches the regular expression `pattern`, as the `regex`
/// crate decides it; `None` where that crate does not accept the pattern.
pub uninterp spec fn regex_is_match(pattern: Seq<char>, text: Seq<char>) -> Option<bool>;

/// Calls `regex::Regex::new` and, with what it built, `Regex::is_match`.
/// Trusted: the answer depends on the pattern and the text alone, so it is
/// given the name `regex_is_match`; nothing else is claimed of it.
#[verifier::external_body]
fn pattern_matches(pattern: &str, text: &str) -> (verdict: Option<bool>)
    ensures
        verdict == regex_is_match(pattern@, text@),
{
    match regex::Regex::new(pattern) {
        Ok(compiled) => Some(compiled.is_match(text)),
        Err(_) => None,
    }
}

/// The form of a mail address, as a regular expression: a local part of
/// letters, digits and `_ + -` in groups, an `@`, and a domain of labels
/// that ends in a top level of two letters or more.
pub const MAIL_PATTERN: &'static str =
    "^[a-zA-Z0-9_+-]+(.[a-zA-Z0-9_+-]+)*@([a-zA-Z0-9][a-zA-Z0-9-]*[a-zA-Z0-9]*\\.)+[a-zA-Z]{2,}$";

/// Whether a text has the form of a mail address.
pub open spec fn is_mail_address(text: Seq<char>) -> bool {
    regex_is_match(MAIL_PATTERN@, text) == Some(true)
}

/// A mail address. It identifies a user.
#[derive(PartialEq, Eq, PartialOrd, Ord, Debug)]
pub struct MailAddress {
    mail_string: String,
}

impl Clone for MailAddress {
    fn clone(&self) -> (copy: Self)
        ensures
            copy@ == self@,
    {
        proof {
            use_type_invariant(self);
        }
        MailAddress { mail_string: self.mail_string.clone() }
    }
}

impl View for MailAddress {
    type V = Seq<char>;

    closed spec fn view(&self) -> Seq<char> {
        self.mail_string@
    }
}

/// What can be turned into the text of a mail address.
pub trait MailText: Sized {
    /// The characters of the text.
    spec fn characters(&self) -> Seq<char>;

    /// The text as an owned string.
    fn into_text(self) -> (text: String)
        ensures
            text@ == self.characters(),
    ;
}

impl MailText for String {
    open spec fn characters(&self) -> Seq<char> {
        self@
    }

    fn into_text(self) -> (text: String) {
        self
    }
}

impl<'a> MailText for &'a str {
    open spec fn characters(&self) -> Seq<char> {
        self@
    }

    fn into_text(self) -> (text: String) {
        self.to_owned()
    }
}

impl MailAddress {
    #[verifier::type_invariant]
    closed spec fn holds_invariant(self) -> bool {
        is_mail_address(self@)
    }

    /// Makes a mail address of `mail_string`, which must have the form of
    /// one; `InvalidValue` otherwise.
    pub fn of<T: MailText>(mail_string: T) -> (made: Result<MailAddress, MyError>)
        ensures
            match made {
                Ok(mail) => is_mail_address(mail_string.characters()) && mail@
                    == mail_string.characters(),
                Err(e) => !is_mail_address(mail_string.characters()) && e == MyError::InvalidValue,
            },
    {
        let text = mail_string.into_text();
        let verdict = pattern_matches(MAIL_PATTERN, text.as_str());
        MailAddress::from_verdict(text, verdict)
    }

    /// Makes a mail address of `mail_string` once the pattern has been
    /// tried on it: `verdict` is what matching gave. Only a match makes an
    /// address; no match, and a pattern that could not be used, give
    /// `InvalidValue`.
    pub fn from_verdict(mail_string: String, verdict: Option<bool>) -> (made: Result<
        MailAddress,
        MyError,
    >)
        requires
            verdict == regex_is_match(MAIL_PATTERN@, mail_string@),
        ensures
            made == MailAddress::made_of(mail_string),
            match verdict {
                Some(true) => made matches Ok(mail) && mail@ == mail_string@,
                _ => made matches Err(e) && e == MyError::InvalidValue,
            },
    {
        match verdict {
            Some(true) => Ok(MailAddress { mail_string }),
            _ => Err(MyError::InvalidValue),
        }
    }

    /// What is made of a string: the address with that text, where it has
    /// the form of one.
    pub closed spec fn made_of(mail_string: String) -> Result<MailAddress, MyError> {
        if is_mail_address(mail_string@) {
            Ok(MailAddress { mail_string })
        } else {
            Err(MyError::InvalidValue)
        }
    }

    /// The address as text. It has the form of a mail address.
    pub fn as_str(&self) -> (text: &str)
        ensures
            text@ == self@,
            is_mail_address(text@),
    {
        proof {
            use_type_invariant(self);
        }
        self.mail_string.as_str()
    }

    /// What `try_from` makes of a string.
    pub proof fn lemma_try_from(mail_string: String)
        ensures
            match <MailAddress as TryFromSpec<String>>::try_from_spec(mail_string) {
                Ok(mail) => is_mail_address(mail_string@) && mail@ == mail_string@,
                Err(e) => !is_mail_address(mail_string@) && e == MyError::InvalidValue,
            },
    {
    }

    /// What `String::from` makes of a mail address.
    pub proof fn lemma_into_string(self)
        ensures
            <String as FromSpec<MailAddress>>::from_spec(self)@ == self@,
    {
    }
}

impl TryFrom<String> for MailAddress {
    type Error = MyError;

    /// Makes a mail address of `mail_string`, which must have the form of
    /// one; `InvalidValue` otherwise.
    fn try_from(mail_string: String) -> (made: Result<Self, Self::Error>) {
        let verdict = pattern_matches(MAIL_PATTERN, mail_string.as_str());
        MailAddress::from_verdict(mail_string, verdict)
    }
}

impl TryFromSpecImpl<String> for MailAddress {
    open spec fn obeys_try_from_spec() -> bool {
        true
    }

    open spec fn try_from_spec(mail_string: String) -> Result<Self, Self::Error> {
        MailAddress::made_of(mail_string)
    }
}

/// The text of a mail address.
impl From<MailAddress> for String {
    fn from(email: MailAddress) -> (text: String) {
        email.mail_string
    }
}

impl FromSpecImpl<MailAddress> for String {
    open spec fn obeys_from_spec() -> bool {
        true
    }

    closed spec fn from_spec(email: MailAddress) -> String {
        email.mail_string
    }
}

} // verus!
