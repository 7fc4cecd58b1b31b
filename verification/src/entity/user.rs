use vstd::prelude::*;
use crate::domain::mail_address::MailAddress;

verus! {

/// A user of the service, known by a mail address.
#[derive(Clone, PartialEq, Eq, Debug)]
pub struct User {
    pub email: MailAddress,
}

impl User {
    /// The user with the mail address `email`.
    pub fn of(email: MailAddress) -> (user: User)
        ensures
            user.email == email,
    {
        Self { email }
    }
}

} // verus!
