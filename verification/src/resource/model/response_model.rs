use vstd::prelude::*;
use crate::entity::user::User;
use crate::token::jwt::Claims;

verus! {

/// The answer to a sign-in: the user and the token issued for them.
#[derive(Debug)]
pub struct SingInResponse {
    pub user: User,
    pub token: String,
}

/// The answer to a token check: the claims of the token and the user
/// they were checked for.
#[derive(Debug)]
pub struct TokenValidatedResponse {
    pub claims: Claims,
    pub user: User,
}

} // verus!
