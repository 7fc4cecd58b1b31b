//! Signed bearer tokens: the wire format and the service that issues and
//! checks them.

pub mod base64url;
pub mod claims;
pub mod clock;
pub mod guarantees;
pub mod json;
pub mod jwt;
pub mod mac;
pub mod text;
pub mod unicode;
