//! Value objects.

pub mod mail_address;
