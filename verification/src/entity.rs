//! Entities.

pub mod user;
