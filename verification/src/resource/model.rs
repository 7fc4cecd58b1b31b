//! The bodies of the answers.

pub mod response_model;
