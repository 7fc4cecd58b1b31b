//! Splitting a bill among members by their years of service.

pub mod cli;
pub mod members;
pub mod validation;
