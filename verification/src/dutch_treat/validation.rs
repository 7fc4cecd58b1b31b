//! Checks on text that a person typed.

pub mod validation_strategy;
