//! A to-do list.

pub mod cli;
pub mod tasks;
