//! Error types shared by the domain objects.

pub mod my_error;
