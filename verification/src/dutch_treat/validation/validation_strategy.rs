use vstd::prelude::*;

verus! {

/// A way to check a text and hand it on in the form that is kept.
pub trait ValidationStrategy {
    fn validate(target: &str) -> Result<String, ValidationError>;
}

/// Why a text was refused.
pub enum ValidationError {
    /// The text is empty where something must be given.
    NotAllowedEmpty,
    /// The text does not have the form asked for; the text is kept.
    InvalidFormat(String),
}

} // verus!
