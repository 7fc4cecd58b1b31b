use vstd::prelude::*;

verus! {

/// What can go wrong while building a domain value or moving a token
/// through the service.
#[derive(Debug, Clone, Copy, PartialEq, Eq, Structural)]
pub enum MyError {
    /// A token could not be read or did not pass its checks.
    Decode,
    /// A token could not be produced.
    Encode,
    /// A value does not have the form its type asks for.
    InvalidValue,
}

impl MyError {
    /// The text shown to a person for each error.
    pub open spec fn text(self) -> Seq<char> {
        match self {
            MyError::InvalidValue => "Invalid Value Error"@,
            MyError::Decode => "Decode Error"@,
            MyError::Encode => "Encode Error"@,
        }
    }

    /// Renders the error as its display text.
    pub fn message(&self) -> (out: String)
        ensures
            out@ == self.text(),
    {
        match self {
            MyError::InvalidValue => "Invalid Value Error".to_owned(),
            MyError::Decode => "Decode Error".to_owned(),
            MyError::Encode => "Encode Error".to_owned(),
        }
    }
}

} // verus!
