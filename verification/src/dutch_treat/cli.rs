use vstd::prelude::*;

verus! {

/// What a person asks the journal to do.
#[derive(Debug)]
pub enum Action {
    /// Write a member to the journal.
    Add(InputParticipant),
    /// Remove a member from the journal.
    Remove(InputPosition),
    /// Increment everyone's years of service.
    Increment(InputIncrement),
    /// Calculate the amounts.
    Calc(InputAmount),
    /// Show the members.
    List,
}

/// A member to add.
#[derive(Debug)]
pub struct InputParticipant {
    pub name: String,
    pub years: usize,
}

/// By how many years to increment.
#[derive(Debug)]
pub struct InputIncrement {
    pub years: u8,
}

/// Which member to remove, counted from one.
#[derive(Debug)]
pub struct InputPosition {
    pub position: u8,
}

/// The bill to split, and what every member pays before the rest is split.
#[derive(Debug)]
pub struct InputAmount {
    pub amount_all: usize,
    pub bias: Option<usize>,
}

/// The most years of service a member can be entered with.
pub const MAX_YEARS: usize = 100;

impl InputParticipant {
    /// Whether the years of service lie in the range from 0 to 100.
    pub fn years_in_range(&self) -> (ok: bool)
        ensures
            ok == (self.years <= MAX_YEARS),
    {
        self.years <= MAX_YEARS
    }
}

} // verus!
