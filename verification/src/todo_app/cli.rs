use vstd::prelude::*;

verus! {

/// What a person asks the to-do list to do.
#[derive(Debug)]
pub enum Action {
    /// Write a task to the list.
    Add { text: String },
    /// Take the task at `position`, counted from one, off the list.
    Done { position: usize },
    /// Show the tasks.
    List,
}

} // verus!
