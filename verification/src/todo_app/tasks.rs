use vstd::prelude::*;
use crate::todo_app::cli::Action;
use crate::token::clock::{current_timestamp, CLOCK_MAX};

verus! {

/// Something to do.
#[derive(Debug)]
pub struct Task {
    pub text: String,
    /// When the task was written down, in seconds since the epoch.
    pub created_at: i64,
}

/// Why the list refused a request.
#[derive(Debug, Clone, Copy, PartialEq, Eq, Structural)]
pub enum TaskError {
    /// The position is zero or behind the last task.
    InvalidTaskId,
}

impl TaskError {
    /// The text shown to a person for each error.
    pub open spec fn text(self) -> Seq<char> {
        "Invalid Task ID"@
    }

    /// Renders the error as its display text.
    pub fn message(&self) -> (out: String)
        ensures
            out@ == self.text(),
    {
        "Invalid Task ID".to_owned()
    }
}

impl Task {
    /// A task written down at the time `created_at`.
    pub fn new_at(text: String, created_at: i64) -> (task: Task)
        ensures
            task == (Task { text, created_at }),
    {
        Task { text, created_at }
    }

    /// A task written down now, whatever time the clock shows.
    pub fn new(text: String) -> (task: Task)
        ensures
            task.text == text,
            0 <= task.created_at <= CLOCK_MAX,
    {
        let created_at = current_timestamp();
        Task::new_at(text, created_at)
    }
}

/// The list with `task` written behind its last task.
pub fn add_task(tasks: Vec<Task>, task: Task) -> (list: Vec<Task>)
    ensures
        list@ == tasks@.push(task),
{
    let mut list = tasks;
    list.push(task);
    list
}

/// The list without the task at `task_position`, counted from one.
/// `InvalidTaskId` where that is zero or behind the last task.
pub fn complete_task(tasks: Vec<Task>, task_position: usize) -> (list: Result<Vec<Task>, TaskError>)
    ensures
        match list {
            Ok(left) => 1 <= task_position <= tasks@.len() && left@ == tasks@.remove(
                task_position - 1,
            ),
            Err(e) => !(1 <= task_position <= tasks@.len()) && e == TaskError::InvalidTaskId,
        },
{
    if task_position == 0 || task_position > tasks.len() {
        return Err(TaskError::InvalidTaskId);
    }
    let mut left = tasks;
    left.remove(task_position - 1);
    Ok(left)
}

/// What the list did for a request.
#[derive(Debug)]
pub enum Performed {
    /// The list changed; these tasks are to be written.
    Stored(Vec<Task>),
    /// These tasks are to be shown; there may be none.
    Listed(Vec<Task>),
}

/// Does what `action` asks of the list `tasks` at the time `now`.
pub fn perform(action: Action, tasks: Vec<Task>, now: i64) -> (done: Result<Performed, TaskError>)
    ensures
        match action {
            Action::Add { text } => done matches Ok(Performed::Stored(list)) && list@
                == tasks@.push(Task { text, created_at: now }),
            Action::Done { position } => if 1 <= position <= tasks@.len() {
                done matches Ok(Performed::Stored(list)) && list@ == tasks@.remove(position - 1)
            } else {
                done matches Err(e) && e == TaskError::InvalidTaskId
            },
            Action::List => done matches Ok(Performed::Listed(list)) && list@ == tasks@,
        },
{
    match action {
        Action::Add { text } => Ok(Performed::Stored(add_task(tasks, Task::new_at(text, now)))),
        Action::Done { position } => match complete_task(tasks, position) {
            Ok(list) => Ok(Performed::Stored(list)),
            Err(e) => Err(e),
        },
        Action::List => Ok(Performed::Listed(tasks)),
    }
}

} // verus!
