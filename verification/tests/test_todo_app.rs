use idp::todo_app::cli::Action;
use idp::todo_app::tasks::{add_task, complete_task, perform, Performed, Task, TaskError};

fn task(text: &str) -> Task {
    Task::new_at(text.to_string(), 1_700_000_000)
}

fn texts(tasks: &[Task]) -> Vec<String> {
    tasks.iter().map(|t| t.text.clone()).collect()
}

fn three() -> Vec<Task> {
    vec![task("a"), task("b"), task("c")]
}

#[test]
fn task_keeps_what_it_was_made_of() {
    let t = Task::new_at("write".to_string(), -3);
    assert_eq!(t.text, "write");
    assert_eq!(t.created_at, -3);
    let before = std::time::SystemTime::now()
        .duration_since(std::time::UNIX_EPOCH)
        .unwrap()
        .as_secs() as i64;
    let t = Task::new("read".to_string());
    assert_eq!(t.text, "read");
    assert!(t.created_at >= before && t.created_at <= before + 5);
}

#[test]
fn add_task_appends() {
    let list = add_task(three(), task("d"));
    assert_eq!(texts(&list), ["a", "b", "c", "d"]);
}

#[test]
fn complete_task_counts_from_one() {
    assert_eq!(texts(&complete_task(three(), 1).unwrap()), ["b", "c"]);
    assert_eq!(texts(&complete_task(three(), 3).unwrap()), ["a", "b"]);
    assert_eq!(complete_task(three(), 0).unwrap_err(), TaskError::InvalidTaskId);
    assert_eq!(complete_task(three(), 4).unwrap_err(), TaskError::InvalidTaskId);
    assert_eq!(complete_task(three(), usize::MAX).unwrap_err(), TaskError::InvalidTaskId);
    assert_eq!(complete_task(Vec::new(), 1).unwrap_err(), TaskError::InvalidTaskId);
    assert_eq!(TaskError::InvalidTaskId.message(), "Invalid Task ID");
}

#[test]
fn perform_on_the_task_list() {
    match perform(Action::Add { text: "d".to_string() }, three(), 7).unwrap() {
        Performed::Stored(list) => {
            assert_eq!(texts(&list), ["a", "b", "c", "d"]);
            assert_eq!(list[3].created_at, 7);
        }
        other => panic!("{:?}", other),
    }
    match perform(Action::Done { position: 2 }, three(), 7).unwrap() {
        Performed::Stored(list) => assert_eq!(texts(&list), ["a", "c"]),
        other => panic!("{:?}", other),
    }
    assert_eq!(
        perform(Action::Done { position: 9 }, three(), 7).unwrap_err(),
        TaskError::InvalidTaskId
    );
    match perform(Action::List, three(), 7).unwrap() {
        Performed::Listed(list) => assert_eq!(texts(&list), ["a", "b", "c"]),
        other => panic!("{:?}", other),
    }
    match perform(Action::List, Vec::new(), 7).unwrap() {
        Performed::Listed(list) => assert!(list.is_empty()),
        other => panic!("{:?}", other),
    }
}
