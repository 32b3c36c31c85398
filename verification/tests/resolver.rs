use todo_manager::status::Status;
use todo_manager::task::Task;
use todo_manager::tasklist::{
    clear_all, complete_by_id, find_task_by_id, is_task_complete_by_id, mark_blocked_tasks,
};

fn task(id: Option<&str>, after: &[&str], completed: bool) -> Task {
    Task {
        priority: 0,
        subject: String::new(),
        status: if completed { Status::Complete } else { Status::Todo },
        projects: Vec::new(),
        contexts: Vec::new(),
        id: id.map(|s| s.to_string()),
        after: after.iter().map(|s| s.to_string()).collect(),
        due: None,
        is_blocked: false,
    }
}

fn blocked_flags(tasks: &[Task]) -> Vec<bool> {
    tasks.iter().map(|t| t.is_blocked).collect()
}

#[test]
fn incomplete_prerequisite_blocks() {
    let tasks = vec![task(Some("a"), &[], false), task(Some("b"), &["a"], false)];
    let tasks = mark_blocked_tasks(tasks);
    assert_eq!(blocked_flags(&tasks), vec![false, true]);
}

#[test]
fn complete_prerequisite_does_not_block() {
    let tasks = vec![task(Some("a"), &[], true), task(Some("b"), &["a"], false)];
    let tasks = mark_blocked_tasks(tasks);
    assert_eq!(blocked_flags(&tasks), vec![false, false]);
}

#[test]
fn blocking_is_not_transitive() {
    // Y is blocked by the incomplete X, yet Z is free: Z's prerequisite Y
    // is complete, and only incompletion propagates.
    let tasks = vec![
        task(Some("x"), &[], false),
        task(Some("y"), &["x"], true),
        task(Some("z"), &["y"], false),
    ];
    let tasks = mark_blocked_tasks(tasks);
    assert_eq!(blocked_flags(&tasks), vec![false, true, false]);
}

#[test]
fn dangling_prerequisite_always_blocks() {
    let tasks = vec![task(Some("a"), &["ghost"], false)];
    let tasks = mark_blocked_tasks(tasks);
    assert_eq!(blocked_flags(&tasks), vec![true]);
}

#[test]
fn self_reference_blocks_when_incomplete() {
    let tasks = vec![task(Some("s"), &["s"], false)];
    let tasks = mark_blocked_tasks(tasks);
    assert_eq!(blocked_flags(&tasks), vec![true]);
}

#[test]
fn self_reference_does_not_block_when_complete() {
    let tasks = vec![task(Some("s"), &["s"], true)];
    let tasks = mark_blocked_tasks(tasks);
    assert_eq!(blocked_flags(&tasks), vec![false]);
}

#[test]
fn resolver_is_idempotent() {
    let tasks = vec![
        task(Some("a"), &[], false),
        task(Some("b"), &["a", "missing"], false),
        task(Some("c"), &["b"], true),
        task(None, &["c"], false),
    ];
    let once = mark_blocked_tasks(tasks);
    let first = blocked_flags(&once);
    let twice = mark_blocked_tasks(once);
    assert_eq!(blocked_flags(&twice), first);
}

#[test]
fn resolver_ignores_prior_blocked_flags() {
    let mut stale = task(Some("a"), &[], false);
    stale.is_blocked = true;
    let tasks = mark_blocked_tasks(vec![stale]);
    assert_eq!(blocked_flags(&tasks), vec![false]);
}

#[test]
fn find_task_by_id_returns_first_match() {
    let tasks = vec![
        task(Some("a"), &[], false),
        task(Some("dup"), &[], false),
        task(Some("dup"), &[], true),
    ];
    let found = find_task_by_id("dup", &tasks).expect("task should be found");
    assert_eq!(found.status, Status::Todo);
    assert!(find_task_by_id("nope", &tasks).is_none());
}

#[test]
fn is_task_complete_by_id_treats_dangling_as_incomplete() {
    let tasks = vec![task(Some("a"), &[], true)];
    assert!(is_task_complete_by_id("a", &tasks));
    assert!(!is_task_complete_by_id("missing", &tasks));
}

#[test]
fn complete_by_id_marks_the_match_and_reresolves() {
    let tasks = vec![task(Some("a"), &[], false), task(Some("b"), &["a"], false)];
    let tasks = complete_by_id(tasks, "a");
    assert_eq!(tasks[0].status, Status::Complete);
    assert_eq!(tasks[1].status, Status::Todo);
    assert_eq!(blocked_flags(&tasks), vec![false, false]);
}

#[test]
fn complete_by_id_without_match_is_a_noop() {
    let tasks = vec![task(Some("a"), &[], false), task(Some("b"), &["a"], false)];
    let tasks = complete_by_id(tasks, "zz");
    assert_eq!(tasks[0].status, Status::Todo);
    assert_eq!(tasks[1].status, Status::Todo);
    assert_eq!(blocked_flags(&tasks), vec![false, true]);
}

#[test]
fn clear_all_resets_completion_and_reresolves() {
    let tasks = vec![task(Some("a"), &[], true), task(Some("b"), &["a"], true)];
    let tasks = clear_all(tasks);
    assert_eq!(tasks[0].status, Status::Todo);
    assert_eq!(tasks[1].status, Status::Todo);
    assert_eq!(blocked_flags(&tasks), vec![false, true]);
}
