use todo_manager::status::Status;
use todo_manager::strutil::{contains_substring, join_commas, split_commas, str_eq};
use todo_manager::task::{Record, Task};
use todo_manager::tasklist::{
    filter_by_completion, filter_by_keyword, filter_next_actionable, load_todo_into_tasks,
    mark_blocked_tasks, todo_vec_from_task_vec,
};

fn task(id: Option<&str>, after: &[&str], completed: bool, subject: &str) -> Task {
    Task {
        priority: 0,
        subject: subject.to_string(),
        status: if completed { Status::Complete } else { Status::Todo },
        projects: Vec::new(),
        contexts: Vec::new(),
        id: id.map(|s| s.to_string()),
        after: after.iter().map(|s| s.to_string()).collect(),
        due: None,
        is_blocked: false,
    }
}

fn blocked_flags(tasks: &[Task]) -> Vec<bool> {
    tasks.iter().map(|t| t.is_blocked).collect()
}

#[test]
fn filtering_reresolves_against_the_visible_tasks() {
    let tasks = vec![
        task(Some("a"), &[], false, "A"),
        task(Some("b"), &["a"], false, "B"),
    ];
    let tasks = mark_blocked_tasks(tasks);
    assert_eq!(blocked_flags(&tasks), vec![false, true]);

    // Completed-only: nothing is complete, so the result is empty.
    let completed_only = filter_by_completion(tasks, true);
    assert!(completed_only.is_empty());

    // Todo-only: both remain, and B stays blocked since A is still visible
    // and incomplete.
    let tasks = vec![
        task(Some("a"), &[], false, "A"),
        task(Some("b"), &["a"], false, "B"),
    ];
    let tasks = mark_blocked_tasks(tasks);
    let todo_only = filter_by_completion(tasks, false);
    assert_eq!(todo_only.len(), 2);
    assert_eq!(blocked_flags(&todo_only), vec![false, true]);
}

#[test]
fn filtering_out_a_prerequisite_changes_blocking() {
    // In the full collection B is free: its prerequisite A is complete.
    // Restricted to todo tasks, A disappears and B's reference dangles,
    // so B becomes blocked relative to the visible tasks.
    let tasks = vec![
        task(Some("a"), &[], true, "A"),
        task(Some("b"), &["a"], false, "B"),
    ];
    let tasks = mark_blocked_tasks(tasks);
    assert_eq!(blocked_flags(&tasks), vec![false, false]);
    let todo_only = filter_by_completion(tasks, false);
    assert_eq!(todo_only.len(), 1);
    assert!(todo_only[0].is_blocked);
}

#[test]
fn next_actionable_keeps_unblocked_todo_tasks() {
    let tasks = vec![
        task(Some("a"), &[], false, "A"),
        task(Some("b"), &["a"], false, "B"),
        task(Some("c"), &[], true, "C"),
    ];
    let tasks = mark_blocked_tasks(tasks);
    let next = filter_next_actionable(tasks);
    assert_eq!(next.len(), 1);
    assert_eq!(next[0].subject, "A");
}

#[test]
fn keyword_filter_is_case_sensitive() {
    let tasks = vec![
        task(None, &[], false, "Buy milk"),
        task(None, &[], false, "Call mom"),
    ];
    let hits = filter_by_keyword(tasks, "milk");
    assert_eq!(hits.len(), 1);
    assert_eq!(hits[0].subject, "Buy milk");

    let tasks = vec![task(None, &[], false, "Buy milk")];
    let hits = filter_by_keyword(tasks, "Milk");
    assert!(hits.is_empty());
}

#[test]
fn load_decodes_records_in_order() {
    let records = vec![
        Record {
            finished: false,
            priority: 1,
            subject: "first".to_string(),
            projects: Vec::new(),
            contexts: Vec::new(),
            id_tag: Some("a".to_string()),
            after_tag: None,
            due: None,
        },
        Record {
            finished: true,
            priority: 2,
            subject: "second".to_string(),
            projects: Vec::new(),
            contexts: Vec::new(),
            id_tag: None,
            after_tag: Some("a".to_string()),
            due: None,
        },
    ];
    let tasks = load_todo_into_tasks(records);
    assert_eq!(tasks.len(), 2);
    assert_eq!(tasks[0].subject, "first");
    assert_eq!(tasks[0].id, Some("a".to_string()));
    assert_eq!(tasks[1].status, Status::Complete);
    assert_eq!(tasks[1].after, vec!["a".to_string()]);
}

#[test]
fn save_encodes_tasks_in_order() {
    let tasks = vec![
        task(Some("a"), &[], false, "one"),
        task(None, &["a", "z"], true, "two"),
    ];
    let records = todo_vec_from_task_vec(tasks);
    assert_eq!(records.len(), 2);
    assert_eq!(records[0].id_tag, Some("a".to_string()));
    assert_eq!(records[0].after_tag, None);
    assert!(!records[0].finished);
    assert_eq!(records[1].id_tag, None);
    assert_eq!(records[1].after_tag, Some("a,z".to_string()));
    assert!(records[1].finished);
}

#[test]
fn split_commas_keeps_empty_pieces() {
    assert_eq!(split_commas(""), vec!["".to_string()]);
    assert_eq!(split_commas("a"), vec!["a".to_string()]);
    assert_eq!(
        split_commas("a,,b"),
        vec!["a".to_string(), "".to_string(), "b".to_string()]
    );
    assert_eq!(split_commas(","), vec!["".to_string(), "".to_string()]);
}

#[test]
fn join_commas_inverts_split_for_comma_free_parts() {
    let parts = vec!["a".to_string(), "".to_string(), "bc".to_string()];
    let joined = join_commas(&parts);
    assert_eq!(joined, "a,,bc");
    assert_eq!(split_commas(&joined), parts);
}

#[test]
fn substring_search_is_literal() {
    assert!(contains_substring("Buy milk", "milk"));
    assert!(!contains_substring("Buy milk", "Milk"));
    assert!(contains_substring("anything", ""));
    assert!(!contains_substring("ab", "abc"));
    assert!(contains_substring("abcabd", "abd"));
}

#[test]
fn str_eq_compares_contents() {
    assert!(str_eq("abc", "abc"));
    assert!(!str_eq("abc", "abd"));
    assert!(!str_eq("abc", "ab"));
    assert!(str_eq("", ""));
}
