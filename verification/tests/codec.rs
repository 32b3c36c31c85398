use todo_manager::date::Date;
use todo_manager::status::Status;
use todo_manager::task::{Record, Task};

fn strings(items: &[&str]) -> Vec<String> {
    items.iter().map(|s| s.to_string()).collect()
}

fn sample_task() -> Task {
    Task {
        priority: 2,
        subject: "Buy milk".to_string(),
        status: Status::Todo,
        projects: strings(&["home", "errands"]),
        contexts: strings(&["shop"]),
        id: Some("t1".to_string()),
        after: strings(&["a", "b"]),
        due: Some(Date { year: 2024, month: 1, day: 15 }),
        is_blocked: true,
    }
}

#[test]
fn round_trip_reproduces_every_field_but_blocked() {
    let t = sample_task();
    let back = Task::from_record(t.to_todo());
    assert_eq!(back.priority, 2);
    assert_eq!(back.subject, "Buy milk");
    assert_eq!(back.status, Status::Todo);
    assert_eq!(back.projects, strings(&["home", "errands"]));
    assert_eq!(back.contexts, strings(&["shop"]));
    assert_eq!(back.id, Some("t1".to_string()));
    assert_eq!(back.after, strings(&["a", "b"]));
    assert_eq!(back.due, Some(Date { year: 2024, month: 1, day: 15 }));
    assert!(!back.is_blocked);
}

#[test]
fn round_trip_complete_task() {
    let mut t = sample_task();
    t.status = Status::Complete;
    t.after = Vec::new();
    t.id = None;
    let back = Task::from_record(t.to_todo());
    assert_eq!(back.status, Status::Complete);
    assert_eq!(back.id, None);
    assert_eq!(back.after, Vec::<String>::new());
}

#[test]
fn encode_writes_tags_only_when_present() {
    let mut t = sample_task();
    let rec = t.to_todo();
    assert_eq!(rec.id_tag, Some("t1".to_string()));
    assert_eq!(rec.after_tag, Some("a,b".to_string()));
    assert!(!rec.finished);

    t.id = None;
    t.after = Vec::new();
    t.status = Status::Complete;
    let rec = t.to_todo();
    assert_eq!(rec.id_tag, None);
    assert_eq!(rec.after_tag, None);
    assert!(rec.finished);
}

#[test]
fn decode_splits_after_tag_on_commas() {
    let rec = Record {
        finished: false,
        priority: 0,
        subject: "x".to_string(),
        projects: Vec::new(),
        contexts: Vec::new(),
        id_tag: None,
        after_tag: Some("x,y,z".to_string()),
        due: None,
    };
    let t = Task::from_record(rec);
    assert_eq!(t.after, strings(&["x", "y", "z"]));
}

#[test]
fn decode_missing_after_tag_gives_empty_list() {
    let rec = Record {
        finished: true,
        priority: 5,
        subject: "done".to_string(),
        projects: Vec::new(),
        contexts: Vec::new(),
        id_tag: Some("k".to_string()),
        after_tag: None,
        due: None,
    };
    let t = Task::from_record(rec);
    assert_eq!(t.after, Vec::<String>::new());
    assert_eq!(t.status, Status::Complete);
    assert_eq!(t.id, Some("k".to_string()));
    assert!(!t.is_blocked);
}

#[test]
fn after_csv_uses_sentinel_when_empty() {
    let mut t = sample_task();
    assert_eq!(t.get_after_as_csv(), "a,b");
    t.after = Vec::new();
    assert_eq!(t.get_after_as_csv(), "-");
}

#[test]
fn get_id_returns_id_or_empty() {
    let mut t = sample_task();
    assert_eq!(t.get_id(), "t1");
    t.id = None;
    assert_eq!(t.get_id(), "");
}

#[test]
fn is_id_compares_against_the_identifier() {
    let mut t = sample_task();
    assert!(t.is_id("t1".to_string()));
    assert!(!t.is_id("t2".to_string()));
    t.id = None;
    assert!(!t.is_id("t1".to_string()));
}

#[test]
fn is_task_due_compares_against_today() {
    let mut t = sample_task();
    assert!(t.is_task_due(&Date { year: 2024, month: 1, day: 15 }));
    assert!(t.is_task_due(&Date { year: 2024, month: 2, day: 1 }));
    assert!(t.is_task_due(&Date { year: 2025, month: 1, day: 1 }));
    assert!(!t.is_task_due(&Date { year: 2024, month: 1, day: 14 }));
    assert!(!t.is_task_due(&Date { year: 2023, month: 12, day: 31 }));
    t.due = None;
    assert!(!t.is_task_due(&Date { year: 2024, month: 1, day: 15 }));
}

#[test]
fn status_markers() {
    assert_eq!(Status::Complete.to_string(), "(\u{2714})");
    assert_eq!(Status::Todo.to_string(), "( )");
}

#[test]
fn is_complete_reads_the_status() {
    let mut t = sample_task();
    assert!(!t.is_complete());
    t.status = Status::Complete;
    assert!(t.is_complete());
}
