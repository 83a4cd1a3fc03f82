use task_tracker::models::{Task, TaskPriority, TaskStatus};

#[test]
fn valid_status_strings_parse_correctly() {
    assert_eq!(TaskStatus::from_str("Pending"), Some(TaskStatus::Pending));
    assert_eq!(TaskStatus::from_str("Completed"), Some(TaskStatus::Completed));
}

#[test]
fn invalid_status_string_returns_none() {
    assert_eq!(TaskStatus::from_str("Cancelled"), None);
}

#[test]
fn valid_priority_strings_parse_correctly() {
    assert_eq!(TaskPriority::from_str("Low"), Some(TaskPriority::Low));
    assert_eq!(TaskPriority::from_str("High"), Some(TaskPriority::High));
}

#[test]
fn invalid_priority_string_returns_none() {
    assert_eq!(TaskPriority::from_str("Urgent"), None);
}

#[test]
fn task_transitions_from_pending_to_completed() {
    let mut task = Task {
        id: 1,
        title: "Finish Rust project".to_string(),
        description: "Build the task tracker".to_string(),
        subject: "Rust".to_string(),
        status: "Pending".to_string(),
        priority: "High".to_string(),
        created_at: "2026-01-01 09:00".to_string(),
        due_at: "2026-01-05T23:59".to_string(),
        completed_at: None,
    };

    assert!(!task.is_completed());

    task.status = "Completed".to_string();
    task.completed_at = Some("2026-01-02 08:00".to_string());

    assert!(task.is_completed());
    assert!(task.completed_at.is_some());
}

#[test]
fn status_text_round_trips() {
    for s in [TaskStatus::Pending, TaskStatus::Completed] {
        assert_eq!(TaskStatus::from_str(s.as_str()), Some(s));
    }
    assert_eq!(TaskStatus::Pending.as_str(), "Pending");
    assert_eq!(TaskStatus::Completed.as_str(), "Completed");
}

#[test]
fn priority_text_round_trips() {
    for p in [TaskPriority::Low, TaskPriority::Medium, TaskPriority::High] {
        assert_eq!(TaskPriority::from_str(p.as_str()), Some(p));
    }
    assert_eq!(TaskPriority::Medium.as_str(), "Medium");
    assert_eq!(TaskPriority::from_str("Medium"), Some(TaskPriority::Medium));
}

#[test]
fn parsing_is_exact_about_case_and_spaces() {
    assert_eq!(TaskStatus::from_str("pending"), None);
    assert_eq!(TaskStatus::from_str(" Pending"), None);
    assert_eq!(TaskPriority::from_str("high"), None);
    assert_eq!(TaskPriority::from_str(""), None);
}

#[test]
fn status_other_than_completed_is_not_completed() {
    let task = Task {
        id: 2,
        title: "t".to_string(),
        description: "d".to_string(),
        subject: "s".to_string(),
        status: "completed".to_string(),
        priority: "Low".to_string(),
        created_at: "2026-01-01 09:00".to_string(),
        due_at: "2026-01-05T23:59".to_string(),
        completed_at: Some("2026-01-02 08:00".to_string()),
    };
    assert!(!task.is_completed());
}
