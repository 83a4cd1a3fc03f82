use task_tracker::errors::AppError;
use task_tracker::handlers::{
    deletion_outcome, not_found, plan_completion, prepare_new_task, reloaded_after_insert,
    reloaded_after_update, search_hit, task_or_not_found, CompletionStep,
};
use task_tracker::models::{NewTask, SubjectCounts, Task, TaskPriority};

fn task(id: i64, status: &str) -> Task {
    Task {
        id,
        title: "Finish Rust project".to_string(),
        description: "Build the tracker".to_string(),
        subject: "Rust".to_string(),
        status: status.to_string(),
        priority: "High".to_string(),
        created_at: "2026-01-01 09:00".to_string(),
        due_at: "2026-01-10T23:59".to_string(),
        completed_at: None,
    }
}

fn form(title: &str, priority: &str) -> NewTask {
    NewTask {
        title: title.to_string(),
        description: "  Build the tracker ".to_string(),
        subject: "\tRust".to_string(),
        priority: priority.to_string(),
        due_at: " 2026-08-20T14:30 ".to_string(),
    }
}

#[test]
fn error_status_codes() {
    assert_eq!(AppError::NotFound("x".to_string()).status_code(), 404);
    assert_eq!(AppError::Validation("x".to_string()).status_code(), 400);
    assert_eq!(AppError::Database("x".to_string()).status_code(), 500);
    assert_eq!(AppError::Database("disk".to_string()).message(), "disk");
}

#[test]
fn not_found_message_names_the_id() {
    assert_eq!(not_found(42).message(), "Task 42 was not found.");
    assert_eq!(not_found(-7).message(), "Task -7 was not found.");
    assert_eq!(not_found(0).status_code(), 404);
}

#[test]
fn lookup_of_missing_task_is_not_found() {
    match task_or_not_found(None, 5) {
        Err(AppError::NotFound(m)) => assert_eq!(m, "Task 5 was not found."),
        other => panic!("unexpected {:?}", other),
    }
    let found = task_or_not_found(Some(task(5, "Pending")), 5).unwrap();
    assert_eq!(found.id, 5);
}

#[test]
fn completing_a_completed_task_returns_it_unchanged() {
    let mut t = task(3, "Completed");
    t.completed_at = Some("2026-01-05 09:00".to_string());
    match plan_completion(Some(t), 3) {
        Ok(CompletionStep::AlreadyCompleted(t)) => {
            assert_eq!(t.id, 3);
            assert_eq!(t.completed_at.as_deref(), Some("2026-01-05 09:00"));
        }
        other => panic!("unexpected {:?}", other),
    }
}

#[test]
fn completing_a_pending_task_marks_it() {
    assert!(matches!(plan_completion(Some(task(4, "Pending")), 4), Ok(CompletionStep::MarkCompleted)));
    match plan_completion(None, 9) {
        Err(AppError::NotFound(m)) => assert_eq!(m, "Task 9 was not found."),
        other => panic!("unexpected {:?}", other),
    }
}

#[test]
fn reloads_that_find_nothing_are_database_errors() {
    match reloaded_after_insert(None) {
        Err(AppError::Database(m)) => assert_eq!(m, "Task was saved but could not be reloaded."),
        other => panic!("unexpected {:?}", other),
    }
    match reloaded_after_update(None) {
        Err(AppError::Database(m)) => assert_eq!(m, "Task disappeared after update."),
        other => panic!("unexpected {:?}", other),
    }
    assert_eq!(reloaded_after_insert(Some(task(1, "Pending"))).unwrap().id, 1);
    assert_eq!(reloaded_after_update(Some(task(2, "Completed"))).unwrap().id, 2);
}

#[test]
fn deleting_nothing_is_not_found() {
    match deletion_outcome(0, 12) {
        Err(AppError::NotFound(m)) => assert_eq!(m, "Task 12 was not found."),
        other => panic!("unexpected {:?}", other),
    }
    assert!(deletion_outcome(1, 12).is_ok());
}

#[test]
fn accepted_form_is_trimmed() {
    let draft = prepare_new_task(&form("  Finish Rust project  ", " Low ")).unwrap();
    assert_eq!(draft.title, "Finish Rust project");
    assert_eq!(draft.description, "Build the tracker");
    assert_eq!(draft.subject, "Rust");
    assert_eq!(draft.priority, TaskPriority::Low);
    assert_eq!(draft.due_at, "2026-08-20T14:30");
}

#[test]
fn refused_form_is_a_validation_error() {
    match prepare_new_task(&form("   ", "Low")) {
        Err(e) => {
            assert_eq!(e.status_code(), 400);
            assert_eq!(e.message(), "Title cannot be empty.");
        }
        Ok(_) => panic!("blank title accepted"),
    }
    match prepare_new_task(&form("Title", "Urgent")) {
        Err(AppError::Validation(m)) => assert_eq!(m, "Priority must be Low, Medium, or High."),
        other => panic!("unexpected {:?}", other),
    }
}

#[test]
fn search_hit_looks_for_the_term() {
    assert!(search_hit("finish rust project", "rust", "proj"));
    assert!(search_hit("read chapter 4", "rust", "ru"));
    assert!(!search_hit("read chapter 4", "rust", "db"));
    assert!(search_hit("anything", "else", ""));
}

#[test]
fn subject_counts_record_and_get() {
    let mut counts = SubjectCounts::new();
    assert_eq!(counts.get("Rust"), None);
    counts.record("Rust");
    counts.record("Math");
    counts.record("Rust");
    assert_eq!(counts.get("Rust"), Some(&2));
    assert_eq!(counts.get("Math"), Some(&1));
    assert_eq!(counts.get("rust"), None);
    assert_eq!(counts.len(), 2);
    for i in 0..counts.len() {
        let (name, n) = counts.entry(i);
        assert_eq!(counts.get(name), Some(&n));
    }
}
