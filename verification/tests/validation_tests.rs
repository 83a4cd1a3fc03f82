use task_tracker::models::{NewTask, TaskPriority};
use task_tracker::validation::{validate_new_task, ValidationError};

fn sample_task(title: &str, description: &str, subject: &str, priority: &str, due_at: &str) -> NewTask {
    NewTask {
        title: title.to_string(),
        description: description.to_string(),
        subject: subject.to_string(),
        priority: priority.to_string(),
        due_at: due_at.to_string(),
    }
}

#[test]
fn valid_task_passes_validation() {
    let task = sample_task("Finish Rust project", "Build the tracker", "Rust", "High", "2026-08-20T14:30");
    assert!(validate_new_task(&task).is_ok());
}

#[test]
fn empty_title_fails_validation() {
    let task = sample_task("", "desc", "Rust", "Low", "2026-08-20T14:30");
    assert_eq!(validate_new_task(&task), Err(ValidationError::EmptyTitle));
}

#[test]
fn empty_description_fails_validation() {
    let task = sample_task("Title", "   ", "Rust", "Low", "2026-08-20T14:30");
    assert_eq!(validate_new_task(&task), Err(ValidationError::EmptyDescription));
}

#[test]
fn empty_subject_fails_validation() {
    let task = sample_task("Title", "desc", "", "Low", "2026-08-20T14:30");
    assert_eq!(validate_new_task(&task), Err(ValidationError::EmptySubject));
}

#[test]
fn empty_due_date_fails_validation() {
    let task = sample_task("Title", "desc", "Rust", "Low", "");
    assert_eq!(validate_new_task(&task), Err(ValidationError::EmptyDueDate));
}

#[test]
fn invalid_priority_fails_validation() {
    let task = sample_task("Title", "desc", "Rust", "Urgent", "2026-08-20T14:30");
    assert_eq!(validate_new_task(&task), Err(ValidationError::InvalidPriority));
}

#[test]
fn accepted_form_yields_the_named_priority() {
    let task = sample_task("Title", "desc", "Rust", "Medium", "2026-08-20T14:30");
    assert_eq!(validate_new_task(&task), Ok(TaskPriority::Medium));
}

#[test]
fn priority_is_trimmed_before_it_is_read() {
    let task = sample_task("Title", "desc", "Rust", "  High\t", "2026-08-20T14:30");
    assert_eq!(validate_new_task(&task), Ok(TaskPriority::High));
}

#[test]
fn priority_is_read_exactly_after_trimming() {
    let task = sample_task("Title", "desc", "Rust", "high", "2026-08-20T14:30");
    assert_eq!(validate_new_task(&task), Err(ValidationError::InvalidPriority));
}

#[test]
fn unicode_white_space_counts_as_empty() {
    let task = sample_task("\u{3000}\t\n\u{a0}", "desc", "Rust", "Low", "2026-08-20T14:30");
    assert_eq!(validate_new_task(&task), Err(ValidationError::EmptyTitle));
}

#[test]
fn first_blank_field_is_reported() {
    let task = sample_task("Title", " ", "", "Urgent", "");
    assert_eq!(validate_new_task(&task), Err(ValidationError::EmptyDescription));
}

#[test]
fn error_messages_are_exact() {
    assert_eq!(ValidationError::EmptyTitle.message(), "Title cannot be empty.");
    assert_eq!(ValidationError::EmptyDescription.message(), "Description cannot be empty.");
    assert_eq!(ValidationError::EmptySubject.message(), "Subject cannot be empty.");
    assert_eq!(ValidationError::EmptyDueDate.message(), "Due date and time cannot be empty.");
    assert_eq!(ValidationError::InvalidPriority.message(), "Priority must be Low, Medium, or High.");
}
