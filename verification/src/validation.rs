//! Checking the "Add Task" form before anything is stored.
use vstd::prelude::*;

use crate::models::{NewTask, TaskPriority};
use crate::text::{is_blank, trim_str, trimmed};

verus! {

/// Every way that submitting a new task can fail.
#[derive(Debug, PartialEq, Eq, Structural)]
pub enum ValidationError {
    EmptyTitle,
    EmptyDescription,
    EmptySubject,
    EmptyDueDate,
    InvalidPriority,
}

impl ValidationError {
    /// The message shown to the user.
    pub open spec fn text(self) -> Seq<char> {
        match self {
            ValidationError::EmptyTitle => "Title cannot be empty."@,
            ValidationError::EmptyDescription => "Description cannot be empty."@,
            ValidationError::EmptySubject => "Subject cannot be empty."@,
            ValidationError::EmptyDueDate => "Due date and time cannot be empty."@,
            ValidationError::InvalidPriority => "Priority must be Low, Medium, or High."@,
        }
    }

    pub fn message(&self) -> (r: &'static str)
        ensures
            r@ == self.text(),
    {
        match self {
            ValidationError::EmptyTitle => "Title cannot be empty.",
            ValidationError::EmptyDescription => "Description cannot be empty.",
            ValidationError::EmptySubject => "Subject cannot be empty.",
            ValidationError::EmptyDueDate => "Due date and time cannot be empty.",
            ValidationError::InvalidPriority => "Priority must be Low, Medium, or High.",
        }
    }
}

/// The verdict on a form: the first blank field, in the order title,
/// description, subject, due date, is reported; otherwise the trimmed
/// priority must name one of the three priorities.
pub open spec fn validation_outcome(task: NewTask) -> Result<TaskPriority, ValidationError> {
    if is_blank(task.title@) {
        Err(ValidationError::EmptyTitle)
    } else if is_blank(task.description@) {
        Err(ValidationError::EmptyDescription)
    } else if is_blank(task.subject@) {
        Err(ValidationError::EmptySubject)
    } else if is_blank(task.due_at@) {
        Err(ValidationError::EmptyDueDate)
    } else {
        match TaskPriority::parse(trimmed(task.priority@)) {
            Some(p) => Ok(p),
            None => Err(ValidationError::InvalidPriority),
        }
    }
}

pub fn validate_new_task(task: &NewTask) -> (r: Result<TaskPriority, ValidationError>)
    ensures
        r == validation_outcome(*task),
{
    if trim_str(task.title.as_str()).is_empty() {
        return Err(ValidationError::EmptyTitle);
    }
    if trim_str(task.description.as_str()).is_empty() {
        return Err(ValidationError::EmptyDescription);
    }
    if trim_str(task.subject.as_str()).is_empty() {
        return Err(ValidationError::EmptySubject);
    }
    if trim_str(task.due_at.as_str()).is_empty() {
        return Err(ValidationError::EmptyDueDate);
    }
    match TaskPriority::from_str(trim_str(task.priority.as_str())) {
        Some(p) => Ok(p),
        None => Err(ValidationError::InvalidPriority),
    }
}

/// A form passes only when every text field holds more than white space,
/// and the priority it yields is the one its trimmed priority text names.
pub proof fn lemma_accepted_form(task: NewTask, p: TaskPriority)
    requires
        validation_outcome(task) == Ok::<TaskPriority, ValidationError>(p),
    ensures
        !is_blank(task.title@),
        !is_blank(task.description@),
        !is_blank(task.subject@),
        !is_blank(task.due_at@),
        p.text() == trimmed(task.priority@),
{
}

/// A form with no blank title, description, subject or due date is
/// accepted with the priority its trimmed priority text names ("Low",
/// "Medium" or "High"), whatever else its fields hold; any other trimmed
/// priority text is refused as an invalid priority.
pub proof fn lemma_complete_form_accepted(task: NewTask)
    requires
        !is_blank(task.title@),
        !is_blank(task.description@),
        !is_blank(task.subject@),
        !is_blank(task.due_at@),
    ensures
        trimmed(task.priority@) == "Low"@ ==> validation_outcome(task) == Ok::<
            TaskPriority,
            ValidationError,
        >(TaskPriority::Low),
        trimmed(task.priority@) == "Medium"@ ==> validation_outcome(task) == Ok::<
            TaskPriority,
            ValidationError,
        >(TaskPriority::Medium),
        trimmed(task.priority@) == "High"@ ==> validation_outcome(task) == Ok::<
            TaskPriority,
            ValidationError,
        >(TaskPriority::High),
        trimmed(task.priority@) != "Low"@ && trimmed(task.priority@) != "Medium"@ && trimmed(
            task.priority@,
        ) != "High"@ ==> validation_outcome(task) == Err::<TaskPriority, ValidationError>(
            ValidationError::InvalidPriority,
        ),
{
    reveal_strlit("Low");
    reveal_strlit("Medium");
    reveal_strlit("High");
    assert("Low"@[0] != "High"@[0]);
    assert("Low"@.len() != "Medium"@.len());
    assert("High"@.len() != "Medium"@.len());
}

/// Each refusal names a blank field only when that field is blank and all
/// fields checked before it are not.
pub proof fn lemma_refusal_reasons(task: NewTask)
    ensures
        validation_outcome(task) == Err::<TaskPriority, ValidationError>(
            ValidationError::EmptyTitle,
        ) <==> is_blank(task.title@),
        validation_outcome(task) == Err::<TaskPriority, ValidationError>(
            ValidationError::EmptyDescription,
        ) <==> !is_blank(task.title@) && is_blank(task.description@),
        validation_outcome(task) == Err::<TaskPriority, ValidationError>(
            ValidationError::EmptySubject,
        ) <==> !is_blank(task.title@) && !is_blank(task.description@) && is_blank(task.subject@),
        validation_outcome(task) == Err::<TaskPriority, ValidationError>(
            ValidationError::EmptyDueDate,
        ) <==> !is_blank(task.title@) && !is_blank(task.description@) && !is_blank(
            task.subject@,
        ) && is_blank(task.due_at@),
{
}

} // verus!
