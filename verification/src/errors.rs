//! Every kind of error an endpoint can answer with, and the HTTP status
//! each one is answered with.
use vstd::prelude::*;

verus! {

/// An endpoint's failure, with the message shown to the user.
#[derive(Debug)]
pub enum AppError {
    NotFound(String),
    Validation(String),
    Database(String),
}

impl AppError {
    /// The HTTP status an error is answered with: 404, 400 or 500.
    pub open spec fn status(self) -> u16 {
        match self {
            AppError::NotFound(_) => 404,
            AppError::Validation(_) => 400,
            AppError::Database(_) => 500,
        }
    }

    /// The message an error carries.
    pub open spec fn text(self) -> Seq<char> {
        match self {
            AppError::NotFound(m) => m@,
            AppError::Validation(m) => m@,
            AppError::Database(m) => m@,
        }
    }

    pub fn status_code(&self) -> (r: u16)
        ensures
            r == self.status(),
    {
        match self {
            AppError::NotFound(_) => 404,
            AppError::Validation(_) => 400,
            AppError::Database(_) => 500,
        }
    }

    pub fn message(&self) -> (r: &String)
        ensures
            r@ == self.text(),
    {
        match self {
            AppError::NotFound(m) => m,
            AppError::Validation(m) => m,
            AppError::Database(m) => m,
        }
    }
}

} // verus!
