//! Task tracking: the records, their validation, search, history and
//! statistics, and the decisions the HTTP layer takes around storage.
use vstd::prelude::*;

pub mod text;
pub mod models;
pub mod validation;
pub mod errors;
pub mod handlers;

verus! {

} // verus!
