//! The typed failures of the store's operations.

use vstd::prelude::*;
use vstd::string::StringExecFns;
use crate::num::digits_of;
use crate::num::fmt_nat;

verus! {

/// What a store operation can fail with. Persistence failures belong to
/// the surrounding program, which owns the file.
#[derive(Debug, PartialEq, Eq)]
pub enum TodoError {
    /// The given due date text does not parse under the date format named
    /// inside, or denotes a year outside 0..=9999.
    InvalidDueDate(String),
    /// No task with the given id exists.
    TaskNotFound(usize),
}

impl TodoError {
    /// The user-facing wording of this failure.
    pub fn message(&self) -> (r: String)
        ensures
            self matches TodoError::InvalidDueDate(f) ==> r@
                == "Invalid due date. Date should be in this format: "@ + f@,
            self matches TodoError::TaskNotFound(id) ==> r@ == "task with id "@ + digits_of(
                id as nat,
            ) + " not found"@,
    {
        match self {
            TodoError::InvalidDueDate(f) => {
                let mut s = String::from_str("Invalid due date. Date should be in this format: ");
                s.append(f.as_str());
                s
            },
            TodoError::TaskNotFound(id) => {
                let mut s = String::from_str("task with id ");
                let n = fmt_nat(*id);
                s.append(n.as_str());
                s.append(" not found");
                s
            },
        }
    }
}

} // verus!
