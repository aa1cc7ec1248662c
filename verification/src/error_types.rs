//! Typed errors reported by the record diff and the task-set state machine.
use vstd::prelude::*;

verus! {

/// Two records with different keys were handed to the diff: the comparison is
/// refused, never coerced.
#[derive(Debug, Clone, Copy, PartialEq, Eq, Structural)]
pub struct DifferentKeyComp;

impl DifferentKeyComp {
    /// A human-readable description of the error.
    pub fn message(&self) -> (r: &'static str)
        ensures
            r@ == "Comparing two records with different keys"@,
    {
        "Comparing two records with different keys"
    }
}

/// An answer was checked, or the current task inspected, before any task had
/// been selected.
#[derive(Debug, Clone, Copy, PartialEq, Eq, Structural)]
pub struct EmptyAnswerStackCheck;

impl EmptyAnswerStackCheck {
    /// A human-readable description of the error.
    pub fn message(&self) -> (r: &'static str)
        ensures
            r@ == "Checking answer before getting any tasks"@,
    {
        "Checking answer before getting any tasks"
    }
}

/// A field name was given that the record does not hold.
#[derive(Debug, Clone, Copy, PartialEq, Eq, Structural)]
pub struct UnknownField;

impl UnknownField {
    /// A human-readable description of the error.
    pub fn message(&self) -> (r: &'static str)
        ensures
            r@ == "Replacing a field the record does not have"@,
    {
        "Replacing a field the record does not have"
    }
}

/// A task index at or past the number of loaded tasks.
#[derive(Debug, Clone, Copy, PartialEq, Eq, Structural)]
pub struct IndexOutOfRange;

impl IndexOutOfRange {
    /// A human-readable description of the error.
    pub fn message(&self) -> (r: &'static str)
        ensures
            r@ == "Task index is out of range"@,
    {
        "Task index is out of range"
    }
}

/// What answer checking can report: no task has been selected yet, or the
/// submitted record's key does not match the current task's.
#[derive(Debug, Clone, Copy, PartialEq, Eq, Structural)]
pub enum CheckError {
    NoActiveTask,
    KeyMismatch,
}

impl CheckError {
    /// A human-readable description of the error.
    pub fn message(&self) -> (r: &'static str)
        ensures
            *self is NoActiveTask ==> r@ == "Checking answer before getting any tasks"@,
            *self is KeyMismatch ==> r@ == "Comparing two records with different keys"@,
    {
        match self {
            CheckError::NoActiveTask => "Checking answer before getting any tasks",
            CheckError::KeyMismatch => "Comparing two records with different keys",
        }
    }
}

} // verus!
