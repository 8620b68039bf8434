//! Entity records of the gradebook and the error type its operations report.

use vstd::prelude::*;

verus! {

/// A student: surrogate identity, two required name parts, optional email.
#[derive(Debug, Clone, PartialEq)]
pub struct Student {
    pub id: i64,
    pub first_name: String,
    pub last_name: String,
    pub email: Option<String>,
}

/// A class: surrogate identity, required name, optional description.
#[derive(Debug, Clone, PartialEq)]
pub struct Class {
    pub id: i64,
    pub class_name: String,
    pub description: Option<String>,
}

/// An enrollment: the (student, class) join pair, unique per pair.
#[derive(Debug, Clone, Copy, PartialEq, Eq, Structural)]
pub struct StudentClass {
    pub student_id: i64,
    pub class_id: i64,
}

/// An assignment of a class.  `maximum_score` is a positive fixed-point
/// value in hundredths of a point; `due_date` is an optional timestamp in
/// seconds since the Unix epoch.
#[derive(Debug, Clone, PartialEq)]
pub struct Assignment {
    pub id: i64,
    pub class_id: i64,
    pub assignment_name: String,
    pub assignment_type: String,
    pub maximum_score: u32,
    pub due_date: Option<i64>,
}

/// A recorded score: the (student, assignment) pair, unique per pair, and a
/// fixed-point score in hundredths of a point, at most the assignment's
/// maximum.
#[derive(Debug, Clone, Copy, PartialEq, Eq, Structural)]
pub struct Grade {
    pub student_id: i64,
    pub assignment_id: i64,
    pub score: u32,
}

/// The letter grades of the fixed threshold table.
#[derive(Debug, Clone, Copy, PartialEq, Eq, Structural)]
pub enum Letter {
    A,
    B,
    C,
    D,
    F,
}

/// The derived overall grade of a (student, class) pair: a percentage in
/// hundredths of a percent, in [0, 10000], and its letter grade.  Derived
/// only: no operation writes one directly.
#[derive(Debug, Clone, Copy, PartialEq, Eq, Structural)]
pub struct OverallGrade {
    pub student_id: i64,
    pub class_id: i64,
    pub percentage: u32,
    pub letter_grade: Letter,
}

/// The named failure kinds every operation reports.
#[derive(Debug, Clone, Copy, PartialEq, Eq, Structural)]
pub enum ErrorKind {
    /// A referenced identity or key is absent.
    NotFound,
    /// A uniqueness constraint would be violated.
    NotUnique,
    /// A required field is empty, a maximum is not positive, or a score
    /// exceeds its assignment's maximum.
    InvalidInput,
    /// A deletion is blocked by records that reference the target.
    HasDependents,
}

/// A failure: a stable named kind, for programmatic dispatch, plus a
/// human-readable detail string.
#[derive(Debug, Clone, PartialEq)]
pub struct Error {
    pub kind: ErrorKind,
    pub detail: String,
}

impl Error {
    pub fn new(kind: ErrorKind, detail: &str) -> (e: Error)
        ensures
            e.kind == kind,
    {
        Error { kind, detail: detail.to_owned() }
    }
}

impl Letter {
    /// The conventional one-character text of the letter grade.
    pub fn text(&self) -> (r: String)
        ensures
            *self == Letter::A ==> r@ == "A"@,
            *self == Letter::B ==> r@ == "B"@,
            *self == Letter::C ==> r@ == "C"@,
            *self == Letter::D ==> r@ == "D"@,
            *self == Letter::F ==> r@ == "F"@,
    {
        match self {
            Letter::A => "A".to_owned(),
            Letter::B => "B".to_owned(),
            Letter::C => "C".to_owned(),
            Letter::D => "D".to_owned(),
            Letter::F => "F".to_owned(),
        }
    }
}

} // verus!
