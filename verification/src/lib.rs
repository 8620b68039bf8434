//! A gradebook backend: students, classes, enrollments, assignments and
//! per-assignment scores, with a derived overall grade per student per class.
//!
//! The library has two parts.  [`store`] is the record store: an in-memory
//! relational store of the five base entities, keyed by surrogate identities
//! for students, classes and assignments and by composite natural keys for
//! enrollments and grades, with uniqueness and referential-integrity
//! invariants proved on every mutation.  [`grading`] is the aggregation
//! engine: the pure rules that derive a percentage and a letter grade for a
//! (student, class) pair from that student's scored assignments in the class.
//!
//! Overall grades use the lazy strategy: they are never stored, every read
//! recomputes them from the current grades and assignments, so the aggregate
//! is always consistent with the base records by construction and no write
//! path to it exists.
//!
//! All score quantities are fixed-point integers (hundredths of a point), so
//! fractional scores are carried exactly; a percentage is likewise reported
//! in hundredths of a percent.
//!
//! The store is a single value; callers that share it across threads must
//! serialize access to it (one mutex around the whole store suffices), so
//! that every mutation, and every read of a derived grade, is atomic.

pub mod grading;
pub mod models;
pub mod store;
