//! Evaluation engine for declaratively-specified areas of study.
//!
//! An area of study (a major, minor or concentration) is a tree of named
//! requirements, each carrying a boolean expression over course-matching
//! predicates.  The engine walks that tree, evaluates every expression
//! against the student's course list, and produces a parallel result tree
//! reporting success, the matched courses, and aggregate progress.

pub mod course;
pub mod expression;
pub mod filter;
pub mod order;
pub mod compute;
pub mod evaluate;
