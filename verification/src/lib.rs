//! A type checker and small-step interpreter for Featherweight Java: a
//! minimal, purely functional object calculus with classes, single
//! inheritance, fields, methods, object construction, and typed casts.
//!
//! The pipeline runs text through the [`parser`] into the [`ast`], builds a
//! validated [`class_table::ClassTable`], checks the program and the input
//! term with [`typecheck`], and reduces the term to a value with
//! [`evaluation`]. [`class_tree`] derives the inheritance tree for
//! diagnostic output, and [`soundness`] proves the calculus sound: progress
//! and preservation, and the evaluation soundness that follows.

pub mod ast;
pub mod class_table;
pub mod class_tree;
pub mod error;
pub mod evaluation;
pub mod parser;
pub mod soundness;
pub mod typecheck;

pub use ast::Term;
