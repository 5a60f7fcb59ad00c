//! A tape machine for an eight-symbol loop language.
//!
//! Source text is turned into an instruction stream by one of two builders (a
//! plain one, and one that merges runs and resolves loop brackets up front),
//! and an interpreter drives that stream against a circular tape of cells.
//! Every function carries a contract over a mathematical model of the tape and
//! of the machine, and the laws that tie the two dialects together are proved
//! alongside.

pub mod agreement;
pub mod brackets;
pub mod interpreter;
pub mod program;
pub mod worked;
