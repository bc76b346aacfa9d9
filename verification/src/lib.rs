//! An execution engine for a tape language of eight one-byte instructions.
//!
//! The engine is driven step by step: a caller loads or appends program
//! text and asks for the next output byte; execution suspends at each
//! output instruction and resumes on the following call.
//!
//! * [`program`] describes how the brackets of a program text nest.
//! * [`machine`] is the mathematical model of the engine and of one step.
//! * [`runtime`] is the engine itself.
//! * [`comments`] shows that ignored bytes do not change what a program does.

pub mod program;

pub mod machine;

pub mod runtime;

pub mod comments;

mod fill;

pub use crate::runtime::{Progress, Runtime};
