//! Recursive search for the files under a directory that contain a word,
//! with every filesystem failure kept as an outcome of its own.
//!
//! The filesystem is not touched here: the walk is a state machine that asks
//! its driver to probe one path at a time, and the word filter takes the
//! contents that the driver read.
pub mod outcome;
pub mod report;
pub mod traversal;
pub mod word_filter;

pub use outcome::{ErrorKind, ErrorWithPath, IoError, PathOutcome, wrap_into_vec};
pub use report::RunResult;
