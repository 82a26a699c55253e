//! Recursive copy of filesystem trees, specified and proved over a
//! mathematical model of directories and files.
//!
//! The model lives in [`model`]; [`tree`] holds an in-memory tree type with a
//! verified copy routine; [`cli`] holds the decisions a command-line driver
//! makes before and during a copy.

pub mod cli;
pub mod model;
pub mod tree;
