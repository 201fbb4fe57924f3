//! The command line.

pub mod console;
