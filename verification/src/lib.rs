//! Filename search: the argument resolver, the directory worklist and the
//! output routing of a command-line tool that reports every path whose
//! filename contains a query string.
//!
//! The library never touches a disk or a terminal. A driver reads directory
//! listings and hands them in as plain values; the library decides what is
//! expanded next, what is a match and how a match is written.

pub mod config;
pub mod laws;
pub mod memory;
pub mod output;
pub mod platform;
pub mod report;
pub mod run;
pub mod seqs;
pub mod text;
pub mod walk;
