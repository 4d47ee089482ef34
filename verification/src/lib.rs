//! A verified hosts-file mutation engine: the logic behind a small
//! command-line tool that blocks and unblocks websites by editing the
//! operating system's static name-resolution override file.
//!
//! The library is pure: it normalizes domain names, resolves the platform
//! hosts-file path, recognizes the block entries it owns among arbitrary
//! lines, and computes the exact edit (bytes to append, or the rewritten
//! contents) for a block or unblock operation. All file I/O is left to the
//! caller, which hands the current file contents in and writes the result
//! back out.

pub mod domain;
pub mod error;
pub mod hosts;
pub mod matcher;
