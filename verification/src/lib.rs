//! A personal task journal: an ordered list of short text tasks, each
//! timestamped at creation, persisted as a single structured text document.
//!
//! The codec module defines the on-storage encoding and a strict decoder,
//! proved to be mutually inverse; the tasks module holds the read-modify-write
//! operations (add, complete, list) over a storage snapshot handed in as a
//! string; the cli module holds the plain command data types.

pub mod cli;
pub mod codec;
pub mod tasks;
