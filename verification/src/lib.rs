//! Verified core of a file-synchronization tool.
//!
//! The library tracks named groups of file locations (local paths and
//! `host:path` remotes), keeps them in a single flat persisted record, and
//! decides which copy of a group is freshest and which copies must be
//! overwritten.  All I/O (reading and writing the store file, invoking the
//! transfer program, reading modification times) lives outside the library;
//! every function here is pure and fully specified.

pub mod codec;
pub mod engine;
pub mod matching;
pub mod select;
pub mod store;
pub mod strutil;

use vstd::prelude::*;

verus! {

} // verus!
