//! Tidying of a directory's files: finding and deleting duplicate files by
//! their digests, and renaming files by digest or by sequence number.
//!
//! The library holds the decisions; reading directories and files, and
//! renaming or deleting them, is left to its caller.

pub mod error;
pub mod text;
pub mod enumerate;
pub mod digest;
pub mod order;
pub mod path;
pub mod sorting;
pub mod dup;
pub mod report;
pub mod dup_del;
pub mod naming;
pub mod command;
pub mod rename;
