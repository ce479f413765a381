//! A verified recursive directory scanner.
//!
//! The scanner walks a snapshot of a filesystem — one listing of entries per
//! readable directory, keyed by canonical path — collecting the canonical
//! paths of the regular files that pass a filename filter and an extension
//! filter, pruning excluded directories, and never visiting the same
//! canonical directory twice. The snapshot is plain data, so the whole
//! traversal, including deduplication and pruning, is verified; reading
//! directories and resolving paths is left to the caller.

pub mod casefold;
pub mod fstree;
pub mod pathname;
pub mod scanner;
