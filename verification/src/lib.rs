//! A verified model of symbolic-link elimination.
//!
//! The library models a filesystem as a flat list of absolute paths and
//! entries (regular files, directories, symbolic links).  Its core walks a
//! set of starting paths and replaces every reachable link by a real copy of
//! whatever the link ultimately points to, guarding against self-referential
//! links and links that point back to one of their own ancestors.  Every
//! action is reported as one structured line in an append-only sink.

pub mod fs_model;
pub mod laws;
pub mod paths;
pub mod relink;

pub use crate::fs_model::Entry;
pub use crate::fs_model::Fs;
pub use crate::fs_model::FsErr;
pub use crate::relink::exec;
pub use crate::relink::relink;
pub use crate::relink::resolve_symlink;
pub use crate::relink::Line;
pub use crate::relink::MAX_DEPTH;
