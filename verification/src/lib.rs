//! Recursive directory traversal as a machine that touches no file.
//!
//! A traversal is built with [`WalkDir`] and runs as an [`IntoIter`]: each
//! [`IntoIter::step`] takes the outcome of the action that the step before
//! asked for, and returns the action to carry out next, until a record or
//! an error is handed out or the traversal is over. Whoever drives the
//! traversal stats paths, lists directories and tells files apart; the
//! traversal decides what to ask, in which order records are shown, which
//! directories are entered, and which stay open.
//!
//! The module `wellformed` holds the invariant of a traversal. The modules
//! `model`, `follows`, `ends` and `shows` state what a traversal yields in a
//! file system that is a finite tree, and prove it of the steps; `handles`
//! proves that the directories open in such a file system are those that
//! the traversal counts, and never more than it may have open.

pub mod cli;
pub mod dent;
pub mod dir;
pub mod ends;
pub mod error;
pub mod follows;
pub mod handles;
pub mod model;
pub mod os;
pub mod same_file;
pub mod shows;
pub mod walk;
pub mod wellformed;

pub use crate::dent::{DirEntry, DirEntryExt, FileKind, FileType, Metadata, RawEntry};
pub use crate::dir::is_dots;
pub use crate::error::{Error, ErrorInner, IoError};
pub use crate::same_file::{is_same_file, FileId};
pub use crate::walk::{Action, Event, FilterEntry, IntoIter, Order, WalkDir, WalkDirOptions};
