//! Recursive copy, move and removal of directory trees, with errors that name the paths and
//! the operation that failed.
//!
//! The library holds the decisions: paths and how they are remapped from one tree to
//! another (`path`, `remap`), the errors and how a recovery is folded into them (`error`),
//! the single steps and what each comes to (`step`), and the copy of a tree one entry at a
//! time (`tree`) or in parallel (`parallel`). The file system itself is reached by the
//! caller, who performs each step that the library asks for and hands back what came of it.
//!
//! `model` describes a file system as the platform documents it and proves, over that
//! description, that the steps the library asks for mirror a tree: one entry at a time, or
//! in parallel in any order.
pub mod error;
pub mod model;
pub mod parallel;
pub mod path;
pub mod remap;
pub mod step;
pub mod tree;

pub use error::{Error, IoErrorKind, IoFailure, Operation, WalkFailure};
pub use parallel::{Job, ParallelCopy};
pub use path::{in_same_dir, try_in_same_dir, FsPath};
pub use remap::change_dir;
pub use step::{copy_create_steps, move_file_steps, Step, Tally};
pub use tree::{check_source, TreeCopy, WalkEntry};
