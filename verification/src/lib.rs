//! Directory enumeration below one root directory.
//!
//! Two listings are offered: that of one directory, with its members
//! filtered by kind, and that of every regular file at any depth. Neither
//! touches a file system. `path` reads a requested path and refuses one that
//! leaves the root; `entry` chooses the members that a listing shows; `walk`
//! decides which directory is read next while the owner of the walk does the
//! reading; `tree` holds a directory tree in memory and gives both listings
//! over it; `all_files` proves that the walk finds every file exactly once.

pub mod all_files;
pub mod entry;
pub mod error;
pub mod path;
pub mod tree;
pub mod walk;
