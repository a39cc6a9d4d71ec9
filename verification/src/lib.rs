//! Bounded inventory of directory trees.
//!
//! The crate walks a directory tree, counts or describes the regular files
//! in it, and enforces one budget over the whole traversal. It performs no
//! I/O itself: a caller lists directories and hands the listings in, either
//! as a finished snapshot or one directory at a time.

pub mod count;
pub mod count_walk;
pub mod entry;
pub mod error;
pub mod item;
pub mod laws;
pub mod list;
pub mod list_walk;
pub mod name;
pub mod order;
pub mod position;
pub mod run;
pub mod select;
pub mod visit;
pub mod walk;
