//! A file organizer's decision core: classify files by extension, plan the
//! canonical `assets` layout, discover and merge stray `assets` trees, and
//! resolve destination-name collisions with numeric suffixes.
//!
//! The library works on plain values: directory trees are `FsNode` values,
//! paths are lists of name components, and every function that decides where
//! a file goes is specified and verified here. Reading the real filesystem
//! into an `FsNode` snapshot, and carrying out the planned moves, is left to
//! the surrounding program.

pub mod names;
pub mod table;
pub mod tree;
pub mod walk;
pub mod merge;
pub mod layout;
pub mod report;
pub mod relocate;
