//! A verified core for keeping a persisted node tree of projects, folders and
//! files consistent with the directory tree on disk.
//!
//! Reading and writing the disk and the dataset store is left to the caller:
//! the library decides what a scan keeps, which nodes a sync or a rebuild
//! creates, how paths are composed, how imports are named and how files are
//! classified.
pub mod classify;
pub mod conflict;
pub mod import;
pub mod maintenance;
pub mod path;
pub mod reconcile;
pub mod scan;
pub mod text;
pub mod types;
pub mod web;
