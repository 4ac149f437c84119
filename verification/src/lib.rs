//! The core of an agent that runs next to a Docker daemon: a file manager with
//! journalled undo, usage metrics, and backup and restore.
//!
//! The library decides; reading, writing and waiting are left to its callers,
//! who hand in what they found and carry out what they are told.

pub mod backup;
pub mod config;
pub mod docker;
pub mod file_manager;
pub mod order;
pub mod outside;
pub mod path;
pub mod registry;
pub mod text;
