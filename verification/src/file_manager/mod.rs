//! The file manager: named paths below a root, planned operations, and a
//! journal that takes them back.

pub mod actions;
pub mod applying;
pub mod archive;
pub mod conflict;
pub mod copying;
pub mod extraction;
pub mod jobs;
pub mod journal;
pub mod limits;
pub mod listing;
pub mod namespace;
pub mod operation;
pub mod plans;
pub mod progress;
pub mod revision;
pub mod roots;
pub mod snapshots;
pub mod startup;
pub mod transactions;
pub mod transfer;
pub mod tree;
