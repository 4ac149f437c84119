//! Backups of stacks and volumes, and their restores.

pub mod backup_run;
pub mod cancellation;
pub mod compose;
pub mod containers;
pub mod finalization;
pub mod preview;
pub mod publication;
pub mod receipts;
pub mod restore_journal;
pub mod restore_run;
pub mod sources;
pub mod staging;
pub mod verification;
pub mod yaml;
