//! The parts of the agent's configuration that decisions depend on.

use vstd::prelude::*;

verus! {

/// The agent's configuration.
#[derive(Clone, Debug)]
pub struct PeripheryConfig {
    /// Where the agent keeps its own data.
    pub root_directory: String,
    /// Where stacks are deployed from.
    pub stack_dir: String,
    /// Where repositories are cloned to.
    pub repo_dir: String,
    /// How many entries one file operation may touch.
    pub file_manager_max_entries: u64,
}

} // verus!
