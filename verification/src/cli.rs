//! Plain data for the command surface.

use vstd::prelude::*;

verus! {

/// One requested operation.
pub enum Action {
    /// Append a new task with the given description text.
    Add { task: String },
    /// Remove the task at the given 1-based position.
    Done { position: usize },
    /// List every task in order.
    List,
}

/// The resolved command line: the operation and an optional journal path.
pub struct CommandLineArgs {
    pub action: Action,
    pub journal_file: Option<String>,
}

} // verus!
