//! The command-line data model: what the user asked for, already parsed.
//! Argument parsing itself happens in the surrounding application, which
//! hands over values of these types.

use vstd::prelude::*;

verus! {

/// One subcommand.
#[derive(Debug)]
pub enum Command {
    /// Register a new search root.
    Add { path: String },
    /// Unregister a search root.
    Remove { path: String },
    /// List the registered search roots.
    List,
    /// Show where the configuration lives and what it holds.
    Config,
    /// Scan the registered roots and print every project found.
    Scan,
    /// Record the default editor.
    SetEditor { editor: String },
}

/// The parsed command line: an optional subcommand — none means the
/// interactive select mode — and the global options.
#[derive(Debug)]
pub struct Args {
    pub command: Option<Command>,
    pub editor: Option<String>,
    pub max_depth: Option<usize>,
}

} // verus!
