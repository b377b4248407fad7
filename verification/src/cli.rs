//! The request a caller hands to the engine: which operation to run, against
//! which installation directory, and whether every prompt is auto-confirmed.
//! Argument parsing itself lives with the caller.

use vstd::prelude::*;

verus! {

/// One invocation's request.
#[derive(Debug)]
pub struct Cli {
    /// The game installation directory to operate on, when given.
    pub game_dir: Option<String>,
    /// Auto-confirm every prompt (non-interactive mode).
    pub yes_for_all: bool,
    /// The requested operation.
    pub subcommand: SubCommand,
}

/// The three user-facing operations.
#[derive(Debug)]
pub enum SubCommand {
    Install { items: Vec<String> },
    Uninstall { items: Vec<String> },
    Update {},
}

} // verus!
