//! The options of the three commands, as plain values.
use vstd::prelude::*;
use crate::scope::Scope;

verus! {

/// The command line: one optional subcommand.
#[derive(Debug)]
pub struct Cli {
    /// Subcommands
    pub command: Option<Command>,
}

/// The subcommands.
#[derive(Debug)]
pub enum Command {
    List(List),
    SetVar(SetOptions),
    Remove(Remove),
}

/// Options of `list`.
#[derive(Debug, Clone, Copy)]
pub struct List {
    /// Print the file in which each variable is declared
    pub show_declared_in: bool,
    /// Show PATH in output
    pub show_path: bool,
    /// Show debug log
    pub debug: bool,
    /// Show column names in the output
    pub show_columns: bool,
}

/// Options of `set`.
#[derive(Debug, Clone)]
pub struct SetOptions {
    /// Name of environment variable to set
    pub name: String,
    /// Value to set the environment variable to
    pub value: String,
    /// Show debug log
    pub debug: bool,
    pub dry_run: bool,
    /// Scope of a variable that is not declared yet
    pub scope: Scope,
}

/// Options of `remove`.
#[derive(Debug, Clone)]
pub struct Remove {
    /// Name of environment variable to remove
    pub name: String,
    /// Show debug log
    pub debug: bool,
}

} // verus!
