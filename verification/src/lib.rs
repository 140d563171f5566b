//! Listing, setting and removing environment variable declarations in the
//! files where Linux systems declare them.
pub mod text;
pub mod scope;
pub mod input;
pub mod term;
pub mod environment_variable;
pub mod paths;
pub mod list_env;
pub mod edit;
pub mod commands;
pub mod listing;
pub mod laws;

pub use environment_variable::EnvironmentVariable;
pub use input::{Cli, Command, List, Remove, SetOptions};
pub use scope::Scope;
