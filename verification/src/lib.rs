//! Static selection of the test files that a set of changed source files can affect.

pub mod cli;
pub mod format;
pub mod git;
pub mod number;
pub mod paths;
pub mod priority;
pub mod project;
pub mod text;

pub use cli::{Cli, Command, SelectArgs};
pub use format::FormatArgs;
pub use priority::{priority, Priority};
pub use project::{ModuleInfo, ProjectIndex, TestResult};
