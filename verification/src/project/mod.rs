//! The project index and what is computed from it.

pub mod graph;
pub mod index;
pub mod lookup;
pub mod rank;
pub mod resolve;
pub mod traversal;
pub mod utils;

pub use index::{ModuleInfo, ProjectIndex};
pub use rank::TestResult;
