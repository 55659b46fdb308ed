//! Size of a file-system entity, found by walking it through an abstract
//! provider, with optional hooks at the start, progress and end of each node
//! and once over the finished, sorted list of records.

pub mod options;
pub mod ordering;
pub mod systems;
pub mod templates;
pub mod traversal;

pub use traversal::{run, FileContext};
