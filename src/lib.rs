//! Blueprints: indented text that describes a directory tree, and the logic
//! that turns such text into the directories and files to create.
//!
//! - `line` parses one line into a name, a depth and a kind.
//! - `tree` places parsed lines on a stack indexed by level.
//! - `generate` runs a whole generation and orders its rollback.
//! - `store` holds the naming rules of the blueprint store.

pub mod line;
pub mod tree;
pub mod generate;
pub mod store;
