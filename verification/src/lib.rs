//! Inventory of a repository tree by file-naming convention.
//!
//! The crate classifies a file's base name by its lexical naming style
//! (PascalCase, camelCase, snake_case, kebab-case, all-lower, all-upper,
//! or unrecognized) and aggregates counts per extension bucket.  The
//! classifier and the aggregation rules are verified; fetching the tree
//! from a remote forge is left to the surrounding program.

pub mod api;
pub mod classify;
pub mod count;
pub mod paths;
