//! Validation of Cargo feature propagation across a workspace.
//!
//! The library holds the decisions of the tool: how the output of
//! `cargo tree` is read, which feature gaps and forbidden features are
//! reported, which dependencies occur in several versions, how workspace
//! manifests are read and how the command line is interpreted.  Running
//! `cargo`, reading files and printing stay with the caller.

pub mod report;
pub mod text;
pub mod pattern;
pub mod tree;
pub mod toml_doc;
pub mod workspace;
pub mod config;
pub mod propagation;
pub mod never_enables;
pub mod order;
pub mod duplicates;
pub mod cli;
