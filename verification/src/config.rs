//! The configuration of the checks, as read from `feature-guard.toml`.
use vstd::prelude::*;

verus! {

/// A package to build and the features to build it with; each of these
/// features must reach every crate of the workspace that defines it.
pub struct EntryPointConfig {
    pub package: String,
    pub features: Vec<String>,
}

/// A package whose dependency tree must never have any of the forbidden
/// features enabled.
pub struct NeverEnablesConfig {
    pub package: String,
    pub forbidden: Vec<String>,
}

/// The whole configuration.
pub struct Config {
    pub entry_points: Vec<EntryPointConfig>,
    pub never_enables: Vec<NeverEnablesConfig>,
}

} // verus!
