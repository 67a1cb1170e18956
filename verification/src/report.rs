use vstd::prelude::*;

verus! {

/// A crate that defines a feature which an entry point asks for, but which
/// the resolver did not enable for it.
pub struct FeatureGap {
    pub entry_point: String,
    pub entry_features: Vec<String>,
    pub crate_name: String,
    pub feature: String,
    pub feature_content: Vec<String>,
}

/// A forbidden feature that is active in some crates of a package's tree.
pub struct NeverEnablesViolation {
    pub package: String,
    pub forbidden_feature: String,
    pub enabled_in: Vec<String>,
}

/// A dependency present in more than one version.
pub struct DuplicateDep {
    pub name: String,
    pub versions: Vec<String>,
}

/// The outcome of all three checks.
pub struct CheckResult {
    pub feature_gaps: Vec<FeatureGap>,
    pub never_enables_violations: Vec<NeverEnablesViolation>,
    pub duplicate_deps: Vec<DuplicateDep>,
}

impl CheckResult {
    /// Whether the checks failed: duplicate dependencies are informational
    /// and never count as errors.
    pub open spec fn spec_has_errors(&self) -> bool {
        self.feature_gaps@.len() > 0 || self.never_enables_violations@.len() > 0
    }

    pub fn has_errors(&self) -> (r: bool)
        ensures
            r == self.spec_has_errors(),
    {
        !self.feature_gaps.is_empty() || !self.never_enables_violations.is_empty()
    }

    /// The process exit status the tool reports for this outcome.
    pub fn exit_status(&self) -> (code: u8)
        ensures
            code == (if self.spec_has_errors() { 1u8 } else { 0u8 }),
    {
        if self.has_errors() {
            1
        } else {
            0
        }
    }
}

/// Duplicate dependencies are informational: an outcome with no feature gap
/// and no never-enables violation passes, whatever duplicates it lists.
pub proof fn law_duplicates_alone_never_fail(r: CheckResult)
    requires
        r.feature_gaps@.len() == 0,
        r.never_enables_violations@.len() == 0,
    ensures
        !r.spec_has_errors(),
{
}

/// Any finding fails the checks, whatever else the outcome holds: a result
/// with a feature gap has errors, and so does a result with a never-enables
/// violation.
pub proof fn law_any_finding_fails(r: CheckResult)
    ensures
        r.feature_gaps@.len() > 0 ==> r.spec_has_errors(),
        r.never_enables_violations@.len() > 0 ==> r.spec_has_errors(),
{
}

} // verus!
