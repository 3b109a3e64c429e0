use vstd::prelude::*;

verus! {

/// Facts about a benchmark run that belong to neither the host nor a result:
/// the nixpkgs revision evaluated, and whether the run only simulated the
/// evaluations.
#[derive(Debug, Clone)]
pub struct MiscInfo {
    pub nixpkgs_rev: String,
    pub debug: bool,
}

} // verus!
