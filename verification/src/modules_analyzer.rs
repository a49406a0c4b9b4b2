use crate::dependency_analyzer::canon;
use crate::dependency_analyzer::DependencyAnalyzer;
use vstd::prelude::*;

verus! {

/// A planned per-module view of the inclusion data. Only its path
/// canonicalization is in service so far; the analysis itself has no
/// implementation yet, so no constructor is offered.
pub struct ModulesAnalyzer {
    modules_inclusion: Vec<(String, Vec<String>)>,
}

impl ModulesAnalyzer {
    /// Canonical file name of a path: the part after the last `/`, or the
    /// whole path when it holds no `/` (a backslash is an ordinary
    /// character).
    pub fn extract_filename_from_path(path: &str) -> (r: &str)
        ensures
            r@ == canon(path@),
    {
        DependencyAnalyzer::extract_filename_from_path(path)
    }
}

} // verus!
