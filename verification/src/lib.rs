use vstd::prelude::*;

pub mod dependency_analyzer;
pub mod file;
pub mod modules_analyzer;
pub mod project_scanner;
pub mod use_cases;

use crate::dependency_analyzer::direct_includers;
use crate::dependency_analyzer::distinct_ids;
use crate::dependency_analyzer::dom_of;
use crate::dependency_analyzer::impact_of;
use crate::dependency_analyzer::AnalysisError;
use crate::file::File;
use crate::use_cases::topn_output_ok;
use crate::use_cases::TopNUseCase;

verus! {

enum ScarMode {
    TopNAnalisys(usize),
    TopNImpactAnalysis(usize),
}

/// The whole run's configuration: the project path to scan, the chosen
/// analysis mode with its output size, and the debug flag.
pub struct Config {
    project_path: String,
    mode: ScarMode,
    debug: bool,
}

impl Config {
    pub closed spec fn path_spec(self) -> Seq<char> {
        self.project_path@
    }

    pub closed spec fn is_topn(self) -> bool {
        self.mode is TopNAnalisys
    }

    pub closed spec fn output_size_spec(self) -> usize {
        match self.mode {
            ScarMode::TopNAnalisys(s) => s,
            ScarMode::TopNImpactAnalysis(s) => s,
        }
    }

    pub closed spec fn debug_spec(self) -> bool {
        self.debug
    }

    /// Chooses the analysis mode: direct-inclusion ranking when `is_topn`,
    /// else transitive-impact ranking when `is_impact`; any other
    /// combination is an invalid input and is rejected.
    pub fn build(path: &str, is_topn: bool, is_impact: bool, output_size: usize, debug: bool) -> (r:
        Result<Config, &'static str>)
        ensures
            r is Ok <==> (is_topn || is_impact),
            r matches Ok(c) ==> c.path_spec() == path@ && c.is_topn() == is_topn
                && c.output_size_spec() == output_size && c.debug_spec() == debug,
            r matches Err(m) ==> m@ == "Invalid input mode."@,
    {
        if is_topn {
            return Ok(
                Config {
                    project_path: path.to_owned(),
                    mode: ScarMode::TopNAnalisys(output_size),
                    debug,
                },
            );
        }
        if is_impact {
            return Ok(
                Config {
                    project_path: path.to_owned(),
                    mode: ScarMode::TopNImpactAnalysis(output_size),
                    debug,
                },
            );
        }
        Err("Invalid input mode.")
    }

    pub fn get_project_path(&self) -> (r: &str)
        ensures
            r@ == self.path_spec(),
    {
        self.project_path.as_str()
    }

    pub fn get_debug(&self) -> (r: bool)
        ensures
            r == self.debug_spec(),
    {
        self.debug
    }
}

/// Runs the configured analysis over already scanned units and hands back
/// the top-N (name, count) rows: direct-inclusion counts in top-N mode,
/// transitive-impact counts otherwise. Fails exactly when no unit was
/// scanned.
pub fn run(config: &Config, files: &Vec<File>) -> (r: Result<Vec<(String, usize)>, AnalysisError>)
    requires
        distinct_ids(files@),
    ensures
        r is Ok <==> files@.len() > 0,
        files@.len() == 0 ==> r == Err::<Vec<(String, usize)>, AnalysisError>(
            AnalysisError::EmptyGraph,
        ),
        r matches Ok(v) ==> if config.is_topn() {
            topn_output_ok(
                dom_of(files@),
                (|n: Seq<char>| direct_includers(files@, n).len() as int),
                config.output_size_spec() as int,
                v@,
            )
        } else {
            topn_output_ok(
                dom_of(files@),
                (|n: Seq<char>| impact_of(files@, n).len() as int),
                config.output_size_spec() as int,
                v@,
            )
        },
{
    match config.mode {
        ScarMode::TopNAnalisys(output_size) => {
            let use_case_config = use_cases::Config::make(
                config.get_project_path(),
                output_size,
                config.get_debug(),
            );
            TopNUseCase::do_sorted_topn_inclusions(&use_case_config, files)
        },
        ScarMode::TopNImpactAnalysis(output_size) => {
            let use_case_config = use_cases::Config::make(
                config.get_project_path(),
                output_size,
                config.get_debug(),
            );
            TopNUseCase::do_sorted_topn_impact(&use_case_config, files)
        },
    }
}

} // verus!
