use scar::dependency_analyzer::AnalysisError;
use scar::file::File;
use scar::Config;

fn sample_files() -> Vec<File> {
    let main_cpp = File::make("main.cpp", "#include <iostream>\n#include \"foobar.h\"\n").unwrap();
    let foobar = File::make("foobar.h", "#include \"blablah.h\"\n").unwrap();
    let leviathan = File::make("leviathan.h", "#include \"foobar.h\"\n").unwrap();
    let blablah = File::make("blablah.h", "").unwrap();
    vec![main_cpp, foobar, leviathan, blablah]
}

#[test]
fn build_rejects_invalid_mode() {
    assert!(Config::build("p", false, false, 10, false).is_err());
    assert!(Config::build("p", true, false, 10, false).is_ok());
    assert!(Config::build("p", false, true, 10, false).is_ok());
    // top-N wins when both flags are set
    assert!(Config::build("p", true, true, 10, false).is_ok());
}

#[test]
fn run_dispatches_inclusion_mode() {
    let config = Config::build("unused", true, false, 100, false).unwrap();
    let files = sample_files();
    let rows = scar::run(&config, &files).unwrap();
    assert_eq!(5, rows.len());
    assert!(rows.iter().any(|(n, c)| n == "foobar.h" && *c == 2));
    assert!(rows.iter().any(|(n, c)| n == "blablah.h" && *c == 1));
}

#[test]
fn run_dispatches_impact_mode() {
    let config = Config::build("unused", false, true, 100, false).unwrap();
    let files = sample_files();
    let rows = scar::run(&config, &files).unwrap();
    assert_eq!(5, rows.len());
    assert!(rows.iter().any(|(n, c)| n == "blablah.h" && *c == 3));
}

#[test]
fn run_fails_distinctly_on_empty_scan() {
    let config = Config::build("unused", true, false, 100, false).unwrap();
    let files: Vec<File> = Vec::new();
    assert_eq!(Err(AnalysisError::EmptyGraph), scar::run(&config, &files));
}
