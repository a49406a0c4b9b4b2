use scar::modules_analyzer::ModulesAnalyzer;

#[test]
fn modules_analyzer_path_parsing_test_simple() {
    let simple_path = "include/foobar.h";
    assert_eq!("foobar.h", ModulesAnalyzer::extract_filename_from_path(simple_path));
}

#[test]
fn modules_analyzer_path_parsing_test_single_token() {
    let simple_path = "foobar.h";
    assert_eq!("foobar.h", ModulesAnalyzer::extract_filename_from_path(simple_path));
}

#[test]
fn modules_analyzer_path_parsing_test_backslash() {
    // C and C++ say that anything but '/' in an include path is not a
    // separator here: a backslash path comes back whole.
    let simple_path = "include\\foobar.h";
    assert_eq!("include\\foobar.h", ModulesAnalyzer::extract_filename_from_path(simple_path));
}
