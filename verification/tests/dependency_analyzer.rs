use scar::dependency_analyzer::AnalysisError;
use scar::dependency_analyzer::DependencyAnalyzer;
use scar::dependency_analyzer::DependencyEntry;
use scar::file::File;

const FIRST_FILE_CONTENT: &str = "\
#include <iostream>
#include \"foobar.h\"
//#include \"commented_out.h\"
/*#include \"another_commented_out.h\"

int main(void) {
    printf(\"Hello world\");
    return 0;
};
    ";

const SECOND_FILE_CONTENT: &str = "\
#include \"blablah.h\"

class Point {{
    explicit Point() = default;
    virtual ~Point() = default;
}};
    ";

const THIRD_FILE_CONTENT: &str = "\
#include \"foobar.h\"

namespace Leviathan {

void DoSomeStuff(uint8_t value) {}

}
    ";

fn create_sample_files() -> Vec<File> {
    let first = File::make("main.cpp", FIRST_FILE_CONTENT).unwrap();
    let second = File::make("foobar.h", SECOND_FILE_CONTENT).unwrap();
    let third = File::make("leviathan.h", THIRD_FILE_CONTENT).unwrap();
    let fourth = File::make(
        "blablah.h",
        "\
namespace BlaBlah {

}
",
    )
    .unwrap();
    vec![first, second, third, fourth]
}

fn paths_of<'a>(entries: &'a [DependencyEntry], name: &str) -> &'a Vec<String> {
    for e in entries {
        if e.get_file_name() == name {
            return e.get_including_file_paths();
        }
    }
    panic!("no entry named {}", name);
}

fn assert_path_set(actual: &[String], expected: &[&str]) {
    assert_eq!(expected.len(), actual.len());
    for x in expected {
        assert!(actual.iter().any(|a| a == x));
    }
}

#[test]
fn dependency_analyzer_simple_parsing_test() {
    let files = create_sample_files();

    let debug = true;
    let analyzer = DependencyAnalyzer::make(&files, debug).unwrap();
    let inclusion_map = analyzer.get_inclusion_map();

    assert_eq!(5, inclusion_map.len());

    assert_path_set(paths_of(&inclusion_map, "main.cpp"), &[]);
    assert_path_set(paths_of(&inclusion_map, "foobar.h"), &["main.cpp", "leviathan.h"]);
    assert_path_set(paths_of(&inclusion_map, "leviathan.h"), &[]);
    assert_path_set(paths_of(&inclusion_map, "iostream"), &["main.cpp"]);
    assert_path_set(paths_of(&inclusion_map, "blablah.h"), &["foobar.h"]);
}

#[test]
fn dependency_analyzer_path_parsing_test_simple() {
    let simple_path = "include/foobar.h";
    assert_eq!("foobar.h", DependencyAnalyzer::extract_filename_from_path(simple_path));
}

#[test]
fn dependency_analyzer_path_parsing_test_single_token() {
    let simple_path = "foobar.h";
    assert_eq!("foobar.h", DependencyAnalyzer::extract_filename_from_path(simple_path));
}

#[test]
fn dependency_analyzer_path_parsing_test_backslash() {
    // C and C++ say that anything but '/' in an include path is not a
    // separator here: a backslash path comes back whole.
    let simple_path = "include\\foobar.h";
    assert_eq!("include\\foobar.h", DependencyAnalyzer::extract_filename_from_path(simple_path));
}

#[test]
fn top_included_sort_test() {
    let files = create_sample_files();

    let debug = true;
    let analyzer = DependencyAnalyzer::make(&files, debug).unwrap();
    let sorted_list = analyzer.get_sorted_inclusion().unwrap();

    let expected = [
        ("foobar.h", 2),
        ("iostream", 1),
        ("blablah.h", 1),
        ("main.cpp", 0),
        ("leviathan.h", 0),
    ];

    assert_eq!(5, sorted_list.len());

    for e in expected.into_iter() {
        assert!(sorted_list
            .iter()
            .any(|entry| entry.get_file_name() == e.0
                && entry.get_including_file_paths().len() == e.1));
    }
}

#[test]
fn top_impact_sort_test() {
    let files = create_sample_files();

    let debug = true;
    let analyzer = DependencyAnalyzer::make(&files, debug).unwrap();
    let sorted_impacts = analyzer.get_sorted_impact().unwrap();

    let expected = [
        ("foobar.h", 2),
        ("iostream", 1),
        ("blablah.h", 3),
        ("main.cpp", 0),
        ("leviathan.h", 0),
    ];

    assert_eq!(5, sorted_impacts.len());

    for e in expected.into_iter() {
        assert!(sorted_impacts
            .iter()
            .any(|entry| entry.get_file_name() == e.0
                && entry.get_including_file_paths().len() == e.1));
    }
}

#[test]
fn sorted_inclusion_is_descending() {
    let files = create_sample_files();
    let analyzer = DependencyAnalyzer::make(&files, false).unwrap();
    let sorted_list = analyzer.get_sorted_inclusion().unwrap();
    for w in sorted_list.windows(2) {
        assert!(w[0].get_including_file_paths().len() >= w[1].get_including_file_paths().len());
    }
    let sorted_impacts = analyzer.get_sorted_impact().unwrap();
    for w in sorted_impacts.windows(2) {
        assert!(w[0].get_including_file_paths().len() >= w[1].get_including_file_paths().len());
    }
}

#[test]
fn no_external_excludes_unscanned_nodes() {
    let files = create_sample_files();
    let analyzer = DependencyAnalyzer::make(&files, false).unwrap();
    let incl = analyzer.get_sorted_inclusion_no_external().unwrap();
    assert_eq!(4, incl.len());
    assert!(incl.iter().all(|e| e.get_file_name() != "iostream"));
    let imp = analyzer.get_sorted_impact_no_external().unwrap();
    assert_eq!(4, imp.len());
    assert!(imp.iter().all(|e| e.get_file_name() != "iostream"));
}

#[test]
fn impact_at_least_direct_on_sample() {
    let files = create_sample_files();
    let analyzer = DependencyAnalyzer::make(&files, false).unwrap();
    let incl = analyzer.get_sorted_inclusion_no_external().unwrap();
    let imp = analyzer.get_sorted_impact_no_external().unwrap();
    for e in incl.iter() {
        let direct = e.get_including_file_paths().len();
        let impacted = paths_of(&imp, e.get_file_name()).len();
        assert!(impacted >= direct);
    }
}

#[test]
fn cycle_terminates_with_finite_impact() {
    // Two headers referencing each other: traversal must terminate and
    // count each one's impact as exactly the other file.
    let a = File::make("cycle_a.h", "#include \"cycle_b.h\"\n").unwrap();
    let b = File::make("cycle_b.h", "#include \"cycle_a.h\"\n").unwrap();
    let files = vec![a, b];
    let analyzer = DependencyAnalyzer::make(&files, false).unwrap();
    let imp = analyzer.get_sorted_impact().unwrap();
    assert_eq!(2, imp.len());
    assert_path_set(paths_of(&imp, "cycle_a.h"), &["cycle_b.h"]);
    assert_path_set(paths_of(&imp, "cycle_b.h"), &["cycle_a.h"]);
}

#[test]
fn empty_scan_is_a_distinct_failure() {
    let files: Vec<File> = Vec::new();
    let analyzer = DependencyAnalyzer::make(&files, false).unwrap();
    assert_eq!(Err(AnalysisError::EmptyGraph), analyzer.get_included_files());
    assert!(matches!(analyzer.get_sorted_inclusion(), Err(AnalysisError::EmptyGraph)));
    assert!(matches!(analyzer.get_sorted_impact(), Err(AnalysisError::EmptyGraph)));
    assert!(matches!(analyzer.dfs_tree("anything"), Err(AnalysisError::EmptyGraph)));
}

#[test]
fn missing_start_node_is_recoverable() {
    let files = create_sample_files();
    let analyzer = DependencyAnalyzer::make(&files, false).unwrap();
    assert!(matches!(analyzer.dfs_tree("not_a_node.h"), Err(AnalysisError::NodeNotFound)));
    // the batch itself is unaffected
    assert_eq!(5, analyzer.get_sorted_impact().unwrap().len());
}

#[test]
fn dfs_tree_visits_start_first() {
    let files = create_sample_files();
    let analyzer = DependencyAnalyzer::make(&files, false).unwrap();
    let tree = analyzer.dfs_tree("blablah.h").unwrap();
    let order = tree.get_visit_order();
    assert_eq!("blablah.h", order[0]);
    assert_eq!(4, order.len());
    for (parent, _child) in tree.get_tree_edges().iter() {
        assert!(order.iter().any(|n| n == parent));
    }
}

#[test]
fn canonicalization_is_idempotent_on_samples() {
    for p in ["include/foobar.h", "a/b/c.h", "plain.h", "dir\\win.h", "trailing/"] {
        let once = DependencyAnalyzer::extract_filename_from_path(p);
        let twice = DependencyAnalyzer::extract_filename_from_path(once);
        assert_eq!(once, twice);
    }
    assert_eq!("", DependencyAnalyzer::extract_filename_from_path("trailing/"));
}

#[test]
fn duplicate_listings_within_one_unit_count_once() {
    let a = File::make("a.cpp", "#include \"x.h\"\n#include \"x.h\"\n#include \"sub/x.h\"\n")
        .unwrap();
    let files = vec![a];
    let analyzer = DependencyAnalyzer::make(&files, false).unwrap();
    let sorted_list = analyzer.get_sorted_inclusion().unwrap();
    assert!(sorted_list
        .iter()
        .any(|e| e.get_file_name() == "x.h" && e.get_including_file_paths().len() == 1));
}

#[test]
fn every_scanned_unit_becomes_a_node() {
    let files = create_sample_files();
    let analyzer = DependencyAnalyzer::make(&files, false).unwrap();
    let map = analyzer.get_inclusion_map();
    for f in files.iter() {
        let canonical = DependencyAnalyzer::extract_filename_from_path(f.get_name());
        assert!(map.iter().any(|e| e.get_file_name() == canonical));
    }
}

#[test]
fn nested_reference_resolves_to_same_node() {
    // a unit found at src/foo.h and a reference "foo.h" meet in one node
    let foo = File::make("foo.h", "").unwrap();
    let user = File::make("main.cpp", "#include \"sub/foo.h\"\n").unwrap();
    let files = vec![foo, user];
    let analyzer = DependencyAnalyzer::make(&files, false).unwrap();
    let map = analyzer.get_inclusion_map();
    assert_eq!(2, map.len());
    assert_path_set(paths_of(&map, "foo.h"), &["main.cpp"]);
}
