use scar::file::File;
use scar::use_cases::get_slice_up_to;
use scar::use_cases::Config;
use scar::use_cases::TopNUseCase;

#[test]
fn get_slice_up_to_num_test() {
    let elements = vec![1, 2, 3, 4, 5, 6];

    assert_eq!(vec![1, 2, 3], get_slice_up_to(&elements, 3));
    assert_eq!(vec![1, 2, 3, 4, 5, 6], get_slice_up_to(&elements, 6));
    assert_eq!(vec![1, 2, 3, 4, 5, 6], get_slice_up_to(&elements, 7));
    assert_eq!(vec![1, 2, 3, 4, 5, 6], get_slice_up_to(&elements, 1000));
}

fn sample_files() -> Vec<File> {
    let main_cpp = File::make("main.cpp", "#include <iostream>\n#include \"foobar.h\"\n").unwrap();
    let foobar = File::make("foobar.h", "#include \"blablah.h\"\n").unwrap();
    let leviathan = File::make("leviathan.h", "#include \"foobar.h\"\n").unwrap();
    let blablah = File::make("blablah.h", "").unwrap();
    vec![main_cpp, foobar, leviathan, blablah]
}

fn count_of(rows: &[(String, usize)], name: &str) -> usize {
    for (n, c) in rows {
        if n == name {
            return *c;
        }
    }
    panic!("no row named {}", name);
}

#[test]
fn topn_inclusions_use_case_counts() {
    let config = Config::make("unused", 100, false);
    let files = sample_files();
    let rows = TopNUseCase::do_sorted_topn_inclusions(&config, &files).unwrap();
    assert_eq!(5, rows.len());
    assert_eq!(2, count_of(&rows, "foobar.h"));
    assert_eq!(1, count_of(&rows, "iostream"));
    assert_eq!(1, count_of(&rows, "blablah.h"));
    assert_eq!(0, count_of(&rows, "main.cpp"));
    assert_eq!(0, count_of(&rows, "leviathan.h"));
}

#[test]
fn topn_impact_use_case_counts() {
    let config = Config::make("unused", 100, false);
    let files = sample_files();
    let rows = TopNUseCase::do_sorted_topn_impact(&config, &files).unwrap();
    assert_eq!(5, rows.len());
    assert_eq!(2, count_of(&rows, "foobar.h"));
    assert_eq!(1, count_of(&rows, "iostream"));
    assert_eq!(3, count_of(&rows, "blablah.h"));
    assert_eq!(0, count_of(&rows, "main.cpp"));
    assert_eq!(0, count_of(&rows, "leviathan.h"));
}

#[test]
fn topn_output_is_truncated_and_sorted() {
    let config = Config::make("unused", 2, false);
    let files = sample_files();
    let rows = TopNUseCase::do_sorted_topn_inclusions(&config, &files).unwrap();
    assert_eq!(2, rows.len());
    assert_eq!("foobar.h", rows[0].0);
    assert_eq!(2, rows[0].1);
    assert!(rows[0].1 >= rows[1].1);
}

#[test]
fn topn_no_external_use_cases_drop_system_headers() {
    let config = Config::make("unused", 100, false);
    let files = sample_files();
    let incl = TopNUseCase::do_sorted_topn_inclusions_no_external(&config, &files).unwrap();
    assert_eq!(4, incl.len());
    assert!(incl.iter().all(|(n, _)| n != "iostream"));
    let imp = TopNUseCase::do_sorted_topn_impact_no_external(&config, &files).unwrap();
    assert_eq!(4, imp.len());
    assert!(imp.iter().all(|(n, _)| n != "iostream"));
    assert_eq!(3, count_of(&imp, "blablah.h"));
}

#[test]
fn use_case_config_holds_its_fields() {
    let config = Config::make("some/path", 42, true);
    assert_eq!("some/path", config.get_path());
    assert_eq!(42, config.get_output_size());
    assert!(config.get_debug());
}
