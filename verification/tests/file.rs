use scar::file::File;

#[test]
fn cpp_file_parsing_test() {
    let file_name = "main.cpp";
    let f = File::make(
        file_name,
        "\
#include <iostream>
#include \"foobar.h\"
//#include \"commented_out.h\"
/*#include \"another_commented_out.h\"

int main(void) {
    printf(\"Hello world\");
    return 0;
};",
    )
    .unwrap();

    assert_eq!(file_name, f.get_name());
    assert_eq!(
        &vec![String::from("iostream"), String::from("foobar.h")],
        f.get_used_modules()
    );
}

#[test]
fn cpp_file_parsing_test_nested() {
    let file_name = "main.cpp";
    let f = File::make(
        file_name,
        "\
#include <iostream>
#include \"include_folder/foobar.h\"
//#include \"commented_out.h\"
/*#include \"another_commented_out.h\"

int main(void) {
    printf(\"Hello world\");
    return 0;
};",
    )
    .unwrap();

    assert_eq!(file_name, f.get_name());
    assert_eq!(
        &vec![
            String::from("iostream"),
            String::from("include_folder/foobar.h")
        ],
        f.get_used_modules()
    );
}

#[test]
fn include_with_trailing_comment_is_kept() {
    let f = File::make("a.cpp", "#include \"foo.h\" // why this one\n").unwrap();
    assert_eq!(&vec![String::from("foo.h")], f.get_used_modules());
}

#[test]
fn include_with_trailing_garbage_is_rejected() {
    let f = File::make("a.cpp", "#include \"foo.h\" nonsense\n").unwrap();
    assert_eq!(0, f.get_used_modules().len());
}

#[test]
fn shortest_viable_reference_is_captured() {
    // the first closing delimiter whose tail is acceptable ends the name
    let f = File::make("a.cpp", "#include <a>b>\n").unwrap();
    assert_eq!(&vec![String::from("a>b")], f.get_used_modules());
    let g = File::make("b.cpp", "#include \"foo//bar\"\n").unwrap();
    assert_eq!(&vec![String::from("foo//bar")], g.get_used_modules());
}

#[test]
fn indented_include_and_crlf_lines_parse() {
    let f = File::make("a.cpp", "   #include <one.h>\r\n\t#include\t\"two.h\"\r\n").unwrap();
    assert_eq!(
        &vec![String::from("one.h"), String::from("two.h")],
        f.get_used_modules()
    );
}

#[test]
fn empty_content_has_no_references() {
    let f = File::make("a.h", "").unwrap();
    assert_eq!(0, f.get_used_modules().len());
}

#[test]
fn duplicate_references_stay_in_raw_list() {
    let f = File::make("a.cpp", "#include \"x.h\"\n#include \"x.h\"\n").unwrap();
    assert_eq!(2, f.get_used_modules().len());
}
