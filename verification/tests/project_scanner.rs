use scar::project_scanner::ProjectScanner;

#[test]
fn valid_cpp_file_path_test() {
    let valid_path = "/media/workspace/file.cpp";
    assert!(ProjectScanner::is_valid_file_name(valid_path));
}

#[test]
fn valid_header_file_path_test() {
    let valid_path = "/media/workspace/file.h";
    assert!(ProjectScanner::is_valid_file_name(valid_path));
}

#[test]
fn invalid_hidden_directory_path_test() {
    let invalid_path = ".media/workspace/file.h";
    assert!(!ProjectScanner::is_valid_file_name(invalid_path));
}

#[test]
fn invalid_hidden_file_path_test() {
    let invalid_path = ".media/workspace/.file.cpp";
    assert!(!ProjectScanner::is_valid_file_name(invalid_path));
}

#[test]
fn blacklisted_directory_path_test() {
    let to_be_filtered = [
        "/media/workspace/Source/Intermediate/Plugins/Binaries/test.cpp",
        "/media/workspace/Source/Intermediate/Plugins/Binaries/SomePlugin/test.h",
        "/media/workspace/repos/BarFoo/FooBar/Intermediate/Build/Linux/UnrealEditor/Inc/KitchenEntities/UHT/KEKitchenMaterialDataC.generated.h",
        "/media/workspace/repos/BarFoo/FooBar/Plugins/SERE/Source/SimpleElementsRenderingExtension/Shaders",
        "/home/user/repos/BarFoo/FooBar/Plugins/USQLite/Source/Runtime/Public/USQLReflector.h",
        "/home/user/repos/BarFoo/FooBar/Plugins/USQLite/Source/Runtime/Public/USQLReflector.generated.h",
    ];
    for path in to_be_filtered.iter() {
        assert!(ProjectScanner::is_blacklisted(path));
    }

    let not_to_be_filtered = ["/media/workspace/Source/test.cpp", "/media/workspace/Source/test.h"];
    for path in not_to_be_filtered.iter() {
        assert!(!ProjectScanner::is_blacklisted(path));
    }
}

#[test]
fn scanner_keeps_its_base_path() {
    let scanner = ProjectScanner::make("/media/workspace").unwrap();
    assert_eq!("/media/workspace", scanner.get_base_path());
}

#[test]
fn valid_path_is_the_blacklist_complement() {
    assert!(ProjectScanner::is_valid_file_path("/media/workspace/Source/test.cpp"));
    assert!(!ProjectScanner::is_valid_file_path("/media/workspace/Intermediate/test.cpp"));
}
