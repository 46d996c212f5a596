use ancheck::indexer::base_name_of;
use ancheck::indexer::classify_file;
use ancheck::indexer::extension_of;
use ancheck::indexer::should_skip_dir;
use ancheck::launcher::launch_method;
use ancheck::launcher::LaunchMethod;

#[test]
fn test_classify_precedence() {
    // extension wins over the directory test
    assert_eq!(classify_file("exe", "C:\\Foo\\bar.exe", true), "app");
    assert_eq!(classify_file("pdf", "C:\\Docs\\readme.pdf", false), "document");
    // start-menu residents become apps even without a known extension
    assert_eq!(classify_file("", "C:\\ProgramData\\Start Menu\\Foo", false), "app");
    assert_eq!(classify_file("xyz", "C:\\Stuff\\thing.xyz", false), "other");
}

#[test]
fn test_classify_more_kinds() {
    assert_eq!(classify_file("LNK", "C:\\u\\a.LNK", false), "shortcut");
    assert_eq!(classify_file("", "C:\\u\\somedir", true), "folder");
    assert_eq!(classify_file("PNG", "C:\\u\\pic.PNG", false), "image");
    assert_eq!(classify_file("rs", "/src/main.rs", false), "code");
}

#[test]
fn test_base_name_and_extension() {
    assert_eq!(base_name_of("/home/user/file.tar.gz"), "file.tar.gz");
    assert_eq!(base_name_of("C:\\Users\\x\\doc.txt"), "doc.txt");
    assert_eq!(base_name_of("plain"), "plain");
    assert_eq!(base_name_of("/ends/with/"), "");
    assert_eq!(extension_of("file.tar.gz"), "gz");
    assert_eq!(extension_of("noext"), "");
    assert_eq!(extension_of(".hidden"), "");
    assert_eq!(extension_of("trailing."), "");
}

#[test]
fn test_should_skip_dir_case_insensitive() {
    let skip = vec!["node_modules".to_string(), "$recycle.bin".to_string()];
    assert!(should_skip_dir("Node_Modules", &skip));
    assert!(should_skip_dir("$RECYCLE.BIN", &skip));
    assert!(!should_skip_dir("src", &skip));
}

#[test]
fn test_launch_method_dispatch() {
    assert_eq!(launch_method("EXE", false), LaunchMethod::DirectExe);
    assert_eq!(launch_method("lnk", false), LaunchMethod::ShellOpen);
    assert_eq!(launch_method("", true), LaunchMethod::Explorer);
    assert_eq!(launch_method("", false), LaunchMethod::ShellOpen);
    assert_eq!(launch_method("pdf", false), LaunchMethod::ShellOpen);
}
