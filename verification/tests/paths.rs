use dirlisting::error::{ListError, Operation};
use dirlisting::path::{is_valid_name, resolve, Location};

fn segments(names: &[&str]) -> Vec<String> {
    names.iter().map(|s| s.to_string()).collect()
}

#[test]
fn resolve_the_root() {
    assert_eq!(resolve("").unwrap().segments, segments(&[]));
    assert_eq!(resolve(".").unwrap().segments, segments(&[]));
    assert_eq!(resolve("./").unwrap().segments, segments(&[]));
    assert_eq!(resolve("a/..").unwrap().segments, segments(&[]));
}

#[test]
fn resolve_plain_paths() {
    assert_eq!(resolve("a").unwrap().segments, segments(&["a"]));
    assert_eq!(resolve("a/b/c").unwrap().segments, segments(&["a", "b", "c"]));
    assert_eq!(resolve("a\\b").unwrap().segments, segments(&["a", "b"]));
    assert_eq!(resolve("a/b/").unwrap().segments, segments(&["a", "b"]));
    assert_eq!(resolve("a//b").unwrap().segments, segments(&["a", "b"]));
    assert_eq!(resolve("a/./b").unwrap().segments, segments(&["a", "b"]));
    assert_eq!(resolve("a/x/../b").unwrap().segments, segments(&["a", "b"]));
    assert_eq!(resolve("a/b/../../c").unwrap().segments, segments(&["c"]));
    assert_eq!(resolve("...").unwrap().segments, segments(&["..."]));
    assert_eq!(resolve("..a/.b").unwrap().segments, segments(&["..a", ".b"]));
    assert_eq!(resolve("Bilder/Übersicht").unwrap().segments, segments(&["Bilder", "Übersicht"]));
}

#[test]
fn resolve_refuses_to_leave_the_root() {
    for path in ["..", "a/../..", "../a", "/", "/a", "\\", "\\\\server\\share", "a/../../a", "a/b/../../.."] {
        assert_eq!(resolve(path), Err(ListError::PathEscape { path: path.to_string() }), "{}", path);
    }
}

#[test]
fn resolve_does_not_come_back_once_it_has_left() {
    assert!(resolve("../a/b/c").is_err());
    assert!(resolve("a/../../a/b").is_err());
}

#[test]
fn resolve_its_own_relative_path() {
    for path in ["", "a", "a/b/c", "x/../a/./b//c/"] {
        let location = resolve(path).unwrap();
        let again = resolve(&location.to_relative_path()).unwrap();
        assert_eq!(again, location);
    }
}

#[test]
fn relative_path_of_a_location() {
    assert_eq!(Location::root().to_relative_path(), "");
    assert_eq!(Location::root().child("a").to_relative_path(), "a");
    assert_eq!(Location::root().child("a").child("b").to_relative_path(), "a/b");
    assert_eq!(Location::root().child("sub").child("deep").child("c.txt").to_relative_path(), "sub/deep/c.txt");
}

#[test]
fn child_leaves_the_parent_as_it_was() {
    let parent = Location::root().child("a");
    let child = parent.child("b");
    assert_eq!(parent.segments, segments(&["a"]));
    assert_eq!(child.segments, segments(&["a", "b"]));
}

#[test]
fn names_of_members() {
    assert!(is_valid_name("a"));
    assert!(is_valid_name("a.txt"));
    assert!(is_valid_name(".a"));
    assert!(is_valid_name("..."));
    assert!(is_valid_name("a b"));
    assert!(is_valid_name("é"));
    assert!(!is_valid_name(""));
    assert!(!is_valid_name("."));
    assert!(!is_valid_name(".."));
    assert!(!is_valid_name("a/b"));
    assert!(!is_valid_name("a\\b"));
    assert!(!is_valid_name("/"));
}

#[test]
fn failures_in_words() {
    let read = ListError::DirectoryRead {
        operation: Operation::ListDirectory,
        path: "missing".to_string(),
        message: "no such file or directory".to_string(),
    };
    assert_eq!(
        read.describe(),
        "list_directory: cannot read directory \"missing\": no such file or directory"
    );
    let walk = ListError::DirectoryRead {
        operation: Operation::ListAllFiles,
        path: "sub/locked".to_string(),
        message: "permission denied".to_string(),
    };
    assert_eq!(
        walk.describe(),
        "list_all_files: cannot read directory \"sub/locked\": permission denied"
    );
    let escape = ListError::PathEscape { path: "../x".to_string() };
    assert_eq!(escape.describe(), "list_directory: path \"../x\" leads out of the root");
}
