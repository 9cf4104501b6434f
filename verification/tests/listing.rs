use dirlisting::entry::{select_entries, Child, Entry, Kind};
use dirlisting::error::{ListError, Operation};
use dirlisting::path::Location;
use dirlisting::tree::Tree;

fn sample() -> Tree {
    let mut deep = Tree::directory();
    assert!(deep.insert("c.txt", Tree::file()));
    let mut sub = Tree::directory();
    assert!(sub.insert("b.txt", Tree::file()));
    assert!(sub.insert("deep", deep));
    let mut root = Tree::directory();
    assert!(root.insert("a.txt", Tree::file()));
    assert!(root.insert("sub", sub));
    assert!(root.insert("empty", Tree::directory()));
    root
}

fn entry(name: &str, is_dir: bool) -> Entry {
    Entry { name: name.to_string(), is_dir }
}

fn sorted(mut paths: Vec<String>) -> Vec<String> {
    paths.sort();
    paths
}

#[test]
fn all_files_of_the_sample_tree() {
    let files = sample().list_all_files().unwrap();
    assert_eq!(files.len(), 3);
    assert_eq!(sorted(files), vec!["a.txt", "sub/b.txt", "sub/deep/c.txt"]);
}

#[test]
fn all_files_of_an_empty_root() {
    assert_eq!(Tree::directory().list_all_files().unwrap(), Vec::<String>::new());
}

#[test]
fn all_files_skips_what_is_no_regular_file() {
    let mut root = Tree::directory();
    assert!(root.insert("socket", Tree::other()));
    assert!(root.insert("notes", Tree::file()));
    assert_eq!(root.list_all_files().unwrap(), vec!["notes"]);
}

#[test]
fn all_files_twice_gives_the_same() {
    let tree = sample();
    let first = tree.list_all_files().unwrap();
    let second = tree.list_all_files().unwrap();
    assert_eq!(sorted(first), sorted(second));
}

#[test]
fn all_files_fails_on_one_unreadable_directory() {
    let mut sub = Tree::directory();
    assert!(sub.insert("b.txt", Tree::file()));
    assert!(sub.insert("locked", Tree::unreadable("permission denied")));
    let mut root = Tree::directory();
    assert!(root.insert("a.txt", Tree::file()));
    assert!(root.insert("sub", sub));
    assert_eq!(
        root.list_all_files(),
        Err(ListError::DirectoryRead {
            operation: Operation::ListAllFiles,
            path: "sub/locked".to_string(),
            message: "permission denied".to_string(),
        })
    );
}

#[test]
fn all_files_fails_when_the_root_is_no_directory() {
    assert_eq!(
        Tree::file().list_all_files(),
        Err(ListError::DirectoryRead {
            operation: Operation::ListAllFiles,
            path: String::new(),
            message: "not a directory".to_string(),
        })
    );
}

#[test]
fn all_files_fails_when_the_root_cannot_be_read() {
    assert_eq!(
        Tree::unreadable("stale handle").list_all_files(),
        Err(ListError::DirectoryRead {
            operation: Operation::ListAllFiles,
            path: String::new(),
            message: "stale handle".to_string(),
        })
    );
}

#[test]
fn all_files_of_a_deep_tree() {
    let mut tree = Tree::directory();
    assert!(tree.insert("leaf", Tree::file()));
    let mut expected = String::from("leaf");
    for _ in 0..200 {
        let mut outer = Tree::directory();
        assert!(outer.insert("d", tree));
        tree = outer;
        expected = format!("d/{}", expected);
    }
    assert_eq!(tree.list_all_files().unwrap(), vec![expected]);
}

#[test]
fn directory_of_the_sample_tree() {
    let tree = sample();
    assert_eq!(
        tree.list_directory("sub", None, None).unwrap(),
        vec![entry("b.txt", false), entry("deep", true)]
    );
    assert_eq!(tree.list_directory("empty", None, None).unwrap(), Vec::<Entry>::new());
}

#[test]
fn directory_that_is_missing() {
    assert_eq!(
        sample().list_directory("missing", None, None),
        Err(ListError::DirectoryRead {
            operation: Operation::ListDirectory,
            path: "missing".to_string(),
            message: "no such file or directory".to_string(),
        })
    );
}

#[test]
fn directory_that_is_a_file() {
    assert_eq!(
        sample().list_directory("sub/b.txt", None, None),
        Err(ListError::DirectoryRead {
            operation: Operation::ListDirectory,
            path: "sub/b.txt".to_string(),
            message: "not a directory".to_string(),
        })
    );
}

#[test]
fn directory_that_cannot_be_read() {
    let mut root = Tree::directory();
    assert!(root.insert("locked", Tree::unreadable("permission denied")));
    assert_eq!(root.list_directory("", None, None).unwrap(), vec![entry("locked", true)]);
    assert_eq!(
        root.list_directory("locked", None, None),
        Err(ListError::DirectoryRead {
            operation: Operation::ListDirectory,
            path: "locked".to_string(),
            message: "permission denied".to_string(),
        })
    );
}

#[test]
fn root_listing_holds_the_members_of_the_root_only() {
    let expected = vec![entry("a.txt", false), entry("sub", true), entry("empty", true)];
    assert_eq!(sample().list_directory("", None, None).unwrap(), expected);
    assert_eq!(sample().list_directory("", Some(true), Some(true)).unwrap(), expected);
}

#[test]
fn listing_without_directories() {
    let entries = sample().list_directory("", Some(false), None).unwrap();
    assert_eq!(entries, vec![entry("a.txt", false)]);
    assert!(entries.iter().all(|e| !e.is_dir));
}

#[test]
fn listing_without_files() {
    let entries = sample().list_directory("", None, Some(false)).unwrap();
    assert_eq!(entries, vec![entry("sub", true), entry("empty", true)]);
    assert!(entries.iter().all(|e| e.is_dir));
}

#[test]
fn listing_without_both() {
    assert_eq!(sample().list_directory("", Some(false), Some(false)).unwrap(), Vec::<Entry>::new());
}

#[test]
fn listing_twice_gives_the_same() {
    let tree = sample();
    assert_eq!(tree.list_directory("sub", None, None), tree.list_directory("sub", None, None));
    assert_eq!(tree.list_directory("nowhere", None, None), tree.list_directory("nowhere", None, None));
}

#[test]
fn listing_reads_the_path_before_it_looks() {
    let tree = sample();
    let expected = vec![entry("c.txt", false)];
    assert_eq!(tree.list_directory("sub/deep", None, None).unwrap(), expected);
    assert_eq!(tree.list_directory("sub/./deep/", None, None).unwrap(), expected);
    assert_eq!(tree.list_directory("sub//deep", None, None).unwrap(), expected);
    assert_eq!(tree.list_directory("empty/../sub/deep", None, None).unwrap(), expected);
    assert_eq!(tree.list_directory("sub\\deep", None, None).unwrap(), expected);
    assert_eq!(tree.list_directory("missing/../sub/deep", None, None).unwrap(), expected);
}

#[test]
fn listing_refuses_a_path_that_leaves_the_root() {
    let tree = sample();
    for path in ["..", "../", "sub/../..", "sub/../../sub", "/", "/sub", "\\sub", "..\\sub", "./.."] {
        assert_eq!(
            tree.list_directory(path, None, None),
            Err(ListError::PathEscape { path: path.to_string() }),
            "{}",
            path
        );
    }
}

#[test]
fn members_that_are_neither_file_nor_directory_are_not_shown() {
    let children = vec![
        Child { name: "pipe".to_string(), kind: Kind::Other },
        Child { name: "dir".to_string(), kind: Kind::Directory },
        Child { name: "file".to_string(), kind: Kind::File },
    ];
    assert_eq!(
        select_entries(&children, None, None),
        vec![entry("dir", true), entry("file", false)]
    );
    assert_eq!(select_entries(&children, Some(false), None), vec![entry("file", false)]);
    assert_eq!(select_entries(&children, None, Some(false)), vec![entry("dir", true)]);
    assert_eq!(select_entries(&children, Some(false), Some(false)), Vec::<Entry>::new());
    assert_eq!(select_entries(&Vec::new(), None, None), Vec::<Entry>::new());
}

#[test]
fn reading_a_directory_of_the_tree() {
    let tree = sample();
    let sub = Location::root().child("sub");
    assert_eq!(
        tree.read_directory(&sub),
        Ok(vec![
            Child { name: "b.txt".to_string(), kind: Kind::File },
            Child { name: "deep".to_string(), kind: Kind::Directory },
        ])
    );
    assert_eq!(
        tree.read_directory(&sub.child("nothing")),
        Err("no such file or directory".to_string())
    );
    assert_eq!(tree.read_directory(&sub.child("b.txt")), Err("not a directory".to_string()));
    assert_eq!(tree.descend(&sub.child("deep").child("c.txt")).unwrap().entry_kind(), Kind::File);
    assert_eq!(tree.descend(&sub.child("deep")).unwrap().entry_kind(), Kind::Directory);
    assert_eq!(tree.descend(&Location::root()).unwrap().entry_kind(), Kind::Directory);
    assert!(tree.descend(&sub.child("c.txt")).is_none());
    assert!(tree.descend(&sub.child("b.txt").child("x")).is_none());
    assert_eq!(Tree::other().entry_kind(), Kind::Other);
    assert_eq!(Tree::unreadable("no").entry_kind(), Kind::Directory);
}

#[test]
fn insert_keeps_the_names_of_a_directory_apart() {
    let mut root = Tree::directory();
    assert!(root.insert("a", Tree::file()));
    assert!(!root.insert("a", Tree::directory()));
    assert!(!root.insert("", Tree::file()));
    assert!(!root.insert(".", Tree::file()));
    assert!(!root.insert("..", Tree::file()));
    assert!(!root.insert("x/y", Tree::file()));
    assert!(!root.insert("x\\y", Tree::file()));
    assert!(root.insert("...", Tree::file()));
    assert!(root.insert(".hidden", Tree::file()));
    assert_eq!(sorted(root.list_all_files().unwrap()), vec!["...", ".hidden", "a"]);
    let mut file = Tree::file();
    assert!(!file.insert("a", Tree::file()));
    let mut locked = Tree::unreadable("no");
    assert!(!locked.insert("a", Tree::file()));
}
