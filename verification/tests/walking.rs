use dirlisting::entry::{Child, Kind};
use dirlisting::walk::{Progress, Walk};

fn child(name: &str, kind: Kind) -> Child {
    Child { name: name.to_string(), kind }
}

fn members_of(path: &str) -> Vec<Child> {
    match path {
        "" => vec![
            child("a.txt", Kind::File),
            child("sub", Kind::Directory),
            child("empty", Kind::Directory),
            child("pipe", Kind::Other),
        ],
        "sub" => vec![child("b.txt", Kind::File), child("deep", Kind::Directory)],
        "sub/deep" => vec![child("c.txt", Kind::File)],
        "empty" => vec![],
        _ => panic!("{} is no directory", path),
    }
}

#[test]
fn walk_starts_at_the_root() {
    match Walk::new().advance() {
        Progress::Read { directory, rest } => {
            assert_eq!(directory.to_relative_path(), "");
            match rest.advance() {
                Progress::Finished { files } => assert!(files.is_empty()),
                Progress::Read { .. } => panic!("only the root was pending"),
            }
        }
        Progress::Finished { .. } => panic!("the root was not read"),
    }
}

#[test]
fn walk_reads_the_directory_that_came_last_first() {
    let mut walk = Walk::new();
    let mut read = Vec::new();
    let files = loop {
        match walk.advance() {
            Progress::Finished { files } => break files,
            Progress::Read { directory, rest } => {
                let path = directory.to_relative_path();
                walk = rest.record(&directory, &members_of(&path));
                read.push(path);
            }
        }
    };
    assert_eq!(read, vec!["", "empty", "sub", "sub/deep"]);
    assert_eq!(files, vec!["a.txt", "sub/b.txt", "sub/deep/c.txt"]);
}

#[test]
fn walk_records_files_and_directories_only() {
    let walk = match Walk::new().advance() {
        Progress::Read { directory, rest } => rest.record(
            &directory,
            &vec![child("x", Kind::Other), child("f", Kind::File), child("y", Kind::Other)],
        ),
        Progress::Finished { .. } => panic!("the root was not read"),
    };
    match walk.advance() {
        Progress::Finished { files } => assert_eq!(files, vec!["f"]),
        Progress::Read { .. } => panic!("nothing was pending"),
    }
}
