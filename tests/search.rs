use files_containing_word::outcome::{ErrorKind, ErrorWithPath, IoError, PathOutcome};
use files_containing_word::traversal::{Probe, Traversal};
use files_containing_word::word_filter::{filter_by_word, root_outcome};

const TEST_DATA_PATH: &str = "test_data/";
const ERROR_TEXT: &str = "error text";
const INVALID_PATH: &str = "nowhere";
const EMPTY_WORD: &str = "";
const WORD: &str = "wo rd";
const NON_DIR_ERROR_MSG: &str = "path doesn't identify an accessible directory";

fn io(kind: ErrorKind, message: &str) -> IoError {
    IoError { kind, message: message.to_string() }
}

fn dir(entries: &[&str]) -> Probe {
    Probe::Directory(entries.iter().map(|e| Ok(e.to_string())).collect())
}

/// A small tree: files, an unreadable binary file, an inaccessible directory,
/// an empty directory, a directory holding an inaccessible file, a directory
/// with a subdirectory, and a symlink to that directory.
fn sample_probe(path: &str) -> Probe {
    match path {
        "test_data/" => dir(&[
            "test_data/file0_0.txt",
            "test_data/binary_file0_0",
            "test_data/dir0_0_inaccessible",
            "test_data/dir0_1_empty",
            "test_data/dir0_2",
            "test_data/dir0_3",
            "test_data/dir0_3_symlink",
        ]),
        "test_data/file0_0.txt" | "test_data/binary_file0_0" => Probe::File,
        "test_data/dir0_0_inaccessible" => Probe::Unlistable(io(ErrorKind::PermissionDenied, "Permission denied (os error 13)")),
        "test_data/dir0_1_empty" => dir(&[]),
        "test_data/dir0_2" => dir(&["test_data/dir0_2/file1_0_inaccessible.txt"]),
        "test_data/dir0_2/file1_0_inaccessible.txt" => Probe::File,
        "test_data/dir0_3" => dir(&["test_data/dir0_3/file1_0.txt", "test_data/dir0_3/file1_1.txt", "test_data/dir0_3/dir1_0"]),
        "test_data/dir0_3/dir1_0" => dir(&["test_data/dir0_3/dir1_0/file2_0.txt"]),
        "test_data/dir0_3_symlink" => dir(&[
            "test_data/dir0_3_symlink/file1_0.txt",
            "test_data/dir0_3_symlink/file1_1.txt",
            "test_data/dir0_3_symlink/dir1_0",
        ]),
        "test_data/dir0_3_symlink/dir1_0" => dir(&["test_data/dir0_3_symlink/dir1_0/file2_0.txt"]),
        p if p.starts_with("test_data/dir0_3") && p.ends_with(".txt") => Probe::File,
        _ => Probe::MetadataFailed(io(ErrorKind::NotFound, "No such file or directory (os error 2)")),
    }
}

fn sample_read(path: &str) -> Result<String, IoError> {
    match path {
        "test_data/binary_file0_0" => Err(io(ErrorKind::Other, "stream did not contain valid UTF-8")),
        "test_data/dir0_2/file1_0_inaccessible.txt" => Err(io(ErrorKind::PermissionDenied, "Permission denied (os error 13)")),
        "test_data/file0_0.txt" => Ok("a line with the wo rd in it\n".to_string()),
        p if p.ends_with("file1_0.txt") => Ok("wo rd\n".to_string()),
        _ => Ok("nothing to see\n".to_string()),
    }
}

fn walk(input: PathOutcome, probe: &dyn Fn(&str) -> Probe) -> Vec<PathOutcome> {
    let mut t = Traversal::new(input);
    while let Some(path) = t.next_path() {
        t.record(probe(&path));
    }
    t.into_outcomes()
}

fn search(root: &str, is_dir: bool, word: &str) -> Vec<PathOutcome> {
    let outcomes = walk(root_outcome(root.to_string(), is_dir), &sample_probe);
    let reads: Vec<Option<Result<String, IoError>>> = outcomes
        .iter()
        .map(|o| match o {
            PathOutcome::Found(p) => Some(sample_read(p)),
            PathOutcome::Failed(_) => None,
        })
        .collect();
    filter_by_word(&outcomes, &reads, word)
}

fn counts(v: &[PathOutcome]) -> (usize, usize) {
    let found = v.iter().filter(|o| matches!(o, PathOutcome::Found(_))).count();
    (found, v.len() - found)
}

fn found_path(o: &PathOutcome) -> Option<&str> {
    match o {
        PathOutcome::Found(p) => Some(p.as_str()),
        PathOutcome::Failed(_) => None,
    }
}

fn failure(o: &PathOutcome) -> Option<&ErrorWithPath> {
    match o {
        PathOutcome::Found(_) => None,
        PathOutcome::Failed(e) => Some(e),
    }
}

#[test]
fn file_list_test() {
    //an error as input
    let error = ErrorWithPath { error: io(ErrorKind::InvalidInput, ERROR_TEXT), path: Some(TEST_DATA_PATH.to_string()) };
    let files = walk(PathOutcome::Failed(error), &sample_probe);
    assert_eq!(files.len(), 1);
    let e = failure(&files[0]).unwrap();
    assert!(e.error.kind == ErrorKind::InvalidInput && e.error.message == ERROR_TEXT && e.path.as_deref() == Some(TEST_DATA_PATH));

    //an invalid path as input
    let files = walk(PathOutcome::Found(INVALID_PATH.to_string()), &sample_probe);
    assert_eq!(files.len(), 1);
    let e = failure(&files[0]).unwrap();
    assert!(e.error.kind == ErrorKind::NotFound && e.path.as_deref() == Some(INVALID_PATH));

    //a text file as input
    let file_path = TEST_DATA_PATH.to_owned() + "file0_0.txt";
    let files = walk(PathOutcome::Found(file_path.clone()), &sample_probe);
    assert_eq!(files.len(), 1);
    assert_eq!(found_path(&files[0]), Some(file_path.as_str()));

    //a binary file as input
    let file_path = TEST_DATA_PATH.to_owned() + "binary_file0_0";
    let files = walk(PathOutcome::Found(file_path.clone()), &sample_probe);
    assert_eq!(files.len(), 1);
    assert_eq!(found_path(&files[0]), Some(file_path.as_str()));

    //an inaccessible dir as input
    let dir_path = TEST_DATA_PATH.to_owned() + "dir0_0_inaccessible";
    let files = walk(PathOutcome::Found(dir_path.clone()), &sample_probe);
    assert_eq!(files.len(), 1);
    let e = failure(&files[0]).unwrap();
    assert!(e.error.kind == ErrorKind::PermissionDenied && e.path.as_deref() == Some(dir_path.as_str()));

    //an empty dir as input
    let dir_path = TEST_DATA_PATH.to_owned() + "dir0_1_empty";
    let files = walk(PathOutcome::Found(dir_path), &sample_probe);
    assert_eq!(files.len(), 0);

    //a dir containing an inaccessible file as input
    let dir_path = TEST_DATA_PATH.to_owned() + "dir0_2";
    let files = walk(PathOutcome::Found(dir_path.clone()), &sample_probe);
    assert_eq!(files.len(), 1);
    assert_eq!(found_path(&files[0]), Some((dir_path + "/file1_0_inaccessible.txt").as_str()));

    //a dir containing two regular files and a dir with one file as input
    let dir_path = TEST_DATA_PATH.to_owned() + "dir0_3";
    let files = walk(PathOutcome::Found(dir_path), &sample_probe);
    assert_eq!(files.len(), 3);
    assert_eq!(counts(&files), (3, 0));

    //same as above, but via a symlink
    let dir_path = TEST_DATA_PATH.to_owned() + "dir0_3_symlink";
    let files = walk(PathOutcome::Found(dir_path), &sample_probe);
    assert_eq!(files.len(), 3);
    assert_eq!(counts(&files), (3, 0));

    //the whole test folder
    let files = walk(PathOutcome::Found(TEST_DATA_PATH.to_string()), &sample_probe);
    assert_eq!(files.len(), 10);
    assert_eq!(counts(&files), (9, 1));
}

#[test]
fn word_filter_test() {
    //non-dir input
    let file_path = TEST_DATA_PATH.to_owned() + "file0_0.txt";
    let files = search(&file_path, false, EMPTY_WORD);
    assert_eq!(files.len(), 1);
    let e = failure(&files[0]).unwrap();
    assert!(e.error.kind == ErrorKind::InvalidInput && e.error.message == NON_DIR_ERROR_MSG && e.path.as_deref() == Some(file_path.as_str()));

    //empty word
    let files = search(TEST_DATA_PATH, true, EMPTY_WORD);
    assert_eq!(files.len(), 10);
    assert_eq!(counts(&files), (7, 3));

    //non-empty word
    let files = search(TEST_DATA_PATH, true, WORD);
    assert_eq!(files.len(), 6);
    assert_eq!(counts(&files), (3, 3));
}
