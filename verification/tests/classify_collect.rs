use dupfind::collect::collect_candidates;
use dupfind::collect::partition_roots;
use dupfind::errors::ErrorKind;
use dupfind::errors::TraversalError;
use dupfind::file_data::FileData;
use dupfind::file_data::FileKind;

fn entry(path: &str, kind: FileKind) -> FileData {
    FileData::new(path.to_string(), 0, kind)
}

#[test]
fn from_flags_prefers_file_then_dir_then_link() {
    let f = FileData::from_flags("p".to_string(), 1, true, false, false);
    assert_eq!(f.kind, FileKind::File);
    let d = FileData::from_flags("p".to_string(), 1, false, true, false);
    assert_eq!(d.kind, FileKind::Directory);
    let l = FileData::from_flags("p".to_string(), 1, false, false, true);
    assert_eq!(l.kind, FileKind::Link);
    let o = FileData::from_flags("p".to_string(), 1, false, false, false);
    assert_eq!(o.kind, FileKind::Other);
    assert_eq!(f.path, "p");
    assert_eq!(f.size, 1);
    assert_eq!(f.content, None);
}

#[test]
fn kind_predicates() {
    assert!(entry("a", FileKind::File).is_file());
    assert!(!entry("a", FileKind::File).is_dir());
    assert!(entry("a", FileKind::Directory).is_dir());
    assert!(entry("a", FileKind::File).is_file_or_dir());
    assert!(entry("a", FileKind::Directory).is_file_or_dir());
    assert!(!entry("a", FileKind::Link).is_file_or_dir());
    assert!(!entry("a", FileKind::Other).is_file_or_dir());
}

#[test]
fn partition_roots_splits_files_and_dirs() {
    let roots = vec![
        entry("f1", FileKind::File),
        entry("d1", FileKind::Directory),
        entry("l1", FileKind::Link),
        entry("f2", FileKind::File),
        entry("o1", FileKind::Other),
    ];
    let (files, dirs) = partition_roots(roots);
    let file_paths: Vec<&str> = files.iter().map(|f| f.path.as_str()).collect();
    let dir_paths: Vec<&str> = dirs.iter().map(|f| f.path.as_str()).collect();
    assert_eq!(file_paths, vec!["f1", "f2"]);
    assert_eq!(dir_paths, vec!["d1"]);
}

#[test]
fn collect_candidates_keeps_only_regular_files() {
    let entries = vec![
        entry("a", FileKind::File),
        entry("sub", FileKind::Directory),
        entry("ln", FileKind::Link),
        entry("b", FileKind::File),
        entry("sock", FileKind::Other),
    ];
    let out = collect_candidates(entries);
    let paths: Vec<&str> = out.iter().map(|f| f.path.as_str()).collect();
    assert_eq!(paths, vec!["a", "b"]);
}

#[test]
fn traversal_error_keeps_its_fields() {
    let e = TraversalError::new(
        "some/path".to_string(),
        ErrorKind::PermissionDenied,
        "permission denied".to_string(),
    );
    assert_eq!(e.path, "some/path");
    assert_eq!(e.kind, ErrorKind::PermissionDenied);
    assert_eq!(e.detail, "permission denied");
}
