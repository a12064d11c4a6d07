use dupfind::errors::ErrorKind;
use dupfind::file_data::FileData;
use dupfind::file_data::FileKind;

fn file_with(path: &str, bytes: &[u8]) -> FileData {
    FileData::new(path.to_string(), bytes.len() as u64, FileKind::File).with_content(bytes.to_vec())
}

fn unread_file(path: &str, size: u64) -> FileData {
    FileData::new(path.to_string(), size, FileKind::File)
}

#[test]
fn size_mismatch_is_false_without_content() {
    // Neither side carries any bytes: the size prefilter alone decides.
    let a = unread_file("a", 2);
    let b = unread_file("b", 3);
    assert_eq!(a.is_duplicate(&b).unwrap(), false);
    assert_eq!(b.is_duplicate(&a).unwrap(), false);
}

#[test]
fn identical_content_is_duplicate() {
    let a = file_with("a.txt", b"hi");
    let b = file_with("b.txt", b"hi");
    assert_eq!(a.is_duplicate(&b).unwrap(), true);
}

#[test]
fn differing_byte_is_not_duplicate() {
    let a = file_with("a.txt", b"hi");
    let b = file_with("b.txt", b"ho");
    assert_eq!(a.is_duplicate(&b).unwrap(), false);
}

#[test]
fn empty_files_are_duplicates() {
    let a = file_with("a", b"");
    let b = file_with("b", b"");
    assert_eq!(a.is_duplicate(&b).unwrap(), true);
}

#[test]
fn long_content_first_mismatch_counts() {
    let a = file_with("a", &[1, 2, 3, 4, 5]);
    let b = file_with("b", &[1, 2, 9, 4, 5]);
    let c = file_with("c", &[1, 2, 3, 4, 5]);
    assert_eq!(a.is_duplicate(&b).unwrap(), false);
    assert_eq!(a.is_duplicate(&c).unwrap(), true);
}

#[test]
fn is_duplicate_is_symmetric() {
    let cases = [
        (file_with("a", b"xyz"), file_with("b", b"xyz")),
        (file_with("a", b"xyz"), file_with("b", b"xyw")),
        (file_with("a", b"x"), file_with("b", b"xy")),
        (file_with("a", b""), file_with("b", b"")),
    ];
    for (a, b) in cases.iter() {
        assert_eq!(a.is_duplicate(b).unwrap(), b.is_duplicate(a).unwrap());
    }
    // A pair that cannot be compared fails in both directions.
    let u = unread_file("u", 3);
    let v = file_with("v", b"abc");
    assert!(u.is_duplicate(&v).is_err());
    assert!(v.is_duplicate(&u).is_err());
}

#[test]
fn unreadable_side_surfaces_as_read_error() {
    let u = unread_file("locked.txt", 2);
    let v = file_with("open.txt", b"hi");
    let err = v.is_duplicate(&u).unwrap_err();
    assert_eq!(err.kind, ErrorKind::IoReadError);
    assert_eq!(err.path, "locked.txt");
    let err = u.is_duplicate(&v).unwrap_err();
    assert_eq!(err.kind, ErrorKind::IoReadError);
    assert_eq!(err.path, "locked.txt");
}

#[test]
fn unreadable_pair_of_differing_size_still_compares() {
    // The prefilter answers before any read could be needed.
    let u = unread_file("u", 1);
    let v = unread_file("v", 2);
    assert_eq!(u.is_duplicate(&v).unwrap(), false);
}

#[test]
fn path_len_counts_characters() {
    let f = unread_file("abc", 0);
    assert_eq!(f.path_len(), 3);
}

#[test]
fn with_content_keeps_the_descriptor() {
    let f = FileData::new("p".to_string(), 2, FileKind::File).with_content(vec![7, 8]);
    assert_eq!(f.path, "p");
    assert_eq!(f.size, 2);
    assert_eq!(f.kind, FileKind::File);
    assert_eq!(f.content, Some(vec![7, 8]));
}
