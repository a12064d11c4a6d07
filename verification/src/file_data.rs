//! One filesystem entry considered for comparison, and the equality oracle.
//!
//! A `FileData` is created once from metadata and never re-read: `path` is
//! the locator and tie-break key, `size` the cheap prefilter, `kind` decides
//! whether the entry may take part in a comparison at all.  The bytes of a
//! regular file are attached by the caller once it has read them; `None`
//! means the file could not be read back.

use vstd::prelude::*;
use vstd::string::StrSliceExecFns;
use crate::errors::ErrorKind;
use crate::errors::TraversalError;

verus! {

/// The type of a filesystem entry, read without following symlinks.
#[derive(Debug, Clone, Copy, PartialEq, Eq, Structural)]
pub enum FileKind {
    Other,
    File,
    Directory,
    Link,
}

/// One entry considered for duplicate detection.
#[derive(Debug, Clone)]
pub struct FileData {
    /// Path string, used as locator and as the display / tie-break key.
    pub path: String,
    /// Byte length captured at classification time.
    pub size: u64,
    /// What the entry is; only `File` entries take part in comparison.
    pub kind: FileKind,
    /// The bytes of the file, once read; `None` while unread or unreadable.
    pub content: Option<Vec<u8>>,
}

/// Two candidates denote byte-identical content: equal sizes, both
/// readable, and the same byte sequence.
pub open spec fn same_content(a: FileData, b: FileData) -> bool {
    a.size == b.size && a.content is Some && b.content is Some && a.content->0@ == b.content->0@
}

/// The oracle is symmetric: deciding `a` against `b` succeeds exactly
/// when deciding `b` against `a` does, and the verdicts agree.  Together
/// with the contract of `is_duplicate`, whose success and `Ok` verdict are
/// exactly these two conditions, the answer never depends on the order of
/// the two candidates.
pub proof fn lemma_is_duplicate_symmetric(a: FileData, b: FileData)
    ensures
        (a.size != b.size || (a.content is Some && b.content is Some)) == (b.size != a.size || (
        b.content is Some && a.content is Some)),
        same_content(a, b) == same_content(b, a),
{
}

/// The relation is transitive: byte equality carries over.
pub proof fn lemma_same_content_transitive(a: FileData, b: FileData, c: FileData)
    ensures
        same_content(a, b) && same_content(b, c) ==> same_content(a, c),
{
}

impl FileData {
    pub open spec fn is_file_spec(&self) -> bool {
        self.kind is File
    }

    pub open spec fn is_dir_spec(&self) -> bool {
        self.kind is Directory
    }

    pub fn new(path: String, size: u64, kind: FileKind) -> (f: Self)
        ensures
            f.path == path,
            f.size == size,
            f.kind == kind,
            f.content is None,
    {
        FileData { path, size, kind, content: None }
    }

    /// The same entry with the bytes that were read for it attached.
    pub fn with_content(self, bytes: Vec<u8>) -> (f: Self)
        ensures
            f.path == self.path,
            f.size == self.size,
            f.kind == self.kind,
            f.content == Some(bytes),
    {
        FileData { content: Some(bytes), ..self }
    }

    /// Classification from the metadata flags, checked in this order:
    /// regular file, directory, symlink, anything else.
    pub fn from_flags(path: String, size: u64, is_file: bool, is_dir: bool, is_symlink: bool) -> (f:
        Self)
        ensures
            f.path == path,
            f.size == size,
            f.content is None,
            f.kind == (if is_file {
                FileKind::File
            } else if is_dir {
                FileKind::Directory
            } else if is_symlink {
                FileKind::Link
            } else {
                FileKind::Other
            }),
    {
        let kind = if is_file {
            FileKind::File
        } else if is_dir {
            FileKind::Directory
        } else if is_symlink {
            FileKind::Link
        } else {
            FileKind::Other
        };
        FileData { path, size, kind, content: None }
    }

    pub fn is_file(&self) -> (r: bool)
        ensures
            r == self.is_file_spec(),
    {
        self.kind == FileKind::File
    }

    pub fn is_dir(&self) -> (r: bool)
        ensures
            r == self.is_dir_spec(),
    {
        self.kind == FileKind::Directory
    }

    pub fn is_file_or_dir(&self) -> (r: bool)
        ensures
            r == (self.is_file_spec() || self.is_dir_spec()),
    {
        self.is_file() || self.is_dir()
    }

    /// Length of the path in characters, the tie-break key.
    pub fn path_len(&self) -> (n: usize)
        ensures
            n == self.path@.len(),
    {
        self.path.as_str().unicode_len()
    }

    /// Decides whether `self` and `other` hold byte-identical content.
    ///
    /// Differing sizes are rejected at once, without looking at any bytes:
    /// the answer is then `Ok(false)` whatever the contents hold.  With
    /// equal sizes the bytes are compared, which needs both files to have
    /// been read; a missing side surfaces as an error naming that path,
    /// never as a silent `false`.
    pub fn is_duplicate(&self, other: &Self) -> (r: Result<bool, TraversalError>)
        ensures
            self.size != other.size ==> r == Ok::<bool, TraversalError>(false),
            r is Ok <==> (self.size != other.size || (self.content is Some
                && other.content is Some)),
            r is Ok ==> r->Ok_0 == same_content(*self, *other),
            r is Err ==> r->Err_0.kind is IoReadError,
            r is Err ==> r->Err_0.path@ == (if self.content is None {
                self.path@
            } else {
                other.path@
            }),
    {
        if self.size != other.size {
            return Ok(false);
        }
        match (&self.content, &other.content) {
            (Some(a), Some(b)) => Ok(bytes_equal(a, b)),
            (None, _) => Err(
                TraversalError::new(
                    self.path.clone(),
                    ErrorKind::IoReadError,
                    "content could not be read".to_string(),
                ),
            ),
            (_, None) => Err(
                TraversalError::new(
                    other.path.clone(),
                    ErrorKind::IoReadError,
                    "content could not be read".to_string(),
                ),
            ),
        }
    }
}

/// Byte-for-byte comparison in one forward pass, stopping at the first
/// mismatch.
fn bytes_equal(a: &Vec<u8>, b: &Vec<u8>) -> (r: bool)
    ensures
        r == (a@ == b@),
{
    if a.len() != b.len() {
        return false;
    }
    let mut i: usize = 0;
    while i < a.len()
        invariant
            i <= a@.len(),
            a@.len() == b@.len(),
            forall|j: int| 0 <= j < i ==> a@[j] == b@[j],
        decreases a@.len() - i,
    {
        if a[i] != b[i] {
            return false;
        }
        i = i + 1;
    }
    proof {
        assert(a@ =~= b@);
    }
    true
}

} // verus!
