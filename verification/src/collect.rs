//! The pure part of candidate collection.
//!
//! The caller reads metadata and hands over classified entries; these
//! functions decide which entries take part.  Root arguments split into the
//! files to compare and the directories to expand; entries found below a
//! directory join the candidate set only when they are regular files, so a
//! symlink or any other non-regular entry never reaches a comparison.

use vstd::prelude::*;
use crate::file_data::FileData;

verus! {

broadcast use vstd::prelude::Seq::lemma_filter_push;

/// Splits the classified root arguments into regular files (immediate
/// candidates) and directories (to be expanded); anything else is dropped.
pub fn partition_roots(roots: Vec<FileData>) -> (r: (Vec<FileData>, Vec<FileData>))
    ensures
        r.0@ == roots@.filter(|f: FileData| f.kind is File),
        r.1@ == roots@.filter(|f: FileData| f.kind is Directory),
{
    let ghost all = roots@;
    let ghost mut done = Seq::<FileData>::empty();
    let mut rest = roots;
    let mut files: Vec<FileData> = Vec::new();
    let mut dirs: Vec<FileData> = Vec::new();
    while rest.len() > 0
        invariant
            all == done + rest@,
            files@ == done.filter(|f: FileData| f.kind is File),
            dirs@ == done.filter(|f: FileData| f.kind is Directory),
        decreases rest@.len(),
    {
        proof {
            assert(done.push(rest@[0]) + rest@.remove(0) =~= done + rest@);
        }
        let f = rest.remove(0);
        proof {
            done = done.push(f);
        }
        if f.is_file() {
            files.push(f);
        } else if f.is_dir() {
            dirs.push(f);
        }
    }
    proof {
        assert(done =~= all);
    }
    (files, dirs)
}

/// Keeps exactly the regular files among the classified entries: the flat
/// candidate set handed to grouping.
pub fn collect_candidates(entries: Vec<FileData>) -> (r: Vec<FileData>)
    ensures
        r@ == entries@.filter(|f: FileData| f.kind is File),
{
    let ghost all = entries@;
    let ghost mut done = Seq::<FileData>::empty();
    let mut rest = entries;
    let mut out: Vec<FileData> = Vec::new();
    while rest.len() > 0
        invariant
            all == done + rest@,
            out@ == done.filter(|f: FileData| f.kind is File),
        decreases rest@.len(),
    {
        proof {
            assert(done.push(rest@[0]) + rest@.remove(0) =~= done + rest@);
        }
        let f = rest.remove(0);
        proof {
            done = done.push(f);
        }
        if f.is_file() {
            out.push(f);
        }
    }
    proof {
        assert(done =~= all);
    }
    out
}

} // verus!
