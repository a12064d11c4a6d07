//! A maximal set of candidates judged mutually byte-identical.

use vstd::prelude::*;
use crate::file_data::FileData;

verus! {

/// One duplicate group as reported: its members in their final order, and
/// the member count, reported alongside the members.
#[derive(Debug)]
pub struct Group {
    pub count: usize,
    pub paths: Vec<FileData>,
}

impl Group {
    pub fn new(count: usize, paths: Vec<FileData>) -> (g: Self)
        ensures
            g.count == count,
            g.paths == paths,
    {
        Group { count, paths }
    }
}

impl Default for Group {
    fn default() -> (g: Self)
        ensures
            g.count == 1,
            g.paths@ == Seq::<FileData>::empty(),
    {
        Group { count: 1, paths: Vec::new() }
    }
}

} // verus!
