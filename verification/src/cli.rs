//! What a program that lists files makes of its arguments.

use vstd::prelude::*;
use crate::dent::{DirEntry, to_vec};
use crate::walk::{WalkDir, WalkDirOptions};

verus! {

/// What a program that lists files was asked on its command line.
#[derive(Debug)]
pub struct Args {
    pub dirs: Vec<Vec<u8>>,
    pub follow_links: bool,
    pub min_depth: Option<usize>,
    pub max_depth: Option<usize>,
    pub max_open: Option<usize>,
    pub tree: bool,
    pub ignore_errors: bool,
    pub sort: bool,
    pub depth_first: bool,
    pub same_file_system: bool,
    pub timeit: bool,
    pub count: bool,
    pub justfiles: bool,
}

/// The least depth that comes of asking for `min` and then for `max`.
pub open spec fn asked_min_depth(min: Option<usize>) -> usize {
    match min {
        Some(x) => x,
        None => 0,
    }
}

/// The greatest depth that comes of asking for `min` and then for `max`: it
/// is raised to the least depth if it is below it.
pub open spec fn asked_max_depth(min: Option<usize>, max: Option<usize>) -> usize {
    match max {
        Some(x) => if x < asked_min_depth(min) {
            asked_min_depth(min)
        } else {
            x
        },
        None => usize::MAX,
    }
}

impl Args {
    /// The settings that the arguments ask for.
    pub open spec fn options(&self) -> WalkDirOptions {
        WalkDirOptions {
            follow_links: self.follow_links,
            max_open: match self.max_open {
                Some(0) => 1,
                Some(n) => n,
                None => 10,
            },
            min_depth: asked_min_depth(self.min_depth),
            max_depth: asked_max_depth(self.min_depth, self.max_depth),
            sorted: self.sort,
            contents_first: self.depth_first,
            same_file_system: self.same_file_system,
        }
    }

    /// Builds the traversal of `path` that the arguments ask for.
    pub fn walkdir(&self, path: &[u8]) -> (wd: WalkDir)
        ensures
            wd.root() == path@,
            wd.opts() == self.options(),
            wd.opts().valid(),
    {
        let mut walkdir = WalkDir::new(to_vec(path)).follow_links(self.follow_links).contents_first(
            self.depth_first,
        ).same_file_system(self.same_file_system);
        if let Some(x) = self.min_depth {
            walkdir = walkdir.min_depth(x);
        }
        if let Some(x) = self.max_depth {
            walkdir = walkdir.max_depth(x);
        }
        if let Some(x) = self.max_open {
            walkdir = walkdir.max_open(x);
        }
        if self.sort {
            walkdir = walkdir.sort_by(true);
        }
        walkdir
    }

    /// Whether the path of a record is printed in a flat listing: always,
    /// but for a directory when only files are asked for.
    pub fn prints(&self, dent: &DirEntry) -> (shown: bool)
        ensures
            shown == !(dent@.file_type.is_dir() && self.justfiles),
    {
        if dent.is_dir() {
            !self.justfiles
        } else {
            true
        }
    }
}

/// What a listing as a tree puts before the name of a file at depth
/// `depth`: two spaces for each level.
pub open spec fn spec_indent(depth: nat) -> Seq<u8>
    decreases depth,
{
    if depth == 0 {
        Seq::empty()
    } else {
        spec_indent((depth - 1) as nat).push(32u8).push(32u8)
    }
}

/// Builds what a listing as a tree puts before the name of a file.
pub fn indent(depth: usize) -> (spaces: Vec<u8>)
    ensures
        spaces@ == spec_indent(depth as nat),
{
    let mut spaces: Vec<u8> = Vec::new();
    let mut i: usize = 0;
    while i < depth
        invariant
            i <= depth,
            spaces@ == spec_indent(i as nat),
        decreases depth - i,
    {
        spaces.push(32u8);
        spaces.push(32u8);
        i += 1;
    }
    spaces
}

} // verus!
