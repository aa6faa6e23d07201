//! The records of a traversal, and what a directory listing and a stat hand
//! to it.

use vstd::prelude::*;
use vstd::slice::slice_subrange;
use crate::os::unix::rawpath::{SEPARATOR, strip_element, strip_separators};

verus! {

/// What kind of file a path designates, as far as a traversal cares.
#[derive(Clone, Copy, Debug, PartialEq, Eq, Structural)]
pub enum FileKind {
    File,
    Dir,
    Symlink,
    Other,
}

/// The type of a file, independent of the platform that reported it.
#[derive(Clone, Copy, Debug, PartialEq, Eq, Structural)]
pub struct FileType(pub FileKind);

impl FileType {
    pub open spec fn spec_is_file(&self) -> bool {
        self.0 == FileKind::File
    }

    pub open spec fn spec_is_dir(&self) -> bool {
        self.0 == FileKind::Dir
    }

    pub open spec fn spec_is_symlink(&self) -> bool {
        self.0 == FileKind::Symlink
    }

    /// Returns true if this file type is a regular file.
    #[verifier::when_used_as_spec(spec_is_file)]
    pub fn is_file(&self) -> (b: bool)
        ensures
            b == self.spec_is_file(),
    {
        self.0 == FileKind::File
    }

    /// Returns true if this file type is a directory.
    #[verifier::when_used_as_spec(spec_is_dir)]
    pub fn is_dir(&self) -> (b: bool)
        ensures
            b == self.spec_is_dir(),
    {
        self.0 == FileKind::Dir
    }

    /// Returns true if this file type is a symbolic link.
    #[verifier::when_used_as_spec(spec_is_symlink)]
    pub fn is_symlink(&self) -> (b: bool)
        ensures
            b == self.spec_is_symlink(),
    {
        self.0 == FileKind::Symlink
    }
}

/// What a stat of a path reports: the type of the file, and the pair of
/// device and file serial number that identifies it. The device is `None` on
/// a platform that cannot tell it.
#[derive(Clone, Copy, Debug, PartialEq, Eq, Structural)]
pub struct Metadata {
    pub file_type: FileType,
    pub dev: Option<u64>,
    pub ino: u64,
}

/// One entry as a directory listing hands it out: the name within the
/// directory, the type of the file if the listing tells it, and the file
/// serial number.
#[derive(Debug)]
pub struct RawEntry {
    pub name: Vec<u8>,
    pub file_type: Option<FileType>,
    pub ino: u64,
}

pub struct RawEntryView {
    pub name: Seq<u8>,
    pub file_type: Option<FileType>,
    pub ino: u64,
}

impl View for RawEntry {
    type V = RawEntryView;

    open spec fn view(&self) -> RawEntryView {
        RawEntryView { name: self.name@, file_type: self.file_type, ino: self.ino }
    }
}

/// The path of the entry `name` of the directory `dir`: the two joined by a
/// separator, unless `dir` is empty or brings one at its end.
pub open spec fn spec_child_path(dir: Seq<u8>, name: Seq<u8>) -> Seq<u8> {
    if dir.len() == 0 || dir.last() == SEPARATOR {
        dir + name
    } else {
        dir.push(SEPARATOR) + name
    }
}

/// Builds the path of an entry from the path of its directory and its name.
pub fn child_path(dir: &[u8], name: &[u8]) -> (path: Vec<u8>)
    ensures
        path@ == spec_child_path(dir@, name@),
{
    let mut path: Vec<u8> = Vec::new();
    path.extend_from_slice(dir);
    let n: usize = dir.len();
    if n > 0 && dir[n - 1] != SEPARATOR {
        path.push(SEPARATOR);
    }
    path.extend_from_slice(name);
    assert(path@ =~= spec_child_path(dir@, name@));
    path
}

/// Where the last element of `path` ends: before its trailing separators.
pub open spec fn name_end(path: Seq<u8>) -> int {
    strip_separators(path, path.len() as int, 0)
}

/// Where the last element of `path` starts: behind the last separator before
/// its end.
pub open spec fn name_start(path: Seq<u8>) -> int {
    strip_element(path, name_end(path))
}

/// The final element of `path`, or the whole path if it has none: if it is
/// empty, is made of separators alone, or ends in `..`.
pub open spec fn spec_file_name(path: Seq<u8>) -> Seq<u8> {
    let name = path.subrange(name_start(path), name_end(path));
    if name.len() == 0 || name == seq![46u8, 46u8] {
        path
    } else {
        name
    }
}

/// Copies a slice of bytes into a vector.
pub fn to_vec(bytes: &[u8]) -> (v: Vec<u8>)
    ensures
        v@ == bytes@,
{
    let mut v: Vec<u8> = Vec::new();
    v.extend_from_slice(bytes);
    assert(v@ =~= bytes@);
    v
}

/// A record of one file that a traversal came upon.
#[derive(Debug)]
pub struct DirEntry {
    path: Vec<u8>,
    file_type: FileType,
    follow_link: bool,
    depth: usize,
    ino: u64,
}

pub struct DirEntryView {
    pub path: Seq<u8>,
    pub file_type: FileType,
    pub follow_link: bool,
    pub depth: usize,
    pub ino: u64,
}

impl View for DirEntry {
    type V = DirEntryView;

    closed spec fn view(&self) -> DirEntryView {
        DirEntryView {
            path: self.path@,
            file_type: self.file_type,
            follow_link: self.follow_link,
            depth: self.depth,
            ino: self.ino,
        }
    }
}

impl DirEntryView {
    /// The same record with another file type.
    pub open spec fn with_type(self, file_type: FileType) -> DirEntryView {
        DirEntryView { file_type, ..self }
    }

    /// The same record with the type and the serial number that a stat
    /// reported.
    pub open spec fn with_stat(self, md: Metadata) -> DirEntryView {
        DirEntryView { file_type: md.file_type, ino: md.ino, ..self }
    }

    /// The record of the target of a link: it has the type and the serial
    /// number of the target, and says that a link was followed.
    pub open spec fn followed(self, md: Metadata) -> DirEntryView {
        DirEntryView { file_type: md.file_type, follow_link: true, ino: md.ino, ..self }
    }

    /// True if the path given to the traversal led over a symbolic link:
    /// either the file is one, or the record stands for the target of one.
    pub open spec fn path_is_symlink(self) -> bool {
        self.file_type.is_symlink() || self.follow_link
    }
}

impl Clone for DirEntry {
    fn clone(&self) -> (copy: DirEntry)
        ensures
            copy@ == self@,
    {
        DirEntry {
            path: to_vec(self.path.as_slice()),
            file_type: self.file_type,
            follow_link: self.follow_link,
            depth: self.depth,
            ino: self.ino,
        }
    }
}

impl DirEntry {
    /// Makes a record from its parts.
    pub fn new(path: Vec<u8>, file_type: FileType, follow_link: bool, depth: usize, ino: u64) -> (dent:
        DirEntry)
        ensures
            dent@ == (DirEntryView { path: path@, file_type, follow_link, depth, ino }),
    {
        DirEntry { path, file_type, follow_link, depth, ino }
    }

    /// Makes the record of an entry of a directory, as its listing gave it:
    /// the path is that of the directory joined with the name, and no link
    /// was followed.
    pub fn from_raw(dir: &[u8], raw: &RawEntry, file_type: FileType, depth: usize) -> (dent:
        DirEntry)
        ensures
            dent@ == spec_from_raw(dir@, raw@, file_type, depth),
    {
        DirEntry {
            path: child_path(dir, raw.name.as_slice()),
            file_type,
            follow_link: false,
            depth,
            ino: raw.ino,
        }
    }

    /// The path of the file: the path of the root joined with the names of
    /// the directories on the way, and the file's own name.
    pub fn path(&self) -> (path: &[u8])
        ensures
            path@ == self@.path,
    {
        self.path.as_slice()
    }

    /// Hands out the path of the file.
    pub fn into_path(self) -> (path: Vec<u8>)
        ensures
            path@ == self@.path,
    {
        self.path
    }

    /// The type of the file. It is that of the target of a link if the record
    /// was made by following one, and that of the file itself otherwise.
    pub fn file_type(&self) -> (ft: FileType)
        ensures
            ft == self@.file_type,
    {
        self.file_type
    }

    /// Whether the file is a directory.
    pub fn is_dir(&self) -> (b: bool)
        ensures
            b == self@.file_type.is_dir(),
    {
        self.file_type.is_dir()
    }

    /// Whether the record was made by following a symbolic link.
    pub fn follow_link(&self) -> (b: bool)
        ensures
            b == self@.follow_link,
    {
        self.follow_link
    }

    /// True if the path leads over a symbolic link: either the file is one,
    /// or the record was made by following one.
    pub fn path_is_symlink(&self) -> (b: bool)
        ensures
            b == self@.path_is_symlink(),
    {
        self.file_type.is_symlink() || self.follow_link
    }

    /// The depth at which the file was found: 0 for the root, 1 for what the
    /// root holds, and so on.
    pub fn depth(&self) -> (depth: usize)
        ensures
            depth == self@.depth,
    {
        self.depth
    }

    /// The final element of the path, or the whole path if it has none.
    pub fn file_name(&self) -> (name: &[u8])
        ensures
            name@ == spec_file_name(self@.path),
    {
        let path = self.path.as_slice();
        let len: usize = path.len();
        let mut end: usize = len;
        while end > 0 && path[end - 1] == SEPARATOR
            invariant
                end <= len,
                len == path@.len(),
                strip_separators(path@, end as int, 0) == name_end(path@),
            decreases end,
        {
            end -= 1;
        }
        let mut start: usize = end;
        while start > 0 && path[start - 1] != SEPARATOR
            invariant
                start <= end <= len,
                len == path@.len(),
                strip_element(path@, start as int) == strip_element(path@, end as int),
            decreases start,
        {
            start -= 1;
        }
        let name = slice_subrange(path, start, end);
        if end - start == 0 {
            path
        } else if end - start == 2 && name[0] == 46u8 && name[1] == 46u8 {
            assert(name@ =~= seq![46u8, 46u8]);
            path
        } else {
            assert(name@ != seq![46u8, 46u8]) by {
                if name@ == seq![46u8, 46u8] {
                    assert(seq![46u8, 46u8].len() == 2);
                    assert(seq![46u8, 46u8][0] == 46u8);
                    assert(seq![46u8, 46u8][1] == 46u8);
                }
            }
            name
        }
    }

    /// What a stat of this record has to follow: the link, if the record was
    /// made by following one, so that it reports on the target.
    pub fn metadata_follows(&self) -> (follow: bool)
        ensures
            follow == self@.follow_link,
    {
        self.follow_link
    }

    /// Sets the type of the file.
    pub fn set_file_type(&mut self, file_type: FileType)
        ensures
            final(self)@ == old(self)@.with_type(file_type),
    {
        self.file_type = file_type;
    }

    /// Sets the type and the serial number of the file to what a stat
    /// reported.
    pub fn set_stat(&mut self, md: &Metadata)
        ensures
            final(self)@ == old(self)@.with_stat(*md),
    {
        self.file_type = md.file_type;
        self.ino = md.ino;
    }

    /// Turns the record of a link into the record of its target, of which
    /// `md` reports.
    pub fn set_followed(&mut self, md: &Metadata)
        ensures
            final(self)@ == old(self)@.followed(*md),
    {
        self.file_type = md.file_type;
        self.follow_link = true;
        self.ino = md.ino;
    }
}

pub open spec fn spec_from_raw(dir: Seq<u8>, raw: RawEntryView, file_type: FileType, depth: usize) -> DirEntryView {
    DirEntryView {
        path: spec_child_path(dir, raw.name),
        file_type,
        follow_link: false,
        depth,
        ino: raw.ino,
    }
}

/// What Unix adds to a record: the file serial number.
pub trait DirEntryExt {
    /// Returns the file serial number.
    fn ino(&self) -> u64;
}

impl DirEntryExt for DirEntry {
    fn ino(&self) -> (ino: u64)
        ensures
            ino == self@.ino,
    {
        self.ino
    }
}

} // verus!
