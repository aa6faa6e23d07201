//! File types and file metadata as Windows has them.

use vstd::prelude::*;
use crate::dent::FileKind;
use crate::error::IoError;
use crate::os::windows::{file_time, join_halves, spec_file_time, spec_join_halves};
use crate::os::windows::{
    FILE_ATTRIBUTE_DIRECTORY, FILE_ATTRIBUTE_HIDDEN, FILE_ATTRIBUTE_REPARSE_POINT,
};

verus! {

/// Whether a reparse tag is one of a name surrogate: a file that stands for
/// another file, as a symbolic link does. This is the test that
/// `IsReparseTagNameSurrogate` of the Windows headers makes.
pub open spec fn spec_is_name_surrogate(tag: u32) -> bool {
    tag & 0x2000_0000 != 0
}

/// Tells whether a reparse tag is one of a name surrogate.
pub fn is_reparse_tag_name_surrogate(tag: u32) -> (b: bool)
    ensures
        b == spec_is_name_surrogate(tag),
{
    tag & 0x2000_0000 != 0
}

/// File type information discoverable from the `FindNextFile` winapi routines.
///
/// Note that this does not include all possible file types on Windows.
/// Instead, this only differentiates between directories, regular files and
/// symlinks.
#[derive(Clone, Copy, Debug, PartialEq, Eq, Structural)]
pub struct FileType {
    pub attr: u32,
    pub reparse_tag: u32,
}

impl FileType {
    /// The reparse tag, if the attributes say that the file has one.
    pub open spec fn spec_reparse_tag(&self) -> Option<u32> {
        if self.attr & FILE_ATTRIBUTE_REPARSE_POINT != 0 {
            Some(self.reparse_tag)
        } else {
            None
        }
    }

    pub open spec fn spec_is_symlink(&self) -> bool {
        match self.spec_reparse_tag() {
            Some(tag) => spec_is_name_surrogate(tag),
            None => false,
        }
    }

    pub open spec fn spec_is_dir(&self) -> bool {
        self.attr & FILE_ATTRIBUTE_DIRECTORY != 0 && !self.spec_is_symlink()
    }

    pub open spec fn spec_is_file(&self) -> bool {
        !self.spec_is_dir() && !self.spec_is_symlink()
    }

    pub open spec fn spec_is_symlink_dir(&self) -> bool {
        self.attr & FILE_ATTRIBUTE_DIRECTORY != 0 && self.spec_is_symlink()
    }

    pub open spec fn spec_is_symlink_file(&self) -> bool {
        !self.spec_is_symlink_dir() && self.spec_is_symlink()
    }

    /// The kind of file, as a traversal tells them apart.
    pub open spec fn kind(&self) -> FileKind {
        if self.spec_is_symlink() {
            FileKind::Symlink
        } else if self.spec_is_dir() {
            FileKind::Dir
        } else {
            FileKind::File
        }
    }

    /// Create a file type from its raw winapi components.
    ///
    /// `attr`  should be a file attribute bitset, corresponding to the
    /// `dwFileAttributes` member of file information structs.
    ///
    /// `reparse_tag` should be a valid reparse tag value when the
    /// `FILE_ATTRIBUTE_REPARSE_POINT` bit is set in `attr`. If the bit isn't
    /// set or if the tag is not available, then the tag can be any value.
    pub fn from_attr(attr: u32, reparse_tag: u32) -> (ft: FileType)
        ensures
            ft == (FileType { attr, reparse_tag }),
    {
        FileType { attr, reparse_tag }
    }

    /// Returns true if this file type is a regular file.
    ///
    /// This corresponds to any file that is neither a symlink nor a directory.
    #[verifier::when_used_as_spec(spec_is_file)]
    pub fn is_file(&self) -> (b: bool)
        ensures
            b == self.spec_is_file(),
    {
        !self.is_dir() && !self.is_symlink()
    }

    /// Returns true if this file type is a directory.
    ///
    /// This corresponds to any file that has the `FILE_ATTRIBUTE_DIRECTORY`
    /// attribute and is not a symlink.
    #[verifier::when_used_as_spec(spec_is_dir)]
    pub fn is_dir(&self) -> (b: bool)
        ensures
            b == self.spec_is_dir(),
    {
        self.attr & FILE_ATTRIBUTE_DIRECTORY != 0 && !self.is_symlink()
    }

    /// Returns true if this file type is a symlink. This could be a symlink
    /// to a directory or to a file. To distinguish between them, use
    /// `is_symlink_file` and `is_symlink_dir`.
    ///
    /// This corresponds to any file that has a surrogate reparse point.
    #[verifier::when_used_as_spec(spec_is_symlink)]
    pub fn is_symlink(&self) -> (b: bool)
        ensures
            b == self.spec_is_symlink(),
    {
        match self.reparse_tag() {
            Some(tag) => is_reparse_tag_name_surrogate(tag),
            None => false,
        }
    }

    /// Returns true if this file type is a symlink to a file.
    ///
    /// This corresponds to any file that has a surrogate reparse point and
    /// is not a symlink to a directory.
    #[verifier::when_used_as_spec(spec_is_symlink_file)]
    pub fn is_symlink_file(&self) -> (b: bool)
        ensures
            b == self.spec_is_symlink_file(),
    {
        !self.is_symlink_dir() && self.is_symlink()
    }

    /// Returns true if this file type is a symlink to a directory.
    ///
    /// This corresponds to any file that has a surrogate reparse point and has
    /// the `FILE_ATTRIBUTE_DIRECTORY` attribute.
    #[verifier::when_used_as_spec(spec_is_symlink_dir)]
    pub fn is_symlink_dir(&self) -> (b: bool)
        ensures
            b == self.spec_is_symlink_dir(),
    {
        self.attr & FILE_ATTRIBUTE_DIRECTORY != 0 && self.is_symlink()
    }

    fn reparse_tag(&self) -> (tag: Option<u32>)
        ensures
            tag == self.spec_reparse_tag(),
    {
        if self.attr & FILE_ATTRIBUTE_REPARSE_POINT != 0 {
            Some(self.reparse_tag)
        } else {
            None
        }
    }

    /// Convert this file type to the platform independent file type.
    pub fn into_api(self) -> (ft: crate::dent::FileType)
        ensures
            ft == crate::dent::FileType(self.kind()),
    {
        if self.is_symlink() {
            crate::dent::FileType(FileKind::Symlink)
        } else if self.is_dir() {
            crate::dent::FileType(FileKind::Dir)
        } else {
            crate::dent::FileType(FileKind::File)
        }
    }
}

/// Every file type is exactly one of three: a file, a directory or a
/// symbolic link; and a symbolic link is one to a file or one to a
/// directory, never both.
pub proof fn law_file_type_is_one_of_three(ft: FileType)
    ensures
        ft.spec_is_file() || ft.spec_is_dir() || ft.spec_is_symlink(),
        !(ft.spec_is_file() && ft.spec_is_dir()),
        !(ft.spec_is_file() && ft.spec_is_symlink()),
        !(ft.spec_is_dir() && ft.spec_is_symlink()),
        ft.spec_is_symlink() <==> (ft.spec_is_symlink_file() || ft.spec_is_symlink_dir()),
        !(ft.spec_is_symlink_file() && ft.spec_is_symlink_dir()),
{
}

/// What Windows reports of an open file, as `BY_HANDLE_FILE_INFORMATION`
/// holds it, with the reparse tag of the file.
#[derive(Clone, Copy, Debug, PartialEq, Eq, Structural)]
pub struct Metadata {
    pub attr: u32,
    pub creation_time: u64,
    pub last_access_time: u64,
    pub last_write_time: u64,
    pub volume_serial_number: u32,
    pub file_size_high: u32,
    pub file_size_low: u32,
    pub number_of_links: u32,
    pub file_index_high: u32,
    pub file_index_low: u32,
    pub reparse_tag: u32,
}

impl Metadata {
    /// The raw file attributes.
    pub fn file_attributes(&self) -> (attr: u32)
        ensures
            attr == self.attr,
    {
        self.attr
    }

    /// The type of the file.
    pub fn file_type(&self) -> (ft: FileType)
        ensures
            ft == (FileType { attr: self.attr, reparse_tag: self.reparse_tag }),
    {
        FileType::from_attr(self.file_attributes(), self.reparse_tag)
    }

    /// Whether the file is marked as hidden.
    pub fn is_hidden(&self) -> (hidden: bool)
        ensures
            hidden == (self.attr & FILE_ATTRIBUTE_HIDDEN != 0),
    {
        self.file_attributes() & FILE_ATTRIBUTE_HIDDEN != 0
    }

    /// When the file was created, in whole seconds since the start of 1970.
    pub fn created(&self) -> (r: Result<i64, IoError>)
        ensures
            r == spec_file_time(self.creation_time),
    {
        file_time(self.creation_time)
    }

    /// When the file was last accessed, in whole seconds since the start of
    /// 1970.
    pub fn accessed(&self) -> (r: Result<i64, IoError>)
        ensures
            r == spec_file_time(self.last_access_time),
    {
        file_time(self.last_access_time)
    }

    /// When the file was last written, in whole seconds since the start of
    /// 1970.
    pub fn modified(&self) -> (r: Result<i64, IoError>)
        ensures
            r == spec_file_time(self.last_write_time),
    {
        file_time(self.last_write_time)
    }

    /// The size of the file in bytes.
    pub fn len(&self) -> (n: u64)
        ensures
            n == spec_join_halves(self.file_size_high, self.file_size_low),
    {
        join_halves(self.file_size_high, self.file_size_low)
    }

    /// The number of links to the file.
    pub fn number_of_links(&self) -> (n: u64)
        ensures
            n == self.number_of_links,
    {
        self.number_of_links as u64
    }

    /// The serial number of the volume that the file is on.
    pub fn volume_serial_number(&self) -> (n: u64)
        ensures
            n == self.volume_serial_number,
    {
        self.volume_serial_number as u64
    }

    /// The index of the file on its volume.
    pub fn file_index(&self) -> (n: u64)
        ensures
            n == spec_join_halves(self.file_index_high, self.file_index_low),
    {
        join_halves(self.file_index_high, self.file_index_low)
    }

    /// What a traversal needs of the information: the kind of file, and the
    /// volume and file index that identify it.
    pub fn into_api(&self) -> (md: crate::dent::Metadata)
        ensures
            md == (crate::dent::Metadata {
                file_type: crate::dent::FileType(
                    (FileType { attr: self.attr, reparse_tag: self.reparse_tag }).kind(),
                ),
                dev: Some(self.volume_serial_number as u64),
                ino: spec_join_halves(self.file_index_high, self.file_index_low),
            }),
    {
        crate::dent::Metadata {
            file_type: self.file_type().into_api(),
            dev: Some(self.volume_serial_number()),
            ino: self.file_index(),
        }
    }
}

} // verus!
