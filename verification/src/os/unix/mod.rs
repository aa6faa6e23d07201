//! Directory entries as Unix has them.

use vstd::prelude::*;
use vstd::slice::slice_subrange;
use crate::dent::{RawEntry, to_vec};

pub mod rawpath;
pub mod stat;

pub use rawpath::RawPathBuf;
pub use stat::{FileType, Metadata, Timestamp};

verus! {

/// A low-level Unix specific directory entry.
///
/// This type corresponds as closely as possible to the `dirent` structure
/// found on Unix-like platforms. It exposes the underlying file name, file
/// serial number, and, on platforms that support it, the file type.
#[derive(Debug)]
pub struct DirEntry {
    /// The file name, followed by one NUL byte.
    file_name: Vec<u8>,
    /// The file type, as is, from the raw dirent.
    file_type: Option<FileType>,
    /// The file serial number, as is, from the raw dirent.
    ino: u64,
}

pub struct DirEntryView {
    pub file_name: Seq<u8>,
    pub file_type: Option<FileType>,
    pub ino: u64,
}

impl View for DirEntry {
    type V = DirEntryView;

    /// The entry with its name as it is, without the NUL byte.
    closed spec fn view(&self) -> DirEntryView {
        DirEntryView {
            file_name: self.file_name@.drop_last(),
            file_type: self.file_type,
            ino: self.ino,
        }
    }
}

impl Clone for DirEntry {
    fn clone(&self) -> (copy: DirEntry)
        ensures
            copy.wf() == self.wf(),
            copy@ == self@,
    {
        DirEntry {
            file_name: to_vec(self.file_name.as_slice()),
            file_type: self.file_type,
            ino: self.ino,
        }
    }
}

impl DirEntry {
    /// The name is stored with the NUL byte that ends it.
    pub closed spec fn wf(&self) -> bool {
        self.file_name@.len() >= 1 && self.file_name@.last() == 0u8
    }

    /// Create a new empty directory entry.
    ///
    /// For an empty directory entry, the file name is empty, the file type is
    /// `None` and the inode number is `0`.
    pub fn empty() -> (ent: DirEntry)
        ensures
            ent.wf(),
            ent@ == (DirEntryView { file_name: Seq::empty(), file_type: None, ino: 0 }),
    {
        let mut file_name: Vec<u8> = Vec::new();
        file_name.push(0u8);
        assert(file_name@.drop_last() =~= Seq::empty());
        DirEntry { file_name, file_type: None, ino: 0 }
    }

    /// Writes a directory entry read from the platform into this entry: its
    /// name, without a NUL byte, its type if the platform told it, and its
    /// file serial number. The space of the name is used again.
    pub fn set(&mut self, name: &[u8], file_type: Option<FileType>, ino: u64)
        ensures
            final(self).wf(),
            final(self)@ == (DirEntryView { file_name: name@, file_type, ino }),
    {
        self.file_type = file_type;
        self.ino = ino;
        self.file_name.clear();
        self.file_name.extend_from_slice(name);
        self.file_name.push(0u8);
        assert(self.file_name@.drop_last() =~= name@);
    }

    /// Read the contents of the given Linux directory entry into this
    /// entry.
    pub fn from_linux_raw(&mut self, raw: &crate::os::linux::DirEntry)
        ensures
            final(self).wf(),
            final(self)@ == (DirEntryView {
                file_name: raw@.file_name,
                file_type: raw@.file_type,
                ino: raw@.ino,
            }),
    {
        self.set(raw.file_name_bytes(), raw.file_type(), raw.ino());
    }

    /// Return the file name in this directory entry with the NUL byte that
    /// ends it, as C takes a string.
    pub fn file_name(&self) -> (name: &[u8])
        requires
            self.wf(),
        ensures
            name@ == self@.file_name.push(0u8),
    {
        assert(self.file_name@ =~= self.file_name@.drop_last().push(0u8));
        self.file_name.as_slice()
    }

    /// Return the file name in this directory entry as raw bytes without
    /// a `NUL` terminator.
    pub fn file_name_bytes(&self) -> (name: &[u8])
        requires
            self.wf(),
        ensures
            name@ == self@.file_name,
    {
        let n: usize = self.file_name.len();
        let name = slice_subrange(self.file_name.as_slice(), 0, n - 1);
        assert(name@ =~= self.file_name@.drop_last());
        name
    }

    /// Consume this directory entry and return the underlying bytes without
    /// a `NUL` terminator.
    pub fn into_file_name_bytes(self) -> (name: Vec<u8>)
        requires
            self.wf(),
        ensures
            name@ == self@.file_name,
    {
        let mut name = self.file_name;
        name.pop();
        name
    }

    /// Return the file type of this directory entry, if one exists.
    ///
    /// A file type may not exist if the underlying file system reports an
    /// unknown file type in the directory entry, or if the platform does not
    /// support reporting the file type in the directory entry at all.
    pub fn file_type(&self) -> (ft: Option<FileType>)
        ensures
            ft == self@.file_type,
    {
        self.file_type
    }

    /// Returns the underlying file serial number for this directory entry.
    pub fn ino(&self) -> (ino: u64)
        ensures
            ino == self@.ino,
    {
        self.ino
    }

    /// The entry as a traversal takes it: the name, the kind of file if the
    /// type is known, and the file serial number.
    pub fn to_raw(&self) -> (raw: RawEntry)
        requires
            self.wf(),
        ensures
            raw@.name == self@.file_name,
            raw@.file_type == match self@.file_type {
                Some(ft) => Some(crate::dent::FileType(ft.kind())),
                None => None,
            },
            raw@.ino == self@.ino,
    {
        RawEntry {
            name: to_vec(self.file_name_bytes()),
            file_type: match self.file_type {
                Some(ft) => Some(ft.into_api()),
                None => None,
            },
            ino: self.ino,
        }
    }
}

/// The value of a hexadecimal digit as a lower case character.
pub open spec fn hex_digit(d: u8) -> u8 {
    if d < 10 {
        (48 + d) as u8
    } else {
        (87 + d) as u8
    }
}

/// How one byte is shown in ASCII alone: tab, carriage return and line feed
/// as `\t`, `\r` and `\n`; the two quotes and the backslash with a
/// backslash before them; any other printable character as it is; and any
/// other byte as `\x` and its two hexadecimal digits.
pub open spec fn escape_byte(b: u8) -> Seq<u8> {
    if b == 9 {
        seq![92u8, 116u8]
    } else if b == 13 {
        seq![92u8, 114u8]
    } else if b == 10 {
        seq![92u8, 110u8]
    } else if b == 39 || b == 34 || b == 92 {
        seq![92u8, b]
    } else if 32 <= b <= 126 {
        seq![b]
    } else {
        seq![92u8, 120u8, hex_digit(b / 16), hex_digit(b % 16)]
    }
}

/// How bytes are shown in ASCII alone: each as `escape_byte` shows it.
pub open spec fn spec_escaped_bytes(bytes: Seq<u8>) -> Seq<u8>
    decreases bytes.len(),
{
    if bytes.len() == 0 {
        Seq::empty()
    } else {
        spec_escaped_bytes(bytes.drop_last()) + escape_byte(bytes.last())
    }
}

fn hex_digit_of(d: u8) -> (c: u8)
    requires
        d < 16,
    ensures
        c == hex_digit(d),
{
    if d < 10 {
        48 + d
    } else {
        87 + d
    }
}

/// Return a convenience ASCII-only debug representation of the given bytes.
/// In essence, non-ASCII and non-printable bytes are escaped.
pub fn escaped_bytes(bytes: &[u8]) -> (escaped: Vec<u8>)
    ensures
        escaped@ == spec_escaped_bytes(bytes@),
{
    let mut escaped: Vec<u8> = Vec::new();
    let mut i: usize = 0;
    assert(bytes@.take(0) =~= Seq::empty());
    while i < bytes.len()
        invariant
            i <= bytes.len(),
            escaped@ == spec_escaped_bytes(bytes@.take(i as int)),
        decreases bytes.len() - i,
    {
        let b: u8 = bytes[i];
        proof {
            assert(bytes@.take(i + 1).drop_last() =~= bytes@.take(i as int));
            assert(bytes@.take(i + 1).last() == b);
        }
        let ghost before = escaped@;
        if b == 9 {
            escaped.push(92u8);
            escaped.push(116u8);
            assert(escaped@ =~= before + escape_byte(b));
        } else if b == 13 {
            escaped.push(92u8);
            escaped.push(114u8);
            assert(escaped@ =~= before + escape_byte(b));
        } else if b == 10 {
            escaped.push(92u8);
            escaped.push(110u8);
            assert(escaped@ =~= before + escape_byte(b));
        } else if b == 39 || b == 34 || b == 92 {
            escaped.push(92u8);
            escaped.push(b);
            assert(escaped@ =~= before + escape_byte(b));
        } else if 32 <= b && b <= 126 {
            escaped.push(b);
            assert(escaped@ =~= before + escape_byte(b));
        } else {
            escaped.push(92u8);
            escaped.push(120u8);
            escaped.push(hex_digit_of(b / 16));
            escaped.push(hex_digit_of(b % 16));
            assert(escaped@ =~= before + escape_byte(b));
        }
        i += 1;
    }
    assert(bytes@.take(i as int) =~= bytes@);
    escaped
}

} // verus!
