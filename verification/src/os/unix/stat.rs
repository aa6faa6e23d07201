//! File types and file metadata as Unix has them.

use vstd::prelude::*;
use crate::dent::FileKind;
use crate::error::IoError;

verus! {

/// The bits of a file mode that tell the type of a file, as `libc` names
/// them.
pub struct ModeBits {
    pub fmt: u32,
    pub reg: u32,
    pub dir: u32,
    pub lnk: u32,
    pub blk: u32,
    pub chr: u32,
    pub fifo: u32,
    pub sock: u32,
}

/// The types of a directory entry, as `libc` names them.
pub struct DirentTypes {
    pub unknown: u8,
    pub fifo: u8,
    pub chr: u8,
    pub dir: u8,
    pub blk: u8,
    pub reg: u8,
    pub lnk: u8,
    pub sock: u8,
}

pub open spec fn spec_mode_bits() -> ModeBits {
    ModeBits {
        fmt: 0xF000,
        reg: 0x8000,
        dir: 0x4000,
        lnk: 0xA000,
        blk: 0x6000,
        chr: 0x2000,
        fifo: 0x1000,
        sock: 0xC000,
    }
}

pub open spec fn spec_dirent_types() -> DirentTypes {
    DirentTypes { unknown: 0, fifo: 1, chr: 2, dir: 4, blk: 6, reg: 8, lnk: 10, sock: 12 }
}

/// Reads the constants `S_IFMT`, `S_IFREG`, `S_IFDIR`, `S_IFLNK`, `S_IFBLK`,
/// `S_IFCHR`, `S_IFIFO` and `S_IFSOCK` of `libc`. The contract gives the
/// values that they have on Linux, which are those of every Unix that `libc`
/// knows.
#[verifier::external_body]
fn mode_bits() -> (bits: ModeBits)
    ensures
        bits == spec_mode_bits(),
{
    ModeBits {
        fmt: libc::S_IFMT as u32,
        reg: libc::S_IFREG as u32,
        dir: libc::S_IFDIR as u32,
        lnk: libc::S_IFLNK as u32,
        blk: libc::S_IFBLK as u32,
        chr: libc::S_IFCHR as u32,
        fifo: libc::S_IFIFO as u32,
        sock: libc::S_IFSOCK as u32,
    }
}

/// Reads the constants `DT_UNKNOWN`, `DT_FIFO`, `DT_CHR`, `DT_DIR`,
/// `DT_BLK`, `DT_REG`, `DT_LNK` and `DT_SOCK` of `libc`. The contract gives
/// the values that they have on every Unix that `libc` knows.
#[verifier::external_body]
fn dirent_types() -> (types: DirentTypes)
    ensures
        types == spec_dirent_types(),
{
    DirentTypes {
        unknown: libc::DT_UNKNOWN,
        fifo: libc::DT_FIFO,
        chr: libc::DT_CHR,
        dir: libc::DT_DIR,
        blk: libc::DT_BLK,
        reg: libc::DT_REG,
        lnk: libc::DT_LNK,
        sock: libc::DT_SOCK,
    }
}

/// One of seven possible file types on Unix: the file mode that a stat
/// reports, of which the type bits count.
#[derive(Clone, Copy, Debug, PartialEq, Eq, Structural)]
pub struct FileType(pub u32);

/// The file mode that stands for the type `d_type` of a directory entry, or
/// `None` if the type is unknown or not one that is known.
pub open spec fn spec_from_dirent_type(d_type: u8) -> Option<FileType> {
    if d_type == 8 {
        Some(FileType(0x8000))
    } else if d_type == 4 {
        Some(FileType(0x4000))
    } else if d_type == 10 {
        Some(FileType(0xA000))
    } else if d_type == 6 {
        Some(FileType(0x6000))
    } else if d_type == 2 {
        Some(FileType(0x2000))
    } else if d_type == 1 {
        Some(FileType(0x1000))
    } else if d_type == 12 {
        Some(FileType(0xC000))
    } else {
        None
    }
}

impl FileType {
    /// The type bits of the mode.
    pub open spec fn format(&self) -> u32 {
        self.0 & 0xF000
    }

    pub open spec fn spec_is_file(&self) -> bool {
        self.format() == 0x8000
    }

    pub open spec fn spec_is_dir(&self) -> bool {
        self.format() == 0x4000
    }

    pub open spec fn spec_is_symlink(&self) -> bool {
        self.format() == 0xA000
    }

    pub open spec fn spec_is_block_device(&self) -> bool {
        self.format() == 0x6000
    }

    pub open spec fn spec_is_char_device(&self) -> bool {
        self.format() == 0x2000
    }

    pub open spec fn spec_is_fifo(&self) -> bool {
        self.format() == 0x1000
    }

    pub open spec fn spec_is_socket(&self) -> bool {
        self.format() == 0xC000
    }

    /// The kind of file, as a traversal tells them apart.
    pub open spec fn kind(&self) -> FileKind {
        if self.spec_is_file() {
            FileKind::File
        } else if self.spec_is_dir() {
            FileKind::Dir
        } else if self.spec_is_symlink() {
            FileKind::Symlink
        } else {
            FileKind::Other
        }
    }

    /// Create a new file type from a directory entry's type field.
    ///
    /// If the given type is not recognized or is `DT_UNKNOWN`, then `None`
    /// is returned.
    pub fn from_dirent_type(d_type: u8) -> (ft: Option<FileType>)
        ensures
            ft == spec_from_dirent_type(d_type),
    {
        let dt = dirent_types();
        let bits = mode_bits();
        if d_type == dt.reg {
            Some(FileType(bits.reg))
        } else if d_type == dt.dir {
            Some(FileType(bits.dir))
        } else if d_type == dt.lnk {
            Some(FileType(bits.lnk))
        } else if d_type == dt.blk {
            Some(FileType(bits.blk))
        } else if d_type == dt.chr {
            Some(FileType(bits.chr))
        } else if d_type == dt.fifo {
            Some(FileType(bits.fifo))
        } else if d_type == dt.sock {
            Some(FileType(bits.sock))
        } else {
            None
        }
    }

    /// Create a new file type from a stat's `st_mode` field: its low 32
    /// bits.
    pub fn from_stat_mode(st_mode: u64) -> (ft: FileType)
        ensures
            ft.0 == st_mode & 0xFFFF_FFFF,
    {
        let low: u64 = st_mode & 0xFFFF_FFFF;
        assert(low <= 0xFFFF_FFFF) by (bit_vector)
            requires
                low == st_mode & 0xFFFF_FFFF,
        ;
        FileType(low as u32)
    }

    /// Convert this file type to the platform independent file type.
    pub fn into_api(self) -> (ft: crate::dent::FileType)
        ensures
            ft == crate::dent::FileType(self.kind()),
    {
        if self.is_file() {
            crate::dent::FileType(FileKind::File)
        } else if self.is_dir() {
            crate::dent::FileType(FileKind::Dir)
        } else if self.is_symlink() {
            crate::dent::FileType(FileKind::Symlink)
        } else {
            crate::dent::FileType(FileKind::Other)
        }
    }

    /// Returns true if this file type is a regular file.
    ///
    /// This corresponds to the `S_IFREG` value on Unix.
    #[verifier::when_used_as_spec(spec_is_file)]
    pub fn is_file(&self) -> (b: bool)
        ensures
            b == self.spec_is_file(),
    {
        let bits = mode_bits();
        self.0 & bits.fmt == bits.reg
    }

    /// Returns true if this file type is a directory.
    ///
    /// This corresponds to the `S_IFDIR` value on Unix.
    #[verifier::when_used_as_spec(spec_is_dir)]
    pub fn is_dir(&self) -> (b: bool)
        ensures
            b == self.spec_is_dir(),
    {
        let bits = mode_bits();
        self.0 & bits.fmt == bits.dir
    }

    /// Returns true if this file type is a symbolic link.
    ///
    /// This corresponds to the `S_IFLNK` value on Unix.
    #[verifier::when_used_as_spec(spec_is_symlink)]
    pub fn is_symlink(&self) -> (b: bool)
        ensures
            b == self.spec_is_symlink(),
    {
        let bits = mode_bits();
        self.0 & bits.fmt == bits.lnk
    }

    /// Returns true if this file type is a block device.
    ///
    /// This corresponds to the `S_IFBLK` value on Unix.
    #[verifier::when_used_as_spec(spec_is_block_device)]
    pub fn is_block_device(&self) -> (b: bool)
        ensures
            b == self.spec_is_block_device(),
    {
        let bits = mode_bits();
        self.0 & bits.fmt == bits.blk
    }

    /// Returns true if this file type is a character device.
    ///
    /// This corresponds to the `S_IFCHR` value on Unix.
    #[verifier::when_used_as_spec(spec_is_char_device)]
    pub fn is_char_device(&self) -> (b: bool)
        ensures
            b == self.spec_is_char_device(),
    {
        let bits = mode_bits();
        self.0 & bits.fmt == bits.chr
    }

    /// Returns true if this file type is a FIFO.
    ///
    /// This corresponds to the `S_IFIFO` value on Unix.
    #[verifier::when_used_as_spec(spec_is_fifo)]
    pub fn is_fifo(&self) -> (b: bool)
        ensures
            b == self.spec_is_fifo(),
    {
        let bits = mode_bits();
        self.0 & bits.fmt == bits.fifo
    }

    /// Returns true if this file type is a socket.
    ///
    /// This corresponds to the `S_IFSOCK` value on Unix.
    #[verifier::when_used_as_spec(spec_is_socket)]
    pub fn is_socket(&self) -> (b: bool)
        ensures
            b == self.spec_is_socket(),
    {
        let bits = mode_bits();
        self.0 & bits.fmt == bits.sock
    }

    /// A name for the type, for people to read.
    pub fn human(&self) -> (name: &'static str)
        ensures
            name@ == spec_human(*self),
    {
        if self.is_file() {
            "File"
        } else if self.is_dir() {
            "Directory"
        } else if self.is_symlink() {
            "Symbolic Link"
        } else if self.is_block_device() {
            "Block Device"
        } else if self.is_char_device() {
            "Char Device"
        } else if self.is_fifo() {
            "FIFO"
        } else if self.is_socket() {
            "Socket"
        } else {
            "Unknown"
        }
    }
}

pub open spec fn spec_human(ft: FileType) -> Seq<char> {
    if ft.spec_is_file() {
        "File"@
    } else if ft.spec_is_dir() {
        "Directory"@
    } else if ft.spec_is_symlink() {
        "Symbolic Link"@
    } else if ft.spec_is_block_device() {
        "Block Device"@
    } else if ft.spec_is_char_device() {
        "Char Device"@
    } else if ft.spec_is_fifo() {
        "FIFO"@
    } else if ft.spec_is_socket() {
        "Socket"@
    } else {
        "Unknown"@
    }
}

/// The file type of each type of directory entry is the one named alike.
pub proof fn law_dirent_types_name_their_file_types(d_type: u8)
    ensures
        d_type == 8 ==> spec_from_dirent_type(d_type).unwrap().spec_is_file(),
        d_type == 4 ==> spec_from_dirent_type(d_type).unwrap().spec_is_dir(),
        d_type == 10 ==> spec_from_dirent_type(d_type).unwrap().spec_is_symlink(),
        d_type == 6 ==> spec_from_dirent_type(d_type).unwrap().spec_is_block_device(),
        d_type == 2 ==> spec_from_dirent_type(d_type).unwrap().spec_is_char_device(),
        d_type == 1 ==> spec_from_dirent_type(d_type).unwrap().spec_is_fifo(),
        d_type == 12 ==> spec_from_dirent_type(d_type).unwrap().spec_is_socket(),
{
    assert(0x8000u32 & 0xF000 == 0x8000) by (bit_vector);
    assert(0x4000u32 & 0xF000 == 0x4000) by (bit_vector);
    assert(0xA000u32 & 0xF000 == 0xA000) by (bit_vector);
    assert(0x6000u32 & 0xF000 == 0x6000) by (bit_vector);
    assert(0x2000u32 & 0xF000 == 0x2000) by (bit_vector);
    assert(0x1000u32 & 0xF000 == 0x1000) by (bit_vector);
    assert(0xC000u32 & 0xF000 == 0xC000) by (bit_vector);
}

/// A point in time: seconds and nanoseconds since the start of 1970.
#[derive(Clone, Copy, Debug, PartialEq, Eq, Structural)]
pub struct Timestamp {
    pub secs: u64,
    pub nanos: u32,
}

/// What a stat of a file reports on Unix.
#[derive(Clone, Copy, Debug, PartialEq, Eq, Structural)]
pub struct Metadata {
    pub mode: u64,
    pub size: u64,
    pub dev: u64,
    pub ino: u64,
    pub mtime: Timestamp,
    pub atime: Timestamp,
    /// The time of creation, on the platforms that tell it.
    pub birthtime: Option<Timestamp>,
}

impl Metadata {
    /// The type of the file: that of its mode.
    pub fn file_type(&self) -> (ft: FileType)
        ensures
            ft.0 == self.mode & 0xFFFF_FFFF,
    {
        FileType::from_stat_mode(self.mode)
    }

    /// The size of the file in bytes.
    pub fn len(&self) -> (n: u64)
        ensures
            n == self.size,
    {
        self.size
    }

    /// The device that the file is on.
    pub fn dev(&self) -> (dev: u64)
        ensures
            dev == self.dev,
    {
        self.dev
    }

    /// The file serial number.
    pub fn ino(&self) -> (ino: u64)
        ensures
            ino == self.ino,
    {
        self.ino
    }

    /// The file mode.
    pub fn mode(&self) -> (mode: u64)
        ensures
            mode == self.mode,
    {
        self.mode
    }

    /// When the file was last modified.
    pub fn modified(&self) -> (r: Result<Timestamp, IoError>)
        ensures
            r == Ok::<Timestamp, IoError>(self.mtime),
    {
        Ok(self.mtime)
    }

    /// When the file was last accessed.
    pub fn accessed(&self) -> (r: Result<Timestamp, IoError>)
        ensures
            r == Ok::<Timestamp, IoError>(self.atime),
    {
        Ok(self.atime)
    }

    /// When the file was created, on the platforms that tell it.
    pub fn created(&self) -> (r: Result<Timestamp, IoError>)
        ensures
            r == match self.birthtime {
                Some(t) => Ok::<Timestamp, IoError>(t),
                None => Err::<Timestamp, IoError>(IoError::Unsupported),
            },
    {
        match self.birthtime {
            Some(t) => Ok(t),
            None => Err(IoError::Unsupported),
        }
    }

    /// What a traversal needs of the stat: the kind of file, and the device
    /// and serial number that identify it.
    pub fn into_api(&self) -> (md: crate::dent::Metadata)
        ensures
            md == (crate::dent::Metadata {
                file_type: crate::dent::FileType(FileType((self.mode & 0xFFFF_FFFF) as u32).kind()),
                dev: Some(self.dev),
                ino: self.ino,
            }),
    {
        crate::dent::Metadata {
            file_type: self.file_type().into_api(),
            dev: Some(self.dev),
            ino: self.ino,
        }
    }
}

} // verus!
