//! Directory entries as Linux's `getdents64` writes them.

use vstd::prelude::*;
use vstd::slice::slice_subrange;
use crate::os::unix::DirEntry as UnixDirEntry;
use crate::os::unix::FileType;

pub mod dirent;

pub use dirent::RawDirEntry;
use dirent::{record_at, spec_name_len, HEADER_LEN};

verus! {

/// A Linux specific directory entry.
///
/// This directory entry is just like the Unix `DirEntry`, except its file
/// name is borrowed from a `DirEntryCursor`'s internal buffer. This makes
/// it possible to iterate over directory entries on Linux by reusing the
/// cursor's internal buffer with no additional allocations or copying.
#[derive(Debug)]
pub struct DirEntry<'a> {
    /// The name of the file, without a NUL byte, borrowed from the buffer of
    /// the cursor.
    file_name: &'a [u8],
    /// The file type, as is, from the raw dirent.
    file_type: Option<FileType>,
    /// The file serial number, as is, from the raw dirent.
    ino: u64,
}

pub struct DirEntryView {
    pub file_name: Seq<u8>,
    pub file_type: Option<FileType>,
    pub ino: u64,
}

impl<'a> View for DirEntry<'a> {
    type V = DirEntryView;

    closed spec fn view(&self) -> DirEntryView {
        DirEntryView { file_name: self.file_name@, file_type: self.file_type, ino: self.ino }
    }
}

impl<'a> DirEntry<'a> {
    /// Return the file name in this directory entry as raw bytes without
    /// a `NUL` terminator.
    pub fn file_name_bytes(&self) -> (name: &'a [u8])
        ensures
            name@ == self@.file_name,
    {
        self.file_name
    }

    /// Return the file type of this directory entry, if one exists.
    ///
    /// A file type may not exist if the underlying file system reports an
    /// unknown file type in the directory entry.
    pub fn file_type(&self) -> (ft: Option<FileType>)
        ensures
            ft == self@.file_type,
    {
        self.file_type
    }

    /// Returns the underlying file serial number for this directory entry.
    pub fn ino(&self) -> (ino: u64)
        ensures
            ino == self@.ino,
    {
        self.ino
    }

    /// Convert this directory entry into an owned Unix `DirEntry`. If you
    /// want to be able to reuse allocations, then use `write_to_unix` instead.
    pub fn to_unix(&self) -> (ent: UnixDirEntry)
        ensures
            ent.wf(),
            ent@.file_name == self@.file_name,
            ent@.file_type == self@.file_type,
            ent@.ino == self@.ino,
    {
        let mut ent = UnixDirEntry::empty();
        self.write_to_unix(&mut ent);
        ent
    }

    /// Write this directory entry into the given Unix `DirEntry`. This makes
    /// it possible to amortize allocation.
    pub fn write_to_unix(&self, unix_dirent: &mut UnixDirEntry)
        ensures
            final(unix_dirent).wf(),
            final(unix_dirent)@.file_name == self@.file_name,
            final(unix_dirent)@.file_type == self@.file_type,
            final(unix_dirent)@.ino == self@.ino,
    {
        unix_dirent.from_linux_raw(self)
    }
}

/// What a record of the buffer says of a file: the entry that it is read as.
pub open spec fn entry_at(buf: Seq<u8>, len: int, at: int, big_endian: bool) -> DirEntryView {
    let rec = record_at(buf, at, big_endian);
    DirEntryView {
        file_name: buf.subrange(at + HEADER_LEN, at + HEADER_LEN + spec_name_len(buf, len, at)),
        file_type: crate::os::unix::stat::spec_from_dirent_type(rec.d_type),
        ino: rec.d_ino,
    }
}

/// Whether a whole record lies in the first `len` bytes of the buffer from
/// the place `at` on: its fixed part, and then, within the length that the
/// record gives for itself, a name that a NUL byte ends.
pub open spec fn record_ok(buf: Seq<u8>, len: int, at: int, big_endian: bool) -> bool {
    let reclen = record_at(buf, at, big_endian).d_reclen as int;
    &&& 0 <= at
    &&& len <= buf.len()
    &&& at + HEADER_LEN < len
    &&& reclen > HEADER_LEN
    &&& at + reclen <= len
    &&& spec_name_len(buf, at + reclen, at) < reclen - HEADER_LEN
}

/// A cursor for reading directory entries from a `getdents` buffer.
///
/// This cursor allocates space internally for storing one or more Linux
/// directory entries, and exposes an API for cheaply iterating over those
/// directory entries.
///
/// A cursor can and should be reused across multiple calls to `getdents`. A
/// cursor is not tied to any one particular directory.
#[derive(Debug)]
pub struct DirEntryCursor {
    /// The buffer that `getdents64` writes its records to.
    raw: Vec<u8>,
    /// The length, in bytes, of all valid entries in `raw`.
    len: usize,
    /// The current position of this cursor, as an offset into `raw`.
    cursor: usize,
    /// Whether the cursor has been advanced at least once.
    advanced: bool,
    /// Whether the numbers in the records have their high byte first.
    big_endian: bool,
}

pub struct CursorView {
    pub raw: Seq<u8>,
    pub len: int,
    pub cursor: int,
    pub advanced: bool,
    pub big_endian: bool,
}

impl CursorView {
    /// Whether no whole record lies at the cursor.
    pub open spec fn is_done(self) -> bool {
        !record_ok(self.raw, self.len, self.cursor, self.big_endian)
    }

    /// The cursor where an advance leaves it: the first advance after the
    /// buffer was filled stays at the first record; every other goes to the
    /// record behind the one at the cursor.
    pub open spec fn advance(self) -> CursorView {
        if self.is_done() {
            self
        } else if !self.advanced {
            CursorView { advanced: true, ..self }
        } else {
            CursorView {
                cursor: self.cursor + record_at(self.raw, self.cursor, self.big_endian).d_reclen,
                ..self
            }
        }
    }

    /// The entry at the cursor.
    pub open spec fn current(self) -> DirEntryView {
        entry_at(
            self.raw,
            self.cursor + record_at(self.raw, self.cursor, self.big_endian).d_reclen,
            self.cursor,
            self.big_endian,
        )
    }
}

impl View for DirEntryCursor {
    type V = CursorView;

    closed spec fn view(&self) -> CursorView {
        CursorView {
            raw: self.raw@,
            len: self.len as int,
            cursor: self.cursor as int,
            advanced: self.advanced,
            big_endian: self.big_endian,
        }
    }
}

impl Clone for DirEntryCursor {
    fn clone(&self) -> (copy: DirEntryCursor)
        ensures
            copy@ == self@,
    {
        DirEntryCursor {
            raw: crate::dent::to_vec(self.raw.as_slice()),
            len: self.len,
            cursor: self.cursor,
            advanced: self.advanced,
            big_endian: self.big_endian,
        }
    }
}

impl DirEntryCursor {
    /// The valid bytes and the cursor lie within the buffer.
    pub open spec fn wf(&self) -> bool {
        self@.len <= self@.raw.len() && self@.cursor <= self@.len
    }

    /// Create a new cursor for reading directory entries, with a buffer of
    /// 32 KiB, for records whose numbers have their low byte first.
    ///
    /// It is beneficial to reuse a cursor in multiple calls to `getdents`. A
    /// cursor can be used with any number of directories.
    pub fn new() -> (c: DirEntryCursor)
        ensures
            c.wf(),
            c@.raw.len() == 32768,
            c@.len == 0,
            c@.cursor == 0,
            !c@.advanced,
            !c@.big_endian,
    {
        DirEntryCursor::with_capacity(32768, false)
    }

    /// Create a new cursor with the specified capacity in bytes, for
    /// records in the given byte order.
    pub fn with_capacity(capacity: usize, big_endian: bool) -> (c: DirEntryCursor)
        ensures
            c.wf(),
            c@.raw.len() == capacity,
            forall|i: int| 0 <= i < capacity ==> c@.raw[i] == 0u8,
            c@.len == 0,
            c@.cursor == 0,
            !c@.advanced,
            c@.big_endian == big_endian,
    {
        let mut raw: Vec<u8> = Vec::new();
        let mut i: usize = 0;
        while i < capacity
            invariant
                i <= capacity,
                raw@.len() == i,
                forall|j: int| 0 <= j < i ==> raw@[j] == 0u8,
            decreases capacity - i,
        {
            raw.push(0u8);
            i += 1;
        }
        DirEntryCursor { raw, len: 0, cursor: 0, advanced: false, big_endian }
    }

    /// The number of bytes that the buffer takes.
    pub fn capacity(&self) -> (n: usize)
        ensures
            n == self@.raw.len(),
    {
        self.raw.len()
    }

    /// Puts what `getdents64` wrote into the buffer of this cursor, as far
    /// as it has room, and sets the cursor before the first record.
    pub fn fill(&mut self, bytes: &[u8])
        ensures
            final(self).wf(),
            final(self)@.raw.len() == old(self)@.raw.len(),
            final(self)@.len == if bytes@.len() <= old(self)@.raw.len() {
                bytes@.len()
            } else {
                old(self)@.raw.len()
            },
            final(self)@.raw.subrange(0, final(self)@.len) == bytes@.subrange(0, final(self)@.len),
            final(self)@.cursor == 0,
            !final(self)@.advanced,
            final(self)@.big_endian == old(self)@.big_endian,
    {
        let n: usize = if bytes.len() <= self.raw.len() {
            bytes.len()
        } else {
            self.raw.len()
        };
        let mut i: usize = 0;
        while i < n
            invariant
                i <= n,
                n <= bytes@.len(),
                n <= self.raw@.len(),
                self.raw@.len() == old(self).raw@.len(),
                self.big_endian == old(self).big_endian,
                forall|j: int| 0 <= j < i ==> self.raw@[j] == bytes@[j],
            decreases n - i,
        {
            self.raw.set(i, bytes[i]);
            i += 1;
        }
        self.len = n;
        self.cursor = 0;
        self.advanced = false;
        assert(self.raw@.subrange(0, n as int) =~= bytes@.subrange(0, n as int));
    }

    /// Read the next directory entry from this cursor. If the cursor has been
    /// exhausted, then return `None`.
    ///
    /// The returned directory entry contains a file name that is borrowed from
    /// this cursor's internal buffer. In particular, no allocation is
    /// performed by this routine. If you need an owned directory entry, then
    /// use `read_unix` or `read_unix_into`.
    ///
    /// Note that no filtering of entries (such as `.` and `..`) is performed.
    pub fn read<'a>(&'a mut self) -> (ent: Option<DirEntry<'a>>)
        requires
            old(self).wf(),
        ensures
            final(self).wf(),
            final(self)@ == old(self)@.advance(),
            match ent {
                Some(e) => !final(self)@.is_done() && e@ == final(self)@.current(),
                None => final(self)@.is_done(),
            },
    {
        if !self.advance() {
            return None;
        }
        Some(self.current())
    }

    /// Advance this cursor to the next directory entry. If there are no more
    /// directory entries to read, then this returns false.
    pub fn advance(&mut self) -> (more: bool)
        requires
            old(self).wf(),
        ensures
            final(self).wf(),
            final(self)@ == old(self)@.advance(),
            more == !final(self)@.is_done(),
    {
        if self.is_done() {
            return false;
        }
        if !self.advanced {
            self.advanced = true;
            return true;
        }
        let reclen = dirent::read_reclen(self.raw.as_slice(), self.cursor, self.big_endian);
        self.cursor = self.cursor + reclen as usize;
        !self.is_done()
    }

    /// Return the current directory entry in this cursor. There must be
    /// one: the cursor has been advanced, and the last advance returned
    /// true.
    pub fn current<'a>(&'a self) -> (ent: DirEntry<'a>)
        requires
            self.wf(),
            !self@.is_done(),
        ensures
            ent@ == self@.current(),
    {
        let raw = RawDirEntry::parse(self.raw.as_slice(), self.cursor, self.big_endian);
        let end: usize = self.cursor + raw.record_len();
        let n: usize = dirent::name_len(self.raw.as_slice(), end, self.cursor);
        let start: usize = self.cursor + 19;
        DirEntry {
            file_name: slice_subrange(self.raw.as_slice(), start, start + n),
            file_type: raw.file_type(),
            ino: raw.ino(),
        }
    }

    /// Whether no whole record lies at the cursor.
    pub fn is_done(&self) -> (done: bool)
        requires
            self.wf(),
        ensures
            done == self@.is_done(),
    {
        if self.len - self.cursor <= 19 {
            return true;
        }
        let reclen: usize = dirent::read_reclen(
            self.raw.as_slice(),
            self.cursor,
            self.big_endian,
        ) as usize;
        if reclen <= 19 || reclen > self.len - self.cursor {
            return true;
        }
        let n: usize = dirent::name_len(self.raw.as_slice(), self.cursor + reclen, self.cursor);
        n >= reclen - 19
    }

    /// Read the next directory entry from this cursor as an owned Unix
    /// `DirEntry`. If the cursor has been exhausted, then return `None`.
    ///
    /// This will allocate new space to store the file name in the directory
    /// entry. To reuse a previous allocation, use `read_unix_into` instead.
    ///
    /// Note that no filtering of entries (such as `.` and `..`) is performed.
    pub fn read_unix(&mut self) -> (ent: Option<UnixDirEntry>)
        requires
            old(self).wf(),
        ensures
            final(self).wf(),
            final(self)@ == old(self)@.advance(),
            match ent {
                Some(e) => {
                    &&& !final(self)@.is_done()
                    &&& e.wf()
                    &&& e@.file_name == final(self)@.current().file_name
                    &&& e@.file_type == final(self)@.current().file_type
                    &&& e@.ino == final(self)@.current().ino
                },
                None => final(self)@.is_done(),
            },
    {
        match self.read() {
            None => None,
            Some(ent) => Some(ent.to_unix()),
        }
    }

    /// Read the next directory entry from this cursor into the given Unix
    /// `DirEntry`. If the cursor has been exhausted, then return `false`.
    /// Otherwise return `true`.
    ///
    /// Note that no filtering of entries (such as `.` and `..`) is performed.
    pub fn read_unix_into(&mut self, unix_dirent: &mut UnixDirEntry) -> (more: bool)
        requires
            old(self).wf(),
        ensures
            final(self).wf(),
            final(self)@ == old(self)@.advance(),
            more == !final(self)@.is_done(),
            more ==> {
                &&& final(unix_dirent).wf()
                &&& final(unix_dirent)@.file_name == final(self)@.current().file_name
                &&& final(unix_dirent)@.file_type == final(self)@.current().file_type
                &&& final(unix_dirent)@.ino == final(self)@.current().ino
            },
            !more ==> *final(unix_dirent) == *old(unix_dirent),
    {
        match self.read() {
            None => false,
            Some(dent) => {
                dent.write_to_unix(unix_dirent);
                true
            },
        }
    }

    /// Rewind this cursor such that it points to the first directory entry.
    pub fn rewind(&mut self)
        ensures
            final(self)@ == (CursorView { cursor: 0, ..old(self)@ }),
    {
        self.cursor = 0;
    }

    /// Clear this cursor such that it has no entries.
    pub fn clear(&mut self)
        ensures
            final(self)@ == (CursorView { cursor: 0, len: 0, advanced: false, ..old(self)@ }),
    {
        self.cursor = 0;
        self.len = 0;
        self.advanced = false;
    }
}

} // verus!
