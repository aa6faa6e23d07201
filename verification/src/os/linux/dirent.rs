//! The layout of one record of `getdents64`.

use vstd::prelude::*;
use crate::os::unix::FileType;

verus! {

/// The number of bytes that a record takes before its name: the file
/// serial number, the offset of the next record, the length of the record,
/// and the type.
pub const HEADER_LEN: usize = 19;

/// The number that the `n` bytes from `at` on stand for, in the given byte
/// order.
pub open spec fn number_at(buf: Seq<u8>, at: int, n: int, big_endian: bool) -> int
    decreases n,
{
    if n <= 0 {
        0
    } else if big_endian {
        number_at(buf, at, n - 1, big_endian) * 256 + buf[at + n - 1] as int
    } else {
        buf[at] as int + 256 * number_at(buf, at + 1, n - 1, big_endian)
    }
}

/// A raw directory entry as Linux's getdents64 syscall writes it, but for
/// its name.
#[derive(Clone, Copy, Debug, PartialEq, Eq, Structural)]
pub struct RawDirEntry {
    pub d_ino: u64,
    pub d_off: u64,
    pub d_reclen: u16,
    pub d_type: u8,
}

/// The fixed part of the record that starts at the place `at` of the
/// buffer.
pub open spec fn record_at(buf: Seq<u8>, at: int, big_endian: bool) -> RawDirEntry {
    RawDirEntry {
        d_ino: number_at(buf, at, 8, big_endian) as u64,
        d_off: number_at(buf, at + 8, 8, big_endian) as u64,
        d_reclen: number_at(buf, at + 16, 2, big_endian) as u16,
        d_type: buf[at + 18],
    }
}

/// The length of the name of the record at `at`: the number of bytes from
/// its start up to the first NUL byte, or up to `end` if there is none
/// before.
pub open spec fn spec_name_len(buf: Seq<u8>, end: int, at: int) -> int {
    scan_nul(buf, end, at + HEADER_LEN) - (at + HEADER_LEN)
}

/// The place of the first NUL byte from `from` on, or `end` if there is
/// none before it.
pub open spec fn scan_nul(buf: Seq<u8>, end: int, from: int) -> int
    decreases end - from,
{
    if from >= end || from < 0 || from >= buf.len() {
        from
    } else if buf[from] == 0u8 {
        from
    } else {
        scan_nul(buf, end, from + 1)
    }
}

pub proof fn lemma_number_bound(buf: Seq<u8>, at: int, n: int, big_endian: bool)
    requires
        0 <= n <= 8,
        0 <= at,
        at + n <= buf.len(),
    ensures
        0 <= number_at(buf, at, n, big_endian),
        n == 0 ==> number_at(buf, at, n, big_endian) == 0,
        n == 1 ==> number_at(buf, at, n, big_endian) < 0x100,
        n == 2 ==> number_at(buf, at, n, big_endian) < 0x1_0000,
        n == 3 ==> number_at(buf, at, n, big_endian) < 0x100_0000,
        n == 4 ==> number_at(buf, at, n, big_endian) < 0x1_0000_0000,
        n == 5 ==> number_at(buf, at, n, big_endian) < 0x100_0000_0000,
        n == 6 ==> number_at(buf, at, n, big_endian) < 0x1_0000_0000_0000,
        n == 7 ==> number_at(buf, at, n, big_endian) < 0x100_0000_0000_0000,
        n == 8 ==> number_at(buf, at, n, big_endian) < 0x1_0000_0000_0000_0000,
    decreases n,
{
    if n > 0 {
        if big_endian {
            lemma_number_bound(buf, at, n - 1, big_endian);
        } else {
            lemma_number_bound(buf, at + 1, n - 1, big_endian);
        }
    }
}

/// Reads the number that the 8 bytes from `at` on stand for.
fn read_u64(buf: &[u8], at: usize, big_endian: bool) -> (v: u64)
    requires
        at + 8 <= buf@.len(),
    ensures
        v == number_at(buf@, at as int, 8, big_endian),
{
    let total: usize = buf.len();
    let mut v: u64 = 0;
    let mut i: usize = 0;
    if big_endian {
        while i < 8
            invariant
                i <= 8,
                at + 8 <= buf@.len() <= usize::MAX,
                v == number_at(buf@, at as int, i as int, true),
            decreases 8 - i,
        {
            proof {
                lemma_number_bound(buf@, at as int, i as int, true);
            }
            v = v * 256 + buf[at + i] as u64;
            i += 1;
        }
    } else {
        while i < 8
            invariant
                i <= 8,
                at + 8 <= buf@.len() <= usize::MAX,
                v == number_at(buf@, at + 8 - i, i as int, false),
            decreases 8 - i,
        {
            proof {
                lemma_number_bound(buf@, at + 8 - i, i as int, false);
            }
            v = buf[at + 7 - i] as u64 + 256 * v;
            i += 1;
        }
    }
    v
}

/// Reads the length that the record at `at` gives for itself.
pub fn read_reclen(buf: &[u8], at: usize, big_endian: bool) -> (v: u16)
    requires
        at + 19 <= buf@.len(),
    ensures
        v == record_at(buf@, at as int, big_endian).d_reclen,
{
    let total: usize = buf.len();
    let a: u16 = buf[at + 16] as u16;
    let b: u16 = buf[at + 17] as u16;
    proof {
        reveal_with_fuel(number_at, 3);
    }
    if big_endian {
        a * 256 + b
    } else {
        a + 256 * b
    }
}

/// Finds the length of the name of the record at `at`: the number of bytes
/// from its start up to the first NUL byte, or up to `end`.
pub fn name_len(buf: &[u8], end: usize, at: usize) -> (n: usize)
    requires
        at + 19 <= end <= buf@.len(),
    ensures
        n == spec_name_len(buf@, end as int, at as int),
        at + 19 + n <= end,
{
    let start: usize = at + 19;
    let mut i: usize = start;
    while i < end && buf[i] != 0u8
        invariant
            start <= i <= end <= buf@.len(),
            scan_nul(buf@, end as int, i as int) == scan_nul(buf@, end as int, start as int),
        decreases end - i,
    {
        i += 1;
    }
    i - start
}

impl RawDirEntry {
    /// Reads the fixed part of the record that starts at the place `at` of
    /// the buffer.
    pub fn parse(buf: &[u8], at: usize, big_endian: bool) -> (raw: RawDirEntry)
        requires
            at + 19 <= buf@.len(),
        ensures
            raw == record_at(buf@, at as int, big_endian),
    {
        let total: usize = buf.len();
        RawDirEntry {
            d_ino: read_u64(buf, at, big_endian),
            d_off: read_u64(buf, at + 8, big_endian),
            d_reclen: read_reclen(buf, at, big_endian),
            d_type: buf[at + 18],
        }
    }

    /// Return the file type of this directory entry, if one exists.
    ///
    /// A file type may not exist if the underlying file system reports an
    /// unknown file type in the directory entry.
    pub fn file_type(&self) -> (ft: Option<FileType>)
        ensures
            ft == crate::os::unix::stat::spec_from_dirent_type(self.d_type),
    {
        FileType::from_dirent_type(self.d_type)
    }

    /// Returns the underlying file serial number for this directory entry.
    pub fn ino(&self) -> (ino: u64)
        ensures
            ino == self.d_ino,
    {
        self.d_ino
    }

    /// Returns the total length (including padding), in bytes, of this
    /// directory entry.
    pub fn record_len(&self) -> (len: usize)
        ensures
            len == self.d_reclen,
    {
        self.d_reclen as usize
    }
}

} // verus!
