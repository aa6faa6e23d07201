//! Directory entries as Windows has them.

use vstd::prelude::*;
use vstd::slice::slice_subrange;
use crate::error::IoError;

pub mod rawpath;
pub mod stat;

pub use rawpath::RawPathBuf;
pub use stat::{FileType, Metadata};

verus! {

/// The attribute of a file that is hidden, `FILE_ATTRIBUTE_HIDDEN`.
pub const FILE_ATTRIBUTE_HIDDEN: u32 = 0x2;

/// The attribute of a directory, `FILE_ATTRIBUTE_DIRECTORY`.
pub const FILE_ATTRIBUTE_DIRECTORY: u32 = 0x10;

/// The attribute of a file with a reparse point,
/// `FILE_ATTRIBUTE_REPARSE_POINT`.
pub const FILE_ATTRIBUTE_REPARSE_POINT: u32 = 0x400;

/// The number that two halves of 32 bits stand for, the high half first.
pub open spec fn spec_join_halves(high: u32, low: u32) -> u64 {
    ((high as u64) << 32) | (low as u64)
}

/// Joins the two halves of a number of 64 bits, as Windows hands out file
/// times, file sizes and file indices.
pub fn join_halves(high: u32, low: u32) -> (v: u64)
    ensures
        v == spec_join_halves(high, low),
        v == high as int * 0x1_0000_0000 + low as int,
{
    let v: u64 = ((high as u64) << 32) | (low as u64);
    assert(v == (high as u64) * 0x1_0000_0000 + (low as u64)) by (bit_vector)
        requires
            v == ((high as u64) << 32) | (low as u64),
    ;
    v
}

/// Joins the two halves of a file time: the number of intervals of 100
/// nanoseconds since the start of 1601.
pub fn time_as_u64(high: u32, low: u32) -> (intervals: u64)
    ensures
        intervals == spec_join_halves(high, low),
{
    join_halves(high, low)
}

/// The number of intervals of a file time in a second.
pub const INTERVALS_PER_SECOND: u64 = 10_000_000;

/// The number of seconds from the start of 1601 to the start of 1970.
pub const SECONDS_TO_UNIX: i64 = 11_644_473_600;

/// The whole seconds between the start of 1970 and a file time; negative for
/// a time before 1970.
pub open spec fn spec_intervals_to_seconds(intervals: u64) -> int {
    intervals as int / 10_000_000 - 11_644_473_600
}

/// Converts a file time, a number of intervals of 100 nanoseconds since the
/// start of 1601, to whole seconds since the start of 1970.
pub fn intervals_to_system_time(intervals: u64) -> (secs: i64)
    ensures
        secs == spec_intervals_to_seconds(intervals),
{
    let whole: u64 = intervals / INTERVALS_PER_SECOND;
    (whole as i64) - SECONDS_TO_UNIX
}

/// A file time as a point in time, unless the file system does not keep it
/// and gives 0 in its place.
pub open spec fn spec_file_time(intervals: u64) -> Result<i64, IoError> {
    if intervals == 0 {
        Err(IoError::Unsupported)
    } else {
        Ok(spec_intervals_to_seconds(intervals) as i64)
    }
}

/// Converts a file time to whole seconds since the start of 1970. The file
/// time 0 stands for a time that the file system does not keep.
pub fn file_time(intervals: u64) -> (r: Result<i64, IoError>)
    ensures
        r == spec_file_time(intervals),
{
    if intervals == 0 {
        Err(IoError::Unsupported)
    } else {
        Ok(intervals_to_system_time(intervals))
    }
}

/// A low-level Windows specific directory entry.
///
/// This type corresponds as closely as possible to the `WIN32_FIND_DATA`
/// structure found on Windows platforms. It exposes the underlying file name,
/// raw file attributions, time information and file size.
#[derive(Debug)]
pub struct DirEntry {
    attr: u32,
    creation_time: u64,
    last_access_time: u64,
    last_write_time: u64,
    file_size: u64,
    file_type: FileType,
    /// The raw 16-bit code units that make up a file name in Windows. This
    /// does not include the NUL terminator.
    file_name_u16: Vec<u16>,
}

pub struct DirEntryView {
    pub attr: u32,
    pub creation_time: u64,
    pub last_access_time: u64,
    pub last_write_time: u64,
    pub file_size: u64,
    pub file_type: FileType,
    pub file_name: Seq<u16>,
}

impl View for DirEntry {
    type V = DirEntryView;

    closed spec fn view(&self) -> DirEntryView {
        DirEntryView {
            attr: self.attr,
            creation_time: self.creation_time,
            last_access_time: self.last_access_time,
            last_write_time: self.last_write_time,
            file_size: self.file_size,
            file_type: self.file_type,
            file_name: self.file_name_u16@,
        }
    }
}

/// What a search of a directory hands out for one file, as
/// `WIN32_FIND_DATAW` holds it.
#[derive(Debug)]
pub struct FindData {
    pub attr: u32,
    pub creation_time_high: u32,
    pub creation_time_low: u32,
    pub last_access_time_high: u32,
    pub last_access_time_low: u32,
    pub last_write_time_high: u32,
    pub last_write_time_low: u32,
    pub file_size_high: u32,
    pub file_size_low: u32,
    pub reparse_tag: u32,
    /// The name of the file, followed by NUL code units up to its full
    /// width.
    pub file_name: Vec<u16>,
}

impl FindData {
    /// The time of creation, in intervals since 1601.
    pub fn creation_time(&self) -> (t: u64)
        ensures
            t == spec_join_halves(self.creation_time_high, self.creation_time_low),
    {
        time_as_u64(self.creation_time_high, self.creation_time_low)
    }

    /// The time of the last access, in intervals since 1601.
    pub fn last_access_time(&self) -> (t: u64)
        ensures
            t == spec_join_halves(self.last_access_time_high, self.last_access_time_low),
    {
        time_as_u64(self.last_access_time_high, self.last_access_time_low)
    }

    /// The time of the last write, in intervals since 1601.
    pub fn last_write_time(&self) -> (t: u64)
        ensures
            t == spec_join_halves(self.last_write_time_high, self.last_write_time_low),
    {
        time_as_u64(self.last_write_time_high, self.last_write_time_low)
    }

    /// The size of the file in bytes.
    pub fn file_size(&self) -> (n: u64)
        ensures
            n == spec_join_halves(self.file_size_high, self.file_size_low),
    {
        join_halves(self.file_size_high, self.file_size_low)
    }

    /// The code units of the name of the file, up to the first NUL.
    pub fn file_name(&self) -> (name: &[u16])
        ensures
            name@ == spec_truncate_utf16(self.file_name@),
    {
        truncate_utf16(self.file_name.as_slice())
    }
}

impl DirEntry {
    /// Reads the contents of what a search handed out into this entry. The
    /// space of the name is used again.
    pub fn from_find_data(&mut self, fd: &FindData)
        ensures
            final(self)@ == (DirEntryView {
                attr: fd.attr,
                creation_time: spec_join_halves(fd.creation_time_high, fd.creation_time_low),
                last_access_time: spec_join_halves(
                    fd.last_access_time_high,
                    fd.last_access_time_low,
                ),
                last_write_time: spec_join_halves(fd.last_write_time_high, fd.last_write_time_low),
                file_size: spec_join_halves(fd.file_size_high, fd.file_size_low),
                file_type: FileType { attr: fd.attr, reparse_tag: fd.reparse_tag },
                file_name: spec_truncate_utf16(fd.file_name@),
            }),
    {
        self.attr = fd.attr;
        self.creation_time = fd.creation_time();
        self.last_access_time = fd.last_access_time();
        self.last_write_time = fd.last_write_time();
        self.file_size = fd.file_size();
        self.file_type = FileType::from_attr(self.attr, fd.reparse_tag);
        self.file_name_u16.clear();
        let name = fd.file_name();
        let mut i: usize = 0;
        while i < name.len()
            invariant
                i <= name@.len(),
                self.file_name_u16@ == name@.take(i as int),
                self.attr == fd.attr,
                self.creation_time == spec_join_halves(
                    fd.creation_time_high,
                    fd.creation_time_low,
                ),
                self.last_access_time == spec_join_halves(
                    fd.last_access_time_high,
                    fd.last_access_time_low,
                ),
                self.last_write_time == spec_join_halves(
                    fd.last_write_time_high,
                    fd.last_write_time_low,
                ),
                self.file_size == spec_join_halves(fd.file_size_high, fd.file_size_low),
                self.file_type == (FileType { attr: fd.attr, reparse_tag: fd.reparse_tag }),
            decreases name@.len() - i,
        {
            self.file_name_u16.push(name[i]);
            assert(self.file_name_u16@ =~= name@.take(i + 1));
            i += 1;
        }
        assert(name@.take(i as int) =~= name@);
    }

    /// Create a new empty directory entry.
    ///
    /// For an empty directory entry, the file name is empty, the file
    /// type returns `true` for `is_file` and `false` for all other public
    /// predicates, and the rest of the public API methods on a `DirEntry`
    /// return `0`.
    pub fn empty() -> (ent: DirEntry)
        ensures
            ent@ == (DirEntryView {
                attr: 0,
                creation_time: 0,
                last_access_time: 0,
                last_write_time: 0,
                file_size: 0,
                file_type: FileType { attr: 0, reparse_tag: 0 },
                file_name: Seq::empty(),
            }),
    {
        DirEntry {
            attr: 0,
            creation_time: 0,
            last_access_time: 0,
            last_write_time: 0,
            file_size: 0,
            file_type: FileType::from_attr(0, 0),
            file_name_u16: Vec::new(),
        }
    }

    /// Return the raw file attributes reported in this directory entry.
    ///
    /// The value returned directly corresponds to the `dwFileAttributes`
    /// member of the `WIN32_FIND_DATA` structure.
    pub fn file_attributes(&self) -> (attr: u32)
        ensures
            attr == self@.attr,
    {
        self.attr
    }

    /// Returns true if this file is marked as hidden via the
    /// `FILE_ATTRIBUTE_HIDDEN` marker.
    pub fn is_hidden(&self) -> (hidden: bool)
        ensures
            hidden == (self@.attr & FILE_ATTRIBUTE_HIDDEN != 0),
    {
        self.file_attributes() & FILE_ATTRIBUTE_HIDDEN != 0
    }

    /// Return the creation time of the underlying file, in whole seconds
    /// since the start of 1970.
    ///
    /// If the underlying file system does not support creation time, then an
    /// error is returned.
    pub fn created(&self) -> (r: Result<i64, IoError>)
        ensures
            r == spec_file_time(self@.creation_time),
    {
        file_time(self.creation_time)
    }

    /// Return last access time of the underlying file, in whole seconds
    /// since the start of 1970.
    ///
    /// If the underlying file system does not support last access time, then
    /// an error is returned.
    pub fn accessed(&self) -> (r: Result<i64, IoError>)
        ensures
            r == spec_file_time(self@.last_access_time),
    {
        file_time(self.last_access_time)
    }

    /// Return the last modified time of the underlying file, in whole
    /// seconds since the start of 1970.
    ///
    /// If the underlying file system does not support last write time, then
    /// an error is returned.
    pub fn modified(&self) -> (r: Result<i64, IoError>)
        ensures
            r == spec_file_time(self@.last_write_time),
    {
        file_time(self.last_write_time)
    }

    /// Return the file size, in bytes, of the corresponding file.
    ///
    /// This value has no meaning if this entry corresponds to a directory.
    pub fn len(&self) -> (n: u64)
        ensures
            n == self@.file_size,
    {
        self.file_size
    }

    /// Return the file type of this directory entry.
    pub fn file_type(&self) -> (ft: FileType)
        ensures
            ft == self@.file_type,
    {
        self.file_type
    }

    /// Return the file name in this directory entry as the system gave it:
    /// a sequence of 16-bit code units.
    ///
    /// The sequence returned is not guaranteed to be valid UTF-16.
    pub fn file_name_u16(&self) -> (name: &[u16])
        ensures
            name@ == self@.file_name,
    {
        self.file_name_u16.as_slice()
    }

    /// Consume this directory entry and return its file name as the system
    /// gave it: a sequence of 16-bit code units.
    ///
    /// The sequence returned is not guaranteed to be valid UTF-16.
    pub fn into_file_name_u16(self) -> (name: Vec<u16>)
        ensures
            name@ == self@.file_name,
    {
        self.file_name_u16
    }
}

/// The place of the first NUL code unit from `from` on, or the length of
/// the slice if there is none.
pub open spec fn first_nul(units: Seq<u16>, from: int) -> int
    decreases units.len() - from,
{
    if from < 0 || from >= units.len() {
        units.len() as int
    } else if units[from] == 0u16 {
        from
    } else {
        first_nul(units, from + 1)
    }
}

/// The code units before the first NUL, or all of them if there is none.
pub open spec fn spec_truncate_utf16(units: Seq<u16>) -> Seq<u16> {
    units.subrange(0, first_nul(units, 0))
}

pub proof fn lemma_first_nul(units: Seq<u16>, from: int)
    requires
        0 <= from <= units.len(),
    ensures
        from <= first_nul(units, from) <= units.len(),
    decreases units.len() - from,
{
    if from < units.len() && units[from] != 0u16 {
        lemma_first_nul(units, from + 1);
    }
}

/// Cuts a slice of code units before its first NUL.
pub fn truncate_utf16(slice: &[u16]) -> (name: &[u16])
    ensures
        name@ == spec_truncate_utf16(slice@),
{
    let mut i: usize = 0;
    while i < slice.len() && slice[i] != 0u16
        invariant
            i <= slice@.len(),
            first_nul(slice@, i as int) == first_nul(slice@, 0),
        decreases slice@.len() - i,
    {
        i += 1;
    }
    slice_subrange(slice, 0, i)
}

/// Copies the code units of a path to the end of a buffer, and refuses a
/// path that holds a NUL: the buffer then has what came before it.
pub fn to_utf16(units: &[u16], buf: &mut Vec<u16>) -> (r: Result<(), IoError>)
    ensures
        final(buf)@ == old(buf)@ + spec_truncate_utf16(units@),
        r is Ok <==> first_nul(units@, 0) == units@.len(),
        r is Err ==> r == Err::<(), IoError>(IoError::InvalidInput),
{
    let mut i: usize = 0;
    assert(units@.subrange(0, 0) =~= Seq::empty());
    assert(old(buf)@ + Seq::<u16>::empty() =~= old(buf)@);
    while i < units.len()
        invariant
            i <= units@.len(),
            first_nul(units@, i as int) == first_nul(units@, 0),
            buf@ == old(buf)@ + units@.subrange(0, i as int),
        decreases units@.len() - i,
    {
        if units[i] == 0u16 {
            return Err(IoError::InvalidInput);
        }
        buf.push(units[i]);
        assert(buf@ =~= old(buf)@ + units@.subrange(0, i + 1));
        i += 1;
    }
    Ok(())
}

/// The code of the upper case hexadecimal digit of a value below 16.
pub open spec fn upper_hex(d: u32) -> u32 {
    if d < 10 {
        (48 + d) as u32
    } else {
        (55 + d) as u32
    }
}

/// How a code unit that is half of a pair without its other half is shown:
/// as `\u{` and `}` around its four hexadecimal digits.
pub open spec fn escape_unit(u: u16) -> Seq<u32> {
    seq![
        92u32,
        117u32,
        123u32,
        upper_hex((u as u32) / 4096),
        upper_hex((u as u32) / 256 % 16),
        upper_hex((u as u32) / 16 % 16),
        upper_hex((u as u32) % 16),
        125u32,
    ]
}

pub open spec fn is_high(u: u16) -> bool {
    0xD800 <= u < 0xDC00
}

pub open spec fn is_low(u: u16) -> bool {
    0xDC00 <= u < 0xE000
}

/// The code points of the text that shows the code units from `from` on:
/// a unit that is no half of a pair stands for itself; a pair stands for
/// the one code point that it encodes; and half a pair without its other
/// half is shown as `escape_unit` has it.
pub open spec fn decode_from(units: Seq<u16>, from: int) -> Seq<u32>
    decreases units.len() - from,
{
    if from < 0 || from >= units.len() {
        Seq::empty()
    } else {
        let u = units[from];
        if !is_high(u) && !is_low(u) {
            seq![u as u32] + decode_from(units, from + 1)
        } else if is_high(u) && from + 1 < units.len() && is_low(units[from + 1]) {
            seq![
                (0x10000 + (u as u32 - 0xD800) * 0x400 + (units[from + 1] as u32 - 0xDC00)) as u32,
            ] + decode_from(units, from + 2)
        } else {
            escape_unit(u) + decode_from(units, from + 1)
        }
    }
}

/// The code points of a text.
pub open spec fn code_points(text: Seq<char>) -> Seq<u32> {
    text.map_values(|c: char| c as u32)
}

/// Calls `char::from_u32` of std, on a number that is a code point of
/// Unicode and no half of a pair, for which it returns the character with
/// that code.
#[verifier::external_body]
fn char_of(code: u32) -> (c: char)
    requires
        code < 0xD800 || 0xE000 <= code <= 0x10FFFF,
    ensures
        c as u32 == code,
{
    char::from_u32(code).unwrap()
}

/// Calls `String::push` of std, which appends the character to the end of
/// the string.
#[verifier::external_body]
fn push_char(s: &mut String, c: char)
    ensures
        final(s)@ == old(s)@.push(c),
{
    s.push(c)
}

fn upper_hex_of(d: u32) -> (code: u32)
    requires
        d < 16,
    ensures
        code == upper_hex(d),
        code < 0x80,
{
    if d < 10 {
        48 + d
    } else {
        55 + d
    }
}

fn push_code(s: &mut String, code: u32)
    requires
        code < 0xD800 || 0xE000 <= code <= 0x10FFFF,
    ensures
        code_points(final(s)@) == code_points(old(s)@).push(code),
{
    let c = char_of(code);
    push_char(s, c);
    assert(code_points(s@) =~= code_points(old(s)@).push(code));
}

/// Shows code units as text: what is valid UTF-16 as the text that it
/// encodes, and half a pair without its other half as `\u{` and `}` around
/// its hexadecimal digits.
pub fn escaped_u16s(slice: &[u16]) -> (text: String)
    ensures
        code_points(text@) == decode_from(slice@, 0),
{
    let mut buf = String::new();
    let mut i: usize = 0;
    assert(code_points(buf@) =~= Seq::empty());
    assert(Seq::<u32>::empty() + decode_from(slice@, 0) =~= decode_from(slice@, 0));
    while i < slice.len()
        invariant
            i <= slice@.len(),
            code_points(buf@) + decode_from(slice@, i as int) == decode_from(slice@, 0),
        decreases slice@.len() - i,
    {
        let u: u16 = slice[i];
        let ghost before = code_points(buf@);
        if !(0xD800 <= u && u < 0xE000) {
            push_code(&mut buf, u as u32);
            assert(code_points(buf@) + decode_from(slice@, i + 1) =~= before + decode_from(
                slice@,
                i as int,
            ));
            i += 1;
        } else if u < 0xDC00 && i + 1 < slice.len() && 0xDC00 <= slice[i + 1] && slice[i + 1]
            < 0xE000 {
            let low: u16 = slice[i + 1];
            let code: u32 = 0x10000 + (u as u32 - 0xD800) * 0x400 + (low as u32 - 0xDC00);
            push_code(&mut buf, code);
            assert(code_points(buf@) + decode_from(slice@, i + 2) =~= before + decode_from(
                slice@,
                i as int,
            ));
            i += 2;
        } else {
            let v: u32 = u as u32;
            push_code(&mut buf, 92);
            push_code(&mut buf, 117);
            push_code(&mut buf, 123);
            push_code(&mut buf, upper_hex_of(v / 4096));
            push_code(&mut buf, upper_hex_of(v / 256 % 16));
            push_code(&mut buf, upper_hex_of(v / 16 % 16));
            push_code(&mut buf, upper_hex_of(v % 16));
            push_code(&mut buf, 125);
            assert(code_points(buf@) =~= before + escape_unit(u));
            assert(code_points(buf@) + decode_from(slice@, i + 1) =~= before + decode_from(
                slice@,
                i as int,
            ));
            i += 1;
        }
    }
    assert(code_points(buf@) + Seq::<u32>::empty() =~= code_points(buf@));
    buf
}

} // verus!
