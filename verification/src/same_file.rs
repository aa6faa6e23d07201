//! Whether two files are one.

use vstd::prelude::*;

verus! {

/// What identifies a file on its platform.
#[derive(Clone, Copy, Debug, PartialEq, Eq, Structural)]
pub enum FileId {
    /// On Unix, the device and the file serial number that a stat reports.
    Unix { dev: u64, ino: u64 },
    /// On Windows, what the information of an open handle reports: the
    /// serial number of the volume, the two halves of the file index, and
    /// the two halves of the size, which is held against as well since a
    /// file index is not unique on every file system.
    Windows {
        volume_serial_number: u32,
        file_index_high: u32,
        file_index_low: u32,
        file_size_high: u32,
        file_size_low: u32,
    },
}

/// Two identities are of the same file if they are of one platform and
/// agree in every part.
pub open spec fn spec_is_same_file(a: FileId, b: FileId) -> bool {
    a == b
}

/// Tells whether two identities are of the same file. On Windows both
/// must have been taken while the handles of both files were open: a file
/// index is kept only as long as a handle is.
pub fn is_same_file(a: &FileId, b: &FileId) -> (same: bool)
    ensures
        same == spec_is_same_file(*a, *b),
{
    match (*a, *b) {
        (FileId::Unix { dev: d1, ino: i1 }, FileId::Unix { dev: d2, ino: i2 }) => d1 == d2 && i1
            == i2,
        (
            FileId::Windows {
                volume_serial_number: v1,
                file_index_high: h1,
                file_index_low: l1,
                file_size_high: sh1,
                file_size_low: sl1,
            },
            FileId::Windows {
                volume_serial_number: v2,
                file_index_high: h2,
                file_index_low: l2,
                file_size_high: sh2,
                file_size_low: sl2,
            },
        ) => v1 == v2 && h1 == h2 && l1 == l2 && sh1 == sh2 && sl1 == sl2,
        _ => false,
    }
}

/// Being the same file is an equivalence.
pub proof fn law_same_file_is_an_equivalence(a: FileId, b: FileId, c: FileId)
    ensures
        spec_is_same_file(a, a),
        spec_is_same_file(a, b) == spec_is_same_file(b, a),
        spec_is_same_file(a, b) && spec_is_same_file(b, c) ==> spec_is_same_file(a, c),
{
}

} // verus!
