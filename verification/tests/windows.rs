use walkdir::os::windows::{
    escaped_u16s, file_time, intervals_to_system_time, join_halves, time_as_u64, to_utf16,
    truncate_utf16, DirEntry, FileType, FindData, Metadata, RawPathBuf,
};
use walkdir::{FileKind, IoError};

const FILE_ATTRIBUTE_DIRECTORY: u32 = 0x10;
const FILE_ATTRIBUTE_ARCHIVE: u32 = 0x20;
const FILE_ATTRIBUTE_REPARSE_POINT: u32 = 0x400;
const IO_REPARSE_TAG_SYMLINK: u32 = 0xA000_000C;
const IO_REPARSE_TAG_DEDUP: u32 = 0x8000_0013;

#[test]
fn escaping1() {
    let x: Vec<u16> = "foo☃bar".encode_utf16().collect();
    let escaped = escaped_u16s(&x);
    assert_eq!("foo☃bar", escaped);
}

#[test]
fn escaping2() {
    let mut x = vec![];
    x.push(0xD800);
    x.extend("a".encode_utf16());
    x.push(0xDA02);
    x.extend("b".encode_utf16());
    x.push(0xDFFF);
    x.extend("c".encode_utf16());

    let escaped = escaped_u16s(&x);
    assert_eq!(r"\u{D800}a\u{DA02}b\u{DFFF}c", escaped);
}

#[test]
fn escaping_decodes_pairs() {
    let x: Vec<u16> = "a\u{1F600}\u{10000}\u{10FFFF}z".encode_utf16().collect();
    assert_eq!(escaped_u16s(&x), "a\u{1F600}\u{10000}\u{10FFFF}z");
    // A high half that no low half follows, at the end and before a high
    // half.
    assert_eq!(escaped_u16s(&[0xD83D]), r"\u{D83D}");
    assert_eq!(escaped_u16s(&[0xD83D, 0xD83D, 0xDE00]), "\\u{D83D}\u{1F600}");
    assert_eq!(escaped_u16s(&[]), "");
    assert_eq!(escaped_u16s(&[0xFFFF, 0xE000, 0xD7FF]), "\u{FFFF}\u{E000}\u{D7FF}");
}

fn wide(name: &str, width: usize) -> Vec<u16> {
    let mut units: Vec<u16> = name.encode_utf16().collect();
    while units.len() < width {
        units.push(0);
    }
    units
}

fn find_data(name: &str, attr: u32, reparse_tag: u32) -> FindData {
    FindData {
        attr,
        creation_time_high: 0x01D5_0000,
        creation_time_low: 7,
        last_access_time_high: 0,
        last_access_time_low: 0,
        last_write_time_high: 0x01D5_0001,
        last_write_time_low: 9,
        file_size_high: 1,
        file_size_low: 2,
        reparse_tag,
        file_name: wide(name, 260),
    }
}

fn run_windows(found: &[FindData]) -> Vec<DirEntry> {
    let mut ents = vec![];
    for fd in found {
        let mut ent = DirEntry::empty();
        ent.from_find_data(fd);
        ents.push(ent);
    }
    ents.sort_by(|e1, e2| e1.file_name_u16().cmp(e2.file_name_u16()));
    ents
}

fn name(ent: &DirEntry) -> String {
    String::from_utf16(ent.file_name_u16()).unwrap()
}

#[test]
fn windows_empty() {
    let found = vec![
        find_data(".", FILE_ATTRIBUTE_DIRECTORY, 0),
        find_data("..", FILE_ATTRIBUTE_DIRECTORY, 0),
    ];
    let ents = run_windows(&found);
    assert_eq!(2, ents.len());
    assert_eq!(".", name(&ents[0]));
    assert_eq!("..", name(&ents[1]));
    assert!(ents[0].file_type().is_dir());
    assert!(ents[1].file_type().is_dir());
}

#[test]
fn windows_one_dir() {
    let found = vec![
        find_data(".", FILE_ATTRIBUTE_DIRECTORY, 0),
        find_data("..", FILE_ATTRIBUTE_DIRECTORY, 0),
        find_data("a", FILE_ATTRIBUTE_DIRECTORY, 0),
    ];
    let ents = run_windows(&found);
    assert_eq!(3, ents.len());
    assert_eq!("a", name(&ents[2]));
    assert!(ents[2].file_type().is_dir());
}

#[test]
fn windows_one_file() {
    let found = vec![
        find_data(".", FILE_ATTRIBUTE_DIRECTORY, 0),
        find_data("..", FILE_ATTRIBUTE_DIRECTORY, 0),
        find_data("a", FILE_ATTRIBUTE_ARCHIVE, 0),
    ];
    let ents = run_windows(&found);
    assert_eq!(3, ents.len());
    assert_eq!("a", name(&ents[2]));
    assert!(ents[2].file_type().is_file());
}

#[test]
fn windows_symlink() {
    let found = vec![
        find_data("a", FILE_ATTRIBUTE_ARCHIVE, 0),
        find_data("a-link", FILE_ATTRIBUTE_REPARSE_POINT, IO_REPARSE_TAG_SYMLINK),
        find_data(
            "d-link",
            FILE_ATTRIBUTE_REPARSE_POINT | FILE_ATTRIBUTE_DIRECTORY,
            IO_REPARSE_TAG_SYMLINK,
        ),
    ];
    let ents = run_windows(&found);
    assert!(ents[0].file_type().is_file());
    assert!(ents[1].file_type().is_symlink());
    assert!(ents[1].file_type().is_symlink_file());
    assert!(!ents[1].file_type().is_symlink_dir());
    assert!(!ents[1].file_type().is_file());
    assert!(ents[2].file_type().is_symlink_dir());
    assert!(!ents[2].file_type().is_dir());
    assert_eq!(ents[2].file_type().into_api().0, FileKind::Symlink);
}

#[test]
fn empty_entry_is_a_file_with_nothing_in_it() {
    let ent = DirEntry::empty();
    assert_eq!(ent.file_name_u16(), &[][..]);
    assert!(ent.file_type().is_file());
    assert!(!ent.file_type().is_dir());
    assert!(!ent.file_type().is_symlink());
    assert_eq!(ent.file_attributes(), 0);
    assert_eq!(ent.len(), 0);
    assert!(!ent.is_hidden());
    assert_eq!(ent.created(), Err(IoError::Unsupported));
    assert_eq!(ent.accessed(), Err(IoError::Unsupported));
    assert_eq!(ent.modified(), Err(IoError::Unsupported));
    assert_eq!(ent.into_file_name_u16(), Vec::<u16>::new());
}

#[test]
fn entry_takes_what_was_found() {
    let mut ent = DirEntry::empty();
    ent.from_find_data(&find_data("a long name", 0x22, 5));
    ent.from_find_data(&find_data("name", 0x22, 5));
    assert_eq!(name(&ent), "name");
    assert_eq!(ent.file_attributes(), 0x22);
    assert!(ent.is_hidden());
    assert_eq!(ent.len(), (1u64 << 32) + 2);
    assert_eq!(ent.file_type(), FileType::from_attr(0x22, 5));
    let created: u64 = (0x01D5_0000u64 << 32) + 7;
    assert_eq!(ent.created(), Ok((created / 10_000_000) as i64 - 11_644_473_600));
    assert_eq!(ent.accessed(), Err(IoError::Unsupported));
    let written: u64 = (0x01D5_0001u64 << 32) + 9;
    assert_eq!(ent.modified(), Ok((written / 10_000_000) as i64 - 11_644_473_600));
}

#[test]
fn a_reparse_point_that_is_no_surrogate_is_no_link() {
    // The tag counts only with the attribute, and only if it is one of a
    // name surrogate.
    assert!(!FileType::from_attr(0, IO_REPARSE_TAG_SYMLINK).is_symlink());
    assert!(!FileType::from_attr(FILE_ATTRIBUTE_REPARSE_POINT, IO_REPARSE_TAG_DEDUP).is_symlink());
    assert!(FileType::from_attr(FILE_ATTRIBUTE_REPARSE_POINT, 0x2000_0000).is_symlink());
    let dir = FileType::from_attr(FILE_ATTRIBUTE_DIRECTORY, IO_REPARSE_TAG_SYMLINK);
    assert!(dir.is_dir());
    assert_eq!(dir.into_api().0, FileKind::Dir);
    assert_eq!(FileType::from_attr(0, 0).into_api().0, FileKind::File);
}

#[test]
fn times_and_halves() {
    assert_eq!(time_as_u64(0, 0), 0);
    assert_eq!(time_as_u64(1, 0), 1 << 32);
    assert_eq!(join_halves(0xFFFF_FFFF, 0xFFFF_FFFF), u64::MAX);
    assert_eq!(join_halves(0x1234_5678, 0x9ABC_DEF0), 0x1234_5678_9ABC_DEF0);
    // The start of 1970 as a file time.
    assert_eq!(intervals_to_system_time(116_444_736_000_000_000), 0);
    assert_eq!(intervals_to_system_time(116_444_736_000_000_000 + 10_000_000), 1);
    assert_eq!(intervals_to_system_time(116_444_736_000_000_000 + 9_999_999), 0);
    assert_eq!(intervals_to_system_time(0), -11_644_473_600);
    assert_eq!(intervals_to_system_time(u64::MAX), 1_844_674_407_370 - 11_644_473_600);
    assert_eq!(file_time(0), Err(IoError::Unsupported));
    assert_eq!(file_time(1), Ok(-11_644_473_600));
}

#[test]
fn names_end_at_the_first_nul() {
    assert_eq!(truncate_utf16(&[97, 98, 0, 99, 0]), &[97, 98][..]);
    assert_eq!(truncate_utf16(&[0, 1]), &[][..]);
    assert_eq!(truncate_utf16(&[1, 2, 3]), &[1, 2, 3][..]);
    assert_eq!(truncate_utf16(&[]), &[][..]);
}

#[test]
fn paths_with_a_nul_are_refused() {
    let mut buf = vec![9u16];
    assert_eq!(to_utf16(&[97, 98], &mut buf), Ok(()));
    assert_eq!(buf, vec![9, 97, 98]);
    assert_eq!(to_utf16(&[99, 0, 100], &mut buf), Err(IoError::InvalidInput));
    assert_eq!(buf, vec![9, 97, 98, 99]);
}

#[test]
fn wide_path_keeps_its_code_units() {
    let p = RawPathBuf::from_code_units(vec![0xD800, 97]);
    assert_eq!(p.as_code_units(), &[0xD800, 97][..]);
    assert_eq!(p.as_code_units_with_nul(), &[0xD800, 97, 0][..]);
    let q = p.clone();
    assert_eq!(q.as_code_units(), p.as_code_units());
}

#[test]
fn metadata_of_an_open_file() {
    let md = Metadata {
        attr: FILE_ATTRIBUTE_DIRECTORY | 2,
        creation_time: 116_444_736_000_000_000,
        last_access_time: 0,
        last_write_time: 116_444_736_000_000_000 + 30_000_000,
        volume_serial_number: 77,
        file_size_high: 0,
        file_size_low: 4096,
        number_of_links: 3,
        file_index_high: 1,
        file_index_low: 5,
        reparse_tag: 0,
    };
    assert!(md.file_type().is_dir());
    assert!(md.is_hidden());
    assert_eq!(md.file_attributes(), 0x12);
    assert_eq!(md.created(), Ok(0));
    assert_eq!(md.accessed(), Err(IoError::Unsupported));
    assert_eq!(md.modified(), Ok(3));
    assert_eq!(md.len(), 4096);
    assert_eq!(md.number_of_links(), 3);
    assert_eq!(md.volume_serial_number(), 77);
    assert_eq!(md.file_index(), (1 << 32) + 5);
    let api = md.into_api();
    assert_eq!(api.file_type.0, FileKind::Dir);
    assert_eq!(api.dev, Some(77));
    assert_eq!(api.ino, (1 << 32) + 5);
}
