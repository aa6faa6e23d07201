use walkdir::dir::advance_past_dots;
use walkdir::os::linux::{DirEntryCursor, RawDirEntry};
use walkdir::os::unix::DirEntry;

const DT_DIR: u8 = 4;
const DT_REG: u8 = 8;
const DT_LNK: u8 = 10;

/// One record as `getdents64` writes it on a machine that stores the low
/// byte of a number first.
fn record(ino: u64, d_type: u8, name: &str) -> Vec<u8> {
    let reclen = (19 + name.len() + 1 + 7) / 8 * 8;
    let mut rec = vec![];
    rec.extend_from_slice(&ino.to_le_bytes());
    rec.extend_from_slice(&0x1122_3344_5566_7788u64.to_le_bytes());
    rec.extend_from_slice(&(reclen as u16).to_le_bytes());
    rec.push(d_type);
    rec.extend_from_slice(name.as_bytes());
    while rec.len() < reclen {
        rec.push(0);
    }
    rec
}

fn listing(records: &[(u64, u8, &str)]) -> Vec<u8> {
    let mut buf = vec![];
    for r in records {
        buf.extend(record(r.0, r.1, r.2));
    }
    buf
}

/// Reads everything that the buffers of the calls to `getdents64` hold.
fn run_linux(buffers: &[Vec<u8>]) -> Vec<DirEntry> {
    let mut ents = vec![];
    let mut cursor = DirEntryCursor::new();
    for buf in buffers {
        cursor.fill(buf);
        while let Some(ent) = cursor.read_unix() {
            ents.push(ent);
        }
    }
    ents
}

fn sorted_ents(ents: &[DirEntry]) -> Vec<DirEntry> {
    let mut ents = ents.to_vec();
    ents.sort_by(|e1, e2| e1.file_name_bytes().cmp(e2.file_name_bytes()));
    ents
}

fn sorted_file_names(ents: &[DirEntry]) -> Vec<Vec<u8>> {
    sorted_ents(ents).into_iter().map(|d| d.into_file_name_bytes()).collect()
}

#[test]
fn linux_empty() {
    let r = run_linux(&[listing(&[(2, DT_DIR, ".."), (5, DT_DIR, ".")])]);

    let ents = sorted_ents(&r);
    assert_eq!(2, ents.len());
    assert_eq!(b".", ents[0].file_name_bytes());
    assert_eq!(b"..", ents[1].file_name_bytes());
    assert!(ents[0].file_type().unwrap().is_dir());
    assert!(ents[1].file_type().unwrap().is_dir());
}

#[test]
fn linux_one_dir() {
    let r = run_linux(&[listing(&[(5, DT_DIR, "."), (2, DT_DIR, ".."), (9, DT_DIR, "a")])]);

    let ents = sorted_ents(&r);
    assert_eq!(3, ents.len());
    assert_eq!(b"a", ents[2].file_name_bytes());
    assert_ne!(0, ents[2].ino());
    assert!(ents[2].file_type().unwrap().is_dir());
}

#[test]
fn linux_one_file() {
    let r = run_linux(&[listing(&[(5, DT_DIR, "."), (9, DT_REG, "a"), (2, DT_DIR, "..")])]);

    let ents = sorted_ents(&r);
    assert_eq!(3, ents.len());
    assert_eq!(b"a", ents[2].file_name_bytes());
    assert_ne!(0, ents[2].ino());
    assert!(ents[2].file_type().unwrap().is_file());
}

#[test]
fn linux_many_files() {
    let r = run_linux(&[
        listing(&[(5, DT_DIR, "."), (2, DT_DIR, ".."), (9, DT_REG, "d")]),
        listing(&[(10, DT_REG, "b"), (11, DT_REG, "a"), (12, DT_REG, "c")]),
    ]);

    let expected = vec![
        b".".to_vec(),
        b"..".to_vec(),
        b"a".to_vec(),
        b"b".to_vec(),
        b"c".to_vec(),
        b"d".to_vec(),
    ];
    assert_eq!(expected, sorted_file_names(&r));
}

#[test]
fn linux_many_mixed() {
    let r = run_linux(&[listing(&[
        (5, DT_DIR, "."),
        (2, DT_DIR, ".."),
        (9, DT_REG, "a"),
        (10, DT_DIR, "b"),
        (11, DT_REG, "c"),
        (12, DT_DIR, "d"),
    ])]);

    let expected = vec![
        b".".to_vec(),
        b"..".to_vec(),
        b"a".to_vec(),
        b"b".to_vec(),
        b"c".to_vec(),
        b"d".to_vec(),
    ];
    assert_eq!(expected, sorted_file_names(&r));

    let ents = sorted_ents(&r);
    assert!(ents[2].file_type().unwrap().is_file());
    assert!(ents[3].file_type().unwrap().is_dir());
    assert!(ents[4].file_type().unwrap().is_file());
    assert!(ents[5].file_type().unwrap().is_dir());
}

#[test]
fn linux_symlink() {
    let r = run_linux(&[listing(&[
        (5, DT_DIR, "."),
        (2, DT_DIR, ".."),
        (9, DT_REG, "a"),
        (10, DT_LNK, "a-link"),
    ])]);

    let expected = vec![b".".to_vec(), b"..".to_vec(), b"a".to_vec(), b"a-link".to_vec()];
    assert_eq!(expected, sorted_file_names(&r));

    let ents = sorted_ents(&r);
    assert!(ents[2].file_type().unwrap().is_file());
    assert!(ents[3].file_type().unwrap().is_symlink());
}

#[test]
fn cursor_reads_records_in_their_order() {
    let mut cursor = DirEntryCursor::new();
    assert_eq!(cursor.capacity(), 32 * 1024);
    assert!(cursor.is_done());
    assert!(cursor.read().is_none());

    cursor.fill(&listing(&[(0x0102_0304_0506_0708, DT_REG, "first"), (7, 0, "a name of some length")]));
    assert!(!cursor.is_done());
    {
        let ent = cursor.read().unwrap();
        assert_eq!(ent.file_name_bytes(), b"first");
        assert_eq!(ent.ino(), 0x0102_0304_0506_0708);
        assert!(ent.file_type().unwrap().is_file());
        let owned = ent.to_unix();
        assert_eq!(owned.file_name(), b"first\0");
        assert_eq!(owned.ino(), 0x0102_0304_0506_0708);
    }
    assert!(cursor.advance());
    {
        let ent = cursor.current();
        assert_eq!(ent.file_name_bytes(), b"a name of some length");
        assert_eq!(ent.ino(), 7);
        // A type that the file system does not tell.
        assert!(ent.file_type().is_none());
    }
    assert!(!cursor.advance());
    assert!(cursor.is_done());
    assert!(cursor.read_unix().is_none());

    let mut owned = DirEntry::empty();
    assert!(!cursor.read_unix_into(&mut owned));
    assert_eq!(owned.file_name_bytes(), b"");
    cursor.fill(&listing(&[(3, DT_DIR, "x")]));
    assert!(cursor.read_unix_into(&mut owned));
    assert_eq!(owned.file_name_bytes(), b"x");
    assert_eq!(owned.ino(), 3);
    assert!(owned.file_type().unwrap().is_dir());
    assert!(!cursor.read_unix_into(&mut owned));
    assert_eq!(owned.file_name_bytes(), b"x");
}

#[test]
fn cursor_rewinds_and_clears() {
    let mut cursor = DirEntryCursor::new();
    cursor.fill(&listing(&[(1, DT_REG, "a"), (2, DT_REG, "b"), (3, DT_REG, "c")]));
    assert_eq!(cursor.read().unwrap().file_name_bytes(), b"a");
    assert_eq!(cursor.read().unwrap().file_name_bytes(), b"b");
    // A rewind goes back to the first record, and the cursor stays
    // advanced: the next record read is the one behind it.
    cursor.rewind();
    assert_eq!(cursor.current().file_name_bytes(), b"a");
    assert_eq!(cursor.read().unwrap().file_name_bytes(), b"b");
    let copy = cursor.clone();
    assert_eq!(copy.current().file_name_bytes(), b"b");
    cursor.clear();
    assert!(cursor.is_done());
    assert!(cursor.read().is_none());
}

#[test]
fn cursor_stops_at_what_is_no_whole_record() {
    let whole = listing(&[(1, DT_REG, "a"), (2, DT_REG, "b")]);
    let mut cursor = DirEntryCursor::new();
    // The second record is cut short.
    cursor.fill(&whole[..whole.len() - 1]);
    assert_eq!(cursor.read().unwrap().file_name_bytes(), b"a");
    assert!(cursor.read().is_none());
    // A record that says it is shorter than its fixed part.
    let mut bad = record(1, DT_REG, "a");
    bad[16] = 8;
    cursor.fill(&bad);
    assert!(cursor.read().is_none());
    // A name that no NUL ends within its record.
    let mut bad = record(1, DT_REG, "abcd");
    for b in bad.iter_mut().skip(19) {
        *b = b'x';
    }
    cursor.fill(&bad);
    assert!(cursor.read().is_none());
    // More than the buffer takes.
    let mut small = DirEntryCursor::with_capacity(24, false);
    small.fill(&listing(&[(1, DT_REG, "a"), (2, DT_REG, "b")]));
    assert_eq!(small.read().unwrap().file_name_bytes(), b"a");
    assert!(small.read().is_none());
}

#[test]
fn cursor_reads_either_byte_order() {
    let mut rec = vec![];
    rec.extend_from_slice(&0x0102_0304_0506_0708u64.to_be_bytes());
    rec.extend_from_slice(&0u64.to_be_bytes());
    rec.extend_from_slice(&24u16.to_be_bytes());
    rec.push(DT_DIR);
    rec.extend_from_slice(b"dir\0\0");
    let mut cursor = DirEntryCursor::with_capacity(64, true);
    cursor.fill(&rec);
    let ent = cursor.read().unwrap();
    assert_eq!(ent.ino(), 0x0102_0304_0506_0708);
    assert_eq!(ent.file_name_bytes(), b"dir");
    let raw = RawDirEntry::parse(&rec, 0, true);
    assert_eq!(raw.ino(), 0x0102_0304_0506_0708);
    assert_eq!(raw.record_len(), 24);
    assert_eq!(raw.d_off, 0);
    assert!(raw.file_type().unwrap().is_dir());
    let raw = RawDirEntry::parse(&record(9, DT_REG, "a"), 0, false);
    assert_eq!(raw.d_off, 0x1122_3344_5566_7788);
    assert_eq!(raw.d_ino, 9);
}

#[test]
fn dots_are_passed_over() {
    let mut cursor = DirEntryCursor::new();
    cursor.fill(&listing(&[
        (5, DT_DIR, "."),
        (2, DT_DIR, ".."),
        (9, DT_REG, "a"),
        (5, DT_DIR, "."),
        (10, DT_REG, "..."),
        (2, DT_DIR, ".."),
    ]));
    assert!(advance_past_dots(&mut cursor));
    assert_eq!(cursor.current().file_name_bytes(), b"a");
    assert!(advance_past_dots(&mut cursor));
    assert_eq!(cursor.current().file_name_bytes(), b"...");
    assert!(!advance_past_dots(&mut cursor));
    assert!(cursor.is_done());
    assert!(!advance_past_dots(&mut cursor));
}
