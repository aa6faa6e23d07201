use walkdir::cli::{indent, Args};
use walkdir::dent::child_path;
use walkdir::os::unix::{escaped_bytes, DirEntry as UnixDirEntry, FileType as UnixFileType};
use walkdir::os::unix::{Metadata as UnixMetadata, Timestamp};
use walkdir::{
    is_dots, is_same_file, Action, DirEntry, DirEntryExt, Error, Event, FileId, FileKind,
    FileType, IoError, Metadata, Order, RawEntry, WalkDir, WalkDirOptions,
};

#[test]
fn dots() {
    assert!(is_dots(b"."));
    assert!(is_dots(b".."));
    assert!(!is_dots(b""));
    assert!(!is_dots(b"..."));
    assert!(!is_dots(b"a"));
    assert!(!is_dots(b".a"));
    assert!(!is_dots(b"a."));
    assert!(!is_dots(b"/"));
}

#[test]
fn child_paths() {
    assert_eq!(child_path(b"a", b"b"), b"a/b");
    assert_eq!(child_path(b"a/", b"b"), b"a/b");
    assert_eq!(child_path(b"/", b"b"), b"/b");
    assert_eq!(child_path(b"", b"b"), b"b");
    assert_eq!(child_path(b"a//", b"b"), b"a//b");
}

#[test]
fn file_names() {
    let name = |path: &[u8]| {
        DirEntry::new(path.to_vec(), FileType(FileKind::File), false, 0, 0).file_name().to_vec()
    };
    assert_eq!(name(b"a/b/c"), b"c");
    assert_eq!(name(b"c"), b"c");
    assert_eq!(name(b"a/b/"), b"b");
    assert_eq!(name(b"a/b///"), b"b");
    assert_eq!(name(b"/"), b"/");
    assert_eq!(name(b"//"), b"//");
    assert_eq!(name(b""), b"");
    assert_eq!(name(b"a/.."), b"a/..");
    assert_eq!(name(b".."), b"..");
    assert_eq!(name(b"a/..."), b"...");
    assert_eq!(name(b"/x"), b"x");
}

#[test]
fn record_accessors() {
    let raw = RawEntry { name: b"n".to_vec(), file_type: None, ino: 9 };
    let mut dent = DirEntry::from_raw(b"dir", &raw, FileType(FileKind::Symlink), 3);
    assert_eq!(dent.path(), b"dir/n");
    assert_eq!(dent.depth(), 3);
    assert_eq!(dent.ino(), 9);
    assert!(dent.file_type().is_symlink());
    assert!(dent.path_is_symlink());
    assert!(!dent.follow_link());
    assert!(!dent.is_dir());
    let md = Metadata { file_type: FileType(FileKind::Dir), dev: Some(1), ino: 11 };
    dent.set_followed(&md);
    assert!(dent.is_dir());
    assert!(dent.follow_link());
    assert!(dent.metadata_follows());
    // The path still leads over a link, though the record is of a
    // directory.
    assert!(dent.path_is_symlink());
    assert_eq!(dent.ino(), 11);
    dent.set_file_type(FileType(FileKind::Other));
    assert!(!dent.file_type().is_dir());
    assert!(!dent.file_type().is_file());
    assert!(!dent.file_type().is_symlink());
    dent.set_stat(&Metadata { file_type: FileType(FileKind::File), dev: None, ino: 12 });
    assert!(dent.file_type().is_file());
    assert_eq!(dent.ino(), 12);
    assert_eq!(dent.into_path(), b"dir/n");
}

#[test]
fn errors() {
    let e = Error::from_path(2, b"p".to_vec(), IoError::Os(13));
    assert_eq!(e.depth(), 2);
    assert_eq!(e.path(), Some(&b"p"[..]));
    assert_eq!(e.loop_ancestor(), None);
    assert_eq!(e.io_error(), Some(IoError::Os(13)));
    assert_eq!(e.into_io_error(), IoError::Os(13));

    let e = Error::from_io(4, IoError::Other);
    assert_eq!(e.depth(), 4);
    assert_eq!(e.path(), None);
    assert_eq!(e.io_error(), Some(IoError::Other));

    let e = Error::from_loop(1, b"anc", b"anc/child");
    assert_eq!(e.depth(), 1);
    assert_eq!(e.path(), Some(&b"anc/child"[..]));
    assert_eq!(e.loop_ancestor(), Some(&b"anc"[..]));
    assert_eq!(e.io_error(), None);
    assert_eq!(e.into_io_error(), IoError::Other);
}

fn first_stat(wd: WalkDir) -> walkdir::IntoIter {
    let mut it = wd.into_iter();
    assert!(matches!(it.step(Event::Resume), Action::Stat { .. }));
    it
}

#[test]
fn builder_coerces_and_clamps() {
    assert_eq!(
        WalkDirOptions::default(),
        WalkDirOptions {
            follow_links: false,
            max_open: 10,
            min_depth: 0,
            max_depth: usize::MAX,
            sorted: false,
            contents_first: false,
            same_file_system: false,
        }
    );
    let opts = |wd: WalkDir| wd.into_iter().options();
    assert_eq!(opts(WalkDir::new(vec![])), WalkDirOptions::default());
    assert_eq!(opts(WalkDir::new(vec![]).max_open(0)).max_open, 1);
    assert_eq!(opts(WalkDir::new(vec![]).max_open(1)).max_open, 1);
    assert_eq!(opts(WalkDir::new(vec![]).max_open(7)).max_open, 7);
    let o = opts(WalkDir::new(vec![]).max_depth(3).min_depth(5));
    assert_eq!((o.min_depth, o.max_depth), (3, 3));
    let o = opts(WalkDir::new(vec![]).min_depth(5).max_depth(3));
    assert_eq!((o.min_depth, o.max_depth), (5, 5));
    let o = opts(WalkDir::new(vec![]).min_depth(2).max_depth(4));
    assert_eq!((o.min_depth, o.max_depth), (2, 4));
    let o = opts(
        WalkDir::new(vec![])
            .follow_links(true)
            .sort_by(true)
            .contents_first(true)
            .same_file_system(true),
    );
    assert!(o.follow_links && o.sorted && o.contents_first && o.same_file_system);
    let o = opts(WalkDir::new(vec![]).follow_links(true).follow_links(false));
    assert!(!o.follow_links);
}

#[test]
fn a_file_as_root_is_all_there_is() {
    let mut it = first_stat(WalkDir::new(b"file".to_vec()));
    assert_eq!(it.depth(), 0);
    let md = Metadata { file_type: FileType(FileKind::File), dev: Some(3), ino: 5 };
    match it.step(Event::Stat(Ok(md))) {
        Action::Yield(Ok(dent)) => {
            assert_eq!(dent.path(), b"file");
            assert_eq!(dent.depth(), 0);
            assert_eq!(dent.ino(), 5);
            assert!(dent.file_type().is_file());
        }
        other => panic!("expected the root, got {:?}", other),
    }
    it.skip_current_dir();
    assert!(matches!(it.step(Event::Resume), Action::Done));
}

#[test]
fn steps_of_one_directory() {
    let mut it = first_stat(WalkDir::new(b"d".to_vec()).max_open(1));
    let md = Metadata { file_type: FileType(FileKind::Dir), dev: Some(3), ino: 5 };
    match it.step(Event::Stat(Ok(md))) {
        Action::OpenDir { path, handle } => {
            assert_eq!(path, b"d");
            assert_eq!(handle, 0);
        }
        other => panic!("expected to open, got {:?}", other),
    }
    assert!(matches!(it.step(Event::OpenDir(Ok(()))), Action::Yield(Ok(_))));
    assert_eq!(it.depth(), 1);
    assert!(matches!(it.step(Event::Resume), Action::ReadDir { handle: 0 }));
    // A directory in it: the one that is open is drained to make room.
    let sub = RawEntry { name: b"sub".to_vec(), file_type: Some(FileType(FileKind::Dir)), ino: 6 };
    assert!(matches!(it.step(Event::ReadDir(Some(Ok(sub)))), Action::Drain { handle: 0 }));
    let left = vec![
        Ok(RawEntry { name: b"..".to_vec(), file_type: None, ino: 1 }),
        Err(IoError::Os(5)),
        Ok(RawEntry { name: b"f".to_vec(), file_type: None, ino: 8 }),
    ];
    match it.step(Event::Drain(left)) {
        Action::Stat { path, follow } => {
            assert_eq!(path, b"d/f");
            assert!(!follow);
        }
        other => panic!("expected a stat, got {:?}", other),
    }
    let md = Metadata { file_type: FileType(FileKind::File), dev: Some(3), ino: 8 };
    match it.step(Event::Stat(Ok(md))) {
        Action::OpenDir { path, handle } => {
            assert_eq!(path, b"d/sub");
            assert_eq!(handle, 1);
        }
        other => panic!("expected to open, got {:?}", other),
    }
    match it.step(Event::OpenDir(Err(IoError::Os(13)))) {
        Action::Yield(Ok(dent)) => assert_eq!(dent.path(), b"d/sub"),
        other => panic!("expected the directory, got {:?}", other),
    }
    assert_eq!(it.depth(), 2);
    match it.step(Event::Resume) {
        Action::Yield(Err(err)) => {
            assert_eq!(err.io_error(), Some(IoError::Os(13)));
            assert_eq!(err.path(), Some(&b"d/sub"[..]));
            assert_eq!(err.depth(), 1);
        }
        other => panic!("expected the error, got {:?}", other),
    }
    match it.step(Event::Resume) {
        Action::Yield(Err(err)) => {
            assert_eq!(err.io_error(), Some(IoError::Os(5)));
            assert_eq!(err.path(), None);
            assert_eq!(err.depth(), 1);
        }
        other => panic!("expected the error, got {:?}", other),
    }
    assert_eq!(it.depth(), 1);
    match it.step(Event::Resume) {
        Action::Yield(Ok(dent)) => {
            assert_eq!(dent.path(), b"d/f");
            assert!(dent.file_type().is_file());
            assert_eq!(dent.depth(), 1);
        }
        other => panic!("expected the file, got {:?}", other),
    }
    assert!(matches!(it.step(Event::Resume), Action::Done));
    assert_eq!(it.depth(), 0);
}

#[test]
fn skipping_an_open_directory_closes_it() {
    let mut it = first_stat(WalkDir::new(b"d".to_vec()));
    let md = Metadata { file_type: FileType(FileKind::Dir), dev: Some(3), ino: 5 };
    assert!(matches!(it.step(Event::Stat(Ok(md))), Action::OpenDir { .. }));
    assert!(matches!(it.step(Event::OpenDir(Ok(()))), Action::Yield(Ok(_))));
    it.skip_current_dir();
    assert_eq!(it.depth(), 0);
    assert!(matches!(it.step(Event::Resume), Action::CloseDir { handle: 0 }));
    assert!(matches!(it.step(Event::Resume), Action::Done));
}

#[test]
fn sorted_directory_puts_errors_last() {
    let mut it = first_stat(WalkDir::new(b"d".to_vec()).sort_by(true).min_depth(1));
    let md = Metadata { file_type: FileType(FileKind::Dir), dev: Some(3), ino: 5 };
    assert!(matches!(it.step(Event::Stat(Ok(md))), Action::OpenDir { .. }));
    assert!(matches!(it.step(Event::OpenDir(Ok(()))), Action::Drain { handle: 0 }));
    let file = Some(FileType(FileKind::File));
    let raws = vec![
        Ok(RawEntry { name: b"b".to_vec(), file_type: file, ino: 1 }),
        Err(IoError::Os(5)),
        Ok(RawEntry { name: b".".to_vec(), file_type: file, ino: 1 }),
        Ok(RawEntry { name: b"a".to_vec(), file_type: file, ino: 2 }),
        Err(IoError::Os(6)),
        Ok(RawEntry { name: b"c".to_vec(), file_type: file, ino: 3 }),
    ];
    let mut got = vec![];
    let mut asked = vec![];
    let mut action = it.step(Event::Drain(raws));
    loop {
        let event = match action {
            Action::Compare { a, b } => {
                let order = match a.path().cmp(b.path()) {
                    std::cmp::Ordering::Less => Order::Less,
                    std::cmp::Ordering::Equal => Order::Equal,
                    std::cmp::Ordering::Greater => Order::Greater,
                };
                asked.push((a.into_path(), b.into_path()));
                Event::Order(order)
            }
            Action::Yield(Ok(dent)) => {
                got.push(Ok(dent.into_path()));
                Event::Resume
            }
            Action::Yield(Err(err)) => {
                got.push(Err(err.io_error()));
                Event::Resume
            }
            Action::Done => break,
            other => panic!("unexpected {:?}", other),
        };
        action = it.step(event);
    }
    assert_eq!(
        asked,
        vec![
            (b"d/a".to_vec(), b"d/b".to_vec()),
            (b"d/c".to_vec(), b"d/b".to_vec()),
        ]
    );
    assert_eq!(
        got,
        vec![
            Ok(b"d/a".to_vec()),
            Ok(b"d/b".to_vec()),
            Ok(b"d/c".to_vec()),
            Err(Some(IoError::Os(5))),
            Err(Some(IoError::Os(6))),
        ]
    );
}

#[test]
fn an_answer_that_is_no_order_counts_as_alike() {
    let mut it = first_stat(WalkDir::new(b"d".to_vec()).sort_by(true).min_depth(1));
    let md = Metadata { file_type: FileType(FileKind::Dir), dev: Some(3), ino: 5 };
    assert!(matches!(it.step(Event::Stat(Ok(md))), Action::OpenDir { .. }));
    assert!(matches!(it.step(Event::OpenDir(Ok(()))), Action::Drain { handle: 0 }));
    let file = Some(FileType(FileKind::File));
    let raws = vec![
        Ok(RawEntry { name: b"b".to_vec(), file_type: file, ino: 1 }),
        Ok(RawEntry { name: b"a".to_vec(), file_type: file, ino: 2 }),
    ];
    assert!(matches!(it.step(Event::Drain(raws)), Action::Compare { .. }));
    match it.step(Event::Resume) {
        Action::Yield(Ok(dent)) => assert_eq!(dent.path(), b"d/b"),
        other => panic!("unexpected {:?}", other),
    }
    match it.step(Event::Resume) {
        Action::Yield(Ok(dent)) => assert_eq!(dent.path(), b"d/a"),
        other => panic!("unexpected {:?}", other),
    }
    assert!(matches!(it.step(Event::Resume), Action::Done));
}

#[test]
fn unix_file_types() {
    assert!(UnixFileType::from_dirent_type(8).unwrap().is_file());
    assert!(UnixFileType::from_dirent_type(4).unwrap().is_dir());
    assert!(UnixFileType::from_dirent_type(10).unwrap().is_symlink());
    assert!(UnixFileType::from_dirent_type(6).unwrap().is_block_device());
    assert!(UnixFileType::from_dirent_type(2).unwrap().is_char_device());
    assert!(UnixFileType::from_dirent_type(1).unwrap().is_fifo());
    assert!(UnixFileType::from_dirent_type(12).unwrap().is_socket());
    assert!(UnixFileType::from_dirent_type(0).is_none());
    assert!(UnixFileType::from_dirent_type(3).is_none());
    assert!(UnixFileType::from_dirent_type(255).is_none());

    let dir = UnixFileType::from_stat_mode(0o040755);
    assert!(dir.is_dir());
    assert!(!dir.is_file() && !dir.is_symlink() && !dir.is_socket() && !dir.is_fifo());
    assert_eq!(dir.human(), "Directory");
    assert_eq!(dir.into_api().0, FileKind::Dir);
    let file = UnixFileType::from_stat_mode(0o100644 | (7 << 32));
    assert!(file.is_file());
    assert_eq!(file.0, 0o100644);
    assert_eq!(file.human(), "File");
    assert_eq!(file.into_api().0, FileKind::File);
    assert_eq!(UnixFileType::from_stat_mode(0o120777).human(), "Symbolic Link");
    assert_eq!(UnixFileType::from_stat_mode(0o120777).into_api().0, FileKind::Symlink);
    assert_eq!(UnixFileType::from_stat_mode(0o060000).human(), "Block Device");
    assert_eq!(UnixFileType::from_stat_mode(0o020000).human(), "Char Device");
    assert_eq!(UnixFileType::from_stat_mode(0o010000).human(), "FIFO");
    assert_eq!(UnixFileType::from_stat_mode(0o140000).human(), "Socket");
    assert_eq!(UnixFileType::from_stat_mode(0o140000).into_api().0, FileKind::Other);
    assert_eq!(UnixFileType::from_stat_mode(0).human(), "Unknown");
    assert_eq!(UnixFileType::from_stat_mode(0o777).into_api().0, FileKind::Other);
}

#[test]
fn unix_metadata() {
    let md = UnixMetadata {
        mode: 0o100600,
        size: 12,
        dev: 2049,
        ino: 77,
        mtime: Timestamp { secs: 10, nanos: 5 },
        atime: Timestamp { secs: 11, nanos: 6 },
        birthtime: None,
    };
    assert!(md.file_type().is_file());
    assert_eq!(md.len(), 12);
    assert_eq!(md.dev(), 2049);
    assert_eq!(md.ino(), 77);
    assert_eq!(md.mode(), 0o100600);
    assert_eq!(md.modified(), Ok(Timestamp { secs: 10, nanos: 5 }));
    assert_eq!(md.accessed(), Ok(Timestamp { secs: 11, nanos: 6 }));
    assert_eq!(md.created(), Err(IoError::Unsupported));
    let born = UnixMetadata { birthtime: Some(Timestamp { secs: 1, nanos: 2 }), ..md };
    assert_eq!(born.created(), Ok(Timestamp { secs: 1, nanos: 2 }));
    let api = md.into_api();
    assert_eq!(api, Metadata { file_type: FileType(FileKind::File), dev: Some(2049), ino: 77 });
}

#[test]
fn unix_entries() {
    let mut ent = UnixDirEntry::empty();
    assert_eq!(ent.file_name(), b"\0");
    assert_eq!(ent.file_name_bytes(), b"");
    assert!(ent.file_type().is_none());
    assert_eq!(ent.ino(), 0);
    ent.set(b"a long name", UnixFileType::from_dirent_type(4), 7);
    ent.set(b"name", UnixFileType::from_dirent_type(8), 9);
    assert_eq!(ent.file_name(), b"name\0");
    assert_eq!(ent.file_name_bytes(), b"name");
    assert!(ent.file_type().unwrap().is_file());
    assert_eq!(ent.ino(), 9);
    let raw = ent.to_raw();
    assert_eq!(raw.name, b"name");
    assert_eq!(raw.file_type, Some(FileType(FileKind::File)));
    assert_eq!(raw.ino, 9);
    let copy = ent.clone();
    assert_eq!(copy.into_file_name_bytes(), b"name");
    ent.set(b"x", None, 1);
    assert_eq!(ent.to_raw().file_type, None);
}

#[test]
fn bytes_are_escaped() {
    assert_eq!(escaped_bytes(b"abc XYZ~"), b"abc XYZ~");
    assert_eq!(escaped_bytes(b"\t\r\n"), b"\\t\\r\\n");
    assert_eq!(escaped_bytes(b"'\"\\"), b"\\'\\\"\\\\");
    assert_eq!(escaped_bytes(&[0, 31, 127, 128, 255, 0xab]), b"\\x00\\x1f\\x7f\\x80\\xff\\xab");
    assert_eq!(escaped_bytes(b""), b"");
    let all: Vec<u8> = (0..=255).collect();
    let want: Vec<u8> = all.iter().flat_map(|b| std::ascii::escape_default(*b)).collect();
    assert_eq!(escaped_bytes(&all), want);
}

#[test]
fn same_files() {
    let a = FileId::Unix { dev: 1, ino: 2 };
    assert!(is_same_file(&a, &FileId::Unix { dev: 1, ino: 2 }));
    assert!(!is_same_file(&a, &FileId::Unix { dev: 1, ino: 3 }));
    assert!(!is_same_file(&a, &FileId::Unix { dev: 2, ino: 2 }));
    let w = FileId::Windows {
        volume_serial_number: 1,
        file_index_high: 2,
        file_index_low: 3,
        file_size_high: 4,
        file_size_low: 5,
    };
    assert!(is_same_file(&w, &w.clone()));
    for i in 0..5 {
        let mut parts = [1u32, 2, 3, 4, 5];
        parts[i] += 1;
        let other = FileId::Windows {
            volume_serial_number: parts[0],
            file_index_high: parts[1],
            file_index_low: parts[2],
            file_size_high: parts[3],
            file_size_low: parts[4],
        };
        assert!(!is_same_file(&w, &other));
    }
    assert!(!is_same_file(&a, &w));
}

fn args() -> Args {
    Args {
        dirs: vec![b"./".to_vec()],
        follow_links: false,
        min_depth: None,
        max_depth: None,
        max_open: Some(10),
        tree: false,
        ignore_errors: false,
        sort: false,
        depth_first: false,
        same_file_system: false,
        timeit: false,
        count: false,
        justfiles: false,
    }
}

#[test]
fn arguments_make_the_settings() {
    let a = args();
    assert_eq!(a.walkdir(b"p").into_iter().options(), WalkDirOptions::default());
    let b = Args {
        follow_links: true,
        min_depth: Some(4),
        max_depth: Some(2),
        max_open: Some(0),
        sort: true,
        depth_first: true,
        same_file_system: true,
        ..args()
    };
    assert_eq!(
        b.walkdir(b"p").into_iter().options(),
        WalkDirOptions {
            follow_links: true,
            max_open: 1,
            min_depth: 4,
            max_depth: 4,
            sorted: true,
            contents_first: true,
            same_file_system: true,
        }
    );
    let c = Args { max_open: None, max_depth: Some(6), ..args() };
    let o = c.walkdir(b"p").into_iter().options();
    assert_eq!((o.max_open, o.min_depth, o.max_depth), (10, 0, 6));
    match c.walkdir(b"p").into_iter().step(Event::Resume) {
        Action::Stat { path, .. } => assert_eq!(path, b"p"),
        other => panic!("expected a stat, got {:?}", other),
    }
}

#[test]
fn listing_decisions() {
    let file = DirEntry::new(b"f".to_vec(), FileType(FileKind::File), false, 1, 0);
    let dir = DirEntry::new(b"d".to_vec(), FileType(FileKind::Dir), false, 1, 0);
    let a = args();
    assert!(a.prints(&file) && a.prints(&dir));
    let j = Args { justfiles: true, ..args() };
    assert!(j.prints(&file));
    assert!(!j.prints(&dir));
    assert_eq!(indent(0), b"");
    assert_eq!(indent(1), b"  ");
    assert_eq!(indent(3), b"      ");
}
