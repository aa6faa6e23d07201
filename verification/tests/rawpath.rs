use walkdir::os::unix::RawPathBuf;

fn tostr(p: &RawPathBuf) -> &str {
    std::str::from_utf8(p.as_code_units()).unwrap()
}

#[test]
fn push1() {
    let mut p = RawPathBuf::from_str("a/b");
    p.join(b"c");
    assert_eq!("a/b/c", tostr(&p));
}

#[test]
fn push2() {
    let mut p = RawPathBuf::from_str("a/b/");
    p.join(b"c");
    assert_eq!("a/b/c", tostr(&p));
}

#[test]
fn push3() {
    let mut p = RawPathBuf::from_str("a/b");
    p.join(b"/c");
    assert_eq!("a/b/c", tostr(&p));
}

#[test]
fn push4() {
    let mut p = RawPathBuf::from_str("a/b/");
    p.join(b"/c");
    assert_eq!("a/b/c", tostr(&p));
}

#[test]
fn push5() {
    let mut p = RawPathBuf::from_str("a/b//");
    p.join(b"/c");
    assert_eq!("a/b//c", tostr(&p));
}

#[test]
fn pop1() {
    let mut p = RawPathBuf::from_str("/foo/bar////baz/");

    assert!(p.pop());
    assert_eq!("/foo/bar", tostr(&p));

    assert!(p.pop());
    assert_eq!("/foo", tostr(&p));

    assert!(p.pop());
    assert_eq!("/", tostr(&p));

    assert!(!p.pop());
    assert_eq!("/", tostr(&p));
}

#[test]
fn pop2() {
    let mut p = RawPathBuf::from_str("////foo/");

    assert!(p.pop());
    assert_eq!("/", tostr(&p));

    assert!(!p.pop());
    assert_eq!("/", tostr(&p));
}

#[test]
fn pop3() {
    let mut p = RawPathBuf::from_str("foo/bar/baz");

    assert!(p.pop());
    assert_eq!("foo/bar", tostr(&p));

    assert!(p.pop());
    assert_eq!("foo", tostr(&p));

    assert!(p.pop());
    assert_eq!("", tostr(&p));

    assert!(!p.pop());
    assert_eq!("", tostr(&p));
}

#[test]
fn pop4() {
    let mut p = RawPathBuf::from_str("////");

    assert!(!p.pop());
    assert_eq!("////", tostr(&p));
}

#[test]
fn pop5() {
    let mut p = RawPathBuf::from_str("////a");

    assert!(p.pop());
    assert_eq!("/", tostr(&p));

    assert!(!p.pop());
    assert_eq!("/", tostr(&p));
}

#[test]
fn pop6() {
    let mut p = RawPathBuf::from_str("foo");

    assert!(p.pop());
    assert_eq!("", tostr(&p));

    assert!(!p.pop());
    assert_eq!("", tostr(&p));
}

#[test]
fn join_to_empty_path_starts_at_the_root() {
    let mut p = RawPathBuf::from_str("");
    p.join(b"c");
    assert_eq!("/c", tostr(&p));
}

#[test]
fn bytes_go_in_and_out() {
    let mut p = RawPathBuf::from_bytes(vec![b'a', 0xff, b'/']);
    assert_eq!(p.as_code_units(), &[b'a', 0xff, b'/'][..]);
    assert_eq!(p.as_bytes_with_nul(), &[b'a', 0xff, b'/', 0][..]);
    p.push_bytes(b"xy");
    assert_eq!(p.as_code_units(), &[b'a', 0xff, b'/', b'x', b'y'][..]);
    let q = p.clone();
    assert_eq!(q.into_bytes(), vec![b'a', 0xff, b'/', b'x', b'y']);
    assert!(p.pop());
    assert_eq!(p.as_code_units(), &[b'a', 0xff][..]);
}
