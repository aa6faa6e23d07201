use std::cell::RefCell;
use std::cmp::Ordering;
use std::collections::{HashMap, VecDeque};

use walkdir::{
    Action, DirEntry, DirEntryExt, Error, Event, FileKind, FileType, FilterEntry, IntoIter,
    IoError, Metadata, Order, RawEntry, WalkDir,
};

const ENOENT: i32 = 2;
const EACCES: i32 = 13;
const ENOTDIR: i32 = 20;
const ELOOP: i32 = 40;

#[derive(Clone, Debug)]
enum Kind {
    Dir(Vec<(String, usize)>),
    File,
    Link(String),
}

#[derive(Clone, Debug)]
struct MemNode {
    kind: Kind,
    parent: usize,
    dev: u64,
    readable: bool,
}

/// A file system in memory, with a count of the directories that are open.
#[derive(Debug)]
struct MemFs {
    nodes: RefCell<Vec<MemNode>>,
    tmp_count: RefCell<usize>,
    hints: bool,
    open_now: RefCell<usize>,
    open_max: RefCell<usize>,
    opens: RefCell<usize>,
    closes: RefCell<usize>,
    stats: RefCell<usize>,
}

impl MemFs {
    fn new() -> MemFs {
        let root = MemNode { kind: Kind::Dir(vec![]), parent: 0, dev: 1, readable: true };
        let fs = MemFs {
            nodes: RefCell::new(vec![root]),
            tmp_count: RefCell::new(0),
            hints: true,
            open_now: RefCell::new(0),
            open_max: RefCell::new(0),
            opens: RefCell::new(0),
            closes: RefCell::new(0),
            stats: RefCell::new(0),
        };
        fs.mkdir("/tmp");
        fs
    }

    fn without_hints() -> MemFs {
        let mut fs = MemFs::new();
        fs.hints = false;
        fs
    }

    fn add(&self, parent: usize, name: &str, kind: Kind, dev: u64) -> usize {
        let mut nodes = self.nodes.borrow_mut();
        let id = nodes.len();
        nodes.push(MemNode { kind, parent, dev, readable: true });
        match nodes[parent].kind {
            Kind::Dir(ref mut children) => children.push((name.to_string(), id)),
            _ => panic!("parent is not a directory"),
        }
        id
    }

    fn split(path: &str) -> (String, String) {
        let trimmed = path.trim_end_matches('/');
        match trimmed.rfind('/') {
            Some(i) => {
                let parent = if i == 0 { "/".to_string() } else { trimmed[..i].to_string() };
                (parent, trimmed[i + 1..].to_string())
            }
            None => panic!("path is not absolute: {}", path),
        }
    }

    fn create(&self, path: &str, kind: Kind) -> usize {
        let (parent, name) = MemFs::split(path);
        let pid = self.resolve(&parent, true).unwrap();
        let dev = self.nodes.borrow()[pid].dev;
        self.add(pid, &name, kind, dev)
    }

    fn mkdir(&self, path: &str) -> usize {
        self.create(path, Kind::Dir(vec![]))
    }

    fn mkdir_on(&self, path: &str, dev: u64) -> usize {
        let id = self.mkdir(path);
        self.nodes.borrow_mut()[id].dev = dev;
        id
    }

    fn mkdirp(&self, path: &str) {
        let mut cur = String::new();
        for part in path.split('/') {
            if part.is_empty() {
                continue;
            }
            cur.push('/');
            cur.push_str(part);
            if self.resolve(&cur, true).is_err() {
                self.mkdir(&cur);
            }
        }
    }

    fn touch(&self, path: &str) -> usize {
        self.create(path, Kind::File)
    }

    fn symlink(&self, target: &str, path: &str) -> usize {
        self.create(path, Kind::Link(target.to_string()))
    }

    fn forbid(&self, path: &str) {
        let id = self.resolve(path, true).unwrap();
        self.nodes.borrow_mut()[id].readable = false;
    }

    fn tmpdir(&self) -> String {
        let idx = *self.tmp_count.borrow();
        *self.tmp_count.borrow_mut() += 1;
        let path = format!("/tmp/rust-{}", idx);
        self.mkdir(&path);
        path
    }

    fn resolve(&self, path: &str, follow_last: bool) -> Result<usize, i32> {
        let nodes = self.nodes.borrow();
        let mut parts: VecDeque<String> = path.split('/').map(|s| s.to_string()).collect();
        let mut cur: usize = 0;
        let mut links = 0;
        if !path.starts_with('/') {
            return Err(ENOENT);
        }
        while let Some(part) = parts.pop_front() {
            if part.is_empty() || part == "." {
                continue;
            }
            if part == ".." {
                cur = nodes[cur].parent;
                continue;
            }
            let child = match nodes[cur].kind {
                Kind::Dir(ref children) => match children.iter().find(|c| c.0 == part) {
                    Some(c) => c.1,
                    None => return Err(ENOENT),
                },
                _ => return Err(ENOTDIR),
            };
            let last = parts.is_empty();
            match nodes[child].kind {
                Kind::Link(ref target) if !last || follow_last => {
                    links += 1;
                    if links > 40 {
                        return Err(ELOOP);
                    }
                    if target.starts_with('/') {
                        cur = 0;
                    }
                    let mut expanded: VecDeque<String> =
                        target.split('/').map(|s| s.to_string()).collect();
                    expanded.extend(parts.drain(..));
                    parts = expanded;
                }
                _ => cur = child,
            }
        }
        Ok(cur)
    }

    fn kind_of(&self, id: usize) -> FileKind {
        match self.nodes.borrow()[id].kind {
            Kind::Dir(_) => FileKind::Dir,
            Kind::File => FileKind::File,
            Kind::Link(_) => FileKind::Symlink,
        }
    }

    fn stat(&self, path: &[u8], follow: bool) -> Result<Metadata, IoError> {
        *self.stats.borrow_mut() += 1;
        let path = std::str::from_utf8(path).unwrap();
        match self.resolve(path, follow) {
            Err(code) => Err(IoError::Os(code)),
            Ok(id) => Ok(Metadata {
                file_type: FileType(self.kind_of(id)),
                dev: Some(self.nodes.borrow()[id].dev),
                ino: id as u64 + 100,
            }),
        }
    }

    fn list(&self, path: &[u8]) -> Result<VecDeque<Result<RawEntry, IoError>>, IoError> {
        let path = std::str::from_utf8(path).unwrap();
        let id = self.resolve(path, true).map_err(IoError::Os)?;
        let nodes = self.nodes.borrow();
        if !nodes[id].readable {
            return Err(IoError::Os(EACCES));
        }
        let children = match nodes[id].kind {
            Kind::Dir(ref children) => children.clone(),
            _ => return Err(IoError::Os(ENOTDIR)),
        };
        drop(nodes);
        let mut raws = VecDeque::new();
        let dir_type = if self.hints { Some(FileType(FileKind::Dir)) } else { None };
        raws.push_back(Ok(RawEntry { name: b".".to_vec(), file_type: dir_type, ino: 1 }));
        raws.push_back(Ok(RawEntry { name: b"..".to_vec(), file_type: dir_type, ino: 1 }));
        for (name, child) in children {
            let file_type = if self.hints { Some(FileType(self.kind_of(child))) } else { None };
            raws.push_back(Ok(RawEntry {
                name: name.into_bytes(),
                file_type,
                ino: child as u64 + 100,
            }));
        }
        Ok(raws)
    }

    fn read_link(&self, path: &[u8]) -> Result<String, i32> {
        let path = std::str::from_utf8(path).unwrap();
        let id = self.resolve(path, false)?;
        match self.nodes.borrow()[id].kind {
            Kind::Link(ref target) => Ok(target.clone()),
            _ => Err(22),
        }
    }

    fn is_dir(&self, path: &[u8]) -> bool {
        let path = std::str::from_utf8(path).unwrap();
        match self.resolve(path, true) {
            Ok(id) => self.kind_of(id) == FileKind::Dir,
            Err(_) => false,
        }
    }

    fn opened(&self) {
        *self.opens.borrow_mut() += 1;
        *self.open_now.borrow_mut() += 1;
        let now = *self.open_now.borrow();
        if now > *self.open_max.borrow() {
            *self.open_max.borrow_mut() = now;
        }
    }

    fn closed(&self) {
        *self.closes.borrow_mut() += 1;
        *self.open_now.borrow_mut() -= 1;
    }
}

type Sorter = Box<dyn FnMut(&DirEntry, &DirEntry) -> Ordering>;
type Predicate = Box<dyn FnMut(&DirEntry) -> bool>;

/// A builder that keeps the function that puts records in order beside the
/// settings.
struct Wd {
    wd: WalkDir,
    sorter: Option<Sorter>,
}

impl Wd {
    fn new(root: &str) -> Wd {
        Wd { wd: WalkDir::new(root.as_bytes().to_vec()), sorter: None }
    }

    fn min_depth(self, depth: usize) -> Wd {
        Wd { wd: self.wd.min_depth(depth), sorter: self.sorter }
    }

    fn max_depth(self, depth: usize) -> Wd {
        Wd { wd: self.wd.max_depth(depth), sorter: self.sorter }
    }

    fn follow_links(self, yes: bool) -> Wd {
        Wd { wd: self.wd.follow_links(yes), sorter: self.sorter }
    }

    fn max_open(self, n: usize) -> Wd {
        Wd { wd: self.wd.max_open(n), sorter: self.sorter }
    }

    fn sort_by<F>(self, cmp: F) -> Wd
    where
        F: FnMut(&DirEntry, &DirEntry) -> Ordering + 'static,
    {
        Wd { wd: self.wd.sort_by(true), sorter: Some(Box::new(cmp)) }
    }

    fn contents_first(self, yes: bool) -> Wd {
        Wd { wd: self.wd.contents_first(yes), sorter: self.sorter }
    }

    fn same_file_system(self, yes: bool) -> Wd {
        Wd { wd: self.wd.same_file_system(yes), sorter: self.sorter }
    }

    fn into_iter(self, fs: &MemFs) -> Walk<'_> {
        Walk {
            fs,
            machine: Machine::Plain(self.wd.into_iter()),
            sorter: self.sorter,
            predicate: None,
            handles: HashMap::new(),
            event: Some(Event::Resume),
            steps: 0,
            compares: 0,
        }
    }
}

enum Machine {
    Plain(IntoIter),
    Filtered(FilterEntry),
    Gone,
}

/// Drives a traversal over a file system in memory.
struct Walk<'a> {
    fs: &'a MemFs,
    machine: Machine,
    sorter: Option<Sorter>,
    predicate: Option<Predicate>,
    handles: HashMap<usize, VecDeque<Result<RawEntry, IoError>>>,
    event: Option<Event>,
    steps: usize,
    compares: usize,
}

impl<'a> Walk<'a> {
    fn filter_entry<P>(mut self, predicate: P) -> Walk<'a>
    where
        P: FnMut(&DirEntry) -> bool + 'static,
    {
        let machine = std::mem::replace(&mut self.machine, Machine::Gone);
        self.machine = match machine {
            Machine::Plain(it) => Machine::Filtered(it.filter_entry()),
            other => other,
        };
        self.predicate = Some(Box::new(predicate));
        self
    }

    fn skip_current_dir(&mut self) {
        match self.machine {
            Machine::Plain(ref mut it) => it.skip_current_dir(),
            Machine::Filtered(ref mut it) => it.skip_current_dir(),
            Machine::Gone => {}
        }
    }

    fn depth(&self) -> usize {
        match self.machine {
            Machine::Plain(ref it) => it.depth(),
            Machine::Filtered(ref it) => it.depth(),
            Machine::Gone => 0,
        }
    }

    fn perform(&mut self, action: Action) -> Event {
        match action {
            Action::Stat { path, follow } => Event::Stat(self.fs.stat(&path, follow)),
            Action::OpenDir { path, handle } => match self.fs.list(&path) {
                Ok(raws) => {
                    assert!(!self.handles.contains_key(&handle), "handle is in use");
                    self.handles.insert(handle, raws);
                    self.fs.opened();
                    Event::OpenDir(Ok(()))
                }
                Err(e) => Event::OpenDir(Err(e)),
            },
            Action::ReadDir { handle } => {
                let raws = self.handles.get_mut(&handle).expect("handle is open");
                Event::ReadDir(raws.pop_front())
            }
            Action::Drain { handle } => {
                let raws = self.handles.remove(&handle).expect("handle is open");
                self.fs.closed();
                Event::Drain(raws.into_iter().collect())
            }
            Action::CloseDir { handle } => {
                self.handles.remove(&handle).expect("handle is open");
                self.fs.closed();
                Event::Resume
            }
            Action::SameFile { ancestor, child } => {
                let a = self.fs.stat(&ancestor, true);
                let b = self.fs.stat(&child, true);
                Event::SameFile(match (a, b) {
                    (Ok(a), Ok(b)) => Ok(a.dev == b.dev && a.ino == b.ino),
                    (Err(e), _) => Err(e),
                    (_, Err(e)) => Err(e),
                })
            }
            Action::Compare { a, b } => {
                self.compares += 1;
                Event::Order(match self.sorter {
                    Some(ref mut cmp) => match cmp(&a, &b) {
                        Ordering::Less => Order::Less,
                        Ordering::Equal => Order::Equal,
                        Ordering::Greater => Order::Greater,
                    },
                    None => Order::Equal,
                })
            }
            Action::Test => {
                let keep = match self.machine {
                    Machine::Filtered(ref it) => {
                        let dent = it.candidate().expect("a record is held back");
                        match self.predicate {
                            Some(ref mut p) => p(dent),
                            None => true,
                        }
                    }
                    _ => true,
                };
                Event::Verdict(keep)
            }
            Action::Yield(_) | Action::Done => Event::Resume,
        }
    }
}

impl<'a> Iterator for Walk<'a> {
    type Item = Result<DirEntry, Error>;

    fn next(&mut self) -> Option<Result<DirEntry, Error>> {
        loop {
            self.steps += 1;
            assert!(self.steps < 1_000_000, "the traversal does not end");
            let event = self.event.take().unwrap_or(Event::Resume);
            let action = match self.machine {
                Machine::Plain(ref mut it) => it.step(event),
                Machine::Filtered(ref mut it) => it.step(event),
                Machine::Gone => Action::Done,
            };
            match action {
                Action::Yield(item) => {
                    self.event = Some(Event::Resume);
                    return Some(item);
                }
                Action::Done => {
                    self.event = Some(Event::Resume);
                    return None;
                }
                other => {
                    let event = self.perform(other);
                    self.event = Some(event);
                }
            }
        }
    }
}

fn text(bytes: &[u8]) -> String {
    String::from_utf8(bytes.to_vec()).unwrap()
}

#[derive(Clone, Debug, Eq, Ord, PartialEq, PartialOrd)]
enum Tree {
    Dir(String, Vec<Tree>),
    File(String),
    Symlink { src: String, dst: String, dir: bool },
}

impl Tree {
    fn from_walk_with<F>(fs: &MemFs, p: &str, f: F) -> Result<Tree, String>
    where
        F: FnOnce(Wd) -> Wd,
    {
        let mut stack = vec![Tree::Dir(p.to_string(), vec![])];
        let it = WalkEventIter::from(f(Wd::new(p)).into_iter(fs));
        for ev in it {
            match ev? {
                WalkEvent::Exit => {
                    let tree = stack.pop().unwrap();
                    if stack.is_empty() {
                        return Ok(tree);
                    }
                    stack.last_mut().unwrap().children_mut().push(tree);
                }
                WalkEvent::Dir(dent) => {
                    stack.push(Tree::Dir(text(dent.file_name()), vec![]));
                }
                WalkEvent::File(dent) => {
                    let node = if dent.file_type().is_symlink() {
                        let src = fs.read_link(dent.path()).map_err(|e| format!("{}", e))?;
                        let dst = text(dent.file_name());
                        let dir = fs.is_dir(dent.path());
                        Tree::Symlink { src, dst, dir }
                    } else {
                        Tree::File(text(dent.file_name()))
                    };
                    stack.last_mut().unwrap().children_mut().push(node);
                }
            }
        }
        assert_eq!(stack.len(), 1);
        Ok(stack.pop().unwrap())
    }

    fn from_walk_with_contents_first<F>(fs: &MemFs, p: &str, f: F) -> Result<Tree, String>
    where
        F: FnOnce(Wd) -> Wd,
    {
        let mut contents_of_dir_at_depth: HashMap<usize, Vec<Tree>> = HashMap::new();
        let mut min_depth = usize::MAX;
        let top_level_path = p.to_string();
        for result in f(Wd::new(p).contents_first(true)).into_iter(fs) {
            let dentry = result.map_err(|e| format!("{:?}", e))?;

            let tree = if dentry.file_type().is_dir() {
                let any_contents = contents_of_dir_at_depth.remove(&(dentry.depth() + 1));
                Tree::Dir(text(dentry.file_name()), any_contents.unwrap_or_default())
            } else {
                if dentry.file_type().is_symlink() {
                    let src = fs.read_link(dentry.path()).map_err(|e| format!("{}", e))?;
                    let dst = text(dentry.file_name());
                    let dir = fs.is_dir(dentry.path());
                    Tree::Symlink { src, dst, dir }
                } else {
                    Tree::File(text(dentry.file_name()))
                }
            };
            contents_of_dir_at_depth.entry(dentry.depth()).or_insert(vec![]).push(tree);
            min_depth = std::cmp::min(min_depth, dentry.depth());
        }
        Ok(Tree::Dir(
            top_level_path,
            contents_of_dir_at_depth.remove(&min_depth).unwrap_or_default(),
        ))
    }

    fn unwrap_singleton(self) -> Tree {
        match self {
            Tree::File(_) | Tree::Symlink { .. } => {
                panic!("cannot unwrap file or link as dir");
            }
            Tree::Dir(_, mut childs) => {
                assert_eq!(childs.len(), 1);
                childs.pop().unwrap()
            }
        }
    }

    fn unwrap_dir(self) -> Vec<Tree> {
        match self {
            Tree::File(_) | Tree::Symlink { .. } => {
                panic!("cannot unwrap file as dir");
            }
            Tree::Dir(_, childs) => childs,
        }
    }

    fn children_mut(&mut self) -> &mut Vec<Tree> {
        match *self {
            Tree::File(_) | Tree::Symlink { .. } => {
                panic!("files do not have children");
            }
            Tree::Dir(_, ref mut children) => children,
        }
    }

    fn create_in(&self, fs: &MemFs, parent: &str) {
        match *self {
            Tree::Symlink { ref src, ref dst, .. } => {
                fs.symlink(src, &format!("{}/{}", parent, dst));
            }
            Tree::File(ref p) => {
                fs.touch(&format!("{}/{}", parent, p));
            }
            Tree::Dir(ref dir, ref children) => {
                let path = format!("{}/{}", parent, dir);
                fs.mkdir(&path);
                for child in children {
                    child.create_in(fs, &path);
                }
            }
        }
    }

    fn canonical(&self) -> Tree {
        match *self {
            Tree::Symlink { ref src, ref dst, dir } => {
                Tree::Symlink { src: src.clone(), dst: dst.clone(), dir }
            }
            Tree::File(ref p) => Tree::File(p.clone()),
            Tree::Dir(ref p, ref cs) => {
                let mut cs: Vec<Tree> = cs.iter().map(|c| c.canonical()).collect();
                cs.sort();
                Tree::Dir(p.clone(), cs)
            }
        }
    }
}

#[derive(Debug)]
enum WalkEvent {
    Dir(DirEntry),
    File(DirEntry),
    Exit,
}

struct WalkEventIter<'a> {
    depth: usize,
    it: Walk<'a>,
    next: Option<Result<DirEntry, Error>>,
}

impl<'a> From<Walk<'a>> for WalkEventIter<'a> {
    fn from(it: Walk<'a>) -> WalkEventIter<'a> {
        WalkEventIter { depth: 0, it, next: None }
    }
}

impl<'a> Iterator for WalkEventIter<'a> {
    type Item = Result<WalkEvent, String>;

    fn next(&mut self) -> Option<Result<WalkEvent, String>> {
        let dent = self.next.take().or_else(|| self.it.next());
        let depth = match dent {
            None => 0,
            Some(Ok(ref dent)) => dent.depth(),
            Some(Err(ref err)) => err.depth(),
        };
        if depth < self.depth {
            self.depth -= 1;
            self.next = dent;
            return Some(Ok(WalkEvent::Exit));
        }
        self.depth = depth;
        match dent {
            None => None,
            Some(Err(err)) => Some(Err(format!("{:?}", err))),
            Some(Ok(dent)) => {
                if dent.file_type().is_dir() {
                    self.depth += 1;
                    Some(Ok(WalkEvent::Dir(dent)))
                } else {
                    Some(Ok(WalkEvent::File(dent)))
                }
            }
        }
    }
}

fn dir_setup_with<F>(t: &Tree, f: F) -> (MemFs, String, Tree)
where
    F: Fn(Wd) -> Wd,
{
    let fs = MemFs::new();
    fs.mkdir_on("/sys", 2);
    fs.mkdir("/sys/kernel");
    let tmp = fs.tmpdir();
    t.create_in(&fs, &tmp);
    let got = Tree::from_walk_with(&fs, &tmp, &f).unwrap();
    let got_cf = Tree::from_walk_with_contents_first(&fs, &tmp, &f).unwrap();
    assert_eq!(got, got_cf);

    (fs, tmp, got.unwrap_singleton().unwrap_singleton())
}

fn dir_setup(t: &Tree) -> (MemFs, String, Tree) {
    dir_setup_with(t, |wd| wd)
}

fn canon(unix: &str) -> String {
    unix.to_string()
}

fn td(p: &str, cs: Vec<Tree>) -> Tree {
    Tree::Dir(p.to_string(), cs)
}

fn tf(p: &str) -> Tree {
    Tree::File(p.to_string())
}

fn tld(src: &str, dst: &str) -> Tree {
    Tree::Symlink { src: src.to_string(), dst: dst.to_string(), dir: true }
}

fn tlf(src: &str, dst: &str) -> Tree {
    Tree::Symlink { src: src.to_string(), dst: dst.to_string(), dir: false }
}

fn assert_tree_eq(e1: &Tree, e2: &Tree) {
    assert_eq!(e1.canonical(), e2.canonical());
}

#[test]
fn walk_dir_1() {
    let exp = td("foo", vec![]);
    let (_fs, _tmp, got) = dir_setup(&exp);
    assert_tree_eq(&exp, &got);
}

#[test]
fn walk_dir_2() {
    let exp = tf("foo");
    let (_fs, _tmp, got) = dir_setup(&exp);
    assert_tree_eq(&exp, &got);
}

#[test]
fn walk_dir_3() {
    let exp = td("foo", vec![tf("bar")]);
    let (_fs, _tmp, got) = dir_setup(&exp);
    assert_tree_eq(&exp, &got);
}

#[test]
fn walk_dir_4() {
    let exp = td("foo", vec![tf("foo"), tf("bar"), tf("baz")]);
    let (_fs, _tmp, got) = dir_setup(&exp);
    assert_tree_eq(&exp, &got);
}

#[test]
fn walk_dir_5() {
    let exp = td("foo", vec![td("bar", vec![])]);
    let (_fs, _tmp, got) = dir_setup(&exp);
    assert_tree_eq(&exp, &got);
}

#[test]
fn walk_dir_6() {
    let exp = td("foo", vec![td("bar", vec![tf("baz"), td("bat", vec![])])]);
    let (_fs, _tmp, got) = dir_setup(&exp);
    assert_tree_eq(&exp, &got);
}

#[test]
fn walk_dir_7() {
    let exp = td(
        "foo",
        vec![
            td("bar", vec![tf("baz"), td("bat", vec![])]),
            td("a", vec![tf("b"), tf("c"), tf("d")]),
        ],
    );
    let (_fs, _tmp, got) = dir_setup(&exp);
    assert_tree_eq(&exp, &got);
}

#[test]
fn walk_dir_sym_1() {
    let exp = td("foo", vec![tf("bar"), tlf("bar", "baz")]);
    let (_fs, _tmp, got) = dir_setup(&exp);
    assert_tree_eq(&exp, &got);
}

#[test]
fn walk_dir_sym_2() {
    let exp = td("foo", vec![td("a", vec![tf("a1"), tf("a2")]), tld("a", "alink")]);
    let (_fs, _tmp, got) = dir_setup(&exp);
    assert_tree_eq(&exp, &got);
}

#[test]
fn walk_dir_sym_root() {
    let exp = td("foo", vec![td("bar", vec![tf("a"), tf("b")]), tld("bar", "alink")]);
    let fs = MemFs::new();
    let tmp = fs.tmpdir();
    let tmp_len = tmp.len();
    exp.create_in(&fs, &tmp);

    let it = Wd::new(&format!("{}/foo/alink", tmp)).into_iter(&fs);
    let mut got = it
        .map(|d| text(d.unwrap().path())[tmp_len + 1..].to_string())
        .collect::<Vec<String>>();
    got.sort();
    assert_eq!(got, vec![canon("foo/alink"), canon("foo/alink/a"), canon("foo/alink/b")]);

    let it = Wd::new(&format!("{}/foo/alink/", tmp)).into_iter(&fs);
    let mut got = it
        .map(|d| text(d.unwrap().path())[tmp_len + 1..].to_string())
        .collect::<Vec<String>>();
    got.sort();
    assert_eq!(got, vec!["foo/alink/", "foo/alink/a", "foo/alink/b"]);
}

#[test]
fn first_path_not_symlink() {
    let exp = td("foo", vec![]);
    let (fs, tmp, _got) = dir_setup(&exp);

    let dents = Wd::new(&format!("{}/foo", tmp))
        .into_iter(&fs)
        .collect::<Result<Vec<_>, _>>()
        .unwrap();
    assert_eq!(1, dents.len());
    assert!(!dents[0].path_is_symlink());
}

#[test]
fn first_path_not_symlink_follow() {
    let exp = td("foo", vec![]);
    let (fs, tmp, _got) = dir_setup(&exp);

    let dents = Wd::new(&format!("{}/foo", tmp))
        .follow_links(true)
        .into_iter(&fs)
        .collect::<Result<Vec<_>, _>>()
        .unwrap();
    assert_eq!(1, dents.len());
    assert!(!dents[0].path_is_symlink());
}

#[test]
fn walk_dir_sym_detect_no_follow_no_loop() {
    let exp = td(
        "foo",
        vec![td("a", vec![tf("a1"), tf("a2")]), td("b", vec![tld("../a", "alink")])],
    );
    let (_fs, _tmp, got) = dir_setup(&exp);
    assert_tree_eq(&exp, &got);
}

#[test]
fn walk_dir_sym_follow_dir() {
    let actual = td(
        "foo",
        vec![td("a", vec![tf("a1"), tf("a2")]), td("b", vec![tld("../a", "alink")])],
    );
    let followed = td(
        "foo",
        vec![
            td("a", vec![tf("a1"), tf("a2")]),
            td("b", vec![td("alink", vec![tf("a1"), tf("a2")])]),
        ],
    );
    let (_fs, _tmp, got) = dir_setup_with(&actual, |wd| wd.follow_links(true));
    assert_tree_eq(&followed, &got);
}

#[test]
fn walk_dir_sym_detect_loop() {
    let actual = td(
        "foo",
        vec![
            td("a", vec![tlf("../b", "blink"), tf("a1"), tf("a2")]),
            td("b", vec![tlf("../a", "alink")]),
        ],
    );
    let fs = MemFs::new();
    let tmp = fs.tmpdir();
    actual.create_in(&fs, &tmp);
    let got = Wd::new(&tmp).follow_links(true).into_iter(&fs).collect::<Result<Vec<_>, _>>();
    match got {
        Ok(x) => panic!("expected loop error, got no error: {:?}", x),
        Err(err) => {
            if err.loop_ancestor().is_none() {
                panic!("expected loop error, got generic IO error: {:?}", err);
            }
        }
    }
}

#[test]
fn walk_dir_sym_infinite() {
    let actual = tlf("a", "a");
    let fs = MemFs::new();
    let tmp = fs.tmpdir();
    actual.create_in(&fs, &tmp);
    let got = Wd::new(&tmp).follow_links(true).into_iter(&fs).collect::<Result<Vec<_>, _>>();
    match got {
        Ok(x) => panic!("expected IO error, got no error: {:?}", x),
        Err(err) => {
            if err.loop_ancestor().is_some() {
                panic!("expected IO error, but got loop error");
            }
            assert_eq!(err.io_error(), Some(IoError::Os(ELOOP)));
        }
    }
}

#[test]
fn walk_dir_min_depth_1() {
    let exp = td("foo", vec![tf("bar")]);
    let (_fs, _tmp, got) = dir_setup_with(&exp, |wd| wd.min_depth(1));
    assert_tree_eq(&tf("bar"), &got);
}

#[test]
fn walk_dir_min_depth_2() {
    let exp = td("foo", vec![tf("bar"), tf("baz")]);
    let fs = MemFs::new();
    let tmp = fs.tmpdir();
    exp.create_in(&fs, &tmp);
    let got = Tree::from_walk_with(&fs, &tmp, |wd| wd.min_depth(2)).unwrap().unwrap_dir();
    let got_cf = Tree::from_walk_with_contents_first(&fs, &tmp, |wd| wd.min_depth(2))
        .unwrap()
        .unwrap_dir();
    assert_eq!(got, got_cf);
    assert_tree_eq(&exp, &td("foo", got));
}

#[test]
fn walk_dir_min_depth_3() {
    let exp = td("foo", vec![tf("bar"), td("abc", vec![tf("xyz")]), tf("baz")]);
    let fs = MemFs::new();
    let tmp = fs.tmpdir();
    exp.create_in(&fs, &tmp);
    let got = Tree::from_walk_with(&fs, &tmp, |wd| wd.min_depth(3)).unwrap().unwrap_dir();
    assert_eq!(vec![tf("xyz")], got);
    let got_cf = Tree::from_walk_with_contents_first(&fs, &tmp, |wd| wd.min_depth(3))
        .unwrap()
        .unwrap_dir();
    assert_eq!(got, got_cf);
}

#[test]
fn walk_dir_max_depth_1() {
    let exp = td("foo", vec![tf("bar")]);
    let (_fs, _tmp, got) = dir_setup_with(&exp, |wd| wd.max_depth(1));
    assert_tree_eq(&td("foo", vec![]), &got);
}

#[test]
fn walk_dir_max_depth_2() {
    let exp = td("foo", vec![tf("bar"), tf("baz")]);
    let (_fs, _tmp, got) = dir_setup_with(&exp, |wd| wd.max_depth(1));
    assert_tree_eq(&td("foo", vec![]), &got);
}

#[test]
fn walk_dir_max_depth_3() {
    let exp = td("foo", vec![tf("bar"), td("abc", vec![tf("xyz")]), tf("baz")]);
    let exp_trimmed = td("foo", vec![tf("bar"), td("abc", vec![]), tf("baz")]);
    let (_fs, _tmp, got) = dir_setup_with(&exp, |wd| wd.max_depth(2));
    assert_tree_eq(&exp_trimmed, &got);
}

#[test]
fn walk_dir_min_max_depth() {
    let exp = td("foo", vec![tf("bar"), td("abc", vec![tf("xyz")]), tf("baz")]);
    let fs = MemFs::new();
    let tmp = fs.tmpdir();
    exp.create_in(&fs, &tmp);
    let got = Tree::from_walk_with(&fs, &tmp, |wd| wd.min_depth(2).max_depth(2))
        .unwrap()
        .unwrap_dir();
    let got_cf =
        Tree::from_walk_with_contents_first(&fs, &tmp, |wd| wd.min_depth(2).max_depth(2))
            .unwrap()
            .unwrap_dir();
    assert_eq!(got, got_cf);
    assert_tree_eq(
        &td("foo", vec![tf("bar"), td("abc", vec![]), tf("baz")]),
        &td("foo", got),
    );
}

#[test]
fn walk_dir_skip() {
    let exp = td("foo", vec![tf("bar"), td("abc", vec![tf("xyz")]), tf("baz")]);
    let fs = MemFs::new();
    let tmp = fs.tmpdir();
    exp.create_in(&fs, &tmp);
    let mut got = vec![];
    let mut it = Wd::new(&tmp).min_depth(1).into_iter(&fs);
    loop {
        let dent = match it.next().map(|x| x.unwrap()) {
            None => break,
            Some(dent) => dent,
        };
        let name = text(dent.file_name());
        if name == "abc" {
            it.skip_current_dir();
        }
        got.push(name);
    }
    got.sort();
    assert_eq!(got, vec!["abc", "bar", "baz", "foo"]); // missing xyz!
}

#[test]
fn walk_dir_filter() {
    let exp = td("foo", vec![tf("bar"), td("abc", vec![tf("fit")]), tf("faz")]);
    let fs = MemFs::new();
    let tmp = fs.tmpdir();
    let tmp_path = tmp.clone();
    exp.create_in(&fs, &tmp);
    let it = Wd::new(&tmp).min_depth(1).into_iter(&fs).filter_entry(move |d| {
        let n = text(d.file_name());
        !d.file_type().is_dir() || n.starts_with("f") || d.path() == tmp_path.as_bytes()
    });
    let mut got = it.map(|d| text(d.unwrap().file_name())).collect::<Vec<String>>();
    got.sort();
    assert_eq!(got, vec!["bar", "faz", "foo"]);
}

#[test]
fn walk_dir_sort() {
    let exp = td("foo", vec![tf("bar"), td("abc", vec![tf("fit")]), tf("faz")]);
    let fs = MemFs::new();
    let tmp = fs.tmpdir();
    let tmp_len = tmp.len();
    exp.create_in(&fs, &tmp);
    let it = Wd::new(&tmp).sort_by(|a, b| a.file_name().cmp(b.file_name())).into_iter(&fs);
    let got = it
        .map(|d| {
            let path = d.unwrap();
            let path = text(path.path())[tmp_len..].to_string();
            path.replace("\\", "/")
        })
        .collect::<Vec<String>>();
    assert_eq!(got, ["", "/foo", "/foo/abc", "/foo/abc/fit", "/foo/bar", "/foo/faz"]);
}

#[test]
fn walk_dir_sort_small_fd_max() {
    let exp = td("foo", vec![tf("bar"), td("abc", vec![tf("fit")]), tf("faz")]);
    let fs = MemFs::new();
    let tmp = fs.tmpdir();
    let tmp_len = tmp.len();
    exp.create_in(&fs, &tmp);
    let it = Wd::new(&tmp)
        .max_open(1)
        .sort_by(|a, b| a.file_name().cmp(b.file_name()))
        .into_iter(&fs);
    let got = it
        .map(|d| {
            let path = d.unwrap();
            let path = text(path.path())[tmp_len..].to_string();
            path.replace("\\", "/")
        })
        .collect::<Vec<String>>();
    assert_eq!(got, ["", "/foo", "/foo/abc", "/foo/abc/fit", "/foo/bar", "/foo/faz"]);
}

#[test]
fn walk_dir_send_sync_traits() {
    fn assert_send<T: Send>() {}
    fn assert_sync<T: Sync>() {}

    assert_send::<WalkDir>();
    assert_sync::<WalkDir>();
    assert_send::<IntoIter>();
    assert_sync::<IntoIter>();
    assert_send::<FilterEntry>();
    assert_sync::<FilterEntry>();
}

#[test]
fn walk_dir_stay_on_file_system() {
    let actual = td("same_file", vec![td("a", vec![tld("/sys", "alink")])]);
    let unfollowed = td("same_file", vec![td("a", vec![tld("/sys", "alink")])]);
    let (_fs, _tmp, got) = dir_setup_with(&actual, |wd| wd);
    assert_tree_eq(&unfollowed, &got);

    // With links followed and the traversal kept on one file system, the
    // link is shown as the directory it leads to, and that directory is not
    // entered.
    let actual = td("same_file", vec![td("a", vec![tld("/sys", "alink")])]);
    let followed = td("same_file", vec![td("a", vec![td("alink", vec![])])]);
    let (_fs, _tmp, got) =
        dir_setup_with(&actual, |wd| wd.follow_links(true).same_file_system(true));
    assert_tree_eq(&followed, &got);
}

// What follows is held against the scenarios and laws of the traversal
// itself.

fn paths_and_depths(fs: &MemFs, wd: Wd, strip: usize) -> Vec<(String, usize)> {
    wd.into_iter(fs)
        .map(|d| {
            let d = d.unwrap();
            (text(d.path())[strip..].to_string(), d.depth())
        })
        .collect()
}

fn basic_tree(fs: &MemFs) -> String {
    let tmp = fs.tmpdir();
    fs.touch(&format!("{}/foo", tmp));
    fs.mkdir(&format!("{}/bar", tmp));
    fs.touch(&format!("{}/bar/a", tmp));
    fs.touch(&format!("{}/bar/b", tmp));
    tmp
}

#[test]
fn scenario_basic() {
    let fs = MemFs::new();
    let tmp = basic_tree(&fs);
    let got = paths_and_depths(&fs, Wd::new(&tmp), tmp.len());
    assert_eq!(
        got,
        vec![
            ("".to_string(), 0),
            ("/foo".to_string(), 1),
            ("/bar".to_string(), 1),
            ("/bar/a".to_string(), 2),
            ("/bar/b".to_string(), 2),
        ]
    );
    assert_eq!(*fs.open_now.borrow(), 0);
    assert_eq!(*fs.opens.borrow(), 2);
    assert_eq!(*fs.closes.borrow(), 2);
}

#[test]
fn scenario_min_max_depth() {
    let fs = MemFs::new();
    let tmp = basic_tree(&fs);
    let got = paths_and_depths(&fs, Wd::new(&tmp).min_depth(2).max_depth(2), tmp.len());
    assert_eq!(got, vec![("/bar/a".to_string(), 2), ("/bar/b".to_string(), 2)]);
}

#[test]
fn scenario_post_order() {
    let fs = MemFs::new();
    let tmp = fs.tmpdir();
    fs.mkdirp(&format!("{}/foo/abc", tmp));
    fs.touch(&format!("{}/foo/abc/qrs", tmp));
    fs.touch(&format!("{}/foo/abc/tuv", tmp));
    fs.mkdir(&format!("{}/foo/def", tmp));
    let got = paths_and_depths(&fs, Wd::new(&tmp).contents_first(true), tmp.len());
    let names: Vec<&str> = got.iter().map(|p| p.0.as_str()).collect();
    assert_eq!(names, vec!["/foo/abc/qrs", "/foo/abc/tuv", "/foo/abc", "/foo/def", "/foo", ""]);
    for (i, (dir, _)) in got.iter().enumerate() {
        for (j, (other, _)) in got.iter().enumerate() {
            if other.len() > dir.len() && other.starts_with(&format!("{}/", dir)) {
                assert!(j < i, "{} comes after {}", other, dir);
            }
        }
    }
}

#[test]
fn scenario_symlink_no_follow() {
    let fs = MemFs::new();
    let tmp = fs.tmpdir();
    fs.touch(&format!("{}/a", tmp));
    fs.symlink("a", &format!("{}/link", tmp));
    let dents: Vec<DirEntry> = Wd::new(&tmp).into_iter(&fs).map(|d| d.unwrap()).collect();
    let names: Vec<String> = dents.iter().map(|d| text(d.path())[tmp.len()..].to_string()).collect();
    assert_eq!(names, vec!["", "/a", "/link"]);
    assert!(dents[2].file_type().is_symlink());
    assert!(!dents[2].follow_link());
    assert!(dents[2].path_is_symlink());
    assert!(dents[1].file_type().is_file());
    assert!(!dents[1].path_is_symlink());
}

#[test]
fn scenario_symlink_follow_cycle() {
    let fs = MemFs::new();
    let tmp = fs.tmpdir();
    fs.mkdir(&format!("{}/a", tmp));
    fs.touch(&format!("{}/a/one", tmp));
    fs.symlink(&format!("{}/a", tmp), &format!("{}/a/loop", tmp));
    fs.touch(&format!("{}/a/two", tmp));
    let items: Vec<Result<DirEntry, Error>> =
        Wd::new(&tmp).follow_links(true).into_iter(&fs).collect();
    assert_eq!(items.len(), 5);
    assert_eq!(text(items[0].as_ref().unwrap().path()), tmp);
    assert_eq!(text(items[1].as_ref().unwrap().path()), format!("{}/a", tmp));
    assert_eq!(text(items[2].as_ref().unwrap().path()), format!("{}/a/one", tmp));
    let err = items[3].as_ref().unwrap_err();
    assert_eq!(text(err.loop_ancestor().unwrap()), format!("{}/a", tmp));
    assert_eq!(text(err.path().unwrap()), format!("{}/a/loop", tmp));
    assert_eq!(err.depth(), 2);
    assert_eq!(err.io_error(), None);
    assert_eq!(text(items[4].as_ref().unwrap().path()), format!("{}/a/two", tmp));
}

fn deep_tree(fs: &MemFs, path: &str, levels: usize) {
    if levels == 0 {
        return;
    }
    for i in 0..3 {
        let child = format!("{}/d{}", path, i);
        fs.mkdir(&child);
        deep_tree(fs, &child, levels - 1);
    }
}

#[test]
fn scenario_open_handle_cap_under_pressure() {
    let fs = MemFs::new();
    let tmp = fs.tmpdir();
    deep_tree(&fs, &tmp, 5);
    let free = paths_and_depths(&fs, Wd::new(&tmp).max_open(1000), tmp.len());
    assert_eq!(free.len(), 1 + 3 + 9 + 27 + 81 + 243);
    assert!(*fs.open_max.borrow() > 1);
    assert_eq!(*fs.open_now.borrow(), 0);

    let fs = MemFs::new();
    let tmp = fs.tmpdir();
    deep_tree(&fs, &tmp, 5);
    let capped = paths_and_depths(&fs, Wd::new(&tmp).max_open(1), tmp.len());
    assert_eq!(*fs.open_max.borrow(), 1);
    assert_eq!(*fs.open_now.borrow(), 0);
    assert_eq!(*fs.opens.borrow(), *fs.closes.borrow());
    assert_eq!(capped, free);
}

#[test]
fn max_open_never_changes_what_is_yielded() {
    for cap in [0usize, 1, 2, 3, 10] {
        for first in [false, true] {
            let fs = MemFs::new();
            let tmp = fs.tmpdir();
            deep_tree(&fs, &tmp, 3);
            fs.touch(&format!("{}/d1/file", tmp));
            let wide = paths_and_depths(
                &fs,
                Wd::new(&tmp).max_open(usize::MAX).contents_first(first),
                tmp.len(),
            );
            assert_eq!(wide.len(), 1 + 3 + 9 + 27 + 1);
            assert_eq!(*fs.open_max.borrow(), 4);

            let capped = MemFs::new();
            let tmp = capped.tmpdir();
            deep_tree(&capped, &tmp, 3);
            capped.touch(&format!("{}/d1/file", tmp));
            let got = paths_and_depths(
                &capped,
                Wd::new(&tmp).max_open(cap).contents_first(first),
                tmp.len(),
            );
            assert_eq!(got, wide);
            let most = if cap == 0 { 1 } else { cap };
            assert!(*capped.open_max.borrow() <= most);
            assert_eq!(*capped.open_now.borrow(), 0);
        }
    }
}

#[test]
fn both_orders_yield_the_same_records() {
    let fs = MemFs::new();
    let tmp = fs.tmpdir();
    deep_tree(&fs, &tmp, 3);
    fs.touch(&format!("{}/d0/d1/file", tmp));
    let mut pre = paths_and_depths(&fs, Wd::new(&tmp).min_depth(1), tmp.len());
    let mut post =
        paths_and_depths(&fs, Wd::new(&tmp).min_depth(1).contents_first(true), tmp.len());
    assert_ne!(pre, post);
    pre.sort();
    post.sort();
    assert_eq!(pre, post);
}

#[test]
fn records_are_the_files_in_the_window() {
    let fs = MemFs::new();
    let tmp = fs.tmpdir();
    deep_tree(&fs, &tmp, 4);
    let all = paths_and_depths(&fs, Wd::new(&tmp), tmp.len());
    for lo in 0..5usize {
        for hi in lo..6usize {
            let got = paths_and_depths(&fs, Wd::new(&tmp).min_depth(lo).max_depth(hi), tmp.len());
            let want: Vec<(String, usize)> =
                all.iter().filter(|p| lo <= p.1 && p.1 <= hi).cloned().collect();
            assert_eq!(got, want);
        }
    }
}

#[test]
fn skip_is_as_if_the_directory_were_empty() {
    let fs = MemFs::new();
    let tmp = fs.tmpdir();
    fs.touch(&format!("{}/first", tmp));
    fs.mkdir(&format!("{}/dir", tmp));
    fs.touch(&format!("{}/dir/x", tmp));
    fs.mkdir(&format!("{}/dir/sub", tmp));
    fs.touch(&format!("{}/dir/sub/y", tmp));
    fs.touch(&format!("{}/last", tmp));
    let mut it = Wd::new(&tmp).into_iter(&fs);
    let mut got = vec![];
    while let Some(d) = it.next() {
        let d = d.unwrap();
        let name = text(d.file_name());
        if name == "dir" {
            assert_eq!(it.depth(), 2);
            it.skip_current_dir();
            assert_eq!(it.depth(), 1);
        }
        got.push(name);
    }
    assert_eq!(*fs.open_now.borrow(), 0);

    let bare = MemFs::new();
    let tmp2 = bare.tmpdir();
    bare.touch(&format!("{}/first", tmp2));
    bare.mkdir(&format!("{}/dir", tmp2));
    bare.touch(&format!("{}/last", tmp2));
    let want: Vec<String> =
        Wd::new(&tmp2).into_iter(&bare).map(|d| text(d.unwrap().file_name())).collect();
    assert_eq!(got, want);
    assert_eq!(got, vec!["rust-0", "first", "dir", "last"]);
}

#[test]
fn sorted_order_is_that_of_the_function() {
    let fs = MemFs::new();
    let tmp = fs.tmpdir();
    for name in ["m", "z", "a", "q"] {
        fs.touch(&format!("{}/{}", tmp, name));
    }
    let up: Vec<String> = Wd::new(&tmp)
        .min_depth(1)
        .sort_by(|a, b| a.file_name().cmp(b.file_name()))
        .into_iter(&fs)
        .map(|d| text(d.unwrap().file_name()))
        .collect();
    assert_eq!(up, vec!["a", "m", "q", "z"]);
    let down: Vec<String> = Wd::new(&tmp)
        .min_depth(1)
        .sort_by(|a, b| b.file_name().cmp(a.file_name()))
        .into_iter(&fs)
        .map(|d| text(d.unwrap().file_name()))
        .collect();
    assert_eq!(down, vec!["z", "q", "m", "a"]);
    assert_eq!(*fs.open_max.borrow(), 1);
}

#[test]
fn entries_without_type_are_looked_up_once() {
    let fs = MemFs::without_hints();
    let tmp = basic_tree(&fs);
    let got = paths_and_depths(&fs, Wd::new(&tmp), tmp.len());
    assert_eq!(got.len(), 5);
    // One stat for the root, and one for each of the four entries.
    assert_eq!(*fs.stats.borrow(), 5);
    let dents: Vec<DirEntry> = Wd::new(&tmp).max_open(1).into_iter(&fs).map(|d| d.unwrap()).collect();
    assert!(dents[0].file_type().is_dir());
    assert!(dents[1].file_type().is_file());
    assert!(dents[2].file_type().is_dir());
    assert_eq!(text(dents[4].path()), format!("{}/bar/b", tmp));
}

#[test]
fn directory_that_cannot_be_opened_yields_its_error_in_place() {
    let fs = MemFs::new();
    let tmp = fs.tmpdir();
    fs.touch(&format!("{}/a", tmp));
    fs.mkdir(&format!("{}/locked", tmp));
    fs.touch(&format!("{}/locked/hidden", tmp));
    fs.touch(&format!("{}/z", tmp));
    fs.forbid(&format!("{}/locked", tmp));
    let items: Vec<Result<DirEntry, Error>> = Wd::new(&tmp).into_iter(&fs).collect();
    assert_eq!(items.len(), 5);
    assert_eq!(text(items[2].as_ref().unwrap().file_name()), "locked");
    let err = items[3].as_ref().unwrap_err();
    assert_eq!(err.io_error(), Some(IoError::Os(EACCES)));
    assert_eq!(text(err.path().unwrap()), format!("{}/locked", tmp));
    assert_eq!(err.depth(), 1);
    assert_eq!(text(items[4].as_ref().unwrap().file_name()), "z");

    let items: Vec<Result<DirEntry, Error>> =
        Wd::new(&tmp).contents_first(true).into_iter(&fs).collect();
    assert_eq!(items.len(), 5);
    assert!(items[1].is_err());
    assert_eq!(text(items[2].as_ref().unwrap().file_name()), "locked");
}

#[test]
fn root_that_does_not_exist_yields_one_error() {
    let fs = MemFs::new();
    let items: Vec<Result<DirEntry, Error>> = Wd::new("/nowhere").into_iter(&fs).collect();
    assert_eq!(items.len(), 1);
    let err = items[0].as_ref().unwrap_err();
    assert_eq!(err.io_error(), Some(IoError::Os(ENOENT)));
    assert_eq!(err.path(), Some(&b"/nowhere"[..]));
    assert_eq!(err.depth(), 0);
    assert_eq!(err.loop_ancestor(), None);
}

#[test]
fn first_path_is_followed() {
    let fs = MemFs::new();
    let tmp = fs.tmpdir();
    fs.mkdir(&format!("{}/foo", tmp));
    fs.mkdir(&format!("{}/foo/a", tmp));
    fs.touch(&format!("{}/foo/a/a1", tmp));
    fs.touch(&format!("{}/foo/a/a2", tmp));
    fs.mkdir(&format!("{}/foo/b", tmp));
    fs.symlink("../a/a1", &format!("{}/foo/b/alink", tmp));

    // The root is resolved whether or not links are followed: its record
    // has the type of the file that the link leads to.
    let dents = Wd::new(&format!("{}/foo/b/alink", tmp))
        .into_iter(&fs)
        .collect::<Result<Vec<_>, _>>()
        .unwrap();
    assert_eq!(1, dents.len());
    assert!(!dents[0].file_type().is_symlink());
    assert!(dents[0].file_type().is_file());

    let dents = Wd::new(&format!("{}/foo/b/alink", tmp))
        .follow_links(true)
        .into_iter(&fs)
        .collect::<Result<Vec<_>, _>>()
        .unwrap();
    assert_eq!(1, dents.len());
    assert!(!dents[0].file_type().is_symlink());
    assert!(dents[0].file_type().is_file());
}

#[test]
fn root_link_reports_its_target() {
    let fs = MemFs::new();
    let tmp = fs.tmpdir();
    fs.mkdir(&format!("{}/a", tmp));
    fs.touch(&format!("{}/a/a1", tmp));
    fs.mkdir(&format!("{}/b", tmp));
    fs.symlink("../a/a1", &format!("{}/b/alink", tmp));
    for follow in [false, true] {
        let dents = Wd::new(&format!("{}/b/alink", tmp))
            .follow_links(follow)
            .into_iter(&fs)
            .collect::<Result<Vec<_>, _>>()
            .unwrap();
        assert_eq!(1, dents.len());
        assert!(dents[0].file_type().is_file());
        assert!(!dents[0].follow_link());
        assert!(!dents[0].metadata_follows());
        assert_eq!(dents[0].depth(), 0);
    }
}

#[test]
fn same_file_system_without_devices_fails_at_once() {
    let wd = WalkDir::new(b"/root".to_vec()).same_file_system(true);
    let mut it = wd.into_iter();
    let first = it.step(Event::Resume);
    match first {
        Action::Stat { ref path, follow } => {
            assert_eq!(path, b"/root");
            assert!(follow);
        }
        other => panic!("expected a stat, got {:?}", other),
    }
    let md = Metadata { file_type: FileType(FileKind::Dir), dev: None, ino: 7 };
    match it.step(Event::Stat(Ok(md))) {
        Action::Yield(Err(err)) => {
            assert_eq!(err.io_error(), Some(IoError::Unsupported));
            assert_eq!(err.path(), Some(&b"/root"[..]));
        }
        other => panic!("expected an error, got {:?}", other),
    }
    assert!(matches!(it.step(Event::Resume), Action::Done));
    assert!(matches!(it.step(Event::Resume), Action::Done));
}

#[test]
fn an_answer_to_another_question_is_an_error() {
    let mut it = WalkDir::new(b"r".to_vec()).into_iter();
    assert!(matches!(it.step(Event::Resume), Action::Stat { .. }));
    match it.step(Event::ReadDir(None)) {
        Action::Yield(Err(err)) => assert_eq!(err.io_error(), Some(IoError::Protocol)),
        other => panic!("expected an error, got {:?}", other),
    }
}

#[test]
fn filter_does_not_ask_about_what_is_not_shown() {
    let fs = MemFs::new();
    let tmp = basic_tree(&fs);
    let asked = std::rc::Rc::new(RefCell::new(Vec::new()));
    let seen = asked.clone();
    let got: Vec<String> = Wd::new(&tmp)
        .min_depth(2)
        .into_iter(&fs)
        .filter_entry(move |d| {
            seen.borrow_mut().push(text(d.file_name()));
            text(d.file_name()) != "a"
        })
        .map(|d| text(d.unwrap().file_name()))
        .collect();
    assert_eq!(got, vec!["b"]);
    assert_eq!(*asked.borrow(), vec!["a", "b"]);
}

#[test]
fn record_knows_its_serial_number() {
    let fs = MemFs::new();
    let tmp = basic_tree(&fs);
    let dents: Vec<DirEntry> = Wd::new(&tmp).into_iter(&fs).map(|d| d.unwrap()).collect();
    let foo = fs.resolve(&format!("{}/foo", tmp), false).unwrap() as u64 + 100;
    assert_eq!(dents[1].ino(), foo);
    let copy = dents[1].clone();
    assert_eq!(copy.path(), dents[1].path());
    assert_eq!(copy.ino(), foo);
}

#[test]
fn filter_keeps_the_siblings_of_a_directory_that_was_not_entered() {
    let fs = MemFs::new();
    let tmp = fs.tmpdir();
    fs.mkdir(&format!("{}/a", tmp));
    fs.touch(&format!("{}/a/x", tmp));
    fs.touch(&format!("{}/b", tmp));
    fs.mkdir(&format!("{}/c", tmp));
    // The directory `a` lies at the greatest depth: it is shown and not
    // entered, so there is nothing of it to give up when it is dropped.
    let got: Vec<String> = Wd::new(&tmp)
        .max_depth(1)
        .into_iter(&fs)
        .filter_entry(|d| text(d.file_name()) != "a")
        .map(|d| text(d.unwrap().file_name()))
        .collect();
    assert_eq!(got, vec!["rust-0", "b", "c"]);
    assert_eq!(*fs.open_now.borrow(), 0);
}

#[test]
fn skip_in_post_order_drops_the_directory_too() {
    let fs = MemFs::new();
    let tmp = fs.tmpdir();
    fs.touch(&format!("{}/first", tmp));
    fs.mkdir(&format!("{}/dir", tmp));
    fs.touch(&format!("{}/dir/x", tmp));
    fs.touch(&format!("{}/dir/y", tmp));
    fs.touch(&format!("{}/last", tmp));
    let mut it = Wd::new(&tmp).contents_first(true).into_iter(&fs);
    let mut got = vec![];
    while let Some(d) = it.next() {
        let name = text(d.unwrap().file_name());
        if name == "x" {
            it.skip_current_dir();
        }
        got.push(name);
    }
    assert_eq!(got, vec!["first", "x", "last", "rust-0"]);
    assert_eq!(*fs.open_now.borrow(), 0);
    assert_eq!(*fs.opens.borrow(), *fs.closes.borrow());
}

#[test]
fn depth_is_the_number_of_directories_entered() {
    let fs = MemFs::new();
    let tmp = fs.tmpdir();
    fs.mkdirp(&format!("{}/a/b", tmp));
    fs.touch(&format!("{}/a/b/c", tmp));
    let mut it = Wd::new(&tmp).into_iter(&fs);
    let mut depths = vec![it.depth()];
    while let Some(d) = it.next() {
        let d = d.unwrap();
        depths.push(it.depth());
        if d.file_type().is_dir() {
            assert_eq!(it.depth(), d.depth() + 1);
        } else {
            assert_eq!(it.depth(), d.depth());
        }
    }
    depths.push(it.depth());
    assert_eq!(depths, vec![0, 1, 2, 3, 3, 0]);
}

#[test]
fn records_that_stand_alike_stay_as_listed() {
    let fs = MemFs::new();
    let tmp = fs.tmpdir();
    for name in ["b2", "a1", "b1", "c1", "a2", "b3", "a3"] {
        fs.touch(&format!("{}/{}", tmp, name));
    }
    // Only the first letter counts.
    let got: Vec<String> = Wd::new(&tmp)
        .min_depth(1)
        .sort_by(|a, b| a.file_name()[..1].cmp(&b.file_name()[..1]))
        .into_iter(&fs)
        .map(|d| text(d.unwrap().file_name()))
        .collect();
    assert_eq!(got, vec!["a1", "a2", "a3", "b2", "b1", "b3", "c1"]);
}

#[test]
fn putting_in_order_asks_little() {
    let fs = MemFs::new();
    let tmp = fs.tmpdir();
    let mut names: Vec<String> = (0..64u32).map(|i| format!("f{:02}", (i * 37) % 64)).collect();
    for name in &names {
        fs.touch(&format!("{}/{}", tmp, name));
    }
    let mut it = Wd::new(&tmp)
        .min_depth(1)
        .sort_by(|a, b| a.file_name().cmp(b.file_name()))
        .into_iter(&fs);
    let mut got = vec![];
    while let Some(d) = it.next() {
        got.push(text(d.unwrap().file_name()));
    }
    names.sort();
    assert_eq!(got, names);
    // Each record finds its place by halving.
    assert!(it.compares <= 64 * 6, "{} comparisons", it.compares);
    assert!(it.compares >= 63);
}

#[test]
fn sorted_directories_come_in_order_at_every_depth() {
    let fs = MemFs::new();
    let tmp = fs.tmpdir();
    for dir in ["z", "m", "a"] {
        fs.mkdir(&format!("{}/{}", tmp, dir));
        for file in ["2", "3", "1"] {
            fs.touch(&format!("{}/{}/{}", tmp, dir, file));
        }
    }
    for first in [false, true] {
        let got = paths_and_depths(
            &fs,
            Wd::new(&tmp)
                .min_depth(1)
                .contents_first(first)
                .sort_by(|a, b| a.file_name().cmp(b.file_name())),
            tmp.len(),
        );
        let names: Vec<&str> = got.iter().map(|p| p.0.as_str()).collect();
        let want = if first {
            vec![
                "/a/1", "/a/2", "/a/3", "/a", "/m/1", "/m/2", "/m/3", "/m", "/z/1", "/z/2", "/z/3",
                "/z",
            ]
        } else {
            vec![
                "/a", "/a/1", "/a/2", "/a/3", "/m", "/m/1", "/m/2", "/m/3", "/z", "/z/1", "/z/2",
                "/z/3",
            ]
        };
        assert_eq!(names, want);
    }
}
