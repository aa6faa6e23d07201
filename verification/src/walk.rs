//! The traversal: its settings, its states, and its steps.

use vstd::prelude::*;
use std::collections::VecDeque;
use crate::dent::{spec_from_raw, to_vec};
use crate::dir::{is_dots, spec_is_dots};
use crate::dent::{DirEntry, DirEntryView, FileKind, FileType, Metadata, RawEntry, RawEntryView};
use crate::error::{Error, ErrorView, IoError};
use crate::wellformed::{lemma_skip_wf, lemma_step_wf};

verus! {

/// The settings of a traversal.
#[derive(Clone, Copy, Debug, PartialEq, Eq, Structural)]
pub struct WalkDirOptions {
    pub follow_links: bool,
    pub max_open: usize,
    pub min_depth: usize,
    pub max_depth: usize,
    pub sorted: bool,
    pub contents_first: bool,
    pub same_file_system: bool,
}

impl WalkDirOptions {
    /// The settings of a traversal that nothing was asked of: links are not
    /// followed, ten directories may be open at once, every depth is shown,
    /// in the order of the listings, a directory before what it holds, across
    /// file systems.
    pub open spec fn spec_default() -> WalkDirOptions {
        WalkDirOptions {
            follow_links: false,
            max_open: 10,
            min_depth: 0,
            max_depth: usize::MAX,
            sorted: false,
            contents_first: false,
            same_file_system: false,
        }
    }

    /// What a builder upholds: at least one directory may be open, and the
    /// least depth shown is not above the greatest.
    pub open spec fn valid(self) -> bool {
        self.max_open >= 1 && self.min_depth <= self.max_depth
    }

    /// Whether records at this depth are shown.
    pub open spec fn in_window(self, depth: usize) -> bool {
        self.min_depth <= depth <= self.max_depth
    }
}

impl Default for WalkDirOptions {
    fn default() -> (opts: WalkDirOptions)
        ensures
            opts == WalkDirOptions::spec_default(),
    {
        WalkDirOptions {
            follow_links: false,
            max_open: 10,
            min_depth: 0,
            max_depth: usize::MAX,
            sorted: false,
            contents_first: false,
            same_file_system: false,
        }
    }
}

/// A builder of a traversal: it gathers the settings, and touches no file.
#[derive(Debug)]
pub struct WalkDir {
    root: Vec<u8>,
    opts: WalkDirOptions,
}

impl WalkDir {
    /// The path at which the traversal will start.
    pub closed spec fn root(&self) -> Seq<u8> {
        self.root@
    }

    /// The settings gathered so far.
    pub closed spec fn opts(&self) -> WalkDirOptions {
        self.opts
    }

    /// Creates a builder for a traversal that starts at the path `root`. If
    /// `root` is a directory, it is the first record of the traversal. If it
    /// is a file, it is the first and only one. If it is a symbolic link, it
    /// is always followed.
    pub fn new(root: Vec<u8>) -> (wd: WalkDir)
        ensures
            wd.root() == root@,
            wd.opts() == WalkDirOptions::spec_default(),
            wd.opts().valid(),
    {
        WalkDir { root, opts: WalkDirOptions::default() }
    }

    /// Sets the least depth of the records shown. If it is above the greatest
    /// depth set so far, it is lowered to that.
    pub fn min_depth(self, depth: usize) -> (wd: WalkDir)
        ensures
            wd.root() == self.root(),
            wd.opts() == (WalkDirOptions {
                min_depth: if depth > self.opts().max_depth {
                    self.opts().max_depth
                } else {
                    depth
                },
                ..self.opts()
            }),
            self.opts().valid() ==> wd.opts().valid(),
    {
        let mut wd = self;
        wd.opts.min_depth = depth;
        if wd.opts.min_depth > wd.opts.max_depth {
            wd.opts.min_depth = wd.opts.max_depth;
        }
        wd
    }

    /// Sets the greatest depth of the records shown; a directory at that
    /// depth is shown and not entered. If it is below the least depth set so
    /// far, it is raised to that.
    pub fn max_depth(self, depth: usize) -> (wd: WalkDir)
        ensures
            wd.root() == self.root(),
            wd.opts() == (WalkDirOptions {
                max_depth: if depth < self.opts().min_depth {
                    self.opts().min_depth
                } else {
                    depth
                },
                ..self.opts()
            }),
            self.opts().valid() ==> wd.opts().valid(),
    {
        let mut wd = self;
        wd.opts.max_depth = depth;
        if wd.opts.max_depth < wd.opts.min_depth {
            wd.opts.max_depth = wd.opts.min_depth;
        }
        wd
    }

    /// Follow symbolic links. When `yes` is true, a record of a link stands
    /// for its target, and a link that leads back into a directory that
    /// holds it gives an error.
    pub fn follow_links(self, yes: bool) -> (wd: WalkDir)
        ensures
            wd.root() == self.root(),
            wd.opts() == (WalkDirOptions { follow_links: yes, ..self.opts() }),
            self.opts().valid() ==> wd.opts().valid(),
    {
        let mut wd = self;
        wd.opts.follow_links = yes;
        wd
    }

    /// Sets how many directories the traversal keeps open at once. 0 counts
    /// as 1. The records and their order do not depend on this.
    pub fn max_open(self, n: usize) -> (wd: WalkDir)
        ensures
            wd.root() == self.root(),
            wd.opts() == (WalkDirOptions { max_open: if n == 0 { 1 } else { n }, ..self.opts() }),
            self.opts().valid() ==> wd.opts().valid(),
    {
        let mut wd = self;
        wd.opts.max_open = if n == 0 { 1 } else { n };
        wd
    }

    /// Says whether the entries of each directory are put in order before
    /// they are shown. The order itself is that of whoever carries out the
    /// `Compare` actions.
    pub fn sort_by(self, yes: bool) -> (wd: WalkDir)
        ensures
            wd.root() == self.root(),
            wd.opts() == (WalkDirOptions { sorted: yes, ..self.opts() }),
            self.opts().valid() ==> wd.opts().valid(),
    {
        let mut wd = self;
        wd.opts.sorted = yes;
        wd
    }

    /// Show what a directory holds before the directory itself.
    pub fn contents_first(self, yes: bool) -> (wd: WalkDir)
        ensures
            wd.root() == self.root(),
            wd.opts() == (WalkDirOptions { contents_first: yes, ..self.opts() }),
            self.opts().valid() ==> wd.opts().valid(),
    {
        let mut wd = self;
        wd.opts.contents_first = yes;
        wd
    }

    /// Do not enter directories that are on another file system than the
    /// root.
    pub fn same_file_system(self, yes: bool) -> (wd: WalkDir)
        ensures
            wd.root() == self.root(),
            wd.opts() == (WalkDirOptions { same_file_system: yes, ..self.opts() }),
            self.opts().valid() ==> wd.opts().valid(),
    {
        let mut wd = self;
        wd.opts.same_file_system = yes;
        wd
    }

    /// Starts the traversal: nothing has been asked of the file system yet.
    pub fn into_iter(self) -> (it: IntoIter)
        ensures
            it@ == State::initial(self.root(), self.opts()),
            self.opts().valid() ==> it@.wf(),
    {
        let it = IntoIter {
            opts: self.opts,
            start: Some(self.root),
            stack: Vec::new(),
            oldest_opened: 0,
            stack_path: Vec::new(),
            deferred_dirs: Vec::new(),
            root_device: None,
            phase: Phase::Idle,
            pending: None,
            typing: None,
            check: 0,
            drained: VecDeque::new(),
            promoted: VecDeque::new(),
            closing: Vec::new(),
            sorted: Vec::new(),
            queue: VecDeque::new(),
            inserting: None,
            lo: 0,
            hi: 0,
        };
        assert(it@.stack =~= Seq::empty());
        assert(it@.stack_path =~= Seq::empty());
        assert(it@.deferred =~= Seq::empty());
        assert(it@.drained =~= Seq::empty());
        assert(it@.promoted =~= Seq::empty());
        assert(it@.closing =~= Seq::empty());
        assert(it@.sorted =~= Seq::empty());
        assert(it@.queue =~= Seq::empty());
        it
    }
}

/// What the traversal waits for.
#[derive(Clone, Copy, Debug, PartialEq, Eq, Structural)]
pub enum Phase {
    /// Nothing: the traversal goes on when it is resumed.
    Idle,
    /// The stat of the root.
    RootStat,
    /// The next entry of the directory on top of the stack.
    Read,
    /// The type of an entry whose listing did not tell it.
    Type,
    /// The stat of the target of a link.
    Follow,
    /// Whether the target of a link is one of the directories that hold it.
    Same,
    /// The device of a directory about to be entered.
    Device,
    /// What is left of the oldest open directory.
    Evict,
    /// The type of an entry left in the oldest open directory.
    EvictType,
    /// The opening of a directory.
    Open,
    /// All the entries of a directory just opened, to be put in order.
    SortDrain,
    /// The type of an entry of a directory being put in order.
    SortType,
    /// How two records of a directory stand to each other in the order.
    Compare,
    /// Nothing: the traversal is over.
    Done,
}

pub type ItemView = Result<DirEntryView, ErrorView>;

/// How one record stands to another in the order into which the records of
/// a directory are put.
#[derive(Clone, Copy, Debug, PartialEq, Eq, Structural)]
pub enum Order {
    Less,
    Equal,
    Greater,
}

/// What the traversal asks of whoever drives it.
#[derive(Debug)]
pub enum Action {
    /// Stat the path, through a link at its end if `follow` is set.
    Stat { path: Vec<u8>, follow: bool },
    /// Open the directory at the path, under the number `handle`.
    OpenDir { path: Vec<u8>, handle: usize },
    /// Read the next entry of the open directory `handle`.
    ReadDir { handle: usize },
    /// Read all the entries left in the open directory `handle`, and close
    /// it.
    Drain { handle: usize },
    /// Close the open directory `handle`.
    CloseDir { handle: usize },
    /// Tell whether the two paths lead to the same file.
    SameFile { ancestor: Vec<u8>, child: Vec<u8> },
    /// Tell how the record `a` stands to the record `b` in the order.
    Compare { a: DirEntry, b: DirEntry },
    /// Hand this record or error to the consumer, then resume.
    Yield(Result<DirEntry, Error>),
    /// Ask the predicate of a filter whether it keeps the record that the
    /// filter holds back.
    Test,
    /// Nothing: the traversal is over.
    Done,
}

pub enum ActionView {
    Stat { path: Seq<u8>, follow: bool },
    OpenDir { path: Seq<u8>, handle: usize },
    ReadDir { handle: usize },
    Drain { handle: usize },
    CloseDir { handle: usize },
    SameFile { ancestor: Seq<u8>, child: Seq<u8> },
    Compare { a: DirEntryView, b: DirEntryView },
    Yield(ItemView),
    Test,
    Done,
}

/// What came of the action that the traversal asked for.
#[derive(Debug)]
pub enum Event {
    /// Nothing was asked, or a record was handed on, or a directory closed.
    Resume,
    /// What the stat reported.
    Stat(Result<Metadata, IoError>),
    /// Whether the directory could be opened.
    OpenDir(Result<(), IoError>),
    /// The next entry of the directory, or `None` at its end.
    ReadDir(Option<Result<RawEntry, IoError>>),
    /// The entries that were left in the directory, which is now closed.
    Drain(Vec<Result<RawEntry, IoError>>),
    /// Whether the two paths lead to the same file.
    SameFile(Result<bool, IoError>),
    /// How the one record stands to the other.
    Order(Order),
    /// Whether the predicate of a filter keeps the record.
    Verdict(bool),
}

pub enum EventView {
    Resume,
    Stat(Result<Metadata, IoError>),
    OpenDir(Result<(), IoError>),
    ReadDir(Option<Result<RawEntryView, IoError>>),
    Drain(Seq<Result<RawEntryView, IoError>>),
    SameFile(Result<bool, IoError>),
    Order(Order),
    Verdict(bool),
}

pub open spec fn item_view(item: Result<DirEntry, Error>) -> ItemView {
    match item {
        Ok(dent) => Ok(dent@),
        Err(err) => Err(err@),
    }
}

pub open spec fn items_view(items: Seq<Result<DirEntry, Error>>) -> Seq<ItemView> {
    items.map_values(|item: Result<DirEntry, Error>| item_view(item))
}

pub open spec fn entries_view(entries: Seq<DirEntry>) -> Seq<DirEntryView> {
    entries.map_values(|dent: DirEntry| dent@)
}

pub open spec fn paths_view(paths: Seq<Vec<u8>>) -> Seq<Seq<u8>> {
    paths.map_values(|path: Vec<u8>| path@)
}

pub open spec fn raw_view(raw: Result<RawEntry, IoError>) -> Result<RawEntryView, IoError> {
    match raw {
        Ok(r) => Ok(r@),
        Err(e) => Err(e),
    }
}

pub open spec fn raws_view(raws: Seq<Result<RawEntry, IoError>>) -> Seq<Result<RawEntryView, IoError>> {
    raws.map_values(|raw: Result<RawEntry, IoError>| raw_view(raw))
}

pub open spec fn opt_entry_view(dent: Option<DirEntry>) -> Option<DirEntryView> {
    match dent {
        Some(d) => Some(d@),
        None => None,
    }
}

pub open spec fn opt_path_view(path: Option<Vec<u8>>) -> Option<Seq<u8>> {
    match path {
        Some(p) => Some(p@),
        None => None,
    }
}

impl View for Action {
    type V = ActionView;

    open spec fn view(&self) -> ActionView {
        match *self {
            Action::Stat { path, follow } => ActionView::Stat { path: path@, follow },
            Action::OpenDir { path, handle } => ActionView::OpenDir { path: path@, handle },
            Action::ReadDir { handle } => ActionView::ReadDir { handle },
            Action::Drain { handle } => ActionView::Drain { handle },
            Action::CloseDir { handle } => ActionView::CloseDir { handle },
            Action::SameFile { ancestor, child } => ActionView::SameFile {
                ancestor: ancestor@,
                child: child@,
            },
            Action::Compare { a, b } => ActionView::Compare { a: a@, b: b@ },
            Action::Yield(item) => ActionView::Yield(item_view(item)),
            Action::Test => ActionView::Test,
            Action::Done => ActionView::Done,
        }
    }
}

impl View for Event {
    type V = EventView;

    open spec fn view(&self) -> EventView {
        match *self {
            Event::Resume => EventView::Resume,
            Event::Stat(r) => EventView::Stat(r),
            Event::OpenDir(r) => EventView::OpenDir(r),
            Event::ReadDir(r) => EventView::ReadDir(
                match r {
                    Some(raw) => Some(raw_view(raw)),
                    None => None,
                },
            ),
            Event::Drain(raws) => EventView::Drain(raws_view(raws@)),
            Event::SameFile(r) => EventView::SameFile(r),
            Event::Order(order) => EventView::Order(order),
            Event::Verdict(keep) => EventView::Verdict(keep),
        }
    }
}

/// One directory on the stack of a traversal: its path, whether it is still
/// open, and, once it is closed, the records of the entries left in it.
#[derive(Debug)]
pub struct DirList {
    path: Vec<u8>,
    open: bool,
    rest: VecDeque<Result<DirEntry, Error>>,
}

pub struct ListView {
    pub path: Seq<u8>,
    pub open: bool,
    pub rest: Seq<ItemView>,
}

impl View for DirList {
    type V = ListView;

    closed spec fn view(&self) -> ListView {
        ListView { path: self.path@, open: self.open, rest: items_view(self.rest@) }
    }
}

pub open spec fn lists_view(lists: Seq<DirList>) -> Seq<ListView> {
    lists.map_values(|list: DirList| list@)
}

/// How many of the directories are open.
pub open spec fn count_open(stack: Seq<ListView>) -> nat
    decreases stack.len(),
{
    if stack.len() == 0 {
        0
    } else {
        count_open(stack.drop_last()) + if stack.last().open {
            1nat
        } else {
            0nat
        }
    }
}

/// The place of the first open directory at or after `from`, or the length
/// of the stack if there is none.
pub open spec fn first_open(stack: Seq<ListView>, from: int) -> int
    decreases stack.len() - from,
{
    if from < 0 || from >= stack.len() {
        stack.len() as int
    } else if stack[from].open {
        from
    } else {
        first_open(stack, from + 1)
    }
}

/// The records among the items, in their order.
pub open spec fn oks(items: Seq<ItemView>) -> Seq<DirEntryView>
    decreases items.len(),
{
    if items.len() == 0 {
        Seq::empty()
    } else {
        match items.last() {
            Ok(dent) => oks(items.drop_last()).push(dent),
            Err(_) => oks(items.drop_last()),
        }
    }
}

/// The errors among the items, in their order.
pub open spec fn errs(items: Seq<ItemView>) -> Seq<ItemView>
    decreases items.len(),
{
    if items.len() == 0 {
        Seq::empty()
    } else {
        match items.last() {
            Ok(_) => errs(items.drop_last()),
            Err(e) => errs(items.drop_last()).push(Err(e)),
        }
    }
}

/// The records as items.
pub open spec fn as_items(entries: Seq<DirEntryView>) -> Seq<ItemView> {
    entries.map_values(|dent: DirEntryView| Ok::<DirEntryView, ErrorView>(dent))
}

/// The depth of what a directory at depth `d` holds.
pub open spec fn child_depth(d: usize) -> usize {
    if d == usize::MAX {
        d
    } else {
        (d + 1) as usize
    }
}

/// The state of a traversal.
pub struct State {
    /// The settings.
    pub opts: WalkDirOptions,
    /// The path of the root, until the traversal has asked for its stat.
    pub start: Option<Seq<u8>>,
    /// The directories that the traversal is in: that of the root first; the
    /// directory at place `k` holds the entries at depth `k + 1`.
    pub stack: Seq<ListView>,
    /// Every directory before this place is closed.
    pub oldest_opened: usize,
    /// When links are followed, the paths of the directories on the stack.
    pub stack_path: Seq<Seq<u8>>,
    /// When directories come after what they hold, the records of the
    /// directories on the stack.
    pub deferred: Seq<DirEntryView>,
    /// When the traversal stays on one file system, the device of the root.
    pub root_device: Option<u64>,
    /// What the traversal waits for.
    pub phase: Phase,
    /// The record being dealt with: a link being followed, a directory being
    /// entered.
    pub pending: Option<DirEntryView>,
    /// The record whose type is being asked.
    pub typing: Option<DirEntryView>,
    /// The place in `stack_path` of the directory that the target of a link
    /// is being held against.
    pub check: usize,
    /// The entries read from a directory that are yet to be made records.
    pub drained: Seq<Result<RawEntryView, IoError>>,
    /// The records made so far of the entries read from a directory. While
    /// they are in order, the errors among them.
    pub promoted: Seq<ItemView>,
    /// The directories that left the stack open, and are yet to be closed.
    pub closing: Seq<usize>,
    /// Of the records of a directory that is being put in order, those that
    /// have found their place, in order.
    pub sorted: Seq<DirEntryView>,
    /// Of the records of a directory that is being put in order, those that
    /// are yet to find their place.
    pub queue: Seq<DirEntryView>,
    /// The record that is finding its place among those in order.
    pub inserting: Option<DirEntryView>,
    /// The place of that record lies at `lo` or after it,
    pub lo: usize,
    /// and at `hi` or before it.
    pub hi: usize,
}

pub open spec fn expect_stat(ev: EventView) -> Result<Metadata, IoError> {
    match ev {
        EventView::Stat(r) => r,
        _ => Err(IoError::Protocol),
    }
}

pub open spec fn expect_open(ev: EventView) -> Result<(), IoError> {
    match ev {
        EventView::OpenDir(r) => r,
        _ => Err(IoError::Protocol),
    }
}

pub open spec fn expect_read(ev: EventView) -> Option<Result<RawEntryView, IoError>> {
    match ev {
        EventView::ReadDir(r) => r,
        _ => Some(Err(IoError::Protocol)),
    }
}

pub open spec fn expect_drain(ev: EventView) -> Seq<Result<RawEntryView, IoError>> {
    match ev {
        EventView::Drain(raws) => raws,
        _ => Seq::empty(),
    }
}

pub open spec fn expect_same(ev: EventView) -> Result<bool, IoError> {
    match ev {
        EventView::SameFile(r) => r,
        _ => Err(IoError::Protocol),
    }
}

pub open spec fn expect_order(ev: EventView) -> Order {
    match ev {
        EventView::Order(order) => order,
        _ => Order::Equal,
    }
}

/// The record of a root before its stat is known.
pub open spec fn root_entry(path: Seq<u8>) -> DirEntryView {
    DirEntryView { path, file_type: FileType(FileKind::Other), follow_link: false, depth: 0, ino: 0 }
}

impl State {
    /// The state of a traversal of which nothing has been asked yet.
    pub open spec fn initial(root: Seq<u8>, opts: WalkDirOptions) -> State {
        State {
            opts,
            start: Some(root),
            stack: Seq::empty(),
            oldest_opened: 0,
            stack_path: Seq::empty(),
            deferred: Seq::empty(),
            root_device: None,
            phase: Phase::Idle,
            pending: None,
            typing: None,
            check: 0,
            drained: Seq::empty(),
            promoted: Seq::empty(),
            closing: Seq::empty(),
            sorted: Seq::empty(),
            queue: Seq::empty(),
            inserting: None,
            lo: 0,
            hi: 0,
        }
    }

    /// The depth that the traversal is at: the number of directories on the
    /// stack.
    pub open spec fn depth(self) -> nat {
        self.stack.len()
    }

    /// How many directories the traversal reckons with as open: those on
    /// the stack that are open, those that left the stack open and are yet
    /// to be closed, and the one that it has asked to open. Once the action
    /// that it asked for last has been carried out, no more than these are
    /// open.
    pub open spec fn handles_in_use(self) -> nat {
        count_open(self.stack) + self.closing.len() + if self.phase == Phase::Open || self.phase
            == Phase::SortDrain {
            1nat
        } else {
            0nat
        }
    }

    /// The state in which the record is handed out, if its depth is one that
    /// is shown.
    pub open spec fn emit(self, dent: DirEntryView) -> Option<(State, ActionView)> {
        if self.opts.in_window(dent.depth) {
            Some((State { phase: Phase::Idle, ..self }, ActionView::Yield(Ok(dent))))
        } else {
            None
        }
    }

    /// Enters the directory of the record: makes room among the open
    /// directories if there is none, and asks to open it.
    pub open spec fn begin_push(self, dent: DirEntryView) -> (State, ActionView) {
        let victim = first_open(self.stack, self.oldest_opened as int);
        if count_open(self.stack) >= self.opts.max_open && victim < self.stack.len() {
            (
                State {
                    phase: Phase::Evict,
                    pending: Some(dent),
                    oldest_opened: victim as usize,
                    ..self
                },
                ActionView::Drain { handle: victim as usize },
            )
        } else {
            (
                State { phase: Phase::Open, pending: Some(dent), ..self },
                ActionView::OpenDir { path: dent.path, handle: self.stack.len() as usize },
            )
        }
    }

    /// Deals with a record whose type is final: a directory above the
    /// greatest depth is entered, anything else is handed out.
    pub open spec fn handle_entry(self, dent: DirEntryView) -> Option<(State, ActionView)> {
        if dent.file_type.is_dir() && dent.depth < self.opts.max_depth {
            if self.opts.same_file_system && dent.depth > 0 {
                Some(
                    (
                        State { phase: Phase::Device, pending: Some(dent), ..self },
                        ActionView::Stat { path: dent.path, follow: true },
                    ),
                )
            } else {
                Some(self.begin_push(dent))
            }
        } else {
            self.emit(dent)
        }
    }

    /// Deals with a record as a listing gave it: a link is followed if links
    /// are to be followed.
    pub open spec fn on_entry(self, dent: DirEntryView) -> Option<(State, ActionView)> {
        if self.opts.follow_links && dent.file_type.is_symlink() {
            Some(
                (
                    State { phase: Phase::Follow, pending: Some(dent), ..self },
                    ActionView::Stat { path: dent.path, follow: true },
                ),
            )
        } else {
            self.handle_entry(dent)
        }
    }

    /// The stack without its top.
    pub open spec fn pop(self) -> State {
        State {
            stack: self.stack.drop_last(),
            stack_path: if self.opts.follow_links && self.stack_path.len() > 0 {
                self.stack_path.drop_last()
            } else {
                self.stack_path
            },
            oldest_opened: if self.oldest_opened as int > self.stack.len() - 1 {
                (self.stack.len() - 1) as usize
            } else {
                self.oldest_opened
            },
            ..self
        }
    }

    /// The state in which the first of the records left in the directory on
    /// top of the stack has been taken.
    pub open spec fn consume(self) -> State {
        let top = self.stack.last();
        State {
            stack: self.stack.update(
                self.stack.len() - 1,
                ListView { rest: top.rest.skip(1), ..top },
            ),
            ..self
        }
    }

    /// Goes on with the directory on top of the stack, until something is to
    /// be asked or handed out: an open directory is read; of a closed one
    /// the next record is dealt with; one that has no more leaves the stack,
    /// and its own record is handed out if it was kept back.
    pub open spec fn advance(self) -> (State, ActionView)
        decreases self.stack.len(), self.stack.last().rest.len(),
    {
        if self.stack.len() == 0 {
            (State { phase: Phase::Done, ..self }, ActionView::Done)
        } else {
            let top = self.stack.last();
            if top.open {
                (
                    State { phase: Phase::Read, ..self },
                    ActionView::ReadDir { handle: (self.stack.len() - 1) as usize },
                )
            } else if top.rest.len() == 0 {
                let s1 = self.pop();
                if self.opts.contents_first && self.deferred.len() > 0 {
                    let dir = self.deferred.last();
                    let s2 = State { deferred: self.deferred.drop_last(), ..s1 };
                    match s2.emit(dir) {
                        Some(r) => r,
                        None => s2.advance(),
                    }
                } else {
                    s1.advance()
                }
            } else {
                let s1 = self.consume();
                match top.rest[0] {
                    Err(e) => (State { phase: Phase::Idle, ..s1 }, ActionView::Yield(Err(e))),
                    Ok(dent) => match s1.on_entry(dent) {
                        Some(r) => r,
                        None => s1.advance(),
                    },
                }
            }
        }
    }

    /// What came of dealing with a record, or else how the traversal goes
    /// on.
    pub open spec fn finish(self, r: Option<(State, ActionView)>) -> (State, ActionView) {
        match r {
            Some(r) => r,
            None => self.advance(),
        }
    }

    /// Starts or goes on: directories that left the stack open are closed
    /// first; then the root is asked for, if it has not been; then the
    /// traversal advances.
    pub open spec fn resume(self) -> (State, ActionView) {
        if self.closing.len() > 0 {
            (
                State { closing: self.closing.drop_last(), ..self },
                ActionView::CloseDir { handle: self.closing.last() },
            )
        } else {
            match self.start {
                Some(root) => (
                    State {
                        start: None,
                        phase: Phase::RootStat,
                        pending: Some(root_entry(root)),
                        ..self
                    },
                    ActionView::Stat { path: root, follow: true },
                ),
                None => self.advance(),
            }
        }
    }

    /// The state in which an error is handed out.
    pub open spec fn fail(self, err: ErrorView) -> (State, ActionView) {
        (State { phase: Phase::Idle, ..self }, ActionView::Yield(Err(err)))
    }

    /// Deals with the stat of the root. The root is always followed, and its
    /// record has the type of what it leads to, yet does not count as a link
    /// that was followed.
    pub open spec fn on_root_stat(self, r: Result<Metadata, IoError>) -> (State, ActionView) {
        match self.pending {
            None => (State { phase: Phase::Done, ..self }, ActionView::Done),
            Some(root) => {
                let s = State { pending: None, ..self };
                match r {
                    Err(e) => s.fail(ErrorView::from_path(0, root.path, e)),
                    Ok(md) => {
                        if self.opts.same_file_system && md.dev.is_none() {
                            s.fail(ErrorView::from_path(0, root.path, IoError::Unsupported))
                        } else {
                            let s = State { root_device: md.dev, ..s };
                            s.finish(s.handle_entry(root.with_stat(md)))
                        }
                    },
                }
            },
        }
    }

    /// Deals with what was read from the directory on top of the stack: at
    /// its end the directory is closed; `.` and `..` are passed over; an
    /// entry becomes a record, once its type is known.
    pub open spec fn on_read(self, r: Option<Result<RawEntryView, IoError>>) -> (State, ActionView) {
        if self.stack.len() == 0 {
            (State { phase: Phase::Done, ..self }, ActionView::Done)
        } else {
            let top = self.stack.last();
            let depth = self.stack.len() as usize;
            match r {
                None => (
                    State {
                        phase: Phase::Idle,
                        stack: self.stack.update(
                            self.stack.len() - 1,
                            ListView { open: false, rest: Seq::empty(), ..top },
                        ),
                        ..self
                    },
                    ActionView::CloseDir { handle: (self.stack.len() - 1) as usize },
                ),
                Some(Err(e)) => self.fail(ErrorView::from_io(depth, e)),
                Some(Ok(raw)) => {
                    if spec_is_dots(raw.name) {
                        self.advance()
                    } else {
                        match raw.file_type {
                            Some(ft) => self.finish(
                                self.on_entry(spec_from_raw(top.path, raw, ft, depth)),
                            ),
                            None => {
                                let dent = spec_from_raw(
                                    top.path,
                                    raw,
                                    FileType(FileKind::Other),
                                    depth,
                                );
                                (
                                    State { phase: Phase::Type, typing: Some(dent), ..self },
                                    ActionView::Stat { path: dent.path, follow: false },
                                )
                            },
                        }
                    }
                },
            }
        }
    }

    /// Deals with the type of an entry whose listing did not tell it.
    pub open spec fn on_type(self, r: Result<Metadata, IoError>) -> (State, ActionView) {
        match self.typing {
            None => (State { phase: Phase::Done, ..self }, ActionView::Done),
            Some(dent) => {
                let s = State { typing: None, ..self };
                match r {
                    Err(e) => s.fail(ErrorView::from_path(dent.depth, dent.path, e)),
                    Ok(md) => s.finish(s.on_entry(dent.with_type(md.file_type))),
                }
            },
        }
    }

    /// Holds the target of a link, a directory, against the directories on
    /// the stack below place `k`, the nearest first.
    pub open spec fn check_loop(self, dent: DirEntryView, k: int) -> (State, ActionView) {
        if 0 < k <= self.stack_path.len() {
            (
                State { phase: Phase::Same, pending: Some(dent), check: (k - 1) as usize, ..self },
                ActionView::SameFile { ancestor: self.stack_path[k - 1], child: dent.path },
            )
        } else {
            self.finish(self.handle_entry(dent))
        }
    }

    /// Deals with the stat of the target of a link: the record becomes that
    /// of the target; a directory is held against those on the stack.
    pub open spec fn on_follow(self, r: Result<Metadata, IoError>) -> (State, ActionView) {
        match self.pending {
            None => (State { phase: Phase::Done, ..self }, ActionView::Done),
            Some(dent) => {
                let s = State { pending: None, ..self };
                match r {
                    Err(e) => s.fail(ErrorView::from_path(dent.depth, dent.path, e)),
                    Ok(md) => {
                        let target = dent.followed(md);
                        if target.file_type.is_dir() {
                            s.check_loop(target, s.stack_path.len() as int)
                        } else {
                            s.finish(s.handle_entry(target))
                        }
                    },
                }
            },
        }
    }

    /// Deals with the answer on whether the target of a link is a directory
    /// on the stack: if it is, the link closes a loop, and is not entered.
    pub open spec fn on_same(self, r: Result<bool, IoError>) -> (State, ActionView) {
        match self.pending {
            None => (State { phase: Phase::Done, ..self }, ActionView::Done),
            Some(dent) => {
                let s = State { pending: None, ..self };
                match r {
                    Err(e) => s.fail(ErrorView::from_io(dent.depth, e)),
                    Ok(same) => {
                        if same && (self.check as int) < self.stack_path.len() {
                            s.fail(
                                ErrorView::from_loop(
                                    dent.depth,
                                    self.stack_path[self.check as int],
                                    dent.path,
                                ),
                            )
                        } else {
                            s.check_loop(dent, self.check as int)
                        }
                    },
                }
            },
        }
    }

    /// Deals with the stat of a directory about to be entered: it is
    /// entered if it is on the device of the root, and only shown if not.
    pub open spec fn on_device(self, r: Result<Metadata, IoError>) -> (State, ActionView) {
        match self.pending {
            None => (State { phase: Phase::Done, ..self }, ActionView::Done),
            Some(dent) => {
                let s = State { pending: None, ..self };
                match r {
                    Err(e) => s.fail(ErrorView::from_path(dent.depth, dent.path, e)),
                    Ok(md) => {
                        if md.dev == self.root_device {
                            s.begin_push(dent)
                        } else {
                            s.finish(s.emit(dent))
                        }
                    },
                }
            },
        }
    }

    /// Whether the step from this state may put a directory on the stack:
    /// one that was opened, or one that is being put in order.
    pub open spec fn pushing(self) -> bool {
        self.phase == Phase::Open || self.phase == Phase::SortDrain || self.phase
            == Phase::SortType || self.phase == Phase::Compare
    }

    /// Whether the entries being made records are those of a directory that
    /// is put in order, not those of one that is closed to make room.
    pub open spec fn sorting(self) -> bool {
        self.phase == Phase::SortDrain || self.phase == Phase::SortType
    }

    /// The path of the directory whose entries are being made records.
    pub open spec fn drain_dir(self) -> Seq<u8> {
        if self.sorting() {
            match self.pending {
                Some(dent) => dent.path,
                None => Seq::empty(),
            }
        } else if (self.oldest_opened as int) < self.stack.len() {
            self.stack[self.oldest_opened as int].path
        } else {
            Seq::empty()
        }
    }

    /// The depth of the entries that are being made records.
    pub open spec fn drain_depth(self) -> usize {
        if self.sorting() {
            match self.pending {
                Some(dent) => child_depth(dent.depth),
                None => 0,
            }
        } else {
            child_depth(self.oldest_opened)
        }
    }

    /// Makes records of the entries read from a directory, as far as their
    /// types are known: `.` and `..` are passed over; an error keeps its
    /// place.
    pub open spec fn promote(self) -> (State, ActionView)
        decreases self.drained.len(),
    {
        if self.drained.len() == 0 {
            self.finish_promote()
        } else {
            let s = State { drained: self.drained.skip(1), ..self };
            let depth = self.drain_depth();
            match self.drained[0] {
                Err(e) => State {
                    promoted: self.promoted.push(Err(ErrorView::from_io(depth, e))),
                    ..s
                }.promote(),
                Ok(raw) => {
                    if spec_is_dots(raw.name) {
                        s.promote()
                    } else {
                        match raw.file_type {
                            Some(ft) => State {
                                promoted: self.promoted.push(
                                    Ok(spec_from_raw(self.drain_dir(), raw, ft, depth)),
                                ),
                                ..s
                            }.promote(),
                            None => {
                                let dent = spec_from_raw(
                                    self.drain_dir(),
                                    raw,
                                    FileType(FileKind::Other),
                                    depth,
                                );
                                (
                                    State {
                                        typing: Some(dent),
                                        phase: if self.sorting() {
                                            Phase::SortType
                                        } else {
                                            Phase::EvictType
                                        },
                                        ..s
                                    },
                                    ActionView::Stat { path: dent.path, follow: false },
                                )
                            },
                        }
                    }
                },
            }
        }
    }

    /// Once all the entries read from a directory are records: those of a
    /// directory closed to make room take its place on the stack, and the
    /// new directory is opened; those of a directory that is put in order
    /// find their places one by one, but for the errors, which stay behind
    /// them.
    pub open spec fn finish_promote(self) -> (State, ActionView) {
        if self.sorting() {
            State {
                sorted: Seq::empty(),
                queue: oks(self.promoted),
                promoted: errs(self.promoted),
                ..self
            }.sort_next()
        } else {
            match self.pending {
                None => (State { phase: Phase::Done, ..self }, ActionView::Done),
                Some(dent) => {
                    let victim = self.oldest_opened as int;
                    let stack = if victim < self.stack.len() {
                        self.stack.update(
                            victim,
                            ListView { open: false, rest: self.promoted, ..self.stack[victim] },
                        )
                    } else {
                        self.stack
                    };
                    (
                        State {
                            phase: Phase::Open,
                            stack,
                            oldest_opened: child_depth(self.oldest_opened),
                            promoted: Seq::empty(),
                            ..self
                        },
                        ActionView::OpenDir { path: dent.path, handle: self.stack.len() as usize },
                    )
                },
            }
        }
    }

    /// Deals with the entries that were left in a directory.
    pub open spec fn on_drain(self, raws: Seq<Result<RawEntryView, IoError>>) -> (State, ActionView) {
        State { drained: raws, promoted: Seq::empty(), ..self }.promote()
    }

    /// Deals with the type of an entry read from a directory, whose listing
    /// did not tell it.
    pub open spec fn on_promote_type(self, r: Result<Metadata, IoError>) -> (State, ActionView) {
        match self.typing {
            None => (State { phase: Phase::Done, ..self }, ActionView::Done),
            Some(dent) => {
                let item = match r {
                    Ok(md) => Ok(dent.with_type(md.file_type)),
                    Err(e) => Err(ErrorView::from_path(dent.depth, dent.path, e)),
                };
                State {
                    typing: None,
                    promoted: self.promoted.push(item),
                    phase: if self.phase == Phase::SortType {
                        Phase::SortDrain
                    } else {
                        Phase::Evict
                    },
                    ..self
                }.promote()
            },
        }
    }

    /// Puts a directory on the stack, and shows its record: at once, or,
    /// when directories come after what they hold, once it leaves the stack.
    pub open spec fn push_listing(self, dent: DirEntryView, list: ListView) -> (State, ActionView) {
        let s = State {
            phase: Phase::Idle,
            stack: self.stack.push(list),
            stack_path: if self.opts.follow_links {
                self.stack_path.push(dent.path)
            } else {
                self.stack_path
            },
            ..self
        };
        if self.opts.contents_first {
            State { deferred: self.deferred.push(dent), ..s }.advance()
        } else {
            s.finish(s.emit(dent))
        }
    }

    /// Deals with the opening of a directory. One that could not be opened
    /// goes on the stack closed, with the error as all it holds.
    pub open spec fn on_open(self, r: Result<(), IoError>) -> (State, ActionView) {
        match self.pending {
            None => (State { phase: Phase::Done, ..self }, ActionView::Done),
            Some(dent) => match r {
                Err(e) => State { pending: None, ..self }.push_listing(
                    dent,
                    ListView {
                        path: dent.path,
                        open: false,
                        rest: seq![Err(ErrorView::from_path(dent.depth, dent.path, e))],
                    },
                ),
                Ok(_) => {
                    if self.opts.sorted {
                        (
                            State { phase: Phase::SortDrain, ..self },
                            ActionView::Drain { handle: self.stack.len() as usize },
                        )
                    } else {
                        State { pending: None, ..self }.push_listing(
                            dent,
                            ListView { path: dent.path, open: true, rest: Seq::empty() },
                        )
                    }
                },
            },
        }
    }

    /// Where the record that is finding its place is held against next: the
    /// middle of the places that are left for it.
    pub open spec fn middle(self) -> int {
        self.lo + (self.hi - self.lo) / 2
    }

    /// Goes on with putting a directory in order: the next record that is
    /// yet to find its place looks for it among those in order; once none is
    /// left, the directory goes on the stack closed, with the records in
    /// order and the errors behind them.
    pub open spec fn sort_next(self) -> (State, ActionView)
        decreases 2 * self.queue.len() + 1,
    {
        if self.queue.len() == 0 {
            match self.pending {
                None => (State { phase: Phase::Done, ..self }, ActionView::Done),
                Some(dent) => State {
                    pending: None,
                    promoted: Seq::empty(),
                    sorted: Seq::empty(),
                    ..self
                }.push_listing(
                    dent,
                    ListView {
                        path: dent.path,
                        open: false,
                        rest: as_items(self.sorted) + self.promoted,
                    },
                ),
            }
        } else {
            State {
                inserting: Some(self.queue[0]),
                queue: self.queue.skip(1),
                lo: 0,
                hi: self.sorted.len() as usize,
                ..self
            }.bisect()
        }
    }

    /// Finds the place of a record among those in order by halving: while
    /// more than one place is left, it is asked how the record stands to the
    /// one in the middle; once one place is left, the record takes it.
    pub open spec fn bisect(self) -> (State, ActionView)
        decreases 2 * self.queue.len() + 2,
    {
        match self.inserting {
            None => (State { phase: Phase::Done, ..self }, ActionView::Done),
            Some(dent) => {
                if self.lo < self.hi && self.hi <= self.sorted.len() {
                    (
                        State { phase: Phase::Compare, ..self },
                        ActionView::Compare { a: dent, b: self.sorted[self.middle()] },
                    )
                } else {
                    let at = if self.lo <= self.sorted.len() {
                        self.lo as int
                    } else {
                        self.sorted.len() as int
                    };
                    State {
                        sorted: self.sorted.insert(at, dent),
                        inserting: None,
                        ..self
                    }.sort_next()
                }
            },
        }
    }

    /// Deals with how the record that is finding its place stands to the
    /// one in the middle: if it comes before it, its place is before the
    /// middle; if not, its place is after it, so that records that stand
    /// alike stay in the order in which they were listed.
    pub open spec fn on_compare(self, order: Order) -> (State, ActionView) {
        if self.lo < self.hi {
            if order == Order::Less {
                State { hi: self.middle() as usize, ..self }.bisect()
            } else {
                State { lo: (self.middle() + 1) as usize, ..self }.bisect()
            }
        } else {
            self.bisect()
        }
    }

    /// One step of the traversal: what it does with the outcome of the
    /// action it asked for last, and the action it asks for next.
    pub open spec fn step(self, ev: EventView) -> (State, ActionView) {
        match self.phase {
            Phase::Idle => self.resume(),
            Phase::RootStat => self.on_root_stat(expect_stat(ev)),
            Phase::Read => self.on_read(expect_read(ev)),
            Phase::Type => self.on_type(expect_stat(ev)),
            Phase::Follow => self.on_follow(expect_stat(ev)),
            Phase::Same => self.on_same(expect_same(ev)),
            Phase::Device => self.on_device(expect_stat(ev)),
            Phase::Evict | Phase::SortDrain => self.on_drain(expect_drain(ev)),
            Phase::EvictType | Phase::SortType => self.on_promote_type(expect_stat(ev)),
            Phase::Open => self.on_open(expect_open(ev)),
            Phase::Compare => self.on_compare(expect_order(ev)),
            Phase::Done => (self, ActionView::Done),
        }
    }

    /// The state in which the directory on top of the stack has been given
    /// up: it leaves the stack with all that it still holds, and with its
    /// own record if that was kept back. Only between two steps, while the
    /// traversal waits for nothing, can a directory be given up.
    pub open spec fn skip_current_dir(self) -> State {
        if self.phase == Phase::Idle && self.stack.len() > 0 {
            let s = self.pop();
            State {
                deferred: if self.opts.contents_first && self.deferred.len() > 0 {
                    self.deferred.drop_last()
                } else {
                    self.deferred
                },
                closing: if self.stack.last().open {
                    self.closing.push((self.stack.len() - 1) as usize)
                } else {
                    self.closing
                },
                ..s
            }
        } else {
            self
        }
    }
}

/// A traversal in progress. It touches no file itself: each step takes the
/// outcome of the action asked for last, and returns the action to carry out
/// next.
#[derive(Debug)]
pub struct IntoIter {
    opts: WalkDirOptions,
    start: Option<Vec<u8>>,
    stack: Vec<DirList>,
    oldest_opened: usize,
    stack_path: Vec<Vec<u8>>,
    deferred_dirs: Vec<DirEntry>,
    root_device: Option<u64>,
    phase: Phase,
    pending: Option<DirEntry>,
    typing: Option<DirEntry>,
    check: usize,
    drained: VecDeque<Result<RawEntry, IoError>>,
    promoted: VecDeque<Result<DirEntry, Error>>,
    closing: Vec<usize>,
    sorted: Vec<DirEntry>,
    queue: VecDeque<DirEntry>,
    inserting: Option<DirEntry>,
    lo: usize,
    hi: usize,
}

impl View for IntoIter {
    type V = State;

    closed spec fn view(&self) -> State {
        State {
            opts: self.opts,
            start: opt_path_view(self.start),
            stack: lists_view(self.stack@),
            oldest_opened: self.oldest_opened,
            stack_path: paths_view(self.stack_path@),
            deferred: entries_view(self.deferred_dirs@),
            root_device: self.root_device,
            phase: self.phase,
            pending: opt_entry_view(self.pending),
            typing: opt_entry_view(self.typing),
            check: self.check,
            drained: raws_view(self.drained@),
            promoted: items_view(self.promoted@),
            closing: self.closing@,
            sorted: entries_view(self.sorted@),
            queue: entries_view(self.queue@),
            inserting: opt_entry_view(self.inserting),
            lo: self.lo,
            hi: self.hi,
        }
    }
}

pub open spec fn outcome_view(s: State, action: Option<Action>) -> Option<(State, ActionView)> {
    match action {
        Some(a) => Some((s, a@)),
        None => None,
    }
}

pub open spec fn opt_raw_view(r: Option<Result<RawEntry, IoError>>) -> Option<
    Result<RawEntryView, IoError>,
> {
    match r {
        Some(raw) => Some(raw_view(raw)),
        None => None,
    }
}

fn expect_stat_event(ev: Event) -> (r: Result<Metadata, IoError>)
    ensures
        r == expect_stat(ev@),
{
    match ev {
        Event::Stat(r) => r,
        _ => Err(IoError::Protocol),
    }
}

fn expect_open_event(ev: Event) -> (r: Result<(), IoError>)
    ensures
        r == expect_open(ev@),
{
    match ev {
        Event::OpenDir(r) => r,
        _ => Err(IoError::Protocol),
    }
}

fn expect_read_event(ev: Event) -> (r: Option<Result<RawEntry, IoError>>)
    ensures
        opt_raw_view(r) == expect_read(ev@),
{
    match ev {
        Event::ReadDir(r) => r,
        _ => Some(Err(IoError::Protocol)),
    }
}

fn expect_same_event(ev: Event) -> (r: Result<bool, IoError>)
    ensures
        r == expect_same(ev@),
{
    match ev {
        Event::SameFile(r) => r,
        _ => Err(IoError::Protocol),
    }
}

fn expect_drain_event(ev: Event) -> (raws: VecDeque<Result<RawEntry, IoError>>)
    ensures
        raws_view(raws@) == expect_drain(ev@),
{
    match ev {
        Event::Drain(v) => {
            let mut v = v;
            let mut raws: VecDeque<Result<RawEntry, IoError>> = VecDeque::new();
            let ghost all = v@;
            while v.len() > 0
                invariant
                    v@.len() <= all.len(),
                    v@ =~= all.subrange(0, v@.len() as int),
                    raws@ =~= all.subrange(v@.len() as int, all.len() as int),
                decreases v.len(),
            {
                let raw = v.pop().unwrap();
                raws.push_front(raw);
            }
            assert(raws@ =~= all);
            raws
        },
        _ => {
            let raws: VecDeque<Result<RawEntry, IoError>> = VecDeque::new();
            assert(raws_view(raws@) =~= Seq::empty());
            raws
        },
    }
}

fn expect_order_event(ev: Event) -> (order: Order)
    ensures
        order == expect_order(ev@),
{
    match ev {
        Event::Order(order) => order,
        _ => Order::Equal,
    }
}

impl IntoIter {
    /// The depth that the traversal is at: the number of directories that it
    /// is in.
    pub fn depth(&self) -> (depth: usize)
        ensures
            depth == self@.depth(),
    {
        self.stack.len()
    }

    /// The settings of the traversal.
    pub fn options(&self) -> (opts: WalkDirOptions)
        ensures
            opts == self@.opts,
    {
        self.opts
    }

    fn emit(&mut self, dent: DirEntry) -> (action: Option<Action>)
        ensures
            outcome_view(final(self)@, action) == old(self)@.emit(dent@),
            action.is_none() ==> final(self)@ == old(self)@,
    {
        if self.opts.min_depth <= dent.depth() && dent.depth() <= self.opts.max_depth {
            self.phase = Phase::Idle;
            Some(Action::Yield(Ok(dent)))
        } else {
            None
        }
    }

    fn count_open(&self) -> (n: usize)
        ensures
            n == count_open(self@.stack),
    {
        let mut n: usize = 0;
        let mut i: usize = 0;
        let ghost stack = self@.stack;
        assert(stack.take(0) =~= Seq::empty());
        while i < self.stack.len()
            invariant
                i <= self.stack.len(),
                stack == self@.stack,
                stack.len() == self.stack.len(),
                n == count_open(stack.take(i as int)),
                n <= i,
            decreases self.stack.len() - i,
        {
            proof {
                assert(stack.take(i + 1).drop_last() =~= stack.take(i as int));
                assert(stack.take(i + 1).last() == stack[i as int]);
            }
            if self.stack[i].open {
                n += 1;
            }
            i += 1;
        }
        assert(stack.take(i as int) =~= stack);
        n
    }

    fn first_open(&self) -> (victim: usize)
        ensures
            victim == first_open(self@.stack, self.oldest_opened as int),
    {
        let mut i: usize = self.oldest_opened;
        let ghost stack = self@.stack;
        while i < self.stack.len() && !self.stack[i].open
            invariant
                stack == self@.stack,
                stack.len() == self.stack.len(),
                first_open(stack, i as int) == first_open(stack, self.oldest_opened as int),
            decreases self.stack.len() - i,
        {
            i += 1;
        }
        if i < self.stack.len() {
            i
        } else {
            self.stack.len()
        }
    }

    fn begin_push(&mut self, dent: DirEntry) -> (action: Action)
        ensures
            (final(self)@, action@) == old(self)@.begin_push(dent@),
    {
        let victim = self.first_open();
        if self.count_open() >= self.opts.max_open && victim < self.stack.len() {
            self.phase = Phase::Evict;
            self.pending = Some(dent);
            self.oldest_opened = victim;
            Action::Drain { handle: victim }
        } else {
            let path = to_vec(dent.path());
            let handle = self.stack.len();
            self.phase = Phase::Open;
            self.pending = Some(dent);
            Action::OpenDir { path, handle }
        }
    }

    fn handle_entry(&mut self, dent: DirEntry) -> (action: Option<Action>)
        ensures
            outcome_view(final(self)@, action) == old(self)@.handle_entry(dent@),
            action.is_none() ==> final(self)@ == old(self)@,
    {
        if dent.is_dir() && dent.depth() < self.opts.max_depth {
            if self.opts.same_file_system && dent.depth() > 0 {
                let path = to_vec(dent.path());
                self.phase = Phase::Device;
                self.pending = Some(dent);
                Some(Action::Stat { path, follow: true })
            } else {
                Some(self.begin_push(dent))
            }
        } else {
            self.emit(dent)
        }
    }

    fn on_entry(&mut self, dent: DirEntry) -> (action: Option<Action>)
        ensures
            outcome_view(final(self)@, action) == old(self)@.on_entry(dent@),
            action.is_none() ==> final(self)@ == old(self)@,
    {
        if self.opts.follow_links && dent.file_type().is_symlink() {
            let path = to_vec(dent.path());
            self.phase = Phase::Follow;
            self.pending = Some(dent);
            Some(Action::Stat { path, follow: true })
        } else {
            self.handle_entry(dent)
        }
    }

    fn pop(&mut self) -> (list: Option<DirList>)
        ensures
            old(self)@.stack.len() > 0 ==> final(self)@ == old(self)@.pop() && list.is_some()
                && list.unwrap()@ == old(self)@.stack.last(),
            old(self)@.stack.len() == 0 ==> final(self)@ == old(self)@ && list.is_none(),
    {
        if self.stack.len() == 0 {
            return None;
        }
        let list = self.stack.pop();
        assert(lists_view(self.stack@) =~= old(self)@.stack.drop_last());
        if self.opts.follow_links && self.stack_path.len() > 0 {
            self.stack_path.pop();
            assert(paths_view(self.stack_path@) =~= old(self)@.stack_path.drop_last());
        }
        if self.oldest_opened > self.stack.len() {
            self.oldest_opened = self.stack.len();
        }
        list
    }

    fn advance(&mut self) -> (action: Action)
        ensures
            (final(self)@, action@) == old(self)@.advance(),
    {
        loop
            invariant
                self@.advance() == old(self)@.advance(),
            decreases
                self@.stack.len(),
                if self@.stack.len() > 0 {
                    self@.stack.last().rest.len()
                } else {
                    0
                },
        {
            let n: usize = self.stack.len();
            if n == 0 {
                self.phase = Phase::Done;
                return Action::Done;
            }
            if self.stack[n - 1].open {
                self.phase = Phase::Read;
                return Action::ReadDir { handle: n - 1 };
            }
            let ghost before = self@;
            let mut top = self.stack.pop().unwrap();
            let ghost top_before = top@;
            assert(top_before == before.stack.last());
            let item = top.rest.pop_front();
            match item {
                None => {
                    self.stack.push(top);
                    assert(self@.stack =~= before.stack);
                    assert(self@ == before);
                    self.pop();
                    if self.opts.contents_first && self.deferred_dirs.len() > 0 {
                        let dir = self.deferred_dirs.pop().unwrap();
                        assert(entries_view(self.deferred_dirs@) =~= before.deferred.drop_last());
                        match self.emit(dir) {
                            Some(action) => {
                                return action;
                            },
                            None => {},
                        }
                    }
                },
                Some(item) => {
                    assert(top@.rest =~= top_before.rest.skip(1));
                    assert(top_before.rest[0] == item_view(item));
                    self.stack.push(top);
                    assert(self@.stack =~= before.consume().stack);
                    assert(self@ == before.consume());
                    match item {
                        Err(e) => {
                            self.phase = Phase::Idle;
                            return Action::Yield(Err(e));
                        },
                        Ok(dent) => {
                            match self.on_entry(dent) {
                                Some(action) => {
                                    return action;
                                },
                                None => {},
                            }
                        },
                    }
                },
            }
        }
    }

    fn finish(&mut self, r: Option<Action>) -> (action: Action)
        ensures
            r.is_some() ==> action == r.unwrap() && final(self)@ == old(self)@,
            r.is_none() ==> (final(self)@, action@) == old(self)@.advance(),
    {
        match r {
            Some(action) => action,
            None => self.advance(),
        }
    }
}

proof fn lemma_oks_errs_push(items: Seq<ItemView>, item: ItemView)
    ensures
        oks(items.push(item)) == match item {
            Ok(dent) => oks(items).push(dent),
            Err(_) => oks(items),
        },
        errs(items.push(item)) == match item {
            Ok(_) => errs(items),
            Err(e) => errs(items).push(Err(e)),
        },
{
    assert(items.push(item).drop_last() =~= items);
}

proof fn lemma_items_pop_front(queue: Seq<Result<DirEntry, Error>>, all: Seq<ItemView>, done: int)
    requires
        0 <= done <= all.len(),
        queue.len() > 0,
        items_view(queue) == all.skip(done),
    ensures
        done < all.len(),
        item_view(queue[0]) == all[done],
        items_view(queue.subrange(1, queue.len() as int)) == all.skip(done + 1),
{
    assert(items_view(queue).len() == queue.len());
    assert(items_view(queue)[0] == item_view(queue[0]));
    let tail = queue.subrange(1, queue.len() as int);
    assert forall|j: int| 0 <= j < tail.len() implies items_view(tail)[j] == all.skip(done + 1)[j] by {
        assert(items_view(tail)[j] == item_view(queue[j + 1]));
        assert(items_view(queue)[j + 1] == item_view(queue[j + 1]));
        assert(all.skip(done)[j + 1] == all[done + j + 1]);
    }
    assert(items_view(tail) =~= all.skip(done + 1));
}

proof fn lemma_items_push(items: Seq<Result<DirEntry, Error>>, item: Result<DirEntry, Error>)
    ensures
        items_view(items.push(item)) == items_view(items).push(item_view(item)),
{
    assert(items_view(items.push(item)) =~= items_view(items).push(item_view(item)));
}

impl IntoIter {
    fn fail(&mut self, err: Error) -> (action: Action)
        ensures
            (final(self)@, action@) == old(self)@.fail(err@),
    {
        self.phase = Phase::Idle;
        Action::Yield(Err(err))
    }

    fn done(&mut self) -> (action: Action)
        ensures
            final(self)@ == (State { phase: Phase::Done, ..old(self)@ }),
            action@ == ActionView::Done,
    {
        self.phase = Phase::Done;
        Action::Done
    }

    fn resume(&mut self) -> (action: Action)
        ensures
            (final(self)@, action@) == old(self)@.resume(),
    {
        if self.closing.len() > 0 {
            let handle = self.closing.pop().unwrap();
            assert(self.closing@ =~= old(self).closing@.drop_last());
            return Action::CloseDir { handle };
        }
        match self.start.take() {
            Some(root) => {
                let path = to_vec(root.as_slice());
                self.phase = Phase::RootStat;
                self.pending = Some(DirEntry::new(root, FileType(FileKind::Other), false, 0, 0));
                Action::Stat { path, follow: true }
            },
            None => self.advance(),
        }
    }

    fn on_root_stat(&mut self, r: Result<Metadata, IoError>) -> (action: Action)
        ensures
            (final(self)@, action@) == old(self)@.on_root_stat(r),
    {
        match self.pending.take() {
            None => self.done(),
            Some(root) => match r {
                Err(e) => self.fail(Error::from_path(0, root.into_path(), e)),
                Ok(md) => {
                    if self.opts.same_file_system && md.dev.is_none() {
                        self.fail(Error::from_path(0, root.into_path(), IoError::Unsupported))
                    } else {
                        self.root_device = md.dev;
                        let mut dent = root;
                        dent.set_stat(&md);
                        let r = self.handle_entry(dent);
                        self.finish(r)
                    }
                },
            },
        }
    }

    fn on_read(&mut self, r: Option<Result<RawEntry, IoError>>) -> (action: Action)
        ensures
            (final(self)@, action@) == old(self)@.on_read(opt_raw_view(r)),
    {
        let n: usize = self.stack.len();
        if n == 0 {
            return self.done();
        }
        match r {
            None => {
                let mut top = self.stack.pop().unwrap();
                top.open = false;
                top.rest = VecDeque::new();
                assert(top@.rest =~= Seq::empty());
                self.stack.push(top);
                self.phase = Phase::Idle;
                assert(self@.stack =~= old(self)@.stack.update(
                    n - 1,
                    ListView { open: false, rest: Seq::empty(), ..old(self)@.stack.last() },
                ));
                Action::CloseDir { handle: n - 1 }
            },
            Some(Err(e)) => self.fail(Error::from_io(n, e)),
            Some(Ok(raw)) => {
                if is_dots(raw.name.as_slice()) {
                    self.advance()
                } else {
                    match raw.file_type {
                        Some(ft) => {
                            let dent = DirEntry::from_raw(
                                self.stack[n - 1].path.as_slice(),
                                &raw,
                                ft,
                                n,
                            );
                            let r = self.on_entry(dent);
                            self.finish(r)
                        },
                        None => {
                            let dent = DirEntry::from_raw(
                                self.stack[n - 1].path.as_slice(),
                                &raw,
                                FileType(FileKind::Other),
                                n,
                            );
                            let path = to_vec(dent.path());
                            self.phase = Phase::Type;
                            self.typing = Some(dent);
                            Action::Stat { path, follow: false }
                        },
                    }
                }
            },
        }
    }

    fn on_type(&mut self, r: Result<Metadata, IoError>) -> (action: Action)
        ensures
            (final(self)@, action@) == old(self)@.on_type(r),
    {
        match self.typing.take() {
            None => self.done(),
            Some(dent) => match r {
                Err(e) => {
                    let depth = dent.depth();
                    self.fail(Error::from_path(depth, dent.into_path(), e))
                },
                Ok(md) => {
                    let mut dent = dent;
                    dent.set_file_type(md.file_type);
                    let r = self.on_entry(dent);
                    self.finish(r)
                },
            },
        }
    }

    fn check_loop(&mut self, dent: DirEntry, k: usize) -> (action: Action)
        ensures
            (final(self)@, action@) == old(self)@.check_loop(dent@, k as int),
    {
        if 0 < k && k <= self.stack_path.len() {
            let ancestor = to_vec(self.stack_path[k - 1].as_slice());
            let child = to_vec(dent.path());
            self.phase = Phase::Same;
            self.pending = Some(dent);
            self.check = k - 1;
            Action::SameFile { ancestor, child }
        } else {
            let r = self.handle_entry(dent);
            self.finish(r)
        }
    }

    fn on_follow(&mut self, r: Result<Metadata, IoError>) -> (action: Action)
        ensures
            (final(self)@, action@) == old(self)@.on_follow(r),
    {
        match self.pending.take() {
            None => self.done(),
            Some(dent) => match r {
                Err(e) => {
                    let depth = dent.depth();
                    self.fail(Error::from_path(depth, dent.into_path(), e))
                },
                Ok(md) => {
                    let mut target = dent;
                    target.set_followed(&md);
                    if target.is_dir() {
                        let k = self.stack_path.len();
                        self.check_loop(target, k)
                    } else {
                        let r = self.handle_entry(target);
                        self.finish(r)
                    }
                },
            },
        }
    }

    fn on_same(&mut self, r: Result<bool, IoError>) -> (action: Action)
        ensures
            (final(self)@, action@) == old(self)@.on_same(r),
    {
        match self.pending.take() {
            None => self.done(),
            Some(dent) => match r {
                Err(e) => self.fail(Error::from_io(dent.depth(), e)),
                Ok(same) => {
                    if same && self.check < self.stack_path.len() {
                        let err = Error::from_loop(
                            dent.depth(),
                            self.stack_path[self.check].as_slice(),
                            dent.path(),
                        );
                        self.fail(err)
                    } else {
                        let k = self.check;
                        self.check_loop(dent, k)
                    }
                },
            },
        }
    }

    fn on_device(&mut self, r: Result<Metadata, IoError>) -> (action: Action)
        ensures
            (final(self)@, action@) == old(self)@.on_device(r),
    {
        match self.pending.take() {
            None => self.done(),
            Some(dent) => match r {
                Err(e) => {
                    let depth = dent.depth();
                    self.fail(Error::from_path(depth, dent.into_path(), e))
                },
                Ok(md) => {
                    let same = match (md.dev, self.root_device) {
                        (Some(a), Some(b)) => a == b,
                        (None, None) => true,
                        _ => false,
                    };
                    if same {
                        self.begin_push(dent)
                    } else {
                        let r = self.emit(dent);
                        self.finish(r)
                    }
                },
            },
        }
    }

    fn sorting(&self) -> (b: bool)
        ensures
            b == self@.sorting(),
    {
        self.phase == Phase::SortDrain || self.phase == Phase::SortType
    }

    fn drain_dir(&self) -> (dir: Vec<u8>)
        ensures
            dir@ == self@.drain_dir(),
    {
        if self.sorting() {
            match &self.pending {
                Some(dent) => to_vec(dent.path()),
                None => Vec::new(),
            }
        } else if self.oldest_opened < self.stack.len() {
            to_vec(self.stack[self.oldest_opened].path.as_slice())
        } else {
            Vec::new()
        }
    }

    fn drain_depth(&self) -> (depth: usize)
        ensures
            depth == self@.drain_depth(),
    {
        if self.sorting() {
            match &self.pending {
                Some(dent) => child_depth_of(dent.depth()),
                None => 0,
            }
        } else {
            child_depth_of(self.oldest_opened)
        }
    }

    fn finish_promote(&mut self) -> (action: Action)
        ensures
            (final(self)@, action@) == old(self)@.finish_promote(),
    {
        if self.sorting() {
            let mut queue: VecDeque<DirEntry> = VecDeque::new();
            let mut errors: VecDeque<Result<DirEntry, Error>> = VecDeque::new();
            let ghost all = self@.promoted;
            let ghost mut done: int = 0;
            assert(all.take(0) =~= Seq::empty());
            while self.promoted.len() > 0
                invariant
                    0 <= done <= all.len(),
                    items_view(self.promoted@) =~= all.skip(done),
                    entries_view(queue@) =~= oks(all.take(done)),
                    items_view(errors@) =~= errs(all.take(done)),
                    self@ == (State { promoted: items_view(self.promoted@), ..old(self)@ }),
                decreases self.promoted.len(),
            {
                let ghost rest = self.promoted@;
                let item = self.promoted.pop_front().unwrap();
                proof {
                    lemma_items_pop_front(rest, all, done);
                    assert(all.take(done + 1) =~= all.take(done).push(all[done]));
                    lemma_oks_errs_push(all.take(done), all[done]);
                    done = done + 1;
                }
                match item {
                    Ok(dent) => {
                        queue.push_back(dent);
                        assert(entries_view(queue@) =~= oks(all.take(done)));
                    },
                    Err(e) => {
                        proof {
                            lemma_items_push(errors@, Err(e));
                        }
                        errors.push_back(Err(e));
                    },
                }
            }
            assert(items_view(self.promoted@).len() == 0);
            assert(all.skip(done).len() == all.len() - done);
            assert(all.take(done) =~= all);
            self.promoted = errors;
            self.queue = queue;
            self.sorted = Vec::new();
            assert(self@.sorted =~= Seq::empty());
            self.sort_next()
        } else {
            match &self.pending {
                None => self.done(),
                Some(dent) => {
                    let path = to_vec(dent.path());
                    let victim: usize = self.oldest_opened;
                    let mut rest: VecDeque<Result<DirEntry, Error>> = VecDeque::new();
                    std::mem::swap(&mut rest, &mut self.promoted);
                    assert(items_view(self.promoted@) =~= Seq::empty());
                    if victim < self.stack.len() {
                        let list_path = to_vec(self.stack[victim].path.as_slice());
                        self.stack.set(victim, DirList { path: list_path, open: false, rest });
                        assert(self@.stack =~= old(self)@.stack.update(
                            victim as int,
                            ListView {
                                open: false,
                                rest: old(self)@.promoted,
                                ..old(self)@.stack[victim as int]
                            },
                        ));
                    }
                    self.oldest_opened = child_depth_of(victim);
                    self.phase = Phase::Open;
                    Action::OpenDir { path, handle: self.stack.len() }
                },
            }
        }
    }

    fn promote(&mut self) -> (action: Action)
        ensures
            (final(self)@, action@) == old(self)@.promote(),
    {
        loop
            invariant
                self@.promote() == old(self)@.promote(),
            decreases self.drained.len(),
        {
            let ghost before = self@;
            let depth = self.drain_depth();
            match self.drained.pop_front() {
                None => {
                    return self.finish_promote();
                },
                Some(raw) => {
                    assert(raws_view(self.drained@) =~= before.drained.skip(1));
                    assert(raw_view(raw) == before.drained[0]);
                    match raw {
                        Err(e) => {
                            self.promoted.push_back(Err(Error::from_io(depth, e)));
                            assert(items_view(self.promoted@) =~= before.promoted.push(
                                Err(ErrorView::from_io(depth, e)),
                            ));
                        },
                        Ok(raw) => {
                            if !is_dots(raw.name.as_slice()) {
                                let dir = self.drain_dir();
                                match raw.file_type {
                                    Some(ft) => {
                                        let dent = DirEntry::from_raw(
                                            dir.as_slice(),
                                            &raw,
                                            ft,
                                            depth,
                                        );
                                        self.promoted.push_back(Ok(dent));
                                        assert(items_view(self.promoted@) =~= before.promoted.push(
                                            Ok(dent@),
                                        ));
                                    },
                                    None => {
                                        let dent = DirEntry::from_raw(
                                            dir.as_slice(),
                                            &raw,
                                            FileType(FileKind::Other),
                                            depth,
                                        );
                                        let path = to_vec(dent.path());
                                        self.phase = if self.sorting() {
                                            Phase::SortType
                                        } else {
                                            Phase::EvictType
                                        };
                                        self.typing = Some(dent);
                                        return Action::Stat { path, follow: false };
                                    },
                                }
                            }
                        },
                    }
                },
            }
        }
    }

    fn on_drain(&mut self, raws: VecDeque<Result<RawEntry, IoError>>) -> (action: Action)
        ensures
            (final(self)@, action@) == old(self)@.on_drain(raws_view(raws@)),
    {
        self.drained = raws;
        self.promoted = VecDeque::new();
        assert(items_view(self.promoted@) =~= Seq::empty());
        self.promote()
    }

    fn on_promote_type(&mut self, r: Result<Metadata, IoError>) -> (action: Action)
        ensures
            (final(self)@, action@) == old(self)@.on_promote_type(r),
    {
        match self.typing.take() {
            None => self.done(),
            Some(dent) => {
                let item = match r {
                    Ok(md) => {
                        let mut dent = dent;
                        dent.set_file_type(md.file_type);
                        Ok(dent)
                    },
                    Err(e) => {
                        let depth = dent.depth();
                        Err(Error::from_path(depth, dent.into_path(), e))
                    },
                };
                self.promoted.push_back(item);
                assert(items_view(self.promoted@) =~= old(self)@.promoted.push(item_view(item)));
                self.phase = if self.phase == Phase::SortType {
                    Phase::SortDrain
                } else {
                    Phase::Evict
                };
                self.promote()
            },
        }
    }

    fn push_listing(&mut self, dent: DirEntry, list: DirList) -> (action: Action)
        ensures
            (final(self)@, action@) == old(self)@.push_listing(dent@, list@),
    {
        self.phase = Phase::Idle;
        self.stack.push(list);
        assert(self@.stack =~= old(self)@.stack.push(list@));
        if self.opts.follow_links {
            self.stack_path.push(to_vec(dent.path()));
            assert(self@.stack_path =~= old(self)@.stack_path.push(dent@.path));
        }
        if self.opts.contents_first {
            self.deferred_dirs.push(dent);
            assert(self@.deferred =~= old(self)@.deferred.push(dent@));
            self.advance()
        } else {
            let r = self.emit(dent);
            self.finish(r)
        }
    }

    fn on_open(&mut self, r: Result<(), IoError>) -> (action: Action)
        ensures
            (final(self)@, action@) == old(self)@.on_open(r),
    {
        match self.pending.take() {
            None => self.done(),
            Some(dent) => match r {
                Err(e) => {
                    let mut rest: VecDeque<Result<DirEntry, Error>> = VecDeque::new();
                    rest.push_back(Err(Error::from_path(dent.depth(), to_vec(dent.path()), e)));
                    let list = DirList { path: to_vec(dent.path()), open: false, rest };
                    assert(list@.rest =~= seq![
                        Err(ErrorView::from_path(dent@.depth, dent@.path, e)),
                    ]);
                    self.push_listing(dent, list)
                },
                Ok(_) => {
                    if self.opts.sorted {
                        let handle = self.stack.len();
                        self.pending = Some(dent);
                        self.phase = Phase::SortDrain;
                        Action::Drain { handle }
                    } else {
                        let list = DirList {
                            path: to_vec(dent.path()),
                            open: true,
                            rest: VecDeque::new(),
                        };
                        assert(list@.rest =~= Seq::empty());
                        self.push_listing(dent, list)
                    }
                },
            },
        }
    }

    /// Takes the records in order and the errors behind them out of the
    /// state, as what a closed directory holds.
    fn sorted_rest(&mut self) -> (rest: VecDeque<Result<DirEntry, Error>>)
        ensures
            items_view(rest@) == as_items(old(self)@.sorted) + old(self)@.promoted,
            final(self)@ == (State {
                promoted: Seq::empty(),
                sorted: Seq::empty(),
                ..old(self)@
            }),
    {
        let mut rest: VecDeque<Result<DirEntry, Error>> = VecDeque::new();
        let ghost all = self@.sorted;
        let ghost errors = self@.promoted;
        assert(all.skip(all.len() as int) =~= Seq::empty());
        while self.sorted.len() > 0
            invariant
                entries_view(self.sorted@) =~= all.take(self.sorted@.len() as int),
                self.sorted@.len() <= all.len(),
                items_view(rest@) =~= as_items(all.skip(self.sorted@.len() as int)),
                self@ == (State { sorted: entries_view(self.sorted@), ..old(self)@ }),
            decreases self.sorted.len(),
        {
            let ghost before = self.sorted@;
            let ghost n = before.len() as int;
            let dent = self.sorted.pop().unwrap();
            proof {
                assert(entries_view(before)[n - 1] == dent@);
                assert(all.take(n)[n - 1] == all[n - 1]);
                assert(entries_view(self.sorted@) =~= all.take(n - 1));
                assert(as_items(all.skip(n - 1)) =~= seq![Ok::<DirEntryView, ErrorView>(dent@)]
                    + as_items(all.skip(n)));
            }
            rest.push_front(Ok(dent));
            assert(items_view(rest@) =~= as_items(all.skip(n - 1)));
        }
        assert(all.skip(0) =~= all);
        assert(entries_view(self.sorted@) =~= Seq::empty());
        let ghost mut moved: int = 0;
        while self.promoted.len() > 0
            invariant
                0 <= moved <= errors.len(),
                items_view(self.promoted@) =~= errors.skip(moved),
                items_view(rest@) =~= as_items(all) + errors.take(moved),
                self@ == (State {
                    sorted: Seq::empty(),
                    promoted: items_view(self.promoted@),
                    ..old(self)@
                }),
            decreases self.promoted.len(),
        {
            let ghost queue = self.promoted@;
            let item = self.promoted.pop_front().unwrap();
            proof {
                lemma_items_pop_front(queue, errors, moved);
                lemma_items_push(rest@, item);
                assert(errors.take(moved + 1) =~= errors.take(moved).push(errors[moved]));
                assert((as_items(all) + errors.take(moved)).push(errors[moved]) =~= as_items(all)
                    + errors.take(moved + 1));
            }
            rest.push_back(item);
            proof {
                moved = moved + 1;
            }
        }
        assert(items_view(self.promoted@).len() == 0);
        assert(errors.skip(moved).len() == errors.len() - moved);
        assert(errors.take(moved) =~= errors);
        assert(items_view(self.promoted@) =~= Seq::empty());
        rest
    }

    /// Looks for the place of the record that is finding it: asks how it
    /// stands to the record in the middle, or, once one place is left, puts
    /// it there.
    fn bisect(&mut self) -> (action: Option<Action>)
        ensures
            match action {
                Some(a) => (final(self)@, a@) == old(self)@.bisect(),
                None => old(self)@.bisect() == final(self)@.sort_next() && final(self)@.queue
                    == old(self)@.queue,
            },
    {
        match self.inserting.take() {
            None => Some(self.done()),
            Some(dent) => {
                if self.lo < self.hi && self.hi <= self.sorted.len() {
                    let mid: usize = self.lo + (self.hi - self.lo) / 2;
                    let a = dent.clone();
                    let b = self.sorted[mid].clone();
                    self.inserting = Some(dent);
                    self.phase = Phase::Compare;
                    Some(Action::Compare { a, b })
                } else {
                    let at: usize = if self.lo <= self.sorted.len() {
                        self.lo
                    } else {
                        self.sorted.len()
                    };
                    let ghost before = self.sorted@;
                    self.sorted.insert(at, dent);
                    assert(entries_view(self.sorted@) =~= entries_view(before).insert(
                        at as int,
                        dent@,
                    ));
                    None
                }
            },
        }
    }

    fn sort_next(&mut self) -> (action: Action)
        ensures
            (final(self)@, action@) == old(self)@.sort_next(),
    {
        loop
            invariant
                self@.sort_next() == old(self)@.sort_next(),
            decreases self.queue.len(),
        {
            let ghost before = self@;
            let ghost queue = self.queue@;
            match self.queue.pop_front() {
                None => {
                    return match self.pending.take() {
                        None => self.done(),
                        Some(dent) => {
                            let rest = self.sorted_rest();
                            let list = DirList { path: to_vec(dent.path()), open: false, rest };
                            self.push_listing(dent, list)
                        },
                    };
                },
                Some(dent) => {
                    proof {
                        assert(entries_view(queue)[0] == dent@);
                        assert(entries_view(self.queue@) =~= before.queue.skip(1));
                    }
                    self.inserting = Some(dent);
                    self.lo = 0;
                    self.hi = self.sorted.len();
                    match self.bisect() {
                        Some(action) => {
                            return action;
                        },
                        None => {},
                    }
                },
            }
        }
    }

    fn on_compare(&mut self, order: Order) -> (action: Action)
        ensures
            (final(self)@, action@) == old(self)@.on_compare(order),
    {
        if self.lo < self.hi {
            let mid: usize = self.lo + (self.hi - self.lo) / 2;
            if order == Order::Less {
                self.hi = mid;
            } else {
                self.lo = mid + 1;
            }
        }
        match self.bisect() {
            Some(action) => action,
            None => self.sort_next(),
        }
    }

    /// Takes one step: `event` is the outcome of the action that the step
    /// before asked for, and is ignored where that was to hand on a record
    /// or to close a directory. The action returned is to be carried out
    /// before the next step.
    pub fn step(&mut self, event: Event) -> (action: Action)
        ensures
            (final(self)@, action@) == old(self)@.step(event@),
            old(self)@.wf() && (old(self)@.pushing() ==> old(self)@.stack.len() < usize::MAX)
                ==> final(self)@.wf() && final(self)@.handles_in_use() <= old(
                self,
            )@.opts.max_open,
    {
        proof {
            if self@.wf() && (self@.pushing() ==> self@.stack.len() < usize::MAX) {
                lemma_step_wf(self@, event@);
            }
        }
        match self.phase {
            Phase::Idle => self.resume(),
            Phase::RootStat => {
                let r = expect_stat_event(event);
                self.on_root_stat(r)
            },
            Phase::Read => {
                let r = expect_read_event(event);
                self.on_read(r)
            },
            Phase::Type => {
                let r = expect_stat_event(event);
                self.on_type(r)
            },
            Phase::Follow => {
                let r = expect_stat_event(event);
                self.on_follow(r)
            },
            Phase::Same => {
                let r = expect_same_event(event);
                self.on_same(r)
            },
            Phase::Device => {
                let r = expect_stat_event(event);
                self.on_device(r)
            },
            Phase::Evict | Phase::SortDrain => {
                let raws = expect_drain_event(event);
                self.on_drain(raws)
            },
            Phase::EvictType | Phase::SortType => {
                let r = expect_stat_event(event);
                self.on_promote_type(r)
            },
            Phase::Open => {
                let r = expect_open_event(event);
                self.on_open(r)
            },
            Phase::Compare => {
                let order = expect_order_event(event);
                self.on_compare(order)
            },
            Phase::Done => Action::Done,
        }
    }

    /// Gives up the directory that the traversal is in: what is left in it
    /// is not shown, nor is the directory itself if its record was kept back
    /// until after what it holds. What follows the directory in the ones
    /// above it is untouched. This has an effect only between two steps,
    /// after a record was handed out.
    pub fn skip_current_dir(&mut self)
        ensures
            final(self)@ == old(self)@.skip_current_dir(),
            old(self)@.wf() ==> final(self)@.wf(),
            old(self)@.wf() ==> final(self)@.handles_in_use() <= old(self)@.opts.max_open,
    {
        proof {
            if self@.wf() {
                lemma_skip_wf(self@);
            }
        }
        let n: usize = self.stack.len();
        if self.phase == Phase::Idle && n > 0 {
            let was_open = self.stack[n - 1].open;
            self.pop();
            if self.opts.contents_first && self.deferred_dirs.len() > 0 {
                self.deferred_dirs.pop();
                assert(self@.deferred =~= old(self)@.deferred.drop_last());
            }
            if was_open {
                self.closing.push(n - 1);
            }
        }
    }
}

fn child_depth_of(d: usize) -> (c: usize)
    ensures
        c == child_depth(d),
{
    if d == usize::MAX {
        d
    } else {
        d + 1
    }
}

/// A traversal that shows only the records that a predicate keeps, and does
/// not enter the directories that it does not keep. The predicate is with
/// whoever drives the traversal: each record that would be handed out is
/// held back, the action `Test` asks for the verdict on it, and the event
/// `Verdict` brings it.
#[derive(Debug)]
pub struct FilterEntry {
    it: IntoIter,
    candidate: Option<DirEntry>,
}

pub struct FilterState {
    pub it: State,
    pub candidate: Option<DirEntryView>,
}

impl View for FilterEntry {
    type V = FilterState;

    closed spec fn view(&self) -> FilterState {
        FilterState { it: self.it@, candidate: opt_entry_view(self.candidate) }
    }
}

/// Whether the event says that the predicate keeps the record.
pub open spec fn keeps(ev: EventView) -> bool {
    match ev {
        EventView::Verdict(keep) => keep,
        _ => false,
    }
}

impl FilterState {
    /// What becomes of an action of the traversal: a record is held back for
    /// the predicate; anything else is passed on.
    pub open spec fn hold(it: State, action: ActionView) -> (FilterState, ActionView) {
        match action {
            ActionView::Yield(Ok(dent)) => (
                FilterState { it, candidate: Some(dent) },
                ActionView::Test,
            ),
            _ => (FilterState { it, candidate: None }, action),
        }
    }

    /// Whether the directory of the record is the one on top of the stack:
    /// it was entered, and what it holds is still to come.
    pub open spec fn entered(self, dent: DirEntryView) -> bool {
        dent.file_type.is_dir() && self.it.stack.len() == dent.depth + 1
    }

    /// One step of the filtered traversal. While a record is held back, the
    /// event is the verdict on it: a record that is kept is handed out; one
    /// that is not is dropped, and if it is a directory that was entered,
    /// that directory is given up; then the traversal goes on. While no
    /// record is held back, the traversal takes its own step.
    pub open spec fn step(self, ev: EventView) -> (FilterState, ActionView) {
        match self.candidate {
            Some(dent) => {
                if keeps(ev) {
                    (FilterState { candidate: None, ..self }, ActionView::Yield(Ok(dent)))
                } else {
                    let it = if self.entered(dent) {
                        self.it.skip_current_dir()
                    } else {
                        self.it
                    };
                    let (it2, action) = it.step(EventView::Resume);
                    FilterState::hold(it2, action)
                }
            },
            None => {
                let (it2, action) = self.it.step(ev);
                FilterState::hold(it2, action)
            },
        }
    }
}

impl IntoIter {
    /// Makes a traversal that asks a predicate about each record before it
    /// hands it out. The predicate is not asked about records whose depth is
    /// not shown.
    pub fn filter_entry(self) -> (filter: FilterEntry)
        ensures
            filter@ == (FilterState { it: self@, candidate: None }),
    {
        FilterEntry { it: self, candidate: None }
    }
}

impl FilterEntry {
    /// The record that is held back for the predicate, if there is one.
    pub fn candidate(&self) -> (dent: Option<&DirEntry>)
        ensures
            match dent {
                Some(d) => self@.candidate == Some(d@),
                None => self@.candidate.is_none(),
            },
    {
        self.candidate.as_ref()
    }

    /// The depth that the traversal is at.
    pub fn depth(&self) -> (depth: usize)
        ensures
            depth == self@.it.depth(),
    {
        self.it.depth()
    }

    fn hold(&mut self, action: Action) -> (held: Action)
        requires
            old(self)@.candidate.is_none(),
        ensures
            (final(self)@, held@) == FilterState::hold(old(self)@.it, action@),
    {
        match action {
            Action::Yield(Ok(dent)) => {
                self.candidate = Some(dent);
                Action::Test
            },
            other => other,
        }
    }

    /// Takes one step: `event` is the outcome of the action that the step
    /// before asked for. After the action `Test` it is the verdict of the
    /// predicate on the record that `candidate` returns.
    pub fn step(&mut self, event: Event) -> (action: Action)
        ensures
            (final(self)@, action@) == old(self)@.step(event@),
    {
        match self.candidate.take() {
            Some(dent) => {
                let keep = match event {
                    Event::Verdict(keep) => keep,
                    _ => false,
                };
                if keep {
                    return Action::Yield(Ok(dent));
                }
                let depth = self.it.depth();
                if dent.is_dir() && dent.depth() < usize::MAX && depth == dent.depth() + 1 {
                    self.it.skip_current_dir();
                }
                let action = self.it.step(Event::Resume);
                self.hold(action)
            },
            None => {
                let action = self.it.step(event);
                self.hold(action)
            },
        }
    }

    /// Gives up the directory that the traversal is in, as
    /// `IntoIter::skip_current_dir` does.
    pub fn skip_current_dir(&mut self)
        ensures
            final(self)@ == (FilterState { it: old(self)@.it.skip_current_dir(), ..old(self)@ }),
    {
        self.it.skip_current_dir();
    }
}

} // verus!
