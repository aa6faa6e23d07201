//! A file system as a traversal sees it, what the walk of it yields, and how
//! a traversal is run in it.

use vstd::prelude::*;
use crate::dent::{DirEntryView, Metadata, RawEntryView, spec_child_path, spec_from_raw};
use crate::dir::spec_is_dots;
use crate::error::{ErrorView, IoError};
use crate::walk::{
    ActionView, EventView, ItemView, ListView, Order, Phase, State, WalkDirOptions, as_items,
    child_depth, errs, expect_read, expect_stat, oks, root_entry,
};

verus! {


pub type Raw = Result<RawEntryView, IoError>;

/// A file system as a traversal sees it: what a stat of a path reports,
/// with and without following a link at its end; what a directory lists, or
/// why it cannot be opened; whether two paths lead to the same file; how
/// one record stands to another in the order into which records are put;
/// and for each path a height, by which a file system is seen to be a
/// finite tree.
pub struct FileSystem {
    pub stat: spec_fn(Seq<u8>, bool) -> Result<Metadata, IoError>,
    pub list: spec_fn(Seq<u8>) -> Result<Seq<Raw>, IoError>,
    pub same: spec_fn(Seq<u8>, Seq<u8>) -> Result<bool, IoError>,
    pub compare: spec_fn(DirEntryView, DirEntryView) -> Order,
    pub height: spec_fn(Seq<u8>) -> nat,
}

/// A file system together with what is left to read in each directory that
/// was opened, the directories that are open, and the outcome of the last
/// action carried out on it.
pub struct World {
    pub fs: FileSystem,
    pub handles: Map<usize, Seq<Raw>>,
    pub open: Set<usize>,
    pub event: EventView,
}

/// What is left to read in the directory opened under `handle`.
pub open spec fn unread(handles: Map<usize, Seq<Raw>>, handle: usize) -> Seq<Raw> {
    if handles.contains_key(handle) {
        handles[handle]
    } else {
        Seq::empty()
    }
}

impl World {
    /// The world before anything was asked of it.
    pub open spec fn initial(fs: FileSystem) -> World {
        World { fs, handles: Map::empty(), open: Set::empty(), event: EventView::Resume }
    }

    /// Carries out an action: the world after it, with the outcome.
    pub open spec fn respond(self, action: ActionView) -> World {
        match action {
            ActionView::Stat { path, follow } => World {
                event: EventView::Stat((self.fs.stat)(path, follow)),
                ..self
            },
            ActionView::OpenDir { path, handle } => match (self.fs.list)(path) {
                Ok(raws) => World {
                    handles: self.handles.insert(handle, raws),
                    open: self.open.insert(handle),
                    event: EventView::OpenDir(Ok(())),
                    ..self
                },
                Err(e) => World { event: EventView::OpenDir(Err(e)), ..self },
            },
            ActionView::ReadDir { handle } => {
                let raws = unread(self.handles, handle);
                if raws.len() == 0 {
                    World { event: EventView::ReadDir(None), ..self }
                } else {
                    World {
                        handles: self.handles.insert(handle, raws.skip(1)),
                        event: EventView::ReadDir(Some(raws[0])),
                        ..self
                    }
                }
            },
            ActionView::Drain { handle } => World {
                open: self.open.remove(handle),
                event: EventView::Drain(unread(self.handles, handle)),
                ..self
            },
            ActionView::CloseDir { handle } => World {
                open: self.open.remove(handle),
                event: EventView::Resume,
                ..self
            },
            ActionView::SameFile { ancestor, child } => World {
                event: EventView::SameFile((self.fs.same)(ancestor, child)),
                ..self
            },
            ActionView::Compare { a, b } => World {
                event: EventView::Order((self.fs.compare)(a, b)),
                ..self
            },
            ActionView::Yield(_) | ActionView::Test | ActionView::Done => World {
                event: EventView::Resume,
                ..self
            },
        }
    }
}

/// What a traversal is run with: the file system, the settings, and the
/// device of the root.
pub struct Walk {
    pub fs: FileSystem,
    pub opts: WalkDirOptions,
    pub dev: Option<u64>,
}

/// The record alone, if its depth is one that is shown.
pub open spec fn shown(opts: WalkDirOptions, dent: DirEntryView) -> Seq<ItemView> {
    if opts.in_window(dent.depth) {
        seq![Ok(dent)]
    } else {
        Seq::empty()
    }
}

/// The record of a directory and what came of what it holds, in the order
/// that the settings ask for.
pub open spec fn place(opts: WalkDirOptions, dent: DirEntryView, inner: Seq<ItemView>) -> Seq<
    ItemView,
> {
    if opts.contents_first {
        inner + shown(opts, dent)
    } else {
        shown(opts, dent) + inner
    }
}

/// What becomes of one entry of a listing: nothing for `.` and `..`; a
/// record, whose type is asked of the file system where the listing does not
/// tell it; or an error.
pub open spec fn item_of_raw(fs: FileSystem, dir: Seq<u8>, depth: usize, raw: Raw) -> Option<
    ItemView,
> {
    match raw {
        Err(e) => Some(Err(ErrorView::from_io(depth, e))),
        Ok(r) => {
            if spec_is_dots(r.name) {
                None
            } else {
                match r.file_type {
                    Some(ft) => Some(Ok(spec_from_raw(dir, r, ft, depth))),
                    None => {
                        let path = spec_child_path(dir, r.name);
                        match (fs.stat)(path, false) {
                            Ok(md) => Some(Ok(spec_from_raw(dir, r, md.file_type, depth))),
                            Err(e) => Some(Err(ErrorView::from_path(depth, path, e))),
                        }
                    },
                }
            }
        },
    }
}

pub open spec fn opt_seq(item: Option<ItemView>) -> Seq<ItemView> {
    match item {
        Some(i) => seq![i],
        None => Seq::empty(),
    }
}

/// What becomes of the entries of a listing, in their order.
pub open spec fn promote_all(fs: FileSystem, dir: Seq<u8>, depth: usize, raws: Seq<Raw>) -> Seq<
    ItemView,
>
    decreases raws.len(),
{
    if raws.len() == 0 {
        Seq::empty()
    } else {
        opt_seq(item_of_raw(fs, dir, depth, raws[0])) + promote_all(fs, dir, depth, raws.skip(1))
    }
}

/// How many of the entries are such that their type has to be asked: those
/// that are no error, are neither `.` nor `..`, and do not tell their type.
pub open spec fn untyped(raws: Seq<Raw>) -> nat
    decreases raws.len(),
{
    if raws.len() == 0 {
        0
    } else {
        (match raws[0] {
            Ok(r) => if !spec_is_dots(r.name) && r.file_type.is_none() {
                1nat
            } else {
                0nat
            },
            Err(_) => 0nat,
        }) + untyped(raws.skip(1))
    }
}

/// The place that a record takes among records in order, between the
/// places `lo` and `hi`: the place is found by halving; the record goes
/// before the one in the middle if it comes before it in the order, and
/// after it if not.
pub open spec fn bisect_at(
    compare: spec_fn(DirEntryView, DirEntryView) -> Order,
    sorted: Seq<DirEntryView>,
    dent: DirEntryView,
    lo: int,
    hi: int,
) -> int
    decreases hi - lo,
{
    if 0 <= lo < hi <= sorted.len() {
        let mid = lo + (hi - lo) / 2;
        if compare(dent, sorted[mid]) == Order::Less {
            bisect_at(compare, sorted, dent, lo, mid)
        } else {
            bisect_at(compare, sorted, dent, mid + 1, hi)
        }
    } else if 0 <= lo <= sorted.len() {
        lo
    } else {
        sorted.len() as int
    }
}

/// The place behind the last of the records: their number, as far as a
/// machine counts.
pub open spec fn full(sorted: Seq<DirEntryView>) -> int {
    (sorted.len() as usize) as int
}

/// The records `sorted`, with each record of `queue` put in its place among
/// them, one after the other.
pub open spec fn sort_into(
    compare: spec_fn(DirEntryView, DirEntryView) -> Order,
    sorted: Seq<DirEntryView>,
    queue: Seq<DirEntryView>,
) -> Seq<DirEntryView>
    decreases queue.len(),
{
    if queue.len() == 0 {
        sorted
    } else {
        sort_into(
            compare,
            sorted.insert(bisect_at(compare, sorted, queue[0], 0, full(sorted)), queue[0]),
            queue.skip(1),
        )
    }
}

/// The records in order.
pub open spec fn sort_of(
    compare: spec_fn(DirEntryView, DirEntryView) -> Order,
    entries: Seq<DirEntryView>,
) -> Seq<DirEntryView> {
    sort_into(compare, Seq::empty(), entries)
}

/// The items of a directory in the order in which they are dealt with: as
/// listed, or, if the settings ask for it, the records in the order of the
/// comparison, and the errors behind them.
pub open spec fn arrange(fs: FileSystem, opts: WalkDirOptions, items: Seq<ItemView>) -> Seq<
    ItemView,
> {
    if opts.sorted {
        as_items(sort_of(fs.compare, oks(items))) + errs(items)
    } else {
        items
    }
}

/// The directories that hold what a directory at `dent` holds.
pub open spec fn child_anc(opts: WalkDirOptions, anc: Seq<Seq<u8>>, dent: DirEntryView) -> Seq<
    Seq<u8>,
> {
    if opts.follow_links {
        anc.push(dent.path)
    } else {
        anc
    }
}

/// The error, if any, that comes of holding the target of a link against
/// the directories that hold it, from the one at place `k - 1` down.
pub open spec fn loop_check(
    fs: FileSystem,
    anc: Seq<Seq<u8>>,
    dent: DirEntryView,
    k: int,
) -> Option<ErrorView>
    decreases k,
{
    if 0 < k <= anc.len() {
        match (fs.same)(anc[k - 1], dent.path) {
            Err(e) => Some(ErrorView::from_io(dent.depth, e)),
            Ok(same) => if same {
                Some(ErrorView::from_loop(dent.depth, anc[k - 1], dent.path))
            } else {
                loop_check(fs, anc, dent, k - 1)
            },
        }
    } else {
        None
    }
}

/// What a traversal yields for a record as a listing gave it, and for all
/// below it.
pub open spec fn walk_entry(c: Walk, anc: Seq<Seq<u8>>, dent: DirEntryView) -> Seq<ItemView>
    decreases (c.fs.height)(dent.path), 3int, 0int,
{
    if c.opts.follow_links && dent.file_type.is_symlink() {
        match (c.fs.stat)(dent.path, true) {
            Err(e) => seq![Err(ErrorView::from_path(dent.depth, dent.path, e))],
            Ok(md) => {
                let target = dent.followed(md);
                if target.file_type.is_dir() {
                    match loop_check(c.fs, anc, target, anc.len() as int) {
                        Some(err) => seq![Err(err)],
                        None => walk_final(c, anc, target),
                    }
                } else {
                    walk_final(c, anc, target)
                }
            },
        }
    } else {
        walk_final(c, anc, dent)
    }
}

/// What a traversal yields for a record whose type is final, and for all
/// below it.
pub open spec fn walk_final(c: Walk, anc: Seq<Seq<u8>>, dent: DirEntryView) -> Seq<ItemView>
    decreases (c.fs.height)(dent.path), 2int, 0int,
{
    if dent.file_type.is_dir() && dent.depth < c.opts.max_depth {
        if c.opts.same_file_system && dent.depth > 0 {
            match (c.fs.stat)(dent.path, true) {
                Err(e) => seq![Err(ErrorView::from_path(dent.depth, dent.path, e))],
                Ok(md) => if md.dev == c.dev {
                    enter(c, anc, dent)
                } else {
                    shown(c.opts, dent)
                },
            }
        } else {
            enter(c, anc, dent)
        }
    } else {
        shown(c.opts, dent)
    }
}

/// What comes of what a directory holds.
pub open spec fn inside(c: Walk, anc: Seq<Seq<u8>>, dent: DirEntryView) -> Seq<ItemView>
    decreases (c.fs.height)(dent.path), 1int, 0int,
{
    match (c.fs.list)(dent.path) {
        Err(e) => seq![Err(ErrorView::from_path(dent.depth, dent.path, e))],
        Ok(raws) => walk_items(
            c,
            child_anc(c.opts, anc, dent),
            dent.path,
            arrange(c.fs, c.opts, promote_all(c.fs, dent.path, child_depth(dent.depth), raws)),
        ),
    }
}

/// What a traversal yields for a directory that it enters.
pub open spec fn enter(c: Walk, anc: Seq<Seq<u8>>, dent: DirEntryView) -> Seq<ItemView>
    decreases (c.fs.height)(dent.path), 1int, 1int,
{
    place(c.opts, dent, inside(c, anc, dent))
}

/// What a traversal yields for the items of the directory `dir`, and for all
/// below them.
pub open spec fn walk_items(c: Walk, anc: Seq<Seq<u8>>, dir: Seq<u8>, items: Seq<ItemView>) -> Seq<
    ItemView,
>
    decreases (c.fs.height)(dir), 0int, items.len(),
{
    if items.len() == 0 {
        Seq::empty()
    } else {
        walk_item(c, anc, dir, items[0]) + walk_items(c, anc, dir, items.skip(1))
    }
}

/// What a traversal yields for one item of the directory `dir`, and for all
/// below it.
pub open spec fn walk_item(c: Walk, anc: Seq<Seq<u8>>, dir: Seq<u8>, item: ItemView) -> Seq<
    ItemView,
>
    decreases (c.fs.height)(dir), 0int, 0int,
{
    match item {
        Err(e) => seq![Err(e)],
        Ok(dent) => if (c.fs.height)(dent.path) < (c.fs.height)(dir) {
            walk_entry(c, anc, dent)
        } else {
            Seq::empty()
        },
    }
}

/// What a traversal of the file system yields from the stat of its root on.
pub open spec fn walk_root_stat(
    fs: FileSystem,
    opts: WalkDirOptions,
    root: Seq<u8>,
    r: Result<Metadata, IoError>,
) -> Seq<ItemView> {
    match r {
        Err(e) => seq![Err(ErrorView::from_path(0, root, e))],
        Ok(md) => {
            if opts.same_file_system && md.dev.is_none() {
                seq![Err(ErrorView::from_path(0, root, IoError::Unsupported))]
            } else {
                walk_final(
                    Walk { fs, opts, dev: md.dev },
                    Seq::empty(),
                    root_entry(root).with_stat(md),
                )
            }
        },
    }
}

/// The settings without the one that what is yielded never depends on: how
/// many directories may be open.
pub open spec fn uncapped(opts: WalkDirOptions) -> WalkDirOptions {
    WalkDirOptions { max_open: 1, ..opts }
}

/// What a traversal of the file system yields, from first to last, when it
/// starts at the path `root`.
pub open spec fn walk(fs: FileSystem, opts: WalkDirOptions, root: Seq<u8>) -> Seq<ItemView> {
    walk_root_stat(fs, uncapped(opts), root, (fs.stat)(root, true))
}

/// Every record among the items is of a file that lies lower than `dir`.
pub open spec fn valid_items(fs: FileSystem, dir: Seq<u8>, depth: usize, items: Seq<ItemView>) -> bool {
    forall|j: int|
        0 <= j < items.len() ==> match #[trigger] items[j] {
            Ok(dent) => (fs.height)(dent.path) < (fs.height)(dir) && dent.depth == depth,
            Err(_) => true,
        }
}

impl FileSystem {
    /// The file system is a finite tree: whatever a directory lists lies
    /// lower than the directory.
    pub open spec fn wf(self) -> bool {
        forall|dir: Seq<u8>, j: int|
            (self.list)(dir) is Ok && 0 <= j < (self.list)(dir)->Ok_0.len() ==> match (
            #[trigger] (self.list)(dir)->Ok_0[j]) {
                Ok(r) => (self.height)(spec_child_path(dir, r.name)) < (self.height)(dir),
                Err(_) => true,
            }
    }
}

/// Every entry that is no error lies lower than `dir`.
pub open spec fn valid_raws(fs: FileSystem, dir: Seq<u8>, raws: Seq<Raw>) -> bool {
    forall|j: int|
        0 <= j < raws.len() ==> match #[trigger] raws[j] {
            Ok(r) => (fs.height)(spec_child_path(dir, r.name)) < (fs.height)(dir),
            Err(_) => true,
        }
}

/// The items of the directory at place `i` of the stack that are not dealt
/// with yet: the records that a closed directory holds, or what becomes of
/// the entries that are left to read in an open one.
pub open spec fn frame_items(fs: FileSystem, list: ListView, i: int, handles: Map<usize, Seq<Raw>>) -> Seq<
    ItemView,
> {
    if list.open {
        promote_all(fs, list.path, (i + 1) as usize, unread(handles, i as usize))
    } else {
        list.rest
    }
}

/// The directories that hold what the directory at place `i` of the stack
/// holds.
pub open spec fn frame_anc(opts: WalkDirOptions, stack_path: Seq<Seq<u8>>, i: int) -> Seq<Seq<u8>> {
    if opts.follow_links {
        stack_path.take(i + 1)
    } else {
        Seq::empty()
    }
}

/// What a traversal yields for what is left of the first `k` directories on
/// its stack, the last of them first: for each, what is left in it, and
/// then its own record if that was kept back.
pub open spec fn stack_future(
    c: Walk,
    stack: Seq<ListView>,
    handles: Map<usize, Seq<Raw>>,
    stack_path: Seq<Seq<u8>>,
    deferred: Seq<DirEntryView>,
    k: int,
) -> Seq<ItemView>
    decreases k,
{
    if k <= 0 || k > stack.len() {
        Seq::empty()
    } else {
        let i = k - 1;
        walk_items(
            c,
            frame_anc(c.opts, stack_path, i),
            stack[i].path,
            frame_items(c.fs, stack[i], i, handles),
        ) + (if c.opts.contents_first && i < deferred.len() {
            shown(c.opts, deferred[i])
        } else {
            Seq::empty()
        }) + stack_future(c, stack, handles, stack_path, deferred, k - 1)
    }
}

/// What the traversal in state `s` is run with in the world `w`.
pub open spec fn context(s: State, w: World) -> Walk {
    Walk { fs: w.fs, opts: uncapped(s.opts), dev: s.root_device }
}

/// What a traversal in state `s` yields for what is left of the directories
/// on its stack.
pub open spec fn below(s: State, w: World) -> Seq<ItemView> {
    stack_future(context(s, w), s.stack, w.handles, s.stack_path, s.deferred, s.stack.len() as int)
}

/// The directories that hold what the directory on top of the stack holds:
/// all those on the stack, where links are followed.
pub open spec fn anc_of(s: State) -> Seq<Seq<u8>> {
    if s.opts.follow_links {
        s.stack_path
    } else {
        Seq::empty()
    }
}

/// What becomes of a record whose type the listing did not tell, once the
/// file system is asked.
pub open spec fn typed_item(fs: FileSystem, t: DirEntryView) -> ItemView {
    match (fs.stat)(t.path, false) {
        Ok(md) => Ok(t.with_type(md.file_type)),
        Err(e) => Err(ErrorView::from_path(t.depth, t.path, e)),
    }
}

/// What a traversal yields for an item that it has taken from a directory.
pub open spec fn walk_taken(c: Walk, anc: Seq<Seq<u8>>, item: ItemView) -> Seq<ItemView> {
    match item {
        Ok(dent) => walk_entry(c, anc, dent),
        Err(e) => seq![Err(e)],
    }
}

/// What a traversal yields for the target of a link, a directory, that is
/// still to be held against the directories below place `k`.
pub open spec fn walk_checked(c: Walk, anc: Seq<Seq<u8>>, target: DirEntryView, k: int) -> Seq<
    ItemView,
> {
    match loop_check(c.fs, anc, target, k) {
        Some(err) => seq![Err(err)],
        None => walk_final(c, anc, target),
    }
}

/// What a traversal in state `s` yields for the record that it is dealing
/// with.
pub open spec fn in_flight(s: State, w: World) -> Seq<ItemView> {
    let c = context(s, w);
    let n = s.stack.len() as int;
    let anc = anc_of(s);
    match s.phase {
        Phase::Read => if n > 0 {
            match expect_read(w.event) {
                None => Seq::empty(),
                Some(raw) => walk_items(
                    c,
                    anc,
                    s.stack[n - 1].path,
                    opt_seq(item_of_raw(w.fs, s.stack[n - 1].path, n as usize, raw)),
                ),
            }
        } else {
            Seq::empty()
        },
        Phase::Type => match s.typing {
            Some(t) => walk_taken(c, anc, typed_item(w.fs, t)),
            None => Seq::empty(),
        },
        Phase::Follow => match s.pending {
            Some(dent) => walk_entry(c, anc, dent),
            None => Seq::empty(),
        },
        Phase::Same => match s.pending {
            Some(target) => walk_checked(c, anc, target, s.check + 1),
            None => Seq::empty(),
        },
        Phase::Device => match s.pending {
            Some(dent) => walk_final(c, anc, dent),
            None => Seq::empty(),
        },
        Phase::Evict | Phase::EvictType | Phase::Open | Phase::SortDrain | Phase::SortType
        | Phase::Compare => match s.pending {
            Some(dent) => enter(c, anc, dent),
            None => Seq::empty(),
        },
        Phase::Idle | Phase::RootStat | Phase::Done => Seq::empty(),
    }
}

/// What a traversal in state `s` yields from now on, in the world `w`.
pub open spec fn future(s: State, w: World) -> Seq<ItemView> {
    match s.phase {
        Phase::Idle => match s.start {
            Some(root) => walk(w.fs, s.opts, root),
            None => below(s, w),
        },
        Phase::RootStat => match s.pending {
            Some(root) => walk_root_stat(w.fs, uncapped(s.opts), root.path, expect_stat(w.event)),
            None => Seq::empty(),
        },
        Phase::Done => Seq::empty(),
        _ => in_flight(s, w) + below(s, w),
    }
}

/// What an action hands to the consumer.
pub open spec fn yielded(action: ActionView) -> Seq<ItemView> {
    match action {
        ActionView::Yield(item) => seq![item],
        _ => Seq::empty(),
    }
}

/// The directory at place `i` of the stack agrees with the world: what is
/// left in it are records of files that lie lower than it, at the depth of
/// what it holds.
pub open spec fn frame_ok(fs: FileSystem, list: ListView, i: int, handles: Map<usize, Seq<Raw>>) -> bool {
    valid_items(fs, list.path, (i + 1) as usize, frame_items(fs, list, i, handles))
}

/// The record that is about to be entered is that of a directory at the
/// depth of the stack, above the greatest depth.
pub open spec fn pending_ok(s: State) -> bool {
    match s.pending {
        Some(dent) => dent.file_type.is_dir() && dent.depth == s.stack.len() && dent.depth
            < s.opts.max_depth,
        None => false,
    }
}

/// The entries of the directory whose entries are being made records: those
/// that were left to read in a directory closed to make room, or all those
/// of a directory that is put in order.
pub open spec fn source_raws(s: State, w: World) -> Seq<Raw> {
    if s.sorting() {
        match s.pending {
            Some(dent) => match (w.fs.list)(dent.path) {
                Ok(raws) => raws,
                Err(_) => Seq::empty(),
            },
            None => Seq::empty(),
        }
    } else {
        unread(w.handles, s.oldest_opened)
    }
}

/// What becomes of all the entries of the directory whose entries are being
/// made records.
pub open spec fn drain_total(s: State, w: World) -> Seq<ItemView> {
    promote_all(w.fs, s.drain_dir(), s.drain_depth(), source_raws(s, w))
}

/// While the type of an entry is asked: the records made so far, what
/// becomes of that entry, and what becomes of the entries still to be
/// dealt with, are together what becomes of all the entries.
pub open spec fn drain_ok(s: State, w: World) -> bool {
    match s.typing {
        Some(t) => s.promoted + seq![typed_item(w.fs, t)] + promote_all(
            w.fs,
            s.drain_dir(),
            s.drain_depth(),
            s.drained,
        ) == drain_total(s, w) && w.event == EventView::Stat((w.fs.stat)(t.path, false)),
        None => false,
    }
}

/// What becomes of all the entries of the directory that is put in order.
pub open spec fn listed(s: State, w: World) -> Seq<ItemView> {
    drain_total(State { phase: Phase::SortDrain, ..s }, w)
}

/// The records of the directory that is put in order, as they will be in
/// order once the record that is finding its place, and those that are yet
/// to find theirs, have found them.
pub open spec fn sort_result(s: State, w: World) -> Seq<DirEntryView> {
    match s.inserting {
        Some(dent) => sort_into(
            w.fs.compare,
            s.sorted.insert(
                bisect_at(w.fs.compare, s.sorted, dent, s.lo as int, s.hi as int),
                dent,
            ),
            s.queue,
        ),
        None => sort_into(w.fs.compare, s.sorted, s.queue),
    }
}

/// The directory that is about to be entered can be listed, and is put in
/// order.
pub open spec fn sorting_ok(s: State, w: World) -> bool {
    pending_ok(s) && s.opts.sorted && (w.fs.list)(s.pending.unwrap().path) is Ok
}

/// What holds of the state and the world according to what the traversal
/// waits for: the outcome in the world is the outcome of what was asked.
pub open spec fn phase_sim(s: State, w: World) -> bool {
    let n = s.stack.len() as int;
    match s.phase {
        Phase::Idle => true,
        Phase::Done => n == 0,
        Phase::RootStat => {
            &&& s.pending == Some(root_entry(s.pending.unwrap().path))
            &&& w.event == EventView::Stat((w.fs.stat)(s.pending.unwrap().path, true))
        },
        Phase::Read => {
            &&& w.event is ReadDir
            &&& match w.event->ReadDir_0 {
                Some(raw) => valid_items(
                    w.fs,
                    s.stack[n - 1].path,
                    n as usize,
                    opt_seq(item_of_raw(w.fs, s.stack[n - 1].path, n as usize, raw)),
                ),
                None => unread(w.handles, (n - 1) as usize).len() == 0,
            }
        },
        Phase::Type => match s.typing {
            Some(t) => t.depth == n && w.event == EventView::Stat((w.fs.stat)(t.path, false)),
            None => false,
        },
        Phase::Follow => match s.pending {
            Some(dent) => {
                &&& dent.depth == n
                &&& s.opts.follow_links
                &&& dent.file_type.is_symlink()
                &&& w.event == EventView::Stat((w.fs.stat)(dent.path, true))
            },
            None => false,
        },
        Phase::Same => match s.pending {
            Some(target) => {
                &&& target.depth == n
                &&& s.opts.follow_links
                &&& w.event == EventView::SameFile(
                    (w.fs.same)(s.stack_path[s.check as int], target.path),
                )
            },
            None => false,
        },
        Phase::Device => {
            &&& pending_ok(s)
            &&& s.opts.same_file_system
            &&& s.pending.unwrap().depth > 0
            &&& w.event == EventView::Stat((w.fs.stat)(s.pending.unwrap().path, true))
        },
        Phase::Evict => {
            &&& pending_ok(s)
            &&& w.event == EventView::Drain(unread(w.handles, s.oldest_opened))
        },
        Phase::EvictType => pending_ok(s) && drain_ok(s, w),
        Phase::Open => {
            &&& pending_ok(s)
            &&& match (w.fs.list)(s.pending.unwrap().path) {
                Ok(raws) => w.event == EventView::OpenDir(Ok(())) && unread(w.handles, n as usize)
                    == raws,
                Err(e) => w.event == EventView::OpenDir(Err(e)),
            }
        },
        Phase::SortDrain => sorting_ok(s, w) && w.event == EventView::Drain(source_raws(s, w)),
        Phase::SortType => sorting_ok(s, w) && drain_ok(s, w),
        Phase::Compare => {
            &&& sorting_ok(s, w)
            &&& s.inserting is Some
            &&& as_items(sort_result(s, w)) + s.promoted == arrange(w.fs, s.opts, listed(s, w))
            &&& w.event == EventView::Order(
                (w.fs.compare)(s.inserting.unwrap(), s.sorted[s.middle()]),
            )
        },
    }
}

/// The state of a traversal agrees with the world as far as its stack
/// goes: the file system is a finite tree; the stack is no deeper than the
/// greatest depth; what is left in each directory on it are records of
/// files below that directory; and where links are followed, the paths
/// kept for the detection of loops are those of the directories on the
/// stack.
pub open spec fn stack_sim(s: State, w: World) -> bool {
    let n = s.stack.len() as int;
    &&& s.structure()
    &&& n <= s.opts.max_depth
    &&& w.fs.wf()
    &&& forall|i: int| 0 <= i < n ==> frame_ok(w.fs, #[trigger] s.stack[i], i, w.handles)
    &&& s.opts.follow_links ==> forall|i: int|
        0 <= i < n ==> #[trigger] s.stack_path[i] == s.stack[i].path
}

/// The state of a traversal agrees with the world it runs in.
pub open spec fn sim(s: State, w: World) -> bool {
    s.wf() && stack_sim(s, w) && phase_sim(s, w)
}

/// The state agrees with the world as far as its stack goes, has no
/// directory left to close, and has asked for its root.
pub open spec fn quiet(s: State, w: World) -> bool {
    stack_sim(s, w) && s.closing.len() == 0 && s.start.is_none()
}

/// What a traversal yields when it is run in the world `w` for at most
/// `fuel` steps: each action is carried out, and its outcome handed to the
/// next step.
pub open spec fn run(s: State, w: World, fuel: nat) -> Seq<ItemView>
    decreases fuel,
{
    if fuel == 0 {
        Seq::empty()
    } else {
        let (s2, action) = s.step(w.event);
        match action {
            ActionView::Done => Seq::empty(),
            _ => yielded(action) + run(s2, w.respond(action), (fuel - 1) as nat),
        }
    }
}

} // verus!
