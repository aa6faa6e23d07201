//! The directories that are open in the world are those that the traversal
//! counts as open: none is left open behind its back, none is used that is
//! not open, and there are never more of them than the settings allow.

use vstd::prelude::*;
use vstd::set_lib::lemma_len_union;
use crate::dent::{DirEntryView, spec_from_raw};
use crate::dir::spec_is_dots;
use crate::error::{ErrorView, IoError};
use crate::follows::{law_step_follows_walk, lemma_initial_sim};
use crate::model::{FileSystem, World, sim};
use crate::walk::{
    ActionView, ItemView, ListView, Order, Phase, State, WalkDirOptions, as_items, count_open,
    errs, expect_drain, expect_order, expect_read, expect_same, expect_stat, oks,
};
use crate::wellformed::{
    lemma_count_open_drop_last, lemma_count_open_push, lemma_count_open_update, lemma_first_open,
    lemma_step_wf,
};

verus! {

/// The handles of the directories on the stack that are open. The handle of
/// a directory is its place on the stack.
pub open spec fn opens(stack: Seq<ListView>) -> Set<usize> {
    Set::new(|h: usize| (h as int) < stack.len() && stack[h as int].open)
}

/// The handles that the traversal takes to be open in the world `w`, once
/// the action that it asked for last has been carried out there: those of
/// the open directories on the stack; with those of the directories that
/// left the stack open, until they are closed; without the one that is being
/// closed to make room; and with the one that was asked to be opened, if the
/// file system could open it.
pub open spec fn held(s: State, w: World) -> Set<usize> {
    match s.phase {
        Phase::Idle => opens(s.stack).union(s.closing.to_set()),
        Phase::Evict | Phase::EvictType => opens(s.stack).remove(s.oldest_opened),
        Phase::Open => match s.pending {
            Some(dent) => if (w.fs.list)(dent.path) is Ok {
                opens(s.stack).insert(s.stack.len() as usize)
            } else {
                opens(s.stack)
            },
            None => opens(s.stack),
        },
        _ => opens(s.stack),
    }
}

/// The world has open exactly what the traversal takes to be open, and the
/// directories that are yet to be closed are each named once, by a handle
/// that no directory on the stack has.
pub open spec fn accounted(s: State, w: World) -> bool {
    &&& w.open == held(s, w)
    &&& s.closing.no_duplicates()
    &&& forall|k: int| 0 <= k < s.closing.len() ==> (#[trigger] s.closing[k]) >= s.stack.len()
}

/// The action can be carried out in the world: a directory that is read or
/// closed is open, and the handle under which one is opened is free.
pub open spec fn fits(action: ActionView, w: World) -> bool {
    match action {
        ActionView::OpenDir { path, handle } => !w.open.contains(handle),
        ActionView::ReadDir { handle } => w.open.contains(handle),
        ActionView::Drain { handle } => w.open.contains(handle),
        ActionView::CloseDir { handle } => w.open.contains(handle),
        _ => true,
    }
}

/// The traversal waits for nothing, has nothing left to close, and the
/// world has open exactly the open directories on the stack.
pub open spec fn settled(s: State, w: World) -> bool {
    &&& s.structure()
    &&& s.closing.len() == 0
    &&& s.start.is_none()
    &&& w.open == opens(s.stack)
}

/// The action of a step can be carried out in the world, and once it has
/// been, the world has open what the traversal takes to be open.
pub open spec fn carried(w: World, r: (State, ActionView)) -> bool {
    accounted(r.0, w.respond(r.1)) && fits(r.1, w)
}

/// As `carried`, of a step that may have nothing to ask.
pub open spec fn carried_if(w: World, r: Option<(State, ActionView)>) -> bool {
    match r {
        Some(r) => carried(w, r),
        None => true,
    }
}

/// There are as many open handles as directories counted as open.
proof fn lemma_opens_len(stack: Seq<ListView>)
    requires
        stack.len() <= usize::MAX,
    ensures
        opens(stack).finite(),
        opens(stack).len() == count_open(stack),
    decreases stack.len(),
{
    if stack.len() == 0 {
        assert(opens(stack) =~= Set::<usize>::empty());
    } else {
        let rest = stack.drop_last();
        let h = (stack.len() - 1) as usize;
        lemma_opens_len(rest);
        if stack.last().open {
            assert(opens(stack) =~= opens(rest).insert(h));
            assert(!opens(rest).contains(h));
        } else {
            assert(opens(stack) =~= opens(rest));
        }
    }
}

/// What the traversal takes to be open is no more than it counts.
proof fn lemma_held_len(s: State, w: World)
    requires
        s.wf(),
    ensures
        held(s, w).finite(),
        held(s, w).len() <= s.handles_in_use() <= s.opts.max_open,
{
    broadcast use vstd::seq_lib::seq_to_set_is_finite;

    lemma_opens_len(s.stack);
    match s.phase {
        Phase::Idle => {
            s.closing.lemma_cardinality_of_set();
            lemma_len_union(opens(s.stack), s.closing.to_set());
        },
        _ => {},
    }
}

/// Where the world has open what the traversal takes to be open, no more
/// directories are open there than the traversal reckons with, and no more
/// than the settings allow.
pub proof fn law_open_directories_fit_the_cap(s: State, w: World)
    requires
        s.wf(),
        accounted(s, w),
    ensures
        w.open.finite(),
        w.open.len() <= s.handles_in_use() <= s.opts.max_open,
{
    lemma_held_len(s, w);
}

proof fn lemma_emit_carried(s: State, w: World, dent: DirEntryView)
    requires
        settled(s, w),
    ensures
        carried_if(w, s.emit(dent)),
{
    if s.opts.in_window(dent.depth) {
        let (s2, a) = s.emit(dent).unwrap();
        assert(w.respond(a).open =~= held(s2, w.respond(a)));
    }
}

proof fn lemma_begin_push_carried(s: State, w: World, dent: DirEntryView)
    requires
        settled(s, w),
    ensures
        carried(w, s.begin_push(dent)),
{
    lemma_first_open(s.stack, s.oldest_opened as int);
    let (s2, a) = s.begin_push(dent);
    assert(w.respond(a).open =~= held(s2, w.respond(a)));
}

proof fn lemma_on_entry_carried(s: State, w: World, dent: DirEntryView)
    requires
        settled(s, w),
    ensures
        carried_if(w, s.emit(dent)),
        carried_if(w, s.handle_entry(dent)),
        carried_if(w, s.on_entry(dent)),
{
    lemma_emit_carried(s, w, dent);
    lemma_begin_push_carried(s, w, dent);
    if s.on_entry(dent).is_some() {
        let (s2, a) = s.on_entry(dent).unwrap();
        assert(w.respond(a).open =~= held(s2, w.respond(a)));
    }
    if s.handle_entry(dent).is_some() {
        let (s2, a) = s.handle_entry(dent).unwrap();
        assert(w.respond(a).open =~= held(s2, w.respond(a)));
    }
}

proof fn lemma_advance_carried(s: State, w: World)
    requires
        settled(s, w),
    ensures
        carried(w, s.advance()),
    decreases s.stack.len(), s.stack.last().rest.len(),
{
    let (s2, a) = s.advance();
    if s.stack.len() == 0 {
        assert(w.respond(a).open =~= held(s2, w.respond(a)));
    } else {
        let top = s.stack.last();
        if top.open {
            assert(w.respond(a).open =~= held(s2, w.respond(a)));
        } else if top.rest.len() == 0 {
            let s1 = s.pop();
            assert(opens(s1.stack) =~= opens(s.stack));
            lemma_count_open_drop_last(s.stack);
            if s.opts.contents_first && s.deferred.len() > 0 {
                let dir = s.deferred.last();
                let s3 = State { deferred: s.deferred.drop_last(), ..s1 };
                assert(s3.structure());
                lemma_on_entry_carried(s3, w, dir);
                if s3.emit(dir).is_none() {
                    lemma_advance_carried(s3, w);
                }
            } else {
                assert(s1.structure());
                lemma_advance_carried(s1, w);
            }
        } else {
            let s1 = s.consume();
            lemma_count_open_update(
                s.stack,
                s.stack.len() - 1,
                ListView { rest: top.rest.skip(1), ..top },
            );
            assert(s1.structure());
            assert(opens(s1.stack) =~= opens(s.stack));
            match top.rest[0] {
                Err(e) => {
                    assert(w.respond(a).open =~= held(s2, w.respond(a)));
                },
                Ok(dent) => {
                    lemma_on_entry_carried(s1, w, dent);
                    if s1.on_entry(dent).is_none() {
                        lemma_advance_carried(s1, w);
                    }
                },
            }
        }
    }
}

proof fn lemma_finish_carried(s: State, w: World, r: Option<(State, ActionView)>)
    requires
        settled(s, w),
        carried_if(w, r),
    ensures
        carried(w, s.finish(r)),
{
    if r.is_none() {
        lemma_advance_carried(s, w);
    }
}

proof fn lemma_fail_carried(s: State, w: World, err: ErrorView)
    requires
        settled(s, w),
    ensures
        carried(w, s.fail(err)),
{
    let (s2, a) = s.fail(err);
    assert(w.respond(a).open =~= held(s2, w.respond(a)));
}

proof fn lemma_check_loop_carried(s: State, w: World, dent: DirEntryView, k: int)
    requires
        settled(s, w),
    ensures
        carried(w, s.check_loop(dent, k)),
{
    if 0 < k <= s.stack_path.len() {
        let (s2, a) = s.check_loop(dent, k);
        assert(w.respond(a).open =~= held(s2, w.respond(a)));
    } else {
        lemma_on_entry_carried(s, w, dent);
        lemma_finish_carried(s, w, s.handle_entry(dent));
    }
}

proof fn lemma_push_listing_carried(s: State, w: World, dent: DirEntryView, list: ListView)
    requires
        s.structure(),
        s.closing.len() == 0,
        s.start.is_none(),
        count_open(s.stack) < s.opts.max_open,
        s.stack.len() < usize::MAX,
        w.open == opens(s.stack.push(list)),
    ensures
        carried(w, s.push_listing(dent, list)),
{
    lemma_count_open_push(s.stack, list);
    let s1 = State {
        phase: Phase::Idle,
        stack: s.stack.push(list),
        stack_path: if s.opts.follow_links {
            s.stack_path.push(dent.path)
        } else {
            s.stack_path
        },
        ..s
    };
    if s.opts.contents_first {
        let s2 = State { deferred: s.deferred.push(dent), ..s1 };
        assert(s2.structure());
        lemma_advance_carried(s2, w);
    } else {
        assert(s1.structure());
        lemma_on_entry_carried(s1, w, dent);
        lemma_finish_carried(s1, w, s1.emit(dent));
    }
}

proof fn lemma_sort_next_carried(s: State, w: World)
    requires
        settled(s, w),
        s.pending.is_some(),
        count_open(s.stack) < s.opts.max_open,
        s.stack.len() < usize::MAX,
    ensures
        carried(w, s.sort_next()),
    decreases 2 * s.queue.len() + 1,
{
    if s.queue.len() == 0 {
        let dent = s.pending.unwrap();
        let list = ListView { path: dent.path, open: false, rest: as_items(s.sorted) + s.promoted };
        assert(opens(s.stack.push(list)) =~= opens(s.stack));
        lemma_push_listing_carried(
            State { pending: None, promoted: Seq::empty(), sorted: Seq::empty(), ..s },
            w,
            dent,
            list,
        );
    } else {
        lemma_bisect_carried(
            State {
                inserting: Some(s.queue[0]),
                queue: s.queue.skip(1),
                lo: 0,
                hi: s.sorted.len() as usize,
                ..s
            },
            w,
        );
    }
}

proof fn lemma_bisect_carried(s: State, w: World)
    requires
        settled(s, w),
        s.pending.is_some(),
        count_open(s.stack) < s.opts.max_open,
        s.stack.len() < usize::MAX,
    ensures
        carried(w, s.bisect()),
    decreases 2 * s.queue.len() + 2,
{
    let (s2, a) = s.bisect();
    match s.inserting {
        None => {
            assert(w.respond(a).open =~= held(s2, w.respond(a)));
        },
        Some(dent) => {
            if s.lo < s.hi && s.hi <= s.sorted.len() {
                assert(w.respond(a).open =~= held(s2, w.respond(a)));
            } else {
                let at = if s.lo <= s.sorted.len() {
                    s.lo as int
                } else {
                    s.sorted.len() as int
                };
                lemma_sort_next_carried(
                    State { sorted: s.sorted.insert(at, dent), inserting: None, ..s },
                    w,
                );
            }
        },
    }
}

/// What the world has open while the entries read from a directory are made
/// records: the open directories on the stack, without the one that was
/// closed to make room.
pub open spec fn draining(s: State, w: World) -> bool {
    &&& s.wf()
    &&& s.start.is_none()
    &&& s.phase == Phase::Evict || s.phase == Phase::SortDrain
    &&& s.phase == Phase::SortDrain ==> s.stack.len() < usize::MAX
    &&& w.open == if s.phase == Phase::Evict {
        opens(s.stack).remove(s.oldest_opened)
    } else {
        opens(s.stack)
    }
}

proof fn lemma_finish_promote_carried(s: State, w: World)
    requires
        draining(s, w),
    ensures
        carried(w, s.finish_promote()),
{
    if s.sorting() {
        lemma_sort_next_carried(
            State { sorted: Seq::empty(), queue: oks(s.promoted), promoted: errs(s.promoted), ..s },
            w,
        );
    } else {
        let victim = s.oldest_opened as int;
        let (s2, a) = s.finish_promote();
        assert(opens(s2.stack) =~= opens(s.stack).remove(s.oldest_opened));
        assert(w.respond(a).open =~= held(s2, w.respond(a)));
    }
}

proof fn lemma_promote_carried(s: State, w: World)
    requires
        draining(s, w),
    ensures
        carried(w, s.promote()),
    decreases s.drained.len(),
{
    if s.drained.len() == 0 {
        lemma_finish_promote_carried(s, w);
    } else {
        let s0 = State { drained: s.drained.skip(1), ..s };
        let depth = s.drain_depth();
        match s.drained[0] {
            Err(e) => {
                lemma_promote_carried(
                    State { promoted: s.promoted.push(Err(ErrorView::from_io(depth, e))), ..s0 },
                    w,
                );
            },
            Ok(raw) => {
                if spec_is_dots(raw.name) {
                    lemma_promote_carried(s0, w);
                } else {
                    match raw.file_type {
                        Some(ft) => {
                            lemma_promote_carried(
                                State {
                                    promoted: s.promoted.push(
                                        Ok(spec_from_raw(s.drain_dir(), raw, ft, depth)),
                                    ),
                                    ..s0
                                },
                                w,
                            );
                        },
                        None => {
                            let (s2, a) = s.promote();
                            assert(w.respond(a).open =~= held(s2, w.respond(a)));
                        },
                    }
                }
            },
        }
    }
}

/// A state that waits for the outcome of a question that opens and closes
/// nothing is settled once the outcome is there.
proof fn lemma_asked_settled(s: State, w: World)
    requires
        s.wf(),
        accounted(s, w),
        s.phase != Phase::Idle,
        s.phase != Phase::Evict,
        s.phase != Phase::EvictType,
        s.phase != Phase::Open,
    ensures
        s.closing.len() == 0,
        s.start.is_none(),
        w.open == opens(s.stack),
{
}

proof fn lemma_step_entry_carried(s: State, w: World)
    requires
        s.wf(),
        accounted(s, w),
        s.phase == Phase::RootStat || s.phase == Phase::Type || s.phase == Phase::Follow || s.phase
            == Phase::Same || s.phase == Phase::Device,
    ensures
        carried(w, s.step(w.event)),
{
    lemma_asked_settled(s, w);
    let ev = w.event;
    match s.phase {
        Phase::RootStat => {
            let root = s.pending.unwrap();
            let s0 = State { pending: None, ..s };
            match expect_stat(ev) {
                Err(e) => lemma_fail_carried(s0, w, ErrorView::from_path(0, root.path, e)),
                Ok(md) => {
                    if s.opts.same_file_system && md.dev.is_none() {
                        lemma_fail_carried(
                            s0,
                            w,
                            ErrorView::from_path(0, root.path, IoError::Unsupported),
                        );
                    } else {
                        let s1 = State { root_device: md.dev, ..s0 };
                        lemma_on_entry_carried(s1, w, root.with_stat(md));
                        lemma_finish_carried(s1, w, s1.handle_entry(root.with_stat(md)));
                    }
                },
            }
        },
        Phase::Type => {
            let dent = s.typing.unwrap();
            let s0 = State { typing: None, ..s };
            match expect_stat(ev) {
                Err(e) => lemma_fail_carried(s0, w, ErrorView::from_path(dent.depth, dent.path, e)),
                Ok(md) => {
                    lemma_on_entry_carried(s0, w, dent.with_type(md.file_type));
                    lemma_finish_carried(s0, w, s0.on_entry(dent.with_type(md.file_type)));
                },
            }
        },
        Phase::Follow => {
            let dent = s.pending.unwrap();
            let s0 = State { pending: None, ..s };
            match expect_stat(ev) {
                Err(e) => lemma_fail_carried(s0, w, ErrorView::from_path(dent.depth, dent.path, e)),
                Ok(md) => {
                    let target = dent.followed(md);
                    if target.file_type.is_dir() {
                        lemma_check_loop_carried(s0, w, target, s0.stack_path.len() as int);
                    } else {
                        lemma_on_entry_carried(s0, w, target);
                        lemma_finish_carried(s0, w, s0.handle_entry(target));
                    }
                },
            }
        },
        Phase::Same => {
            let dent = s.pending.unwrap();
            let s0 = State { pending: None, ..s };
            match expect_same(ev) {
                Err(e) => lemma_fail_carried(s0, w, ErrorView::from_io(dent.depth, e)),
                Ok(same) => {
                    if same && (s.check as int) < s.stack_path.len() {
                        lemma_fail_carried(
                            s0,
                            w,
                            ErrorView::from_loop(
                                dent.depth,
                                s.stack_path[s.check as int],
                                dent.path,
                            ),
                        );
                    } else {
                        lemma_check_loop_carried(s0, w, dent, s.check as int);
                    }
                },
            }
        },
        _ => {
            let dent = s.pending.unwrap();
            let s0 = State { pending: None, ..s };
            match expect_stat(ev) {
                Err(e) => lemma_fail_carried(s0, w, ErrorView::from_path(dent.depth, dent.path, e)),
                Ok(md) => {
                    if md.dev == s.root_device {
                        lemma_begin_push_carried(s0, w, dent);
                    } else {
                        lemma_on_entry_carried(s0, w, dent);
                        lemma_finish_carried(s0, w, s0.emit(dent));
                    }
                },
            }
        },
    }
}

proof fn lemma_step_idle_carried(s: State, w: World)
    requires
        s.wf(),
        accounted(s, w),
        s.phase == Phase::Idle,
    ensures
        carried(w, s.step(w.event)),
{
    let (s2, a) = s.step(w.event);
    if s.closing.len() > 0 {
        let last = s.closing.last();
        let n = s.closing.len() as int;
        assert(s.closing[n - 1] == last);
        assert(s.closing.to_set().contains(last));
        assert forall|h: usize| s2.closing.to_set().contains(h) <==> (s.closing.to_set().contains(h)
            && h != last) by {
            if s2.closing.to_set().contains(h) {
                let k = choose|k: int| 0 <= k < s2.closing.len() && s2.closing[k] == h;
                assert(s.closing[k] == h);
            }
            if s.closing.to_set().contains(h) && h != last {
                let k = choose|k: int| 0 <= k < s.closing.len() && s.closing[k] == h;
                assert(s2.closing[k] == h);
            }
        }
        assert(w.respond(a).open =~= held(s2, w.respond(a)));
        assert forall|k: int| 0 <= k < s2.closing.len() implies (#[trigger] s2.closing[k])
            >= s2.stack.len() by {
            assert(s2.closing[k] == s.closing[k]);
        }
    } else {
        assert(s.closing.to_set() =~= Set::<usize>::empty());
        assert(w.open =~= opens(s.stack));
        match s.start {
            Some(root) => {
                assert(w.respond(a).open =~= held(s2, w.respond(a)));
            },
            None => lemma_advance_carried(s, w),
        }
    }
}

proof fn lemma_step_read_carried(s: State, w: World)
    requires
        s.wf(),
        accounted(s, w),
        s.phase == Phase::Read,
    ensures
        carried(w, s.step(w.event)),
{
    lemma_asked_settled(s, w);
    let (s2, a) = s.step(w.event);
    let top = s.stack.last();
    let depth = s.stack.len() as usize;
    match expect_read(w.event) {
        None => {
            assert(opens(s2.stack) =~= opens(s.stack).remove((s.stack.len() - 1) as usize));
            assert(s2.closing.to_set() =~= Set::<usize>::empty());
            assert(w.respond(a).open =~= held(s2, w.respond(a)));
        },
        Some(Err(e)) => lemma_fail_carried(s, w, ErrorView::from_io(depth, e)),
        Some(Ok(raw)) => {
            if spec_is_dots(raw.name) {
                lemma_advance_carried(s, w);
            } else {
                match raw.file_type {
                    Some(ft) => {
                        let dent = spec_from_raw(top.path, raw, ft, depth);
                        lemma_on_entry_carried(s, w, dent);
                        lemma_finish_carried(s, w, s.on_entry(dent));
                    },
                    None => {
                        assert(w.respond(a).open =~= held(s2, w.respond(a)));
                    },
                }
            }
        },
    }
}

proof fn lemma_step_drain_carried(s: State, w: World)
    requires
        sim(s, w),
        accounted(s, w),
        s.phase == Phase::Evict || s.phase == Phase::SortDrain || s.phase == Phase::EvictType
            || s.phase == Phase::SortType,
    ensures
        carried(w, s.step(w.event)),
{
    if s.phase == Phase::Evict || s.phase == Phase::SortDrain {
        lemma_promote_carried(
            State { drained: expect_drain(w.event), promoted: Seq::empty(), ..s },
            w,
        );
    } else {
        let dent = s.typing.unwrap();
        let item: ItemView = match expect_stat(w.event) {
            Ok(md) => Ok(dent.with_type(md.file_type)),
            Err(e) => Err(ErrorView::from_path(dent.depth, dent.path, e)),
        };
        lemma_promote_carried(
            State {
                typing: None,
                promoted: s.promoted.push(item),
                phase: if s.phase == Phase::SortType {
                    Phase::SortDrain
                } else {
                    Phase::Evict
                },
                ..s
            },
            w,
        );
    }
}

proof fn lemma_step_open_carried(s: State, w: World)
    requires
        sim(s, w),
        accounted(s, w),
        s.phase == Phase::Open,
    ensures
        carried(w, s.step(w.event)),
{
    let (s2, a) = s.step(w.event);
    let dent = s.pending.unwrap();
    let s0 = State { pending: None, ..s };
    let h = s.stack.len() as usize;
    match (w.fs.list)(dent.path) {
        Err(e) => {
            let list = ListView {
                path: dent.path,
                open: false,
                rest: seq![Err(ErrorView::from_path(dent.depth, dent.path, e))],
            };
            assert(opens(s.stack.push(list)) =~= opens(s.stack));
            lemma_push_listing_carried(s0, w, dent, list);
        },
        Ok(raws) => {
            if s.opts.sorted {
                assert(w.respond(a).open =~= held(s2, w.respond(a)));
            } else {
                let list = ListView { path: dent.path, open: true, rest: Seq::empty() };
                assert(opens(s.stack.push(list)) =~= opens(s.stack).insert(h));
                lemma_push_listing_carried(s0, w, dent, list);
            }
        },
    }
}

proof fn lemma_step_compare_carried(s: State, w: World)
    requires
        sim(s, w),
        accounted(s, w),
        s.phase == Phase::Compare,
    ensures
        carried(w, s.step(w.event)),
{
    lemma_asked_settled(s, w);
    let order: Order = expect_order(w.event);
    if order == Order::Less {
        lemma_bisect_carried(State { hi: s.middle() as usize, ..s }, w);
    } else {
        lemma_bisect_carried(State { lo: (s.middle() + 1) as usize, ..s }, w);
    }
}

/// Every step keeps the world and the traversal in agreement on what is
/// open. If the world has open what the traversal takes to be open, then
/// the action of the next step can be carried out: what it reads or closes
/// is open, and what it opens goes under a free handle; once it has been
/// carried out, the world has open again what the traversal takes to be
/// open; and these are no more directories than the settings allow.
pub proof fn law_step_keeps_track_of_handles(s: State, w: World)
    requires
        sim(s, w),
        accounted(s, w),
    ensures
        fits(s.step(w.event).1, w),
        accounted(s.step(w.event).0, w.respond(s.step(w.event).1)),
        w.respond(s.step(w.event).1).open.finite(),
        w.respond(s.step(w.event).1).open.len() <= s.opts.max_open,
{
    let (s2, a) = s.step(w.event);
    match s.phase {
        Phase::Idle => lemma_step_idle_carried(s, w),
        Phase::RootStat | Phase::Type | Phase::Follow | Phase::Same | Phase::Device => {
            lemma_step_entry_carried(s, w)
        },
        Phase::Read => lemma_step_read_carried(s, w),
        Phase::Evict | Phase::SortDrain | Phase::EvictType | Phase::SortType => {
            lemma_step_drain_carried(s, w)
        },
        Phase::Open => lemma_step_open_carried(s, w),
        Phase::Compare => lemma_step_compare_carried(s, w),
        Phase::Done => {
            assert(w.respond(a).open =~= held(s2, w.respond(a)));
        },
    }
    law_step_follows_walk(s, w);
    lemma_step_wf(s, w.event);
    lemma_held_len(s2, w.respond(a));
}

/// A traversal that was just built takes nothing to be open, and nothing is
/// open in a world of which nothing was asked yet.
pub proof fn lemma_initial_accounted(fs: FileSystem, root: Seq<u8>, opts: WalkDirOptions)
    ensures
        accounted(State::initial(root, opts), World::initial(fs)),
{
    let s = State::initial(root, opts);
    assert(s.closing.to_set() =~= Set::<usize>::empty());
    assert(opens(s.stack) =~= Set::<usize>::empty());
    assert(World::initial(fs).open =~= held(s, World::initial(fs)));
}

/// Giving up the directory on top of the stack opens and closes nothing:
/// if it was open, the traversal takes it to be open until it is closed.
pub proof fn law_skip_keeps_track_of_handles(s: State, w: World)
    requires
        s.wf(),
        accounted(s, w),
    ensures
        accounted(s.skip_current_dir(), w),
{
    let s2 = s.skip_current_dir();
    if s.phase == Phase::Idle && s.stack.len() > 0 {
        let h = (s.stack.len() - 1) as usize;
        if s.stack.last().open {
            assert(s2.closing == s.closing.push(h));
            assert forall|x: usize|
                s2.closing.to_set().contains(x) <==> (s.closing.to_set().contains(x) || x == h) by {
                if s2.closing.to_set().contains(x) {
                    let k = choose|k: int| 0 <= k < s2.closing.len() && s2.closing[k] == x;
                    if k < s.closing.len() {
                        assert(s.closing[k] == x);
                    }
                }
                if s.closing.to_set().contains(x) {
                    let k = choose|k: int| 0 <= k < s.closing.len() && s.closing[k] == x;
                    assert(s2.closing[k] == x);
                }
                if x == h {
                    assert(s2.closing[s.closing.len() as int] == h);
                }
            }
            assert(opens(s.stack) =~= opens(s2.stack).insert(h));
            assert(w.open =~= held(s2, w));
            let m = s2.closing.len();
            assert forall|i: int, j: int| 0 <= i < m && 0 <= j < m && i != j implies s2.closing[i]
                != s2.closing[j] by {
                if i < s.closing.len() {
                    assert(s.closing[i] >= s.stack.len());
                }
                if j < s.closing.len() {
                    assert(s.closing[j] >= s.stack.len());
                }
            }
        } else {
            assert(opens(s.stack) =~= opens(s2.stack));
            assert(w.open =~= held(s2, w));
        }
        assert forall|k: int| 0 <= k < s2.closing.len() implies (#[trigger] s2.closing[k])
            >= s2.stack.len() by {
            if k < s.closing.len() {
                assert(s.closing[k] >= s.stack.len());
            }
        }
    }
}

/// The state and the world after `k` steps of a traversal, each action
/// carried out and its outcome handed to the next step.
pub open spec fn after(s: State, w: World, k: nat) -> (State, World)
    decreases k,
{
    if k == 0 {
        (s, w)
    } else {
        after(s.step(w.event).0, w.respond(s.step(w.event).1), (k - 1) as nat)
    }
}

proof fn lemma_after_accounted(s: State, w: World, k: nat)
    requires
        sim(s, w),
        accounted(s, w),
    ensures
        sim(after(s, w, k).0, after(s, w, k).1),
        accounted(after(s, w, k).0, after(s, w, k).1),
        after(s, w, k).0.opts == s.opts,
    decreases k,
{
    if k > 0 {
        law_step_follows_walk(s, w);
        law_step_keeps_track_of_handles(s, w);
        lemma_step_wf(s, w.event);
        lemma_after_accounted(s.step(w.event).0, w.respond(s.step(w.event).1), (k - 1) as nat);
    }
}

/// The handle cap, in the world: however many steps a new traversal has
/// made in a file system, the directories that are open there are no more
/// than the settings allow.
pub proof fn law_open_directories_never_exceed_the_cap(
    fs: FileSystem,
    root: Seq<u8>,
    opts: WalkDirOptions,
    k: nat,
)
    requires
        opts.valid(),
        fs.wf(),
    ensures
        after(State::initial(root, opts), World::initial(fs), k).1.open.finite(),
        after(State::initial(root, opts), World::initial(fs), k).1.open.len() <= opts.max_open,
{
    let s = State::initial(root, opts);
    let w = World::initial(fs);
    lemma_initial_sim(fs, root, opts);
    lemma_initial_accounted(fs, root, opts);
    lemma_after_accounted(s, w, k);
    let (s2, w2) = after(s, w, k);
    law_open_directories_fit_the_cap(s2, w2);
}

} // verus!
