//! What holds of every state of a traversal, and that no more directories
//! are open than may be.

use vstd::prelude::*;
use crate::dent::{DirEntryView, Metadata, RawEntryView};
use crate::error::IoError;
use crate::walk::{count_open, first_open};
use crate::walk::{ActionView, EventView, ItemView, ListView, Order, Phase, State, WalkDirOptions};
use crate::walk::{expect_drain, expect_open, expect_order, expect_read, expect_same, expect_stat};

verus! {

impl State {
    /// What holds of a traversal whatever it waits for: every directory
    /// before `oldest_opened` is closed; the paths kept for the detection of
    /// loops, and the records kept back, are as many as the directories on
    /// the stack, or none where the settings ask for none; the open
    /// directories, with those that are yet to be closed, are no more than
    /// may be open; and the root is still to be asked for only while the
    /// stack is empty.
    pub open spec fn structure(self) -> bool {
        &&& self.opts.valid()
        &&& self.stack.len() <= usize::MAX
        &&& self.oldest_opened <= self.stack.len()
        &&& forall|i: int| 0 <= i < self.oldest_opened ==> !(#[trigger] self.stack[i]).open
        &&& self.stack_path.len() == if self.opts.follow_links {
            self.stack.len()
        } else {
            0
        }
        &&& self.deferred.len() == if self.opts.contents_first {
            self.stack.len()
        } else {
            0
        }
        &&& count_open(self.stack) + self.closing.len() <= self.opts.max_open
        &&& self.start.is_some() ==> self.stack.len() == 0 && self.phase == Phase::Idle
    }

    /// What holds of a traversal according to what it waits for.
    pub open spec fn phase_ok(self) -> bool {
        &&& self.phase != Phase::Idle ==> self.closing.len() == 0
        &&& match self.phase {
            Phase::Idle | Phase::Done => true,
            Phase::RootStat => self.pending.is_some() && self.stack.len() == 0,
            Phase::Read => self.stack.len() > 0 && self.stack.last().open,
            Phase::Type => self.typing.is_some(),
            Phase::Follow | Phase::Device => self.pending.is_some(),
            Phase::Same => self.pending.is_some() && self.check < self.stack_path.len(),
            Phase::Evict => self.pending.is_some() && self.evicting(),
            Phase::EvictType => self.pending.is_some() && self.typing.is_some() && self.evicting(),
            Phase::Open | Phase::SortDrain => self.pending.is_some() && count_open(self.stack)
                < self.opts.max_open,
            Phase::SortType => self.pending.is_some() && self.typing.is_some() && count_open(
                self.stack,
            ) < self.opts.max_open,
            Phase::Compare => {
                &&& self.pending.is_some()
                &&& self.inserting.is_some()
                &&& self.lo < self.hi <= self.sorted.len()
                &&& count_open(self.stack) < self.opts.max_open
            },
        }
    }

    /// The directory at `oldest_opened` is open: it is the one being closed
    /// to make room.
    pub open spec fn evicting(self) -> bool {
        (self.oldest_opened as int) < self.stack.len() && self.stack[self.oldest_opened as int].open
    }

    /// The invariant of a traversal.
    pub open spec fn wf(self) -> bool {
        self.structure() && self.phase_ok()
    }
}

pub proof fn lemma_count_open_push(stack: Seq<ListView>, list: ListView)
    ensures
        count_open(stack.push(list)) == count_open(stack) + if list.open {
            1nat
        } else {
            0nat
        },
{
    assert(stack.push(list).drop_last() =~= stack);
}

pub proof fn lemma_count_open_update(stack: Seq<ListView>, i: int, list: ListView)
    requires
        0 <= i < stack.len(),
    ensures
        count_open(stack.update(i, list)) + (if stack[i].open {
            1nat
        } else {
            0nat
        }) == count_open(stack) + if list.open {
            1nat
        } else {
            0nat
        },
    decreases stack.len(),
{
    if i == stack.len() - 1 {
        assert(stack.update(i, list).drop_last() =~= stack.drop_last());
    } else {
        assert(stack.update(i, list).drop_last() =~= stack.drop_last().update(i, list));
        lemma_count_open_update(stack.drop_last(), i, list);
    }
}

/// Where every directory is closed, none is counted as open.
pub proof fn lemma_count_open_none(stack: Seq<ListView>)
    requires
        forall|i: int| 0 <= i < stack.len() ==> !(#[trigger] stack[i]).open,
    ensures
        count_open(stack) == 0,
    decreases stack.len(),
{
    if stack.len() > 0 {
        assert(forall|i: int|
            0 <= i < stack.drop_last().len() ==> stack.drop_last()[i] == stack[i]);
        lemma_count_open_none(stack.drop_last());
    }
}

/// What `first_open` finds is open, and everything it passed over is closed.
pub proof fn lemma_first_open(stack: Seq<ListView>, from: int)
    requires
        0 <= from <= stack.len(),
    ensures
        from <= first_open(stack, from) <= stack.len(),
        first_open(stack, from) < stack.len() ==> stack[first_open(stack, from)].open,
        forall|i: int| from <= i < first_open(stack, from) ==> !(#[trigger] stack[i]).open,
    decreases stack.len() - from,
{
    if from < stack.len() && !stack[from].open {
        lemma_first_open(stack, from + 1);
    }
}

pub proof fn lemma_begin_push_wf(s: State, dent: DirEntryView)
    requires
        s.structure(),
        s.closing.len() == 0,
        s.start.is_none(),
    ensures
        s.begin_push(dent).0.wf(),
        s.begin_push(dent).0.opts == s.opts,
{
    lemma_first_open(s.stack, s.oldest_opened as int);
    let victim = first_open(s.stack, s.oldest_opened as int);
    if count_open(s.stack) >= s.opts.max_open && victim < s.stack.len() {
    } else {
        if victim >= s.stack.len() {
            lemma_count_open_none(s.stack);
        }
    }
}

pub proof fn lemma_on_entry_wf(s: State, dent: DirEntryView)
    requires
        s.structure(),
        s.closing.len() == 0,
        s.start.is_none(),
    ensures
        s.emit(dent).is_some() ==> s.emit(dent).unwrap().0.wf() && s.emit(dent).unwrap().0.opts
            == s.opts,
        s.handle_entry(dent).is_some() ==> s.handle_entry(dent).unwrap().0.wf()
            && s.handle_entry(dent).unwrap().0.opts == s.opts,
        s.on_entry(dent).is_some() ==> s.on_entry(dent).unwrap().0.wf() && s.on_entry(
            dent,
        ).unwrap().0.opts == s.opts,
{
    lemma_begin_push_wf(s, dent);
}

pub proof fn lemma_count_open_drop_last(stack: Seq<ListView>)
    requires
        stack.len() > 0,
    ensures
        count_open(stack.drop_last()) <= count_open(stack),
        !stack.last().open ==> count_open(stack.drop_last()) == count_open(stack),
{
}

pub proof fn lemma_advance_wf(s: State)
    requires
        s.structure(),
        s.closing.len() == 0,
        s.start.is_none(),
    ensures
        s.advance().0.wf(),
        s.advance().0.opts == s.opts,
    decreases s.stack.len(), s.stack.last().rest.len(),
{
    if s.stack.len() == 0 {
    } else {
        let top = s.stack.last();
        if top.open {
        } else if top.rest.len() == 0 {
            let s1 = s.pop();
            lemma_count_open_drop_last(s.stack);
            if s.opts.contents_first && s.deferred.len() > 0 {
                let dir = s.deferred.last();
                let s2 = State { deferred: s.deferred.drop_last(), ..s1 };
                assert(s2.structure());
                lemma_on_entry_wf(s2, dir);
                if s2.emit(dir).is_none() {
                    lemma_advance_wf(s2);
                }
            } else {
                assert(s1.structure());
                lemma_advance_wf(s1);
            }
        } else {
            let s1 = s.consume();
            lemma_count_open_update(
                s.stack,
                s.stack.len() - 1,
                ListView { rest: top.rest.skip(1), ..top },
            );
            assert(s1.structure());
            match top.rest[0] {
                Err(e) => {},
                Ok(dent) => {
                    lemma_on_entry_wf(s1, dent);
                    if s1.on_entry(dent).is_none() {
                        lemma_advance_wf(s1);
                    }
                },
            }
        }
    }
}

pub proof fn lemma_finish_wf(s: State, r: Option<(State, ActionView)>)
    requires
        s.structure(),
        s.closing.len() == 0,
        s.start.is_none(),
        r.is_some() ==> r.unwrap().0.wf() && r.unwrap().0.opts == s.opts,
    ensures
        s.finish(r).0.wf(),
        s.finish(r).0.opts == s.opts,
{
    if r.is_none() {
        lemma_advance_wf(s);
    }
}

pub proof fn lemma_resume_wf(s: State)
    requires
        s.wf(),
        s.phase == Phase::Idle,
    ensures
        s.resume().0.wf(),
        s.resume().0.opts == s.opts,
{
    if s.closing.len() > 0 {
    } else if s.start.is_none() {
        lemma_advance_wf(s);
    }
}

pub proof fn lemma_on_root_stat_wf(s: State, r: Result<Metadata, IoError>)
    requires
        s.wf(),
        s.phase == Phase::RootStat,
    ensures
        s.on_root_stat(r).0.wf(),
        s.on_root_stat(r).0.opts == s.opts,
{
    let root = s.pending.unwrap();
    let s0 = State { pending: None, ..s };
    match r {
        Err(e) => {},
        Ok(md) => {
            if s.opts.same_file_system && md.dev.is_none() {
            } else {
                let s1 = State { root_device: md.dev, ..s0 };
                lemma_on_entry_wf(s1, root.with_stat(md));
                lemma_finish_wf(s1, s1.handle_entry(root.with_stat(md)));
            }
        },
    }
}

pub proof fn lemma_on_read_wf(s: State, r: Option<Result<RawEntryView, IoError>>)
    requires
        s.wf(),
        s.phase == Phase::Read,
    ensures
        s.on_read(r).0.wf(),
        s.on_read(r).0.opts == s.opts,
{
    let top = s.stack.last();
    let depth = s.stack.len() as usize;
    match r {
        None => {
            lemma_count_open_update(
                s.stack,
                s.stack.len() - 1,
                ListView { open: false, rest: Seq::empty(), ..top },
            );
        },
        Some(Err(e)) => {},
        Some(Ok(raw)) => {
            if crate::dir::spec_is_dots(raw.name) {
                lemma_advance_wf(s);
            } else {
                match raw.file_type {
                    Some(ft) => {
                        let dent = crate::dent::spec_from_raw(top.path, raw, ft, depth);
                        lemma_on_entry_wf(s, dent);
                        lemma_finish_wf(s, s.on_entry(dent));
                    },
                    None => {},
                }
            }
        },
    }
}

pub proof fn lemma_on_type_wf(s: State, r: Result<Metadata, IoError>)
    requires
        s.wf(),
        s.phase == Phase::Type,
    ensures
        s.on_type(r).0.wf(),
        s.on_type(r).0.opts == s.opts,
{
    let dent = s.typing.unwrap();
    let s0 = State { typing: None, ..s };
    match r {
        Err(e) => {},
        Ok(md) => {
            lemma_on_entry_wf(s0, dent.with_type(md.file_type));
            lemma_finish_wf(s0, s0.on_entry(dent.with_type(md.file_type)));
        },
    }
}

pub proof fn lemma_check_loop_wf(s: State, dent: DirEntryView, k: int)
    requires
        s.structure(),
        s.closing.len() == 0,
        s.start.is_none(),
    ensures
        s.check_loop(dent, k).0.wf(),
        s.check_loop(dent, k).0.opts == s.opts,
{
    if 0 < k <= s.stack_path.len() {
    } else {
        lemma_on_entry_wf(s, dent);
        lemma_finish_wf(s, s.handle_entry(dent));
    }
}

pub proof fn lemma_on_follow_wf(s: State, r: Result<Metadata, IoError>)
    requires
        s.wf(),
        s.phase == Phase::Follow,
    ensures
        s.on_follow(r).0.wf(),
        s.on_follow(r).0.opts == s.opts,
{
    let dent = s.pending.unwrap();
    let s0 = State { pending: None, ..s };
    match r {
        Err(e) => {},
        Ok(md) => {
            let target = dent.followed(md);
            if target.file_type.is_dir() {
                lemma_check_loop_wf(s0, target, s0.stack_path.len() as int);
            } else {
                lemma_on_entry_wf(s0, target);
                lemma_finish_wf(s0, s0.handle_entry(target));
            }
        },
    }
}

pub proof fn lemma_on_same_wf(s: State, r: Result<bool, IoError>)
    requires
        s.wf(),
        s.phase == Phase::Same,
    ensures
        s.on_same(r).0.wf(),
        s.on_same(r).0.opts == s.opts,
{
    let dent = s.pending.unwrap();
    let s0 = State { pending: None, ..s };
    match r {
        Err(e) => {},
        Ok(same) => {
            if same && (s.check as int) < s.stack_path.len() {
            } else {
                lemma_check_loop_wf(s0, dent, s.check as int);
            }
        },
    }
}

pub proof fn lemma_on_device_wf(s: State, r: Result<Metadata, IoError>)
    requires
        s.wf(),
        s.phase == Phase::Device,
    ensures
        s.on_device(r).0.wf(),
        s.on_device(r).0.opts == s.opts,
{
    let dent = s.pending.unwrap();
    let s0 = State { pending: None, ..s };
    match r {
        Err(e) => {},
        Ok(md) => {
            if md.dev == s.root_device {
                lemma_begin_push_wf(s0, dent);
            } else {
                lemma_on_entry_wf(s0, dent);
                lemma_finish_wf(s0, s0.emit(dent));
            }
        },
    }
}

pub proof fn lemma_sort_next_wf(s: State)
    requires
        s.structure(),
        s.closing.len() == 0,
        s.start.is_none(),
        s.pending.is_some(),
        count_open(s.stack) < s.opts.max_open,
        s.stack.len() < usize::MAX,
    ensures
        s.sort_next().0.wf(),
        s.sort_next().0.opts == s.opts,
    decreases 2 * s.queue.len() + 1,
{
    if s.queue.len() == 0 {
        let dent = s.pending.unwrap();
        lemma_push_listing_wf(
            State { pending: None, promoted: Seq::empty(), sorted: Seq::empty(), ..s },
            dent,
            ListView {
                path: dent.path,
                open: false,
                rest: crate::walk::as_items(s.sorted) + s.promoted,
            },
        );
    } else {
        lemma_bisect_wf(
            State {
                inserting: Some(s.queue[0]),
                queue: s.queue.skip(1),
                lo: 0,
                hi: s.sorted.len() as usize,
                ..s
            },
        );
    }
}

pub proof fn lemma_bisect_wf(s: State)
    requires
        s.structure(),
        s.closing.len() == 0,
        s.start.is_none(),
        s.pending.is_some(),
        count_open(s.stack) < s.opts.max_open,
        s.stack.len() < usize::MAX,
    ensures
        s.bisect().0.wf(),
        s.bisect().0.opts == s.opts,
    decreases 2 * s.queue.len() + 2,
{
    match s.inserting {
        None => {},
        Some(dent) => {
            if s.lo < s.hi && s.hi <= s.sorted.len() {
            } else {
                let at = if s.lo <= s.sorted.len() {
                    s.lo as int
                } else {
                    s.sorted.len() as int
                };
                lemma_sort_next_wf(
                    State { sorted: s.sorted.insert(at, dent), inserting: None, ..s },
                );
            }
        },
    }
}

pub proof fn lemma_finish_promote_wf(s: State)
    requires
        s.wf(),
        s.phase == Phase::Evict || s.phase == Phase::SortDrain,
        s.phase == Phase::SortDrain ==> s.stack.len() < usize::MAX,
    ensures
        s.finish_promote().0.wf(),
        s.finish_promote().0.opts == s.opts,
{
    if s.sorting() {
        lemma_sort_next_wf(
            State {
                sorted: Seq::empty(),
                queue: crate::walk::oks(s.promoted),
                promoted: crate::walk::errs(s.promoted),
                ..s
            },
        );
    } else {
        let victim = s.oldest_opened as int;
        lemma_count_open_update(
            s.stack,
            victim,
            ListView { open: false, rest: s.promoted, ..s.stack[victim] },
        );
        let s1 = s.finish_promote().0;
        assert forall|i: int| 0 <= i < s1.oldest_opened implies !(#[trigger] s1.stack[i]).open by {
            if i < victim {
                assert(!s.stack[i].open);
            }
        }
    }
}

pub proof fn lemma_promote_wf(s: State)
    requires
        s.wf(),
        s.phase == Phase::Evict || s.phase == Phase::SortDrain,
        s.phase == Phase::SortDrain ==> s.stack.len() < usize::MAX,
    ensures
        s.promote().0.wf(),
        s.promote().0.opts == s.opts,
    decreases s.drained.len(),
{
    if s.drained.len() == 0 {
        lemma_finish_promote_wf(s);
    } else {
        let s0 = State { drained: s.drained.skip(1), ..s };
        let depth = s.drain_depth();
        match s.drained[0] {
            Err(e) => {
                lemma_promote_wf(
                    State {
                        promoted: s.promoted.push(Err(crate::error::ErrorView::from_io(depth, e))),
                        ..s0
                    },
                );
            },
            Ok(raw) => {
                if crate::dir::spec_is_dots(raw.name) {
                    lemma_promote_wf(s0);
                } else {
                    match raw.file_type {
                        Some(ft) => {
                            lemma_promote_wf(
                                State {
                                    promoted: s.promoted.push(
                                        Ok(
                                            crate::dent::spec_from_raw(
                                                s.drain_dir(),
                                                raw,
                                                ft,
                                                depth,
                                            ),
                                        ),
                                    ),
                                    ..s0
                                },
                            );
                        },
                        None => {},
                    }
                }
            },
        }
    }
}

pub proof fn lemma_push_listing_wf(s: State, dent: DirEntryView, list: ListView)
    requires
        s.structure(),
        s.closing.len() == 0,
        s.start.is_none(),
        count_open(s.stack) < s.opts.max_open,
        s.stack.len() < usize::MAX,
    ensures
        s.push_listing(dent, list).0.wf(),
        s.push_listing(dent, list).0.opts == s.opts,
{
    lemma_count_open_push(s.stack, list);
    let s1 = State {
        phase: Phase::Idle,
        stack: s.stack.push(list),
        stack_path: if s.opts.follow_links {
            s.stack_path.push(dent.path)
        } else {
            s.stack_path
        },
        ..s
    };
    if s.opts.contents_first {
        let s2 = State { deferred: s.deferred.push(dent), ..s1 };
        assert(s2.structure());
        lemma_advance_wf(s2);
    } else {
        assert(s1.structure());
        lemma_on_entry_wf(s1, dent);
        lemma_finish_wf(s1, s1.emit(dent));
    }
}

/// Each step of a traversal keeps its invariant, and never changes its
/// settings.
pub proof fn lemma_step_wf(s: State, ev: EventView)
    requires
        s.wf(),
        s.pushing() ==> s.stack.len() < usize::MAX,
    ensures
        s.step(ev).0.wf(),
        s.step(ev).0.opts == s.opts,
{
    match s.phase {
        Phase::Idle => lemma_resume_wf(s),
        Phase::RootStat => lemma_on_root_stat_wf(s, expect_stat(ev)),
        Phase::Read => lemma_on_read_wf(s, expect_read(ev)),
        Phase::Type => lemma_on_type_wf(s, expect_stat(ev)),
        Phase::Follow => lemma_on_follow_wf(s, expect_stat(ev)),
        Phase::Same => lemma_on_same_wf(s, expect_same(ev)),
        Phase::Device => lemma_on_device_wf(s, expect_stat(ev)),
        Phase::Evict | Phase::SortDrain => {
            lemma_promote_wf(State { drained: expect_drain(ev), promoted: Seq::empty(), ..s });
        },
        Phase::EvictType | Phase::SortType => {
            let dent = s.typing.unwrap();
            let item: ItemView = match expect_stat(ev) {
                Ok(md) => Ok(dent.with_type(md.file_type)),
                Err(e) => Err(crate::error::ErrorView::from_path(dent.depth, dent.path, e)),
            };
            lemma_promote_wf(
                State {
                    typing: None,
                    promoted: s.promoted.push(item),
                    phase: if s.phase == Phase::SortType {
                        Phase::SortDrain
                    } else {
                        Phase::Evict
                    },
                    ..s
                },
            );
        },
        Phase::Open => {
            let dent = s.pending.unwrap();
            match expect_open(ev) {
                Err(e) => {
                    lemma_push_listing_wf(
                        State { pending: None, ..s },
                        dent,
                        ListView {
                            path: dent.path,
                            open: false,
                            rest: seq![
                                Err(crate::error::ErrorView::from_path(dent.depth, dent.path, e)),
                            ],
                        },
                    );
                },
                Ok(_) => {
                    if s.opts.sorted {
                    } else {
                        lemma_push_listing_wf(
                            State { pending: None, ..s },
                            dent,
                            ListView { path: dent.path, open: true, rest: Seq::empty() },
                        );
                    }
                },
            }
        },
        Phase::Compare => {
            let order: Order = expect_order(ev);
            if order == Order::Less {
                lemma_bisect_wf(State { hi: s.middle() as usize, ..s });
            } else {
                lemma_bisect_wf(State { lo: (s.middle() + 1) as usize, ..s });
            }
        },
        Phase::Done => {},
    }
}

/// A traversal that has just been built satisfies its invariant.
pub proof fn law_new_traversal_is_sound(root: Seq<u8>, opts: WalkDirOptions)
    requires
        opts.valid(),
    ensures
        State::initial(root, opts).wf(),
{
}

/// Giving up the directory on top of the stack keeps the invariant.
pub proof fn lemma_skip_wf(s: State)
    requires
        s.wf(),
    ensures
        s.skip_current_dir().wf(),
        s.skip_current_dir().opts == s.opts,
{
    if s.phase == Phase::Idle && s.stack.len() > 0 {
        lemma_count_open_drop_last(s.stack);
    }
}

/// The handle cap: after any step of a traversal that satisfied its
/// invariant, once the action asked for has been carried out, no more
/// directories are open than the settings allow.
pub proof fn law_open_handles_bounded(s: State, ev: EventView)
    requires
        s.wf(),
        s.pushing() ==> s.stack.len() < usize::MAX,
    ensures
        s.handles_in_use() <= s.opts.max_open,
        s.step(ev).0.handles_in_use() <= s.opts.max_open,
{
    lemma_step_wf(s, ev);
}

} // verus!
