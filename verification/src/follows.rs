//! The traversal follows the walk: every step of a traversal that runs in a
//! file system hands out what the walk of that file system yields next.

use vstd::prelude::*;
use crate::dent::{DirEntryView, FileKind, FileType, spec_child_path, spec_from_raw};
use crate::dir::spec_is_dots;
use crate::error::{ErrorView, IoError};
use crate::walk::{
    ActionView, ItemView, ListView, Order, Phase, State, WalkDirOptions, as_items, child_depth,
    count_open, errs, expect_read, expect_stat, oks, root_entry,
};
use crate::wellformed::{lemma_count_open_update, lemma_first_open, lemma_step_wf};
use crate::model::{
    FileSystem, Raw, Walk, World, anc_of, arrange, below, bisect_at, child_anc, context,
    drain_total, enter, frame_anc, frame_items, frame_ok, full, future, inside, item_of_raw,
    listed, opt_seq, pending_ok, place, promote_all, quiet, run, shown, sim, sort_into, sort_of,
    sorting_ok, source_raws, stack_future, stack_sim, typed_item, uncapped, unread, untyped,
    valid_items, valid_raws, walk, walk_checked, walk_entry, walk_final, walk_item, walk_items,
    walk_taken, yielded,
};

verus! {

/// What is yielded for two runs of items is what is yielded for the first,
/// then what is yielded for the second.
pub proof fn lemma_walk_items_concat(
    c: Walk,
    anc: Seq<Seq<u8>>,
    dir: Seq<u8>,
    a: Seq<ItemView>,
    b: Seq<ItemView>,
)
    ensures
        walk_items(c, anc, dir, a + b) == walk_items(c, anc, dir, a) + walk_items(c, anc, dir, b),
    decreases a.len(),
{
    if a.len() == 0 {
        assert(a + b =~= b);
        assert(walk_items(c, anc, dir, a) + walk_items(c, anc, dir, b) =~= walk_items(
            c,
            anc,
            dir,
            b,
        ));
    } else {
        assert((a + b)[0] == a[0]);
        assert((a + b).skip(1) =~= a.skip(1) + b);
        lemma_walk_items_concat(c, anc, dir, a.skip(1), b);
        assert(walk_item(c, anc, dir, a[0]) + (walk_items(c, anc, dir, a.skip(1)) + walk_items(
            c,
            anc,
            dir,
            b,
        )) =~= (walk_item(c, anc, dir, a[0]) + walk_items(c, anc, dir, a.skip(1))) + walk_items(
            c,
            anc,
            dir,
            b,
        ));
    }
}

pub proof fn lemma_walk_items_one(c: Walk, anc: Seq<Seq<u8>>, dir: Seq<u8>, item: ItemView)
    ensures
        walk_items(c, anc, dir, seq![item]) == walk_item(c, anc, dir, item),
        walk_items(c, anc, dir, Seq::empty()) == Seq::<ItemView>::empty(),
{
    assert(seq![item].len() == 1);
    assert(seq![item][0] == item);
    assert(seq![item].skip(1) =~= Seq::empty());
    assert(walk_items(c, anc, dir, seq![item].skip(1)) == Seq::<ItemView>::empty());
    assert(walk_item(c, anc, dir, item) + Seq::<ItemView>::empty() =~= walk_item(
        c,
        anc,
        dir,
        item,
    ));
}

/// Two runs of items are valid together just when each is.
pub proof fn lemma_valid_items_concat(
    fs: FileSystem,
    dir: Seq<u8>,
    depth: usize,
    a: Seq<ItemView>,
    b: Seq<ItemView>,
)
    ensures
        valid_items(fs, dir, depth, a + b) == (valid_items(fs, dir, depth, a) && valid_items(
            fs,
            dir,
            depth,
            b,
        )),
{
    if valid_items(fs, dir, depth, a + b) {
        assert forall|j: int| 0 <= j < a.len() implies match #[trigger] a[j] {
            Ok(dent) => (fs.height)(dent.path) < (fs.height)(dir) && dent.depth == depth,
            Err(_) => true,
        } by {
            assert((a + b)[j] == a[j]);
        }
        assert forall|j: int| 0 <= j < b.len() implies match #[trigger] b[j] {
            Ok(dent) => (fs.height)(dent.path) < (fs.height)(dir) && dent.depth == depth,
            Err(_) => true,
        } by {
            assert((a + b)[a.len() + j] == b[j]);
        }
    }
    if valid_items(fs, dir, depth, a) && valid_items(fs, dir, depth, b) {
        assert forall|j: int| 0 <= j < (a + b).len() implies match #[trigger] (a + b)[j] {
            Ok(dent) => (fs.height)(dent.path) < (fs.height)(dir) && dent.depth == depth,
            Err(_) => true,
        } by {
            if j < a.len() {
                assert((a + b)[j] == a[j]);
            } else {
                assert((a + b)[j] == b[j - a.len()]);
            }
        }
    }
}

/// What is left of valid items once the first is gone is valid.
pub proof fn lemma_valid_items_skip(fs: FileSystem, dir: Seq<u8>, depth: usize, items: Seq<ItemView>)
    requires
        valid_items(fs, dir, depth, items),
        items.len() > 0,
    ensures
        valid_items(fs, dir, depth, items.skip(1)),
{
    assert forall|j: int| 0 <= j < items.skip(1).len() implies match #[trigger] items.skip(1)[j] {
        Ok(dent) => (fs.height)(dent.path) < (fs.height)(dir) && dent.depth == depth,
        Err(_) => true,
    } by {
        assert(items.skip(1)[j] == items[j + 1]);
    }
}

/// What becomes of valid entries are valid items.
pub proof fn lemma_promote_all_valid(fs: FileSystem, dir: Seq<u8>, depth: usize, raws: Seq<Raw>)
    requires
        valid_raws(fs, dir, raws),
    ensures
        valid_items(fs, dir, depth, promote_all(fs, dir, depth, raws)),
    decreases raws.len(),
{
    if raws.len() > 0 {
        assert(valid_raws(fs, dir, raws.skip(1))) by {
            assert forall|j: int| 0 <= j < raws.skip(1).len() implies match #[trigger] raws.skip(
                1,
            )[j] {
                Ok(r) => (fs.height)(spec_child_path(dir, r.name)) < (fs.height)(dir),
                Err(_) => true,
            } by {
                assert(raws.skip(1)[j] == raws[j + 1]);
            }
        }
        lemma_promote_all_valid(fs, dir, depth, raws.skip(1));
        let head = opt_seq(item_of_raw(fs, dir, depth, raws[0]));
        let tail = promote_all(fs, dir, depth, raws.skip(1));
        assert(valid_items(fs, dir, depth, head)) by {
            assert forall|j: int| 0 <= j < head.len() implies match #[trigger] head[j] {
                Ok(dent) => (fs.height)(dent.path) < (fs.height)(dir) && dent.depth == depth,
                Err(_) => true,
            } by {
                assert(head[j] == item_of_raw(fs, dir, depth, raws[0]).unwrap());
            }
        }
        lemma_valid_items_concat(fs, dir, depth, head, tail);
    }
}

/// In a file system that is a finite tree, what a directory lists lies
/// lower than the directory.
pub proof fn lemma_list_valid(fs: FileSystem, dir: Seq<u8>, depth: usize)
    requires
        fs.wf(),
        (fs.list)(dir) is Ok,
    ensures
        valid_raws(fs, dir, (fs.list)(dir)->Ok_0),
        valid_items(fs, dir, depth, promote_all(fs, dir, depth, (fs.list)(dir)->Ok_0)),
{
    let raws = (fs.list)(dir)->Ok_0;
    assert forall|j: int| 0 <= j < raws.len() implies match #[trigger] raws[j] {
        Ok(r) => (fs.height)(spec_child_path(dir, r.name)) < (fs.height)(dir),
        Err(_) => true,
    } by {
        assert((fs.list)(dir)->Ok_0[j] == raws[j]);
    }
    lemma_promote_all_valid(fs, dir, depth, raws);
}

/// The records among items are among the items, and so are the errors.
pub proof fn lemma_oks_errs_valid(fs: FileSystem, dir: Seq<u8>, depth: usize, items: Seq<ItemView>)
    requires
        valid_items(fs, dir, depth, items),
    ensures
        valid_items(fs, dir, depth, as_items(oks(items))),
        valid_items(fs, dir, depth, errs(items)),
    decreases items.len(),
{
    if items.len() > 0 {
        assert forall|j: int| 0 <= j < items.drop_last().len() implies match #[trigger] items.drop_last()[j] {
            Ok(dent) => (fs.height)(dent.path) < (fs.height)(dir) && dent.depth == depth,
            Err(_) => true,
        } by {
            assert(items.drop_last()[j] == items[j]);
        }
        lemma_oks_errs_valid(fs, dir, depth, items.drop_last());
        let last = items.last();
        assert(items[items.len() - 1] == last);
        match last {
            Ok(dent) => {
                assert(as_items(oks(items)) =~= as_items(oks(items.drop_last())) + seq![
                    Ok::<DirEntryView, ErrorView>(dent),
                ]);
                assert(valid_items(fs, dir, depth, seq![Ok::<DirEntryView, ErrorView>(dent)])) by {
                    assert(seq![Ok::<DirEntryView, ErrorView>(dent)][0] == last);
                }
                lemma_valid_items_concat(
                    fs,
                    dir,
                    depth,
                    as_items(oks(items.drop_last())),
                    seq![Ok::<DirEntryView, ErrorView>(dent)],
                );
            },
            Err(e) => {
                assert(errs(items) =~= errs(items.drop_last()) + seq![
                    Err::<DirEntryView, ErrorView>(e),
                ]);
                assert(valid_items(fs, dir, depth, seq![Err::<DirEntryView, ErrorView>(e)])) by {
                    assert(seq![Err::<DirEntryView, ErrorView>(e)][0] == last);
                }
                lemma_valid_items_concat(
                    fs,
                    dir,
                    depth,
                    errs(items.drop_last()),
                    seq![Err::<DirEntryView, ErrorView>(e)],
                );
            },
        }
    }
}

/// The place that a record takes among records lies among them, or right
/// behind them.
pub proof fn lemma_bisect_bounds(
    compare: spec_fn(DirEntryView, DirEntryView) -> Order,
    sorted: Seq<DirEntryView>,
    dent: DirEntryView,
    lo: int,
    hi: int,
)
    ensures
        0 <= bisect_at(compare, sorted, dent, lo, hi) <= sorted.len(),
        0 <= lo <= hi <= sorted.len() ==> lo <= bisect_at(compare, sorted, dent, lo, hi) <= hi,
    decreases hi - lo,
{
    if 0 <= lo < hi <= sorted.len() {
        let mid = lo + (hi - lo) / 2;
        if compare(dent, sorted[mid]) == Order::Less {
            lemma_bisect_bounds(compare, sorted, dent, lo, mid);
        } else {
            lemma_bisect_bounds(compare, sorted, dent, mid + 1, hi);
        }
    }
}

/// What records hold once one more has taken its place among them is that
/// one, and what they held.
pub proof fn lemma_insert_contains(
    sorted: Seq<DirEntryView>,
    at: int,
    dent: DirEntryView,
    e: DirEntryView,
)
    requires
        0 <= at <= sorted.len(),
        sorted.insert(at, dent).contains(e),
    ensures
        e == dent || sorted.contains(e),
{
    let t = sorted.insert(at, dent);
    let k = choose|k: int| 0 <= k < t.len() && t[k] == e;
    if k < at {
        assert(t[k] == sorted[k]);
    } else if k > at {
        assert(t[k] == sorted[k - 1]);
    }
}

/// Putting records in order neither adds a record nor makes one up: every
/// record among those in order was among those in order before, or among
/// those that were yet to find their place.
pub proof fn lemma_sort_into_contains(
    compare: spec_fn(DirEntryView, DirEntryView) -> Order,
    sorted: Seq<DirEntryView>,
    queue: Seq<DirEntryView>,
    e: DirEntryView,
)
    requires
        sort_into(compare, sorted, queue).contains(e),
    ensures
        sorted.contains(e) || queue.contains(e),
    decreases queue.len(),
{
    if queue.len() > 0 {
        let at = bisect_at(compare, sorted, queue[0], 0, full(sorted));
        lemma_bisect_bounds(compare, sorted, queue[0], 0, full(sorted));
        let next = sorted.insert(at, queue[0]);
        lemma_sort_into_contains(compare, next, queue.skip(1), e);
        if next.contains(e) {
            lemma_insert_contains(sorted, at, queue[0], e);
            if e == queue[0] {
                assert(queue.contains(e));
            }
        } else {
            let k = choose|k: int| 0 <= k < queue.skip(1).len() && queue.skip(1)[k] == e;
            assert(queue[k + 1] == e);
        }
    }
}

/// Records that are put in order are as valid as they were.
pub proof fn lemma_ordered_valid(fs: FileSystem, dir: Seq<u8>, depth: usize, entries: Seq<DirEntryView>)
    requires
        valid_items(fs, dir, depth, as_items(entries)),
    ensures
        valid_items(fs, dir, depth, as_items(sort_of(fs.compare, entries))),
{
    let sorted = sort_of(fs.compare, entries);
    assert forall|j: int| 0 <= j < as_items(sorted).len() implies match #[trigger] as_items(sorted)[j] {
        Ok(dent) => (fs.height)(dent.path) < (fs.height)(dir) && dent.depth == depth,
        Err(_) => true,
    } by {
        let dent = sorted[j];
        assert(sorted.contains(dent));
        lemma_sort_into_contains(fs.compare, Seq::empty(), entries, dent);
        assert(entries.contains(dent));
        let k = choose|k: int| 0 <= k < entries.len() && entries[k] == dent;
        assert(as_items(entries)[k] == Ok::<DirEntryView, ErrorView>(dent));
    }
}

/// The items of a directory in the order in which they are dealt with are
/// as valid as they were as listed.
pub proof fn lemma_arrange_valid(
    fs: FileSystem,
    opts: WalkDirOptions,
    dir: Seq<u8>,
    depth: usize,
    items: Seq<ItemView>,
)
    requires
        valid_items(fs, dir, depth, items),
    ensures
        valid_items(fs, dir, depth, arrange(fs, opts, items)),
{
    if opts.sorted {
        lemma_oks_errs_valid(fs, dir, depth, items);
        lemma_ordered_valid(fs, dir, depth, oks(items));
        lemma_valid_items_concat(
            fs,
            dir,
            depth,
            as_items(sort_of(fs.compare, oks(items))),
            errs(items),
        );
    }
}

/// Making records of the entries read from a directory either waits for
/// the type of an entry, with the records made so far, that entry, and the
/// entries left adding up to what they did before; or it ends, with all the
/// records made.
pub proof fn lemma_promote_sim(s: State, fs: FileSystem, total: Seq<ItemView>)
    requires
        s.phase == Phase::Evict || s.phase == Phase::SortDrain,
        s.promoted + promote_all(fs, s.drain_dir(), s.drain_depth(), s.drained) == total,
    ensures
        untyped(s.drained) == 0 ==> s.promote() == (State {
            drained: Seq::empty(),
            promoted: total,
            ..s
        }).finish_promote(),
        untyped(s.drained) > 0 ==> {
                let s2 = s.promote().0;
                &&& s2.typing is Some
                &&& s.promote().1 == (ActionView::Stat {
                    path: s2.typing.unwrap().path,
                    follow: false,
                })
                &&& s2.phase == if s.phase == Phase::SortDrain {
                    Phase::SortType
                } else {
                    Phase::EvictType
                }
                &&& s2.promoted + seq![typed_item(fs, s2.typing.unwrap())] + promote_all(
                    fs,
                    s.drain_dir(),
                    s.drain_depth(),
                    s2.drained,
                ) == total
                &&& s2 == (State {
                    typing: s2.typing,
                    phase: s2.phase,
                    drained: s2.drained,
                    promoted: s2.promoted,
                    ..s
                })
                &&& untyped(s2.drained) < untyped(s.drained)
            },
    decreases s.drained.len(),
{
    let dir = s.drain_dir();
    let depth = s.drain_depth();
    if s.drained.len() == 0 {
        assert(s.drained =~= Seq::empty());
        assert(s.promoted + promote_all(fs, dir, depth, s.drained) =~= s.promoted);
        let done = State { drained: Seq::empty(), promoted: total, ..s };
        assert(done == s);
    } else {
        let raw = s.drained[0];
        let s0 = State { drained: s.drained.skip(1), ..s };
        let head = opt_seq(item_of_raw(fs, dir, depth, raw));
        let tail = promote_all(fs, dir, depth, s.drained.skip(1));
        assert(promote_all(fs, dir, depth, s.drained) == head + tail);
        match raw {
            Err(e) => {
                let s1 = State { promoted: s.promoted.push(Err(ErrorView::from_io(depth, e))), ..s0 };
                assert(s1.promoted + tail =~= s.promoted + (head + tail));
                assert(s1.drain_dir() == dir && s1.drain_depth() == depth);
                lemma_promote_sim(s1, fs, total);
            },
            Ok(r) => {
                if spec_is_dots(r.name) {
                    assert(s0.promoted + tail =~= s.promoted + (head + tail));
                    assert(s0.drain_dir() == dir && s0.drain_depth() == depth);
                    lemma_promote_sim(s0, fs, total);
                } else {
                    match r.file_type {
                        Some(ft) => {
                            let s1 = State {
                                promoted: s.promoted.push(Ok(spec_from_raw(dir, r, ft, depth))),
                                ..s0
                            };
                            assert(s1.promoted + tail =~= s.promoted + (head + tail));
                            assert(s1.drain_dir() == dir && s1.drain_depth() == depth);
                            lemma_promote_sim(s1, fs, total);
                        },
                        None => {
                            let t = spec_from_raw(dir, r, FileType(FileKind::Other), depth);
                            assert(seq![typed_item(fs, t)] =~= head);
                            assert(s.promoted + seq![typed_item(fs, t)] + tail =~= s.promoted + (head
                                + tail));
                        },
                    }
                }
            },
        }
    }
}

/// The directories at place `i` of two stacks have the same path, the same
/// directories above them, the same items left, and the same record kept
/// back.
pub open spec fn frame_agrees(
    c: Walk,
    stack1: Seq<ListView>,
    handles1: Map<usize, Seq<Raw>>,
    deferred1: Seq<DirEntryView>,
    paths1: Seq<Seq<u8>>,
    stack2: Seq<ListView>,
    handles2: Map<usize, Seq<Raw>>,
    deferred2: Seq<DirEntryView>,
    paths2: Seq<Seq<u8>>,
    i: int,
) -> bool {
    &&& stack1[i].path == stack2[i].path
    &&& frame_items(c.fs, stack1[i], i, handles1) == frame_items(c.fs, stack2[i], i, handles2)
    &&& frame_anc(c.opts, paths1, i) == frame_anc(c.opts, paths2, i)
    &&& c.opts.contents_first ==> (i < deferred1.len()) == (i < deferred2.len())
    &&& c.opts.contents_first && i < deferred1.len() ==> deferred1[i] == deferred2[i]
}

/// Two stacks agree on their first `k` directories.
pub open spec fn agree(
    c: Walk,
    stack1: Seq<ListView>,
    handles1: Map<usize, Seq<Raw>>,
    deferred1: Seq<DirEntryView>,
    paths1: Seq<Seq<u8>>,
    stack2: Seq<ListView>,
    handles2: Map<usize, Seq<Raw>>,
    deferred2: Seq<DirEntryView>,
    paths2: Seq<Seq<u8>>,
    k: int,
) -> bool {
    &&& k <= stack1.len()
    &&& k <= stack2.len()
    &&& forall|i: int|
        0 <= i < k ==> #[trigger] frame_agrees(
            c,
            stack1,
            handles1,
            deferred1,
            paths1,
            stack2,
            handles2,
            deferred2,
            paths2,
            i,
        )
}

/// Stacks that agree on their first `k` directories have the same yield for
/// them.
pub proof fn lemma_stack_future_agree(
    c: Walk,
    stack1: Seq<ListView>,
    handles1: Map<usize, Seq<Raw>>,
    deferred1: Seq<DirEntryView>,
    paths1: Seq<Seq<u8>>,
    stack2: Seq<ListView>,
    handles2: Map<usize, Seq<Raw>>,
    deferred2: Seq<DirEntryView>,
    paths2: Seq<Seq<u8>>,
    k: int,
)
    requires
        agree(c, stack1, handles1, deferred1, paths1, stack2, handles2, deferred2, paths2, k),
    ensures
        stack_future(c, stack1, handles1, paths1, deferred1, k) == stack_future(
            c,
            stack2,
            handles2,
            paths2,
            deferred2,
            k,
        ),
    decreases k,
{
    if k > 0 {
        assert(frame_agrees(
            c,
            stack1,
            handles1,
            deferred1,
            paths1,
            stack2,
            handles2,
            deferred2,
            paths2,
            k - 1,
        ));
        lemma_stack_future_agree(
            c,
            stack1,
            handles1,
            deferred1,
            paths1,
            stack2,
            handles2,
            deferred2,
            paths2,
            k - 1,
        );
    }
}

/// A state whose stack is that of another, in a world in which the same is
/// left to read in each directory, agrees with its world as the other does,
/// and yields the same for its stack.
pub proof fn lemma_same_stack(s: State, w: World, s2: State, w2: World)
    requires
        stack_sim(s, w),
        s2.structure(),
        s2.stack == s.stack,
        s2.stack_path == s.stack_path,
        s2.deferred == s.deferred,
        s2.opts == s.opts,
        s2.root_device == s.root_device,
        w2.fs == w.fs,
        forall|h: usize| h < s.stack.len() ==> #[trigger] unread(w2.handles, h) == unread(w.handles, h),
    ensures
        stack_sim(s2, w2),
        below(s2, w2) == below(s, w),
{
    let n = s.stack.len() as int;
    assert forall|i: int| 0 <= i < n implies frame_items(w.fs, s.stack[i], i, w.handles)
        == frame_items(w2.fs, #[trigger] s2.stack[i], i, w2.handles) by {
        assert(unread(w2.handles, i as usize) == unread(w.handles, i as usize));
    }
    assert forall|i: int| 0 <= i < n implies frame_ok(w2.fs, #[trigger] s2.stack[i], i, w2.handles) by {
        assert(frame_ok(w.fs, s.stack[i], i, w.handles));
        assert(frame_items(w.fs, s.stack[i], i, w.handles) == frame_items(
            w2.fs,
            s2.stack[i],
            i,
            w2.handles,
        ));
    }
    assert forall|i: int| 0 <= i < n implies #[trigger] frame_agrees(
        context(s, w),
        s.stack,
        w.handles,
        s.deferred,
        s.stack_path,
        s2.stack,
        w2.handles,
        s2.deferred,
        s2.stack_path,
        i,
    ) by {
        assert(frame_items(w.fs, s.stack[i], i, w.handles) == frame_items(
            w2.fs,
            s2.stack[i],
            i,
            w2.handles,
        ));
    }
    lemma_stack_future_agree(
        context(s, w),
        s.stack,
        w.handles,
        s.deferred,
        s.stack_path,
        s2.stack,
        w2.handles,
        s2.deferred,
        s2.stack_path,
        n,
    );
    assert(context(s2, w2) == context(s, w));
}

/// Handing out an item in a quiet state leaves a state that agrees with the
/// world, and that yields from then on what the walk yields for the stack.
pub proof fn lemma_idle_sim(s: State, w: World, item: ItemView)
    requires
        quiet(s, w),
    ensures
        sim(State { phase: Phase::Idle, ..s }, w.respond(ActionView::Yield(item))),
        future(State { phase: Phase::Idle, ..s }, w.respond(ActionView::Yield(item))) == below(
            s,
            w,
        ),
{
    let s2 = State { phase: Phase::Idle, ..s };
    let w2 = w.respond(ActionView::Yield(item));
    lemma_same_stack(s, w, s2, w2);
}

/// Handing out a record in a quiet state, if its depth is shown.
pub proof fn lemma_emit_sim(s: State, w: World, dent: DirEntryView)
    requires
        quiet(s, w),
    ensures
        match s.emit(dent) {
            Some((s2, a)) => sim(s2, w.respond(a)) && yielded(a) + future(s2, w.respond(a))
                == shown(uncapped(s.opts), dent) + below(s, w) && !(a is Done),
            None => shown(uncapped(s.opts), dent) == Seq::<ItemView>::empty(),
        },
{
    if s.opts.in_window(dent.depth) {
        lemma_idle_sim(s, w, Ok(dent));
    }
}

/// Entering a directory in a quiet state: room is made or the directory is
/// opened, and what is yielded from then on is what the walk yields for
/// entering the directory, and then for the stack.
pub proof fn lemma_begin_push_sim(s: State, w: World, dent: DirEntryView)
    requires
        quiet(s, w),
        dent.file_type.is_dir(),
        dent.depth == s.stack.len(),
        dent.depth < s.opts.max_depth,
    ensures
        sim(s.begin_push(dent).0, w.respond(s.begin_push(dent).1)),
        future(s.begin_push(dent).0, w.respond(s.begin_push(dent).1)) == enter(
            context(s, w),
            anc_of(s),
            dent,
        ) + below(s, w),
        yielded(s.begin_push(dent).1) == Seq::<ItemView>::empty(),
        !(s.begin_push(dent).1 is Done),
{
    let (s2, a) = s.begin_push(dent);
    let w2 = w.respond(a);
    crate::wellformed::lemma_begin_push_wf(s, dent);
    lemma_first_open(s.stack, s.oldest_opened as int);
    lemma_same_stack(s, w, s2, w2);
    assert(anc_of(s2) == anc_of(s));
}

/// Dealing with a record whose type is final, in a quiet state.
pub proof fn lemma_handle_entry_sim(s: State, w: World, dent: DirEntryView)
    requires
        quiet(s, w),
        dent.depth == s.stack.len(),
    ensures
        match s.handle_entry(dent) {
            Some((s2, a)) => sim(s2, w.respond(a)) && yielded(a) + future(s2, w.respond(a))
                == walk_final(context(s, w), anc_of(s), dent) + below(s, w) && !(a is Done),
            None => walk_final(context(s, w), anc_of(s), dent) == Seq::<ItemView>::empty(),
        },
{
    let c = context(s, w);
    if dent.file_type.is_dir() && dent.depth < s.opts.max_depth {
        if s.opts.same_file_system && dent.depth > 0 {
            let s2 = State { phase: Phase::Device, pending: Some(dent), ..s };
            let a = ActionView::Stat { path: dent.path, follow: true };
            let w2 = w.respond(a);
            lemma_same_stack(s, w, s2, w2);
            assert(anc_of(s2) == anc_of(s));
            assert(yielded(a) + future(s2, w2) =~= walk_final(c, anc_of(s), dent) + below(s, w));
        } else {
            lemma_begin_push_sim(s, w, dent);
            let (s2, a) = s.begin_push(dent);
            assert(yielded(a) + future(s2, w.respond(a)) =~= walk_final(c, anc_of(s), dent) + below(
                s,
                w,
            ));
        }
    } else {
        lemma_emit_sim(s, w, dent);
    }
}

/// Dealing with a record as a listing gave it, in a quiet state: either an
/// action comes of it, and what it hands out, with what is yielded after
/// it, is what the walk yields for the record and for the stack; or nothing
/// comes of it, and the walk yields nothing for the record.
pub proof fn lemma_on_entry_sim(s: State, w: World, dent: DirEntryView)
    requires
        quiet(s, w),
        dent.depth == s.stack.len(),
    ensures
        match s.on_entry(dent) {
            Some((s2, a)) => sim(s2, w.respond(a)) && yielded(a) + future(s2, w.respond(a))
                == walk_entry(context(s, w), anc_of(s), dent) + below(s, w) && !(a is Done),
            None => walk_entry(context(s, w), anc_of(s), dent) == Seq::<ItemView>::empty(),
        },
{
    let c = context(s, w);
    if s.opts.follow_links && dent.file_type.is_symlink() {
        let s2 = State { phase: Phase::Follow, pending: Some(dent), ..s };
        let a = ActionView::Stat { path: dent.path, follow: true };
        let w2 = w.respond(a);
        lemma_same_stack(s, w, s2, w2);
        assert(anc_of(s2) == anc_of(s));
        assert(yielded(a) + future(s2, w2) =~= walk_entry(c, anc_of(s), dent) + below(s, w));
    } else {
        lemma_handle_entry_sim(s, w, dent);
    }
}

/// What the walk yields for the stack of a state: for what is left in the
/// directory on top, for the record of that directory if it was kept back,
/// and for the stack below it.
pub proof fn lemma_below_unfold(s: State, w: World)
    requires
        s.stack.len() > 0,
        s.opts.follow_links ==> s.stack_path.len() == s.stack.len(),
    ensures
        below(s, w) == walk_items(
            context(s, w),
            anc_of(s),
            s.stack.last().path,
            frame_items(w.fs, s.stack.last(), s.stack.len() - 1, w.handles),
        ) + (if s.opts.contents_first && s.stack.len() - 1 < s.deferred.len() {
            shown(uncapped(s.opts), s.deferred[s.stack.len() - 1])
        } else {
            Seq::empty()
        }) + stack_future(
            context(s, w),
            s.stack,
            w.handles,
            s.stack_path,
            s.deferred,
            s.stack.len() - 1,
        ),
{
    if s.opts.follow_links {
        assert(s.stack_path.take(s.stack.len() as int) =~= s.stack_path);
    }
}

/// Asking for the next entry of the open directory on top of the stack of a
/// quiet state leaves a state that agrees with the world, and that yields
/// from then on what the walk yields for the stack.
pub proof fn lemma_read_sim(s: State, w: World)
    requires
        quiet(s, w),
        s.stack.len() > 0,
        s.stack.last().open,
    ensures
        sim(
            State { phase: Phase::Read, ..s },
            w.respond(ActionView::ReadDir { handle: (s.stack.len() - 1) as usize }),
        ),
        future(
            State { phase: Phase::Read, ..s },
            w.respond(ActionView::ReadDir { handle: (s.stack.len() - 1) as usize }),
        ) == below(s, w),
{
    let c = context(s, w);
    let n = s.stack.len() as int;
    let i = n - 1;
    let top = s.stack.last();
    let s2 = State { phase: Phase::Read, ..s };
    let w2 = w.respond(ActionView::ReadDir { handle: i as usize });
    let raws = unread(w.handles, i as usize);
    assert(context(s2, w2) == c);
    assert(anc_of(s2) == anc_of(s));
    assert(frame_ok(w.fs, s.stack[i], i, w.handles));
    lemma_below_unfold(s, w);
    lemma_below_unfold(s2, w2);
    if raws.len() == 0 {
        assert(w2.handles == w.handles);
        lemma_same_stack(s, w, s2, w2);
        assert(future(s2, w2) =~= below(s, w));
    } else {
        let head = opt_seq(item_of_raw(w.fs, top.path, n as usize, raws[0]));
        let tail = promote_all(w.fs, top.path, n as usize, raws.skip(1));
        assert(frame_items(w.fs, top, i, w.handles) == head + tail);
        assert(unread(w2.handles, i as usize) == raws.skip(1));
        assert(frame_items(w2.fs, top, i, w2.handles) == tail);
        lemma_valid_items_concat(w.fs, top.path, n as usize, head, tail);
        lemma_walk_items_concat(c, anc_of(s), top.path, head, tail);
        assert forall|j: int| 0 <= j < n implies frame_ok(
            w2.fs,
            #[trigger] s2.stack[j],
            j,
            w2.handles,
        ) by {
            assert(frame_ok(w.fs, s.stack[j], j, w.handles));
            if j != i {
                assert(unread(w2.handles, j as usize) == unread(w.handles, j as usize));
            }
        }
        assert forall|j: int| 0 <= j < i implies #[trigger] frame_agrees(
        context(s, w),
        s.stack,
        w.handles,
        s.deferred,
        s.stack_path,
        s2.stack,
        w2.handles,
        s2.deferred,
        s2.stack_path,
        j,
    ) by {
            assert(unread(w2.handles, j as usize) == unread(w.handles, j as usize));
        }
        lemma_stack_future_agree(
            c,
            s.stack,
            w.handles,
            s.deferred,
            s.stack_path,
            s2.stack,
            w2.handles,
            s2.deferred,
            s2.stack_path,
            i,
        );
        assert(future(s2, w2) == walk_items(c, anc_of(s), top.path, head) + below(s2, w2));
        assert(future(s2, w2) =~= below(s, w));
    }
}

/// The state in which the directory on top of the stack, closed and with
/// nothing left in it, has left the stack, with its record if that was kept
/// back.
pub open spec fn popped(s: State) -> State {
    if s.opts.contents_first && s.deferred.len() > 0 {
        State { deferred: s.deferred.drop_last(), ..s.pop() }
    } else {
        s.pop()
    }
}

/// The record of the directory on top of the stack, if it is kept back and
/// its depth is shown.
pub open spec fn kept(s: State) -> Seq<ItemView> {
    if s.opts.contents_first && s.deferred.len() > 0 {
        shown(uncapped(s.opts), s.deferred.last())
    } else {
        Seq::empty()
    }
}

/// The first `k` directories of a stack are those of the stack without its
/// top, as long as `k` does not reach the top.
pub proof fn lemma_frames_below_top(s: State, w: World, s2: State, k: int)
    requires
        0 <= k < s.stack.len(),
        k <= s2.stack.len(),
        s.structure(),
        s2.opts == s.opts,
        s2.root_device == s.root_device,
        forall|i: int| 0 <= i < k ==> s2.stack[i] == s.stack[i],
        s.opts.follow_links ==> forall|i: int| 0 <= i < k ==> s2.stack_path[i] == s.stack_path[i],
        s.opts.follow_links ==> s2.stack_path.len() >= k,
        s.opts.contents_first ==> forall|i: int| 0 <= i < k ==> s2.deferred[i] == s.deferred[i],
        s.opts.contents_first ==> s2.deferred.len() >= k,
    ensures
        stack_future(context(s, w), s.stack, w.handles, s.stack_path, s.deferred, k)
            == stack_future(context(s2, w), s2.stack, w.handles, s2.stack_path, s2.deferred, k),
{
    let c = context(s, w);
    assert forall|i: int| 0 <= i < k implies #[trigger] frame_agrees(
        context(s, w),
        s.stack,
        w.handles,
        s.deferred,
        s.stack_path,
        s2.stack,
        w.handles,
        s2.deferred,
        s2.stack_path,
        i,
    ) by {
        assert(s2.stack[i] == s.stack[i]);
        if c.opts.follow_links {
            assert(s.stack_path.take(i + 1) =~= s2.stack_path.take(i + 1)) by {
                assert forall|j: int| 0 <= j < i + 1 implies #[trigger] s.stack_path.take(i + 1)[j]
                    == s2.stack_path.take(i + 1)[j] by {
                    assert(s2.stack_path[j] == s.stack_path[j]);
                }
            }
        }
        if c.opts.contents_first {
            assert(s2.deferred[i] == s.deferred[i]);
        }
    }
    lemma_stack_future_agree(
        c,
        s.stack,
        w.handles,
        s.deferred,
        s.stack_path,
        s2.stack,
        w.handles,
        s2.deferred,
        s2.stack_path,
        k,
    );
    assert(context(s2, w) == c);
}

/// Once the directory on top of the stack has nothing left, the walk yields
/// its record, if that was kept back, and then what it yields for the stack
/// below.
pub proof fn lemma_pop_sim(s: State, w: World)
    requires
        quiet(s, w),
        s.stack.len() > 0,
        !s.stack.last().open,
        s.stack.last().rest.len() == 0,
    ensures
        quiet(popped(s), w),
        below(s, w) == kept(s) + below(popped(s), w),
        popped(s).stack == s.stack.drop_last(),
{
    let c = context(s, w);
    let n = s.stack.len() as int;
    let i = n - 1;
    let top = s.stack.last();
    let s3 = popped(s);
    crate::wellformed::lemma_count_open_drop_last(s.stack);
    lemma_below_unfold(s, w);
    assert(walk_items(c, anc_of(s), top.path, top.rest) =~= Seq::empty());
    assert(s3.structure());
    assert forall|j: int| 0 <= j < s3.stack.len() implies frame_ok(
        w.fs,
        #[trigger] s3.stack[j],
        j,
        w.handles,
    ) by {
        assert(frame_ok(w.fs, s.stack[j], j, w.handles));
    }
    if s.opts.follow_links {
        assert forall|j: int| 0 <= j < s3.stack.len() implies #[trigger] s3.stack_path[j]
            == s3.stack[j].path by {
            assert(s.stack_path[j] == s.stack[j].path);
        }
    }
    lemma_frames_below_top(s, w, s3, i);
    assert(below(s3, w) == stack_future(c, s.stack, w.handles, s.stack_path, s.deferred, i));
    assert(below(s, w) =~= kept(s) + below(s3, w));
}

/// Once the first item left in the directory on top of the stack is taken,
/// the walk yields for the stack what it yields for that item, and then
/// what it yields for the stack that is left.
pub proof fn lemma_consume_sim(s: State, w: World)
    requires
        quiet(s, w),
        s.stack.len() > 0,
        !s.stack.last().open,
        s.stack.last().rest.len() > 0,
    ensures
        quiet(s.consume(), w),
        below(s, w) == walk_taken(context(s, w), anc_of(s), s.stack.last().rest[0]) + below(
            s.consume(),
            w,
        ),
        match s.stack.last().rest[0] {
            Ok(dent) => dent.depth == s.stack.len(),
            Err(e) => true,
        },
        anc_of(s.consume()) == anc_of(s),
        context(s.consume(), w) == context(s, w),
{
    let c = context(s, w);
    let n = s.stack.len() as int;
    let i = n - 1;
    let top = s.stack.last();
    let s1 = s.consume();
    lemma_count_open_update(s.stack, i, ListView { rest: top.rest.skip(1), ..top });
    assert(frame_ok(w.fs, s.stack[i], i, w.handles));
    assert(valid_items(w.fs, top.path, n as usize, top.rest));
    lemma_valid_items_skip(w.fs, top.path, n as usize, top.rest);
    assert(s1.structure()) by {
        assert forall|j: int| 0 <= j < s1.oldest_opened implies !(#[trigger] s1.stack[j]).open by {
            assert(!s.stack[j].open);
        }
    }
    assert forall|j: int| 0 <= j < s1.stack.len() implies frame_ok(
        w.fs,
        #[trigger] s1.stack[j],
        j,
        w.handles,
    ) by {
        assert(frame_ok(w.fs, s.stack[j], j, w.handles));
    }
    if s.opts.follow_links {
        assert forall|j: int| 0 <= j < s1.stack.len() implies #[trigger] s1.stack_path[j]
            == s1.stack[j].path by {
            assert(s.stack_path[j] == s.stack[j].path);
        }
    }
    lemma_below_unfold(s, w);
    lemma_below_unfold(s1, w);
    lemma_frames_below_top(s, w, s1, i);
    assert(context(s1, w) == c);
    assert(anc_of(s1) == anc_of(s));
    let first = walk_item(c, anc_of(s), top.path, top.rest[0]);
    let tail_future = walk_items(c, anc_of(s), top.path, top.rest.skip(1));
    assert(walk_items(c, anc_of(s), top.path, top.rest) == first + tail_future);
    assert(first == walk_taken(c, anc_of(s), top.rest[0])) by {
        match top.rest[0] {
            Ok(dent) => {
                assert((w.fs.height)(dent.path) < (w.fs.height)(top.path));
            },
            Err(e) => {},
        }
    }
    assert(frame_items(w.fs, s1.stack.last(), i, w.handles) == top.rest.skip(1));
    assert(s1.stack.last().path == top.path);
    assert(below(s, w) =~= walk_taken(c, anc_of(s), top.rest[0]) + below(s1, w));
}

/// Advancing from a quiet state: what the action hands out, with what is
/// yielded after it, is what the walk yields for the stack.
pub proof fn lemma_advance_sim(s: State, w: World)
    requires
        quiet(s, w),
    ensures
        sim(s.advance().0, w.respond(s.advance().1)),
        yielded(s.advance().1) + future(s.advance().0, w.respond(s.advance().1)) == below(s, w),
        s.advance().1 is Done ==> below(s, w).len() == 0,
    decreases s.stack.len(), s.stack.last().rest.len(),
{
    let (s2, a) = s.advance();
    let w2 = w.respond(a);
    crate::wellformed::lemma_advance_wf(s);
    if s.stack.len() == 0 {
        assert(below(s, w) =~= Seq::empty());
        assert(yielded(a) + future(s2, w2) =~= Seq::empty());
        lemma_same_stack(s, w, s2, w2);
    } else {
        let top = s.stack.last();
        if top.open {
            lemma_read_sim(s, w);
            assert(yielded(a) + future(s2, w2) =~= below(s, w));
        } else if top.rest.len() == 0 {
            lemma_pop_sim(s, w);
            let s3 = popped(s);
            if s.opts.contents_first && s.deferred.len() > 0 {
                let dir = s.deferred.last();
                lemma_emit_sim(s3, w, dir);
                match s3.emit(dir) {
                    Some((s4, a4)) => {},
                    None => {
                        lemma_advance_sim(s3, w);
                        assert(below(s, w) =~= below(s3, w));
                    },
                }
            } else {
                lemma_advance_sim(s3, w);
                assert(below(s, w) =~= below(s3, w));
            }
        } else {
            lemma_consume_sim(s, w);
            let s1 = s.consume();
            match top.rest[0] {
                Err(e) => {
                    lemma_idle_sim(s1, w, Err(e));
                    assert(yielded(a) + future(s2, w2) =~= below(s, w));
                },
                Ok(dent) => {
                    lemma_on_entry_sim(s1, w, dent);
                    match s1.on_entry(dent) {
                        Some(r) => {},
                        None => {
                            lemma_advance_sim(s1, w);
                            assert(below(s1, w) =~= below(s, w));
                        },
                    }
                },
            }
        }
    }
}

/// What came of dealing with something in a quiet state, or else advancing:
/// what the action hands out, with what is yielded after it, is what was
/// expected for what was dealt with, and then what the walk yields for the
/// stack.
pub proof fn lemma_finish_sim(
    s: State,
    w: World,
    r: Option<(State, ActionView)>,
    expected: Seq<ItemView>,
)
    requires
        quiet(s, w),
        match r {
            Some((s2, a)) => sim(s2, w.respond(a)) && yielded(a) + future(s2, w.respond(a))
                == expected + below(s, w) && !(a is Done),
            None => expected == Seq::<ItemView>::empty(),
        },
    ensures
        sim(s.finish(r).0, w.respond(s.finish(r).1)),
        yielded(s.finish(r).1) + future(s.finish(r).0, w.respond(s.finish(r).1)) == expected
            + below(s, w),
        s.finish(r).1 is Done ==> (expected + below(s, w)).len() == 0,
{
    match r {
        Some(r) => {},
        None => {
            lemma_advance_sim(s, w);
            assert(expected + below(s, w) =~= below(s, w));
        },
    }
}

/// Holding the target of a link against the directories below place `k`,
/// in a quiet state.
pub proof fn lemma_check_loop_sim(s: State, w: World, target: DirEntryView, k: int)
    requires
        quiet(s, w),
        s.opts.follow_links,
        target.depth == s.stack.len(),
        k <= s.stack_path.len(),
    ensures
        sim(s.check_loop(target, k).0, w.respond(s.check_loop(target, k).1)),
        yielded(s.check_loop(target, k).1) + future(
            s.check_loop(target, k).0,
            w.respond(s.check_loop(target, k).1),
        ) == walk_checked(context(s, w), anc_of(s), target, k) + below(s, w),
        s.check_loop(target, k).1 is Done ==> (walk_checked(context(s, w), anc_of(s), target, k)
            + below(s, w)).len() == 0,
{
    let c = context(s, w);
    if 0 < k <= s.stack_path.len() {
        let s2 = State { phase: Phase::Same, pending: Some(target), check: (k - 1) as usize, ..s };
        let a = ActionView::SameFile { ancestor: s.stack_path[k - 1], child: target.path };
        let w2 = w.respond(a);
        lemma_same_stack(s, w, s2, w2);
        assert(anc_of(s2) == anc_of(s));
        assert(yielded(a) + future(s2, w2) =~= walk_checked(c, anc_of(s), target, k) + below(s, w));
    } else {
        lemma_handle_entry_sim(s, w, target);
        lemma_finish_sim(s, w, s.handle_entry(target), walk_final(c, anc_of(s), target));
    }
}

/// Putting a directory on the stack of a quiet state: what the action hands
/// out, with what is yielded after it, is what the walk yields for the
/// directory and for the stack.
pub proof fn lemma_push_listing_sim(s: State, w: World, dent: DirEntryView, list: ListView)
    requires
        quiet(s, w),
        count_open(s.stack) < s.opts.max_open,
        s.stack.len() < s.opts.max_depth,
        dent.depth == s.stack.len(),
        list.path == dent.path,
        frame_ok(w.fs, list, s.stack.len() as int, w.handles),
    ensures
        sim(s.push_listing(dent, list).0, w.respond(s.push_listing(dent, list).1)),
        yielded(s.push_listing(dent, list).1) + future(
            s.push_listing(dent, list).0,
            w.respond(s.push_listing(dent, list).1),
        ) == place(
            uncapped(s.opts),
            dent,
            walk_items(
                context(s, w),
                child_anc(s.opts, anc_of(s), dent),
                dent.path,
                frame_items(w.fs, list, s.stack.len() as int, w.handles),
            ),
        ) + below(s, w),
        s.push_listing(dent, list).1 is Done ==> (place(
            uncapped(s.opts),
            dent,
            walk_items(
                context(s, w),
                child_anc(s.opts, anc_of(s), dent),
                dent.path,
                frame_items(w.fs, list, s.stack.len() as int, w.handles),
            ),
        ) + below(s, w)).len() == 0,
{
    let c = context(s, w);
    let n = s.stack.len() as int;
    crate::wellformed::lemma_count_open_push(s.stack, list);
    let s1 = State {
        phase: Phase::Idle,
        stack: s.stack.push(list),
        stack_path: if s.opts.follow_links {
            s.stack_path.push(dent.path)
        } else {
            s.stack_path
        },
        ..s
    };
    let s2 = if s.opts.contents_first {
        State { deferred: s.deferred.push(dent), ..s1 }
    } else {
        s1
    };
    let inner = walk_items(
        c,
        child_anc(s.opts, anc_of(s), dent),
        dent.path,
        frame_items(w.fs, list, n, w.handles),
    );
    assert(s2.structure()) by {
        assert forall|j: int| 0 <= j < s2.oldest_opened implies !(#[trigger] s2.stack[j]).open by {
            assert(!s.stack[j].open);
        }
    }
    assert forall|j: int| 0 <= j < s2.stack.len() implies frame_ok(
        w.fs,
        #[trigger] s2.stack[j],
        j,
        w.handles,
    ) by {
        if j < n {
            assert(frame_ok(w.fs, s.stack[j], j, w.handles));
        }
    }
    if s.opts.follow_links {
        assert forall|j: int| 0 <= j < s2.stack.len() implies #[trigger] s2.stack_path[j]
            == s2.stack[j].path by {
            if j < n {
                assert(s.stack_path[j] == s.stack[j].path);
            }
        }
    }
    assert(quiet(s2, w));
    assert(anc_of(s2) == child_anc(s.opts, anc_of(s), dent));
    lemma_below_unfold(s2, w);
    lemma_frames_below_top(s2, w, s, n);
    assert(context(s2, w) == c);
    let own = shown(c.opts, dent);
    if s.opts.contents_first {
        assert(below(s2, w) =~= inner + own + below(s, w));
        lemma_advance_sim(s2, w);
        assert(inner + own + below(s, w) =~= place(c.opts, dent, inner) + below(s, w));
    } else {
        assert(below(s2, w) =~= inner + below(s, w));
        lemma_emit_sim(s2, w, dent);
        match s2.emit(dent) {
            Some((s3, a)) => {
                assert(own + (inner + below(s, w)) =~= place(c.opts, dent, inner) + below(s, w));
            },
            None => {
                lemma_advance_sim(s2, w);
                assert(below(s2, w) =~= place(c.opts, dent, inner) + below(s, w));
            },
        }
    }
}

/// A state that agrees with the world, has no directory left to close and
/// has asked for its root, is quiet, and stays so when it lets go of the
/// record that it is dealing with.
pub proof fn lemma_sim_quiet(s: State, w: World)
    requires
        sim(s, w),
        s.closing.len() == 0,
        s.start.is_none(),
    ensures
        quiet(s, w),
        quiet(State { pending: None, ..s }, w),
        quiet(State { typing: None, ..s }, w),
        quiet(State { pending: None, promoted: Seq::empty(), ..s }, w),
        below(State { pending: None, ..s }, w) == below(s, w),
        below(State { typing: None, ..s }, w) == below(s, w),
        below(State { pending: None, promoted: Seq::empty(), ..s }, w) == below(s, w),
{
    lemma_same_stack(s, w, State { pending: None, ..s }, w);
    lemma_same_stack(s, w, State { typing: None, ..s }, w);
    lemma_same_stack(s, w, State { pending: None, promoted: Seq::empty(), ..s }, w);
}

proof fn lemma_step_idle(s: State, w: World)
    requires
        sim(s, w),
        s.phase == Phase::Idle,
    ensures
        sim(s.step(w.event).0, w.respond(s.step(w.event).1)),
        yielded(s.step(w.event).1) + future(s.step(w.event).0, w.respond(s.step(w.event).1))
            == future(s, w),
        s.step(w.event).1 is Done ==> future(s, w).len() == 0,
{
    let (s2, a) = s.step(w.event);
    let w2 = w.respond(a);
    lemma_step_wf(s, w.event);
    if s.closing.len() > 0 {
        lemma_same_stack(s, w, s2, w2);
        assert(yielded(a) + future(s2, w2) =~= future(s, w));
    } else {
        match s.start {
            Some(root) => {
                lemma_same_stack(s, w, s2, w2);
                assert(yielded(a) + future(s2, w2) =~= future(s, w));
            },
            None => {
                lemma_sim_quiet(s, w);
                lemma_advance_sim(s, w);
            },
        }
    }
}

proof fn lemma_step_root_stat(s: State, w: World)
    requires
        sim(s, w),
        s.phase == Phase::RootStat,
    ensures
        sim(s.step(w.event).0, w.respond(s.step(w.event).1)),
        yielded(s.step(w.event).1) + future(s.step(w.event).0, w.respond(s.step(w.event).1))
            == future(s, w),
        s.step(w.event).1 is Done ==> future(s, w).len() == 0,
{
    let (s2, a) = s.step(w.event);
    let w2 = w.respond(a);
    let root = s.pending.unwrap();
    let s0 = State { pending: None, ..s };
    lemma_sim_quiet(s, w);
    assert(below(s0, w) =~= Seq::empty());
    match expect_stat(w.event) {
        Err(e) => {
            lemma_idle_sim(s0, w, Err(ErrorView::from_path(0, root.path, e)));
            assert(yielded(a) + future(s2, w2) =~= future(s, w));
        },
        Ok(md) => {
            if s.opts.same_file_system && md.dev.is_none() {
                lemma_idle_sim(
                    s0,
                    w,
                    Err(ErrorView::from_path(0, root.path, IoError::Unsupported)),
                );
                assert(yielded(a) + future(s2, w2) =~= future(s, w));
            } else {
                let s1 = State { root_device: md.dev, ..s0 };
                let dent = root.with_stat(md);
                assert(s1.stack =~= Seq::empty());
                assert(quiet(s1, w));
                assert(below(s1, w) =~= Seq::empty());
                let c = context(s1, w);
                assert(anc_of(s1) =~= Seq::empty());
                lemma_handle_entry_sim(s1, w, dent);
                lemma_finish_sim(s1, w, s1.handle_entry(dent), walk_final(c, anc_of(s1), dent));
                assert(future(s, w) == walk_final(c, Seq::empty(), dent));
                assert(walk_final(c, anc_of(s1), dent) + below(s1, w) =~= future(s, w));
            }
        },
    }
}

proof fn lemma_step_read(s: State, w: World)
    requires
        sim(s, w),
        s.phase == Phase::Read,
    ensures
        sim(s.step(w.event).0, w.respond(s.step(w.event).1)),
        yielded(s.step(w.event).1) + future(s.step(w.event).0, w.respond(s.step(w.event).1))
            == future(s, w),
        s.step(w.event).1 is Done ==> future(s, w).len() == 0,
{
    let (s2, a) = s.step(w.event);
    let w2 = w.respond(a);
    let c = context(s, w);
    let n = s.stack.len() as int;
    let i = n - 1;
    let top = s.stack.last();
    let anc = anc_of(s);
    lemma_sim_quiet(s, w);
    lemma_step_wf(s, w.event);
    match expect_read(w.event) {
        None => {
            assert(context(s2, w2) == c);
            lemma_below_unfold(s, w);
            lemma_below_unfold(s2, w2);
            assert(frame_items(w.fs, top, i, w.handles) =~= Seq::empty());
            assert forall|j: int| 0 <= j < n implies frame_ok(
                w2.fs,
                #[trigger] s2.stack[j],
                j,
                w2.handles,
            ) by {
                assert(frame_ok(w.fs, s.stack[j], j, w.handles));
            }
            if s.opts.follow_links {
                assert forall|j: int| 0 <= j < n implies #[trigger] s2.stack_path[j]
                    == s2.stack[j].path by {
                    assert(s.stack_path[j] == s.stack[j].path);
                }
            }
            lemma_frames_below_top(s, w, s2, i);
            assert(anc_of(s2) == anc);
            assert(below(s2, w2) == below(s, w));
            assert(yielded(a) + future(s2, w2) =~= future(s, w));
        },
        Some(raw) => {
            let item = item_of_raw(w.fs, top.path, n as usize, raw);
            match item {
                None => {
                    lemma_walk_items_one(c, anc, top.path, Ok(root_entry(Seq::empty())));
                    assert(opt_seq(item) =~= Seq::empty());
                    lemma_advance_sim(s, w);
                    assert(future(s, w) =~= below(s, w));
                },
                Some(it) => {
                    assert(opt_seq(item)[0] == it);
                    lemma_walk_items_one(c, anc, top.path, it);
                    assert(future(s, w) == walk_item(c, anc, top.path, it) + below(s, w));
                    match raw {
                        Err(e) => {
                            lemma_idle_sim(s, w, it);
                            assert(yielded(a) + future(s2, w2) =~= future(s, w));
                        },
                        Ok(r) => {
                            match r.file_type {
                                Some(ft) => {
                                    let dent = spec_from_raw(top.path, r, ft, n as usize);
                                    assert(walk_item(c, anc, top.path, it) == walk_entry(
                                        c,
                                        anc,
                                        dent,
                                    ));
                                    lemma_on_entry_sim(s, w, dent);
                                    lemma_finish_sim(
                                        s,
                                        w,
                                        s.on_entry(dent),
                                        walk_entry(c, anc, dent),
                                    );
                                },
                                None => {
                                    let t = spec_from_raw(
                                        top.path,
                                        r,
                                        FileType(FileKind::Other),
                                        n as usize,
                                    );
                                    assert(it == typed_item(w.fs, t));
                                    lemma_same_stack(s, w, s2, w2);
                                    assert(anc_of(s2) == anc);
                                    assert(walk_item(c, anc, top.path, it) == walk_taken(
                                        c,
                                        anc,
                                        it,
                                    ));
                                    assert(yielded(a) + future(s2, w2) =~= future(s, w));
                                },
                            }
                        },
                    }
                },
            }
        },
    }
}

proof fn lemma_step_type(s: State, w: World)
    requires
        sim(s, w),
        s.phase == Phase::Type,
    ensures
        sim(s.step(w.event).0, w.respond(s.step(w.event).1)),
        yielded(s.step(w.event).1) + future(s.step(w.event).0, w.respond(s.step(w.event).1))
            == future(s, w),
        s.step(w.event).1 is Done ==> future(s, w).len() == 0,
{
    let (s2, a) = s.step(w.event);
    let w2 = w.respond(a);
    let c = context(s, w);
    let t = s.typing.unwrap();
    let s0 = State { typing: None, ..s };
    lemma_sim_quiet(s, w);
    assert(anc_of(s0) == anc_of(s) && context(s0, w) == c);
    match expect_stat(w.event) {
        Err(e) => {
            lemma_idle_sim(s0, w, Err(ErrorView::from_path(t.depth, t.path, e)));
            assert(yielded(a) + future(s2, w2) =~= future(s, w));
        },
        Ok(md) => {
            let dent = t.with_type(md.file_type);
            lemma_on_entry_sim(s0, w, dent);
            lemma_finish_sim(s0, w, s0.on_entry(dent), walk_entry(c, anc_of(s), dent));
        },
    }
}

proof fn lemma_step_follow(s: State, w: World)
    requires
        sim(s, w),
        s.phase == Phase::Follow,
    ensures
        sim(s.step(w.event).0, w.respond(s.step(w.event).1)),
        yielded(s.step(w.event).1) + future(s.step(w.event).0, w.respond(s.step(w.event).1))
            == future(s, w),
        s.step(w.event).1 is Done ==> future(s, w).len() == 0,
{
    let (s2, a) = s.step(w.event);
    let w2 = w.respond(a);
    let c = context(s, w);
    let dent = s.pending.unwrap();
    let s0 = State { pending: None, ..s };
    let anc = anc_of(s);
    lemma_sim_quiet(s, w);
    assert(anc_of(s0) == anc && context(s0, w) == c);
    match expect_stat(w.event) {
        Err(e) => {
            lemma_idle_sim(s0, w, Err(ErrorView::from_path(dent.depth, dent.path, e)));
            assert(yielded(a) + future(s2, w2) =~= future(s, w));
        },
        Ok(md) => {
            let target = dent.followed(md);
            if target.file_type.is_dir() {
                lemma_check_loop_sim(s0, w, target, s0.stack_path.len() as int);
                assert(walk_entry(c, anc, dent) == walk_checked(c, anc, target, anc.len() as int));
            } else {
                lemma_handle_entry_sim(s0, w, target);
                lemma_finish_sim(s0, w, s0.handle_entry(target), walk_final(c, anc, target));
            }
        },
    }
}

proof fn lemma_step_same(s: State, w: World)
    requires
        sim(s, w),
        s.phase == Phase::Same,
    ensures
        sim(s.step(w.event).0, w.respond(s.step(w.event).1)),
        yielded(s.step(w.event).1) + future(s.step(w.event).0, w.respond(s.step(w.event).1))
            == future(s, w),
        s.step(w.event).1 is Done ==> future(s, w).len() == 0,
{
    let (s2, a) = s.step(w.event);
    let w2 = w.respond(a);
    let c = context(s, w);
    let target = s.pending.unwrap();
    let s0 = State { pending: None, ..s };
    let anc = anc_of(s);
    let k = s.check as int;
    lemma_sim_quiet(s, w);
    assert(anc_of(s0) == anc && context(s0, w) == c);
    assert(anc == s.stack_path);
    assert(0 < k + 1 <= anc.len());
    match (w.fs.same)(anc[k], target.path) {
        Err(e) => {
            lemma_idle_sim(s0, w, Err(ErrorView::from_io(target.depth, e)));
            assert(yielded(a) + future(s2, w2) =~= future(s, w));
        },
        Ok(same) => {
            if same {
                lemma_idle_sim(
                    s0,
                    w,
                    Err(ErrorView::from_loop(target.depth, anc[k], target.path)),
                );
                assert(yielded(a) + future(s2, w2) =~= future(s, w));
            } else {
                lemma_check_loop_sim(s0, w, target, k);
                assert(walk_checked(c, anc, target, k + 1) == walk_checked(c, anc, target, k));
            }
        },
    }
}

proof fn lemma_step_device(s: State, w: World)
    requires
        sim(s, w),
        s.phase == Phase::Device,
    ensures
        sim(s.step(w.event).0, w.respond(s.step(w.event).1)),
        yielded(s.step(w.event).1) + future(s.step(w.event).0, w.respond(s.step(w.event).1))
            == future(s, w),
        s.step(w.event).1 is Done ==> future(s, w).len() == 0,
{
    let (s2, a) = s.step(w.event);
    let w2 = w.respond(a);
    let c = context(s, w);
    let dent = s.pending.unwrap();
    let s0 = State { pending: None, ..s };
    let anc = anc_of(s);
    lemma_sim_quiet(s, w);
    assert(anc_of(s0) == anc && context(s0, w) == c);
    match expect_stat(w.event) {
        Err(e) => {
            lemma_idle_sim(s0, w, Err(ErrorView::from_path(dent.depth, dent.path, e)));
            assert(yielded(a) + future(s2, w2) =~= future(s, w));
        },
        Ok(md) => {
            if md.dev == s.root_device {
                lemma_begin_push_sim(s0, w, dent);
                assert(yielded(a) + future(s2, w2) =~= future(s, w));
            } else {
                lemma_emit_sim(s0, w, dent);
                lemma_finish_sim(s0, w, s0.emit(dent), shown(c.opts, dent));
            }
        },
    }
}

/// The state `ss` is the state `s` but for what putting a directory in
/// order changes.
pub open spec fn sorting_from(s: State, ss: State) -> bool {
    ss == (State {
        phase: ss.phase,
        typing: ss.typing,
        drained: ss.drained,
        promoted: ss.promoted,
        sorted: ss.sorted,
        queue: ss.queue,
        inserting: ss.inserting,
        lo: ss.lo,
        hi: ss.hi,
        ..s
    })
}

/// What holds of the state from which a directory is put in order: it
/// agrees with the world as far as its stack goes, and the directory that
/// is to be entered can be listed and is put in order.
pub open spec fn sort_base(s: State, w: World) -> bool {
    &&& s.wf()
    &&& stack_sim(s, w)
    &&& sorting_ok(s, w)
    &&& s.closing.len() == 0
    &&& s.start.is_none()
    &&& count_open(s.stack) < s.opts.max_open
}

/// Goes on with putting a directory in order: whether the next record asks
/// how it stands to another, or the directory goes on the stack, the state
/// that is left agrees with the world, and what is yielded from then on is
/// what the walk yields for entering the directory, and then for the stack.
proof fn lemma_sort_next_sim(s: State, w: World, ss: State)
    requires
        sort_base(s, w),
        sorting_from(s, ss),
        as_items(sort_into(w.fs.compare, ss.sorted, ss.queue)) + ss.promoted == arrange(
            w.fs,
            s.opts,
            listed(s, w),
        ),
        ss.sort_next().0.wf(),
    ensures
        sim(ss.sort_next().0, w.respond(ss.sort_next().1)),
        yielded(ss.sort_next().1) + future(ss.sort_next().0, w.respond(ss.sort_next().1))
            == enter(context(s, w), anc_of(s), s.pending.unwrap()) + below(s, w),
        ss.sort_next().1 is Done ==> (enter(context(s, w), anc_of(s), s.pending.unwrap()) + below(
            s,
            w,
        )).len() == 0,
    decreases 2 * ss.queue.len() + 1,
{
    let c = context(s, w);
    let n = s.stack.len() as int;
    let dent = s.pending.unwrap();
    let anc = anc_of(s);
    if ss.queue.len() == 0 {
        let s0 = State { pending: None, promoted: Seq::empty(), sorted: Seq::empty(), ..ss };
        let list = ListView {
            path: dent.path,
            open: false,
            rest: as_items(ss.sorted) + ss.promoted,
        };
        lemma_same_stack(s, w, s0, w);
        assert(anc_of(s0) == anc && context(s0, w) == c);
        assert(child_depth(dent.depth) == (n + 1) as usize);
        lemma_list_valid(w.fs, dent.path, (n + 1) as usize);
        lemma_arrange_valid(w.fs, s.opts, dent.path, (n + 1) as usize, listed(s, w));
        assert(list.rest == arrange(w.fs, uncapped(s.opts), listed(s, w)));
        lemma_push_listing_sim(s0, w, dent, list);
        assert(inside(c, anc, dent) == walk_items(
            c,
            child_anc(s.opts, anc, dent),
            dent.path,
            frame_items(w.fs, list, n, w.handles),
        ));
    } else {
        let sb = State {
            inserting: Some(ss.queue[0]),
            queue: ss.queue.skip(1),
            lo: 0,
            hi: ss.sorted.len() as usize,
            ..ss
        };
        lemma_bisect_sim(s, w, sb);
    }
}

/// Looks for the place of a record among those in order, as
/// `lemma_sort_next_sim` goes on.
proof fn lemma_bisect_sim(s: State, w: World, ss: State)
    requires
        sort_base(s, w),
        sorting_from(s, ss),
        ss.inserting is Some,
        as_items(
            sort_into(
                w.fs.compare,
                ss.sorted.insert(
                    bisect_at(
                        w.fs.compare,
                        ss.sorted,
                        ss.inserting.unwrap(),
                        ss.lo as int,
                        ss.hi as int,
                    ),
                    ss.inserting.unwrap(),
                ),
                ss.queue,
            ),
        ) + ss.promoted == arrange(w.fs, s.opts, listed(s, w)),
        ss.bisect().0.wf(),
    ensures
        sim(ss.bisect().0, w.respond(ss.bisect().1)),
        yielded(ss.bisect().1) + future(ss.bisect().0, w.respond(ss.bisect().1)) == enter(
            context(s, w),
            anc_of(s),
            s.pending.unwrap(),
        ) + below(s, w),
        ss.bisect().1 is Done ==> (enter(context(s, w), anc_of(s), s.pending.unwrap()) + below(
            s,
            w,
        )).len() == 0,
    decreases 2 * ss.queue.len() + 2,
{
    let c = context(s, w);
    let dent = s.pending.unwrap();
    let x = ss.inserting.unwrap();
    if ss.lo < ss.hi && ss.hi <= ss.sorted.len() {
        let s2 = State { phase: Phase::Compare, ..ss };
        let a = ActionView::Compare { a: x, b: ss.sorted[ss.middle()] };
        let w2 = w.respond(a);
        lemma_same_stack(s, w, s2, w2);
        assert(anc_of(s2) == anc_of(s));
        assert(listed(s2, w2) == listed(s, w));
        assert(yielded(a) + future(s2, w2) =~= enter(c, anc_of(s), dent) + below(s, w));
    } else {
        let at = if ss.lo <= ss.sorted.len() {
            ss.lo as int
        } else {
            ss.sorted.len() as int
        };
        assert(at == bisect_at(w.fs.compare, ss.sorted, x, ss.lo as int, ss.hi as int));
        let sn = State { sorted: ss.sorted.insert(at, x), inserting: None, ..ss };
        lemma_sort_next_sim(s, w, sn);
    }
}

/// Making records of the entries read from a directory, from a state whose
/// stack agrees with the world: whether it waits for the type of an entry
/// or ends, the state that it leaves agrees with the world, and what is
/// yielded from then on is what the walk yields for entering the directory
/// that is to be entered, and then for the stack.
proof fn lemma_drained_sim(s: State, w: World, sd: State)
    requires
        s.wf(),
        stack_sim(s, w),
        pending_ok(s),
        s.closing.len() == 0,
        s.start.is_none(),
        sd.phase == Phase::Evict || sd.phase == Phase::SortDrain,
        sd.phase == Phase::Evict ==> s.evicting(),
        sd.phase == Phase::SortDrain ==> sorting_ok(s, w) && count_open(s.stack)
            < s.opts.max_open,
        sd == (State {
            phase: sd.phase,
            typing: sd.typing,
            drained: sd.drained,
            promoted: sd.promoted,
            ..s
        }),
        sd.promoted + promote_all(w.fs, sd.drain_dir(), sd.drain_depth(), sd.drained)
            == drain_total(sd, w),
        sd.promote().0.wf(),
    ensures
        sim(sd.promote().0, w.respond(sd.promote().1)),
        yielded(sd.promote().1) + future(sd.promote().0, w.respond(sd.promote().1)) == enter(
            context(s, w),
            anc_of(s),
            s.pending.unwrap(),
        ) + below(s, w),
        sd.promote().1 is Done ==> (enter(context(s, w), anc_of(s), s.pending.unwrap()) + below(
            s,
            w,
        )).len() == 0,
{
    let (s2, a) = sd.promote();
    let w2 = w.respond(a);
    let c = context(s, w);
    let n = s.stack.len() as int;
    let dent = s.pending.unwrap();
    let total = drain_total(sd, w);
    let dir = sd.drain_dir();
    let depth = sd.drain_depth();
    lemma_promote_sim(sd, w.fs, total);
    if untyped(sd.drained) > 0 {
        lemma_same_stack(s, w, s2, w2);
        assert(anc_of(s2) == anc_of(s));
        assert(s2.drain_dir() == dir && s2.drain_depth() == depth);
        assert(source_raws(s2, w2) == source_raws(sd, w));
        assert(drain_total(s2, w2) == total);
        assert(yielded(a) + future(s2, w2) =~= enter(c, anc_of(s), dent) + below(s, w));
    } else {
        let done = State { drained: Seq::empty(), promoted: total, ..sd };
        assert((s2, a) == done.finish_promote());
        if sd.phase == Phase::SortDrain {
            let ss = State {
                sorted: Seq::empty(),
                queue: oks(total),
                promoted: errs(total),
                ..done
            };
            assert(listed(s, w) == total);
            assert(sort_of(w.fs.compare, oks(total)) == sort_into(
                w.fs.compare,
                ss.sorted,
                ss.queue,
            ));
            lemma_sort_next_sim(s, w, ss);
        } else {
            let victim = s.oldest_opened as int;
            let list = s.stack[victim];
            assert(frame_ok(w.fs, s.stack[victim], victim, w.handles));
            assert(dir == list.path);
            assert(depth == (victim + 1) as usize);
            assert(total == frame_items(w.fs, list, victim, w.handles));
            assert(s2.stack == s.stack.update(
                victim,
                ListView { open: false, rest: total, ..list },
            ));
            assert(a == ActionView::OpenDir { path: dent.path, handle: n as usize });
            assert(context(s2, w2) == c);
            assert(anc_of(s2) == anc_of(s));
            assert forall|j: int| 0 <= j < n implies frame_items(w.fs, s.stack[j], j, w.handles)
                == frame_items(w2.fs, #[trigger] s2.stack[j], j, w2.handles) by {
                assert(unread(w2.handles, j as usize) == unread(w.handles, j as usize));
            }
            assert forall|j: int| 0 <= j < n implies frame_ok(
                w2.fs,
                #[trigger] s2.stack[j],
                j,
                w2.handles,
            ) by {
                assert(frame_ok(w.fs, s.stack[j], j, w.handles));
                assert(frame_items(w.fs, s.stack[j], j, w.handles) == frame_items(
                    w2.fs,
                    s2.stack[j],
                    j,
                    w2.handles,
                ));
            }
            if s.opts.follow_links {
                assert forall|j: int| 0 <= j < n implies #[trigger] s2.stack_path[j]
                    == s2.stack[j].path by {
                    assert(s.stack_path[j] == s.stack[j].path);
                }
            }
            assert forall|j: int| 0 <= j < n implies #[trigger] frame_agrees(
                context(s, w),
                s.stack,
                w.handles,
                s.deferred,
                s.stack_path,
                s2.stack,
                w2.handles,
                s2.deferred,
                s2.stack_path,
                j,
            ) by {
                assert(frame_items(w.fs, s.stack[j], j, w.handles) == frame_items(
                    w2.fs,
                    s2.stack[j],
                    j,
                    w2.handles,
                ));
            }
            lemma_stack_future_agree(
                c,
                s.stack,
                w.handles,
                s.deferred,
                s.stack_path,
                s2.stack,
                w2.handles,
                s2.deferred,
                s2.stack_path,
                n,
            );
            assert(below(s2, w2) == below(s, w));
            assert(yielded(a) + future(s2, w2) =~= enter(c, anc_of(s), dent) + below(s, w));
        }
    }
}

proof fn lemma_step_drain(s: State, w: World)
    requires
        sim(s, w),
        s.phase == Phase::Evict || s.phase == Phase::SortDrain,
    ensures
        sim(s.step(w.event).0, w.respond(s.step(w.event).1)),
        yielded(s.step(w.event).1) + future(s.step(w.event).0, w.respond(s.step(w.event).1))
            == future(s, w),
        s.step(w.event).1 is Done ==> future(s, w).len() == 0,
{
    let raws = source_raws(s, w);
    let sd = State { drained: raws, promoted: Seq::empty(), ..s };
    lemma_step_wf(s, w.event);
    assert(s.step(w.event) == sd.promote());
    assert(sd.drain_dir() == s.drain_dir() && sd.drain_depth() == s.drain_depth());
    assert(source_raws(sd, w) == raws);
    assert(Seq::<ItemView>::empty() + drain_total(sd, w) =~= drain_total(sd, w));
    lemma_drained_sim(s, w, sd);
}

proof fn lemma_step_drain_type(s: State, w: World)
    requires
        sim(s, w),
        s.phase == Phase::EvictType || s.phase == Phase::SortType,
    ensures
        sim(s.step(w.event).0, w.respond(s.step(w.event).1)),
        yielded(s.step(w.event).1) + future(s.step(w.event).0, w.respond(s.step(w.event).1))
            == future(s, w),
        s.step(w.event).1 is Done ==> future(s, w).len() == 0,
{
    let t = s.typing.unwrap();
    let item = typed_item(w.fs, t);
    let sd = State {
        typing: None,
        promoted: s.promoted.push(item),
        phase: if s.phase == Phase::SortType {
            Phase::SortDrain
        } else {
            Phase::Evict
        },
        ..s
    };
    lemma_step_wf(s, w.event);
    assert(s.step(w.event) == sd.promote());
    assert(sd.drain_dir() == s.drain_dir() && sd.drain_depth() == s.drain_depth());
    assert(source_raws(sd, w) == source_raws(s, w));
    let rest = promote_all(w.fs, s.drain_dir(), s.drain_depth(), s.drained);
    assert(sd.promoted + rest =~= s.promoted + seq![item] + rest);
    lemma_drained_sim(s, w, sd);
}

proof fn lemma_step_open(s: State, w: World)
    requires
        sim(s, w),
        s.phase == Phase::Open,
    ensures
        sim(s.step(w.event).0, w.respond(s.step(w.event).1)),
        yielded(s.step(w.event).1) + future(s.step(w.event).0, w.respond(s.step(w.event).1))
            == future(s, w),
        s.step(w.event).1 is Done ==> future(s, w).len() == 0,
{
    let (s2, a) = s.step(w.event);
    let w2 = w.respond(a);
    let c = context(s, w);
    let n = s.stack.len() as int;
    let dent = s.pending.unwrap();
    let s0 = State { pending: None, ..s };
    let anc = anc_of(s);
    lemma_sim_quiet(s, w);
    lemma_step_wf(s, w.event);
    assert(anc_of(s0) == anc && context(s0, w) == c);
    assert(child_depth(dent.depth) == (n + 1) as usize);
    match (w.fs.list)(dent.path) {
        Err(e) => {
            let err: ItemView = Err(ErrorView::from_path(dent.depth, dent.path, e));
            let list = ListView { path: dent.path, open: false, rest: seq![err] };
            assert(seq![err][0] == err);
            lemma_push_listing_sim(s0, w, dent, list);
            lemma_walk_items_one(c, child_anc(s.opts, anc, dent), dent.path, err);
            assert(inside(c, anc, dent) == seq![err]);
        },
        Ok(raws) => {
            lemma_list_valid(w.fs, dent.path, (n + 1) as usize);
            if s.opts.sorted {
                lemma_same_stack(s, w, s2, w2);
                assert(anc_of(s2) == anc);
                assert(yielded(a) + future(s2, w2) =~= future(s, w));
            } else {
                let list = ListView { path: dent.path, open: true, rest: Seq::empty() };
                lemma_push_listing_sim(s0, w, dent, list);
                assert(inside(c, anc, dent) == walk_items(
                    c,
                    child_anc(s.opts, anc, dent),
                    dent.path,
                    frame_items(w.fs, list, n, w.handles),
                ));
            }
        },
    }
}

proof fn lemma_step_compare(s: State, w: World)
    requires
        sim(s, w),
        s.phase == Phase::Compare,
    ensures
        sim(s.step(w.event).0, w.respond(s.step(w.event).1)),
        yielded(s.step(w.event).1) + future(s.step(w.event).0, w.respond(s.step(w.event).1))
            == future(s, w),
        s.step(w.event).1 is Done ==> future(s, w).len() == 0,
{
    let x = s.inserting.unwrap();
    let order = (w.fs.compare)(x, s.sorted[s.middle()]);
    let ss = if order == Order::Less {
        State { hi: s.middle() as usize, ..s }
    } else {
        State { lo: (s.middle() + 1) as usize, ..s }
    };
    lemma_step_wf(s, w.event);
    assert(s.step(w.event) == ss.bisect());
    assert(bisect_at(w.fs.compare, s.sorted, x, s.lo as int, s.hi as int) == bisect_at(
        w.fs.compare,
        ss.sorted,
        x,
        ss.lo as int,
        ss.hi as int,
    ));
    lemma_bisect_sim(s, w, ss);
}

/// The traversal follows the walk, step by step. Where the state of a
/// traversal agrees with the world it runs in, and the outcome of the last
/// action is handed to its next step, the state after the step agrees with
/// the world after the action that the step asks for; what the walk yields
/// from the state before is what the step hands out, if anything, followed
/// by what the walk yields from the state after; and when the step says
/// that the traversal is over, the walk has nothing left to yield. This
/// holds whatever the settings are, in every file system that is a finite
/// tree.
pub proof fn law_step_follows_walk(s: State, w: World)
    requires
        sim(s, w),
    ensures
        sim(s.step(w.event).0, w.respond(s.step(w.event).1)),
        yielded(s.step(w.event).1) + future(s.step(w.event).0, w.respond(s.step(w.event).1))
            == future(s, w),
        s.step(w.event).1 is Done ==> future(s, w).len() == 0,
{
    match s.phase {
        Phase::Idle => lemma_step_idle(s, w),
        Phase::RootStat => lemma_step_root_stat(s, w),
        Phase::Read => lemma_step_read(s, w),
        Phase::Type => lemma_step_type(s, w),
        Phase::Follow => lemma_step_follow(s, w),
        Phase::Same => lemma_step_same(s, w),
        Phase::Device => lemma_step_device(s, w),
        Phase::Evict | Phase::SortDrain => lemma_step_drain(s, w),
        Phase::EvictType | Phase::SortType => lemma_step_drain_type(s, w),
        Phase::Open => lemma_step_open(s, w),
        Phase::Compare => lemma_step_compare(s, w),
        Phase::Done => {
            assert(yielded(s.step(w.event).1) + future(s, w.respond(ActionView::Done)) =~= future(
                s,
                w,
            ));
        },
    }
}

/// A traversal that was just built agrees with a world of which nothing was
/// asked yet, and the walk yields from it what it yields from the root.
pub proof fn lemma_initial_sim(fs: FileSystem, root: Seq<u8>, opts: WalkDirOptions)
    requires
        opts.valid(),
        fs.wf(),
    ensures
        sim(State::initial(root, opts), World::initial(fs)),
        future(State::initial(root, opts), World::initial(fs)) == walk(fs, opts, root),
{
}

/// Whether a traversal run in the world `w` is over within `fuel` steps.
pub open spec fn completes(s: State, w: World, fuel: nat) -> bool
    decreases fuel,
{
    fuel > 0 && (s.step(w.event).1 is Done || completes(
        s.step(w.event).0,
        w.respond(s.step(w.event).1),
        (fuel - 1) as nat,
    ))
}

/// What a run yields is the start of what the walk yields, and all of it
/// once the run is over.
pub proof fn lemma_run_follows_walk(s: State, w: World, fuel: nat)
    requires
        sim(s, w),
    ensures
        run(s, w, fuel).is_prefix_of(future(s, w)),
        completes(s, w, fuel) ==> run(s, w, fuel) == future(s, w),
    decreases fuel,
{
    if fuel > 0 {
        let (s2, a) = s.step(w.event);
        let w2 = w.respond(a);
        law_step_follows_walk(s, w);
        if a is Done {
            assert(run(s, w, fuel) =~= future(s, w));
        } else {
            lemma_run_follows_walk(s2, w2, (fuel - 1) as nat);
            let head = yielded(a);
            let tail = run(s2, w2, (fuel - 1) as nat);
            assert(run(s, w, fuel) == head + tail);
            assert(future(s, w) == head + future(s2, w2));
            assert((head + tail).is_prefix_of(head + future(s2, w2))) by {
                assert(tail.len() <= future(s2, w2).len());
                assert(forall|j: int|
                    0 <= j < tail.len() ==> tail[j] == future(s2, w2)[j]);
                assert forall|j: int| 0 <= j < (head + tail).len() implies (head + tail)[j] == (head
                    + future(s2, w2))[j] by {
                    if j >= head.len() {
                        assert((head + tail)[j] == tail[j - head.len()]);
                    }
                }
            }
            if completes(s, w, fuel) {
                assert(head + tail =~= head + future(s2, w2));
            }
        }
    }
}

/// However far a traversal is run, every record and every error that it
/// has yielded is one that the walk of the file system yields, in the same
/// order; and once it is over, it has yielded exactly what the walk yields.
/// This holds whatever the settings are, in every file system that is a
/// finite tree.
pub proof fn law_run_yields_walk(fs: FileSystem, root: Seq<u8>, opts: WalkDirOptions, fuel: nat)
    requires
        opts.valid(),
        fs.wf(),
    ensures
        run(State::initial(root, opts), World::initial(fs), fuel).is_prefix_of(
            walk(fs, opts, root),
        ),
        completes(State::initial(root, opts), World::initial(fs), fuel) ==> run(
            State::initial(root, opts),
            World::initial(fs),
            fuel,
        ) == walk(fs, opts, root),
{
    lemma_initial_sim(fs, root, opts);
    lemma_run_follows_walk(State::initial(root, opts), World::initial(fs), fuel);
}

/// The state in which the directory on top of the stack is closed and has
/// nothing left in it.
pub open spec fn emptied(s: State) -> State {
    let top = s.stack.last();
    State {
        stack: s.stack.update(
            s.stack.len() - 1,
            ListView { open: false, rest: Seq::empty(), ..top },
        ),
        ..s
    }
}

/// Giving up the directory on top of the stack leaves a state that agrees
/// with the world, and from which the walk yields what it yields for the
/// stack below that directory: nothing more for what was left in it, nor
/// its own record if that was kept back. Where a directory comes before
/// what it holds, this is what the walk would yield if the directory had
/// nothing left in it.
pub proof fn law_skip_current_dir(s: State, w: World)
    requires
        sim(s, w),
        s.phase == Phase::Idle,
        s.start.is_none(),
        s.stack.len() > 0,
    ensures
        sim(s.skip_current_dir(), w),
        future(s.skip_current_dir(), w) == stack_future(
            context(s, w),
            s.stack,
            w.handles,
            s.stack_path,
            s.deferred,
            s.stack.len() - 1,
        ),
        !s.opts.contents_first ==> future(s.skip_current_dir(), w) == future(emptied(s), w),
{
    let c = context(s, w);
    let n = s.stack.len() as int;
    let s2 = s.skip_current_dir();
    let s3 = emptied(s);
    crate::wellformed::lemma_skip_wf(s);
    assert(context(s2, w) == c);
    assert forall|j: int| 0 <= j < s2.stack.len() implies frame_ok(
        w.fs,
        #[trigger] s2.stack[j],
        j,
        w.handles,
    ) by {
        assert(frame_ok(w.fs, s.stack[j], j, w.handles));
    }
    if s.opts.follow_links {
        assert forall|j: int| 0 <= j < s2.stack.len() implies #[trigger] s2.stack_path[j]
            == s2.stack[j].path by {
            assert(s.stack_path[j] == s.stack[j].path);
        }
    }
    lemma_frames_below_top(s, w, s2, n - 1);
    if !s.opts.contents_first {
        if s.opts.follow_links {
            assert(s3.stack_path.len() == s3.stack.len());
        }
        lemma_below_unfold(s3, w);
        assert(context(s3, w) == c);
        assert(frame_items(w.fs, s3.stack.last(), n - 1, w.handles) =~= Seq::empty());
        lemma_frames_below_top(s, w, s3, n - 1);
        assert(below(s3, w) =~= stack_future(
            c,
            s.stack,
            w.handles,
            s.stack_path,
            s.deferred,
            n - 1,
        ));
    }
}

} // verus!
