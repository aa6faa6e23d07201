//! Every traversal ends: a bound on the steps that a traversal has yet to
//! take, which every step lowers.

use vstd::prelude::*;
use crate::dent::{DirEntryView, FileKind, FileType, Metadata, spec_from_raw};
use crate::dir::spec_is_dots;
use crate::error::{ErrorView, IoError};
use crate::walk::{
    ActionView, ItemView, ListView, Order, Phase, State, WalkDirOptions, as_items, child_depth,
    count_open, errs, expect_read, expect_stat, oks, root_entry,
};
use crate::wellformed::lemma_first_open;
use crate::model::{
    FileSystem, Raw, Walk, World, anc_of, arrange, bisect_at, child_anc, context, drain_total,
    frame_anc, frame_items, frame_ok, item_of_raw, listed, opt_seq, pending_ok, promote_all, quiet,
    run, sim, sort_into, sort_of, sorting_ok, source_raws, stack_sim, typed_item, uncapped, unread,
    untyped, valid_items, walk,
};
use crate::follows::{
    completes, law_step_follows_walk, lemma_arrange_valid, lemma_consume_sim, lemma_initial_sim,
    lemma_list_valid, lemma_pop_sim, lemma_promote_sim, lemma_run_follows_walk, lemma_same_stack,
    lemma_sim_quiet, popped, sort_base, sorting_from,
};

verus! {

/// A bound on the steps that a traversal takes for a record as a listing
/// gave it, and for all below it.
pub open spec fn work_entry(c: Walk, anc: Seq<Seq<u8>>, dent: DirEntryView) -> nat
    decreases (c.fs.height)(dent.path), 6int, 0int,
{
    if c.opts.follow_links && dent.file_type.is_symlink() {
        1 + work_followed(c, anc, dent)
    } else {
        work_final(c, anc, dent)
    }
}

/// A bound on the steps that a traversal takes for a link once the stat of
/// its target is asked.
pub open spec fn work_followed(c: Walk, anc: Seq<Seq<u8>>, dent: DirEntryView) -> nat
    decreases (c.fs.height)(dent.path), 5int, 0int,
{
    match (c.fs.stat)(dent.path, true) {
        Err(e) => 1,
        Ok(md) => {
            let target = dent.followed(md);
            if target.file_type.is_dir() {
                work_checked(c, anc, target, anc.len() as int)
            } else {
                work_final(c, anc, target)
            }
        },
    }
}

/// A bound on the steps that a traversal takes for the target of a link
/// that is still to be held against the directories below place `k`.
pub open spec fn work_checked(c: Walk, anc: Seq<Seq<u8>>, target: DirEntryView, k: int) -> nat
    decreases (c.fs.height)(target.path), 4int, 2 * k + 1,
{
    if 0 < k <= anc.len() {
        1 + work_same(c, anc, target, k - 1)
    } else {
        work_final(c, anc, target)
    }
}

/// A bound on the steps that a traversal takes for the target of a link
/// once it is asked whether the target is the directory at place `k`.
pub open spec fn work_same(c: Walk, anc: Seq<Seq<u8>>, target: DirEntryView, k: int) -> nat
    decreases (c.fs.height)(target.path), 4int, 2 * k + 2,
{
    if 0 <= k < anc.len() {
        match (c.fs.same)(anc[k], target.path) {
            Err(e) => 1,
            Ok(same) => if same {
                1
            } else {
                work_checked(c, anc, target, k)
            },
        }
    } else {
        0
    }
}

/// A bound on the steps that a traversal takes for a record whose type is
/// final, and for all below it.
pub open spec fn work_final(c: Walk, anc: Seq<Seq<u8>>, dent: DirEntryView) -> nat
    decreases (c.fs.height)(dent.path), 3int, 0int,
{
    if dent.file_type.is_dir() && dent.depth < c.opts.max_depth {
        if c.opts.same_file_system && dent.depth > 0 {
            1 + work_device(c, anc, dent)
        } else {
            3 + work_inside(c, anc, dent)
        }
    } else {
        1
    }
}

/// A bound on the steps that a traversal takes for a directory once the
/// stat that tells its device is asked.
pub open spec fn work_device(c: Walk, anc: Seq<Seq<u8>>, dent: DirEntryView) -> nat
    decreases (c.fs.height)(dent.path), 2int, 1int,
{
    match (c.fs.stat)(dent.path, true) {
        Err(e) => 1,
        Ok(md) => if md.dev == c.dev {
            3 + work_inside(c, anc, dent)
        } else {
            1
        },
    }
}

/// A bound on the steps that a traversal takes to put `queue` records in
/// their places among `len` records in order: each is held against fewer
/// records than are in order when its turn comes.
pub open spec fn sort_work(len: nat, queue: nat) -> nat
    decreases queue,
{
    if queue == 0 {
        0
    } else {
        len + 1 + sort_work(len + 1, (queue - 1) as nat)
    }
}

/// A bound on the steps that a traversal takes for what a directory holds,
/// once the directory is open.
pub open spec fn work_inside(c: Walk, anc: Seq<Seq<u8>>, dent: DirEntryView) -> nat
    decreases (c.fs.height)(dent.path), 2int, 0int,
{
    match (c.fs.list)(dent.path) {
        Err(e) => 1,
        Ok(raws) => {
            let listed = promote_all(c.fs, dent.path, child_depth(dent.depth), raws);
            if c.opts.sorted {
                2 + untyped(raws) + sort_work(0, oks(listed).len()) + work_items(
                    c,
                    child_anc(c.opts, anc, dent),
                    dent.path,
                    arrange(c.fs, c.opts, listed),
                )
            } else {
                2 + raws.len() + untyped(raws) + work_items(
                    c,
                    child_anc(c.opts, anc, dent),
                    dent.path,
                    listed,
                )
            }
        },
    }
}

/// A bound on the steps that a traversal takes for the items of the
/// directory `dir`, and for all below them.
pub open spec fn work_items(c: Walk, anc: Seq<Seq<u8>>, dir: Seq<u8>, items: Seq<ItemView>) -> nat
    decreases (c.fs.height)(dir), 1int, items.len(),
{
    if items.len() == 0 {
        0
    } else {
        work_item(c, anc, dir, items[0]) + work_items(c, anc, dir, items.skip(1))
    }
}

/// A bound on the steps that a traversal takes for one item of the
/// directory `dir`, and for all below it.
pub open spec fn work_item(c: Walk, anc: Seq<Seq<u8>>, dir: Seq<u8>, item: ItemView) -> nat
    decreases (c.fs.height)(dir), 1int, 0int,
{
    match item {
        Err(e) => 1,
        Ok(dent) => if (c.fs.height)(dent.path) < (c.fs.height)(dir) {
            work_entry(c, anc, dent)
        } else {
            0
        },
    }
}

/// A bound on the steps that a traversal takes for an item that it has
/// taken from a directory.
pub open spec fn work_taken(c: Walk, anc: Seq<Seq<u8>>, item: ItemView) -> nat {
    match item {
        Ok(dent) => work_entry(c, anc, dent),
        Err(e) => 1,
    }
}

/// A bound on the steps that a traversal takes from the stat of its root
/// on.
pub open spec fn work_root(
    fs: FileSystem,
    opts: WalkDirOptions,
    root: Seq<u8>,
    r: Result<Metadata, IoError>,
) -> nat {
    match r {
        Err(e) => 1,
        Ok(md) => {
            if opts.same_file_system && md.dev.is_none() {
                1
            } else {
                work_final(
                    Walk { fs, opts, dev: md.dev },
                    Seq::empty(),
                    root_entry(root).with_stat(md),
                )
            }
        },
    }
}

/// A bound on the steps that a traversal takes for what is left in the
/// directory at place `i` of its stack: for a closed directory, those for
/// its items; for an open one, also those for reading its entries to the
/// end, for asking their types, and for closing it.
pub open spec fn frame_cost(
    c: Walk,
    stack_path: Seq<Seq<u8>>,
    list: ListView,
    i: int,
    handles: Map<usize, Seq<Raw>>,
) -> nat {
    let items = work_items(
        c,
        frame_anc(c.opts, stack_path, i),
        list.path,
        frame_items(c.fs, list, i, handles),
    );
    if list.open {
        2 + unread(handles, i as usize).len() + untyped(unread(handles, i as usize)) + items
    } else {
        items
    }
}

/// A bound on the steps that a traversal takes for what is left of the
/// first `k` directories on its stack.
pub open spec fn stack_cost(
    c: Walk,
    stack: Seq<ListView>,
    handles: Map<usize, Seq<Raw>>,
    stack_path: Seq<Seq<u8>>,
    deferred: Seq<DirEntryView>,
    k: int,
) -> nat
    decreases k,
{
    if k <= 0 || k > stack.len() {
        0
    } else {
        let i = k - 1;
        frame_cost(c, stack_path, stack[i], i, handles) + (if c.opts.contents_first && i
            < deferred.len() {
            1nat
        } else {
            0nat
        }) + stack_cost(c, stack, handles, stack_path, deferred, k - 1)
    }
}

/// A bound on the steps that a traversal in state `s` takes for what is
/// left of the directories on its stack.
pub open spec fn below_cost(s: State, w: World) -> nat {
    stack_cost(context(s, w), s.stack, w.handles, s.stack_path, s.deferred, s.stack.len() as int)
}

/// What the directory that is being closed to make room no longer costs:
/// reading its entries to the end and closing it, and asking the types that
/// have been asked.
pub open spec fn drained_cost(s: State, w: World) -> int {
    let raws = unread(w.handles, s.oldest_opened);
    2 + raws.len() + untyped(raws) - untyped(s.drained)
}

/// The types that have been asked while the entries of the directory that
/// is put in order were made records.
pub open spec fn typed_cost(s: State, w: World) -> int {
    untyped(source_raws(s, w)) - untyped(s.drained)
}

/// A bound on the steps that a traversal takes for the items of the
/// directory that is put in order, once they are in order.
pub open spec fn sorted_work(s: State, w: World) -> nat {
    match s.pending {
        Some(dent) => work_items(
            context(s, w),
            child_anc(uncapped(s.opts), anc_of(s), dent),
            dent.path,
            arrange(w.fs, s.opts, listed(s, w)),
        ),
        None => 0,
    }
}

/// A bound on the steps that a traversal in state `s` takes from now on,
/// in the world `w`, before it says that it is over.
pub open spec fn potential(s: State, w: World) -> int {
    let c = context(s, w);
    let n = s.stack.len() as int;
    let anc = anc_of(s);
    let rest = below_cost(s, w) as int;
    match s.phase {
        Phase::Idle => match s.start {
            Some(root) => (1 + s.closing.len() + work_root(
                w.fs,
                uncapped(s.opts),
                root,
                (w.fs.stat)(root, true),
            )) as int,
            None => s.closing.len() + rest,
        },
        Phase::RootStat => match s.pending {
            Some(root) => work_root(w.fs, uncapped(s.opts), root.path, expect_stat(w.event)) as int,
            None => 0,
        },
        Phase::Read => if n > 0 {
            match expect_read(w.event) {
                None => rest - 1,
                Some(raw) => untyped(seq![raw]) + work_items(
                    c,
                    anc,
                    s.stack[n - 1].path,
                    opt_seq(item_of_raw(w.fs, s.stack[n - 1].path, n as usize, raw)),
                ) + rest,
            }
        } else {
            0
        },
        Phase::Type => match s.typing {
            Some(t) => work_taken(c, anc, typed_item(w.fs, t)) + rest,
            None => 0,
        },
        Phase::Follow => match s.pending {
            Some(dent) => work_followed(c, anc, dent) + rest,
            None => 0,
        },
        Phase::Same => match s.pending {
            Some(target) => work_same(c, anc, target, s.check as int) + rest,
            None => 0,
        },
        Phase::Device => match s.pending {
            Some(dent) => work_device(c, anc, dent) + rest,
            None => 0,
        },
        Phase::Evict => match s.pending {
            Some(dent) => 2 + work_inside(c, anc, dent) + rest - (2 + unread(
                w.handles,
                s.oldest_opened,
            ).len()),
            None => 0,
        },
        Phase::EvictType => match s.pending {
            Some(dent) => 2 + work_inside(c, anc, dent) + rest - drained_cost(s, w),
            None => 0,
        },
        Phase::Open => match s.pending {
            Some(dent) => 1 + work_inside(c, anc, dent) + rest,
            None => 0,
        },
        Phase::SortDrain => match s.pending {
            Some(dent) => work_inside(c, anc, dent) + rest,
            None => 0,
        },
        Phase::SortType => match s.pending {
            Some(dent) => work_inside(c, anc, dent) + rest - typed_cost(s, w),
            None => 0,
        },
        Phase::Compare => match s.pending {
            Some(dent) => (s.hi - s.lo) + sort_work(s.sorted.len() + 1, s.queue.len())
                + sorted_work(s, w) + rest,
            None => 0,
        },
        Phase::Done => 0,
    }
}

pub proof fn lemma_work_items_concat(
    c: Walk,
    anc: Seq<Seq<u8>>,
    dir: Seq<u8>,
    a: Seq<ItemView>,
    b: Seq<ItemView>,
)
    ensures
        work_items(c, anc, dir, a + b) == work_items(c, anc, dir, a) + work_items(c, anc, dir, b),
    decreases a.len(),
{
    if a.len() == 0 {
        assert(a + b =~= b);
    } else {
        assert((a + b)[0] == a[0]);
        assert((a + b).skip(1) =~= a.skip(1) + b);
        lemma_work_items_concat(c, anc, dir, a.skip(1), b);
    }
}

pub proof fn lemma_work_items_one(c: Walk, anc: Seq<Seq<u8>>, dir: Seq<u8>, item: ItemView)
    ensures
        work_items(c, anc, dir, seq![item]) == work_item(c, anc, dir, item),
        work_items(c, anc, dir, Seq::empty()) == 0,
{
    assert(seq![item].len() == 1);
    assert(seq![item][0] == item);
    assert(seq![item].skip(1) =~= Seq::empty());
    assert(work_items(c, anc, dir, seq![item].skip(1)) == 0);
}

pub proof fn lemma_untyped_one(raw: Raw)
    ensures
        untyped(seq![raw]) == match raw {
            Ok(r) => if !spec_is_dots(r.name) && r.file_type.is_none() {
                1nat
            } else {
                0nat
            },
            Err(_) => 0nat,
        },
        untyped(Seq::empty()) == 0,
{
    assert(seq![raw].len() == 1);
    assert(seq![raw][0] == raw);
    assert(seq![raw].skip(1) =~= Seq::empty());
    assert(untyped(seq![raw].skip(1)) == 0);
}

/// The directories at place `i` of two stacks are the same, with the same
/// left to read, the same directories above them, and a record kept back
/// for both or for neither.
pub open spec fn cost_agrees(
    c: Walk,
    stack1: Seq<ListView>,
    handles1: Map<usize, Seq<Raw>>,
    deferred1: Seq<DirEntryView>,
    paths1: Seq<Seq<u8>>,
    stack2: Seq<ListView>,
    handles2: Map<usize, Seq<Raw>>,
    deferred2: Seq<DirEntryView>,
    paths2: Seq<Seq<u8>>,
    i: int,
) -> bool {
    &&& stack1[i] == stack2[i]
    &&& unread(handles1, i as usize) == unread(handles2, i as usize)
    &&& frame_anc(c.opts, paths1, i) == frame_anc(c.opts, paths2, i)
    &&& c.opts.contents_first ==> (i < deferred1.len()) == (i < deferred2.len())
}

pub proof fn lemma_stack_cost_agree(
    c: Walk,
    stack1: Seq<ListView>,
    handles1: Map<usize, Seq<Raw>>,
    deferred1: Seq<DirEntryView>,
    paths1: Seq<Seq<u8>>,
    stack2: Seq<ListView>,
    handles2: Map<usize, Seq<Raw>>,
    deferred2: Seq<DirEntryView>,
    paths2: Seq<Seq<u8>>,
    k: int,
)
    requires
        k <= stack1.len(),
        k <= stack2.len(),
        forall|i: int|
            0 <= i < k ==> #[trigger] cost_agrees(
                c,
                stack1,
                handles1,
                deferred1,
                paths1,
                stack2,
                handles2,
                deferred2,
                paths2,
                i,
            ),
    ensures
        stack_cost(c, stack1, handles1, paths1, deferred1, k) == stack_cost(
            c,
            stack2,
            handles2,
            paths2,
            deferred2,
            k,
        ),
    decreases k,
{
    if k > 0 {
        assert(cost_agrees(
            c,
            stack1,
            handles1,
            deferred1,
            paths1,
            stack2,
            handles2,
            deferred2,
            paths2,
            k - 1,
        ));
        lemma_stack_cost_agree(
            c,
            stack1,
            handles1,
            deferred1,
            paths1,
            stack2,
            handles2,
            deferred2,
            paths2,
            k - 1,
        );
    }
}

/// A state whose stack is that of another, in a world in which the same is
/// left to read in each directory, has the same bound for its stack.
pub proof fn lemma_same_stack_cost(s: State, w: World, s2: State, w2: World)
    requires
        s2.stack == s.stack,
        s2.stack_path == s.stack_path,
        s2.deferred == s.deferred,
        s2.opts == s.opts,
        s2.root_device == s.root_device,
        w2.fs == w.fs,
        s.stack.len() <= usize::MAX,
        forall|h: usize| h < s.stack.len() ==> #[trigger] unread(w2.handles, h) == unread(w.handles, h),
    ensures
        below_cost(s2, w2) == below_cost(s, w),
{
    let n = s.stack.len() as int;
    assert forall|i: int| 0 <= i < n implies #[trigger] cost_agrees(
        context(s, w),
        s.stack,
        w.handles,
        s.deferred,
        s.stack_path,
        s2.stack,
        w2.handles,
        s2.deferred,
        s2.stack_path,
        i,
    ) by {
        assert(unread(w2.handles, i as usize) == unread(w.handles, i as usize));
    }
    lemma_stack_cost_agree(
        context(s, w),
        s.stack,
        w.handles,
        s.deferred,
        s.stack_path,
        s2.stack,
        w2.handles,
        s2.deferred,
        s2.stack_path,
        n,
    );
    assert(context(s2, w2) == context(s, w));
}

pub proof fn lemma_frames_below_top_cost(s: State, w: World, s2: State, k: int)
    requires
        0 <= k < s.stack.len(),
        k <= s2.stack.len(),
        s.structure(),
        s2.opts == s.opts,
        s2.root_device == s.root_device,
        forall|i: int| 0 <= i < k ==> s2.stack[i] == s.stack[i],
        s.opts.follow_links ==> forall|i: int| 0 <= i < k ==> s2.stack_path[i] == s.stack_path[i],
        s.opts.follow_links ==> s2.stack_path.len() >= k,
        s.opts.contents_first ==> s2.deferred.len() >= k,
    ensures
        stack_cost(context(s, w), s.stack, w.handles, s.stack_path, s.deferred, k) == stack_cost(
            context(s2, w),
            s2.stack,
            w.handles,
            s2.stack_path,
            s2.deferred,
            k,
        ),
{
    let c = context(s, w);
    assert forall|i: int| 0 <= i < k implies #[trigger] cost_agrees(
        c,
        s.stack,
        w.handles,
        s.deferred,
        s.stack_path,
        s2.stack,
        w.handles,
        s2.deferred,
        s2.stack_path,
        i,
    ) by {
        assert(s2.stack[i] == s.stack[i]);
        if c.opts.follow_links {
            assert(s.stack_path.take(i + 1) =~= s2.stack_path.take(i + 1)) by {
                assert forall|j: int| 0 <= j < i + 1 implies #[trigger] s.stack_path.take(i + 1)[j]
                    == s2.stack_path.take(i + 1)[j] by {
                    assert(s2.stack_path[j] == s.stack_path[j]);
                }
            }
        }
    }
    lemma_stack_cost_agree(
        c,
        s.stack,
        w.handles,
        s.deferred,
        s.stack_path,
        s2.stack,
        w.handles,
        s2.deferred,
        s2.stack_path,
        k,
    );
    assert(context(s2, w) == c);
}

pub proof fn lemma_below_cost_unfold(s: State, w: World)
    requires
        s.stack.len() > 0,
        s.opts.follow_links ==> s.stack_path.len() == s.stack.len(),
    ensures
        below_cost(s, w) == frame_cost(
            context(s, w),
            s.stack_path,
            s.stack.last(),
            s.stack.len() - 1,
            w.handles,
        ) + (if s.opts.contents_first && s.stack.len() - 1 < s.deferred.len() {
            1nat
        } else {
            0nat
        }) + stack_cost(
            context(s, w),
            s.stack,
            w.handles,
            s.stack_path,
            s.deferred,
            s.stack.len() - 1,
        ),
        frame_anc(uncapped(s.opts), s.stack_path, s.stack.len() - 1) == anc_of(s),
{
    if s.opts.follow_links {
        assert(s.stack_path.take(s.stack.len() as int) =~= s.stack_path);
    }
}

/// The bound for the stack is at least the bound for any one directory on
/// it.
pub proof fn lemma_stack_cost_ge(
    c: Walk,
    stack: Seq<ListView>,
    handles: Map<usize, Seq<Raw>>,
    stack_path: Seq<Seq<u8>>,
    deferred: Seq<DirEntryView>,
    k: int,
    v: int,
)
    requires
        0 <= v < k <= stack.len(),
    ensures
        stack_cost(c, stack, handles, stack_path, deferred, k) >= frame_cost(
            c,
            stack_path,
            stack[v],
            v,
            handles,
        ),
    decreases k,
{
    if v < k - 1 {
        lemma_stack_cost_ge(c, stack, handles, stack_path, deferred, k - 1, v);
    }
}

/// Where one directory of a stack is replaced, the bound for the stack
/// changes by what the bound for that directory changes.
pub proof fn lemma_stack_cost_update(
    c: Walk,
    stack: Seq<ListView>,
    handles: Map<usize, Seq<Raw>>,
    stack_path: Seq<Seq<u8>>,
    deferred: Seq<DirEntryView>,
    k: int,
    v: int,
    list: ListView,
)
    requires
        0 <= v < stack.len(),
        0 <= k <= stack.len(),
    ensures
        k <= v ==> stack_cost(c, stack.update(v, list), handles, stack_path, deferred, k)
            == stack_cost(c, stack, handles, stack_path, deferred, k),
        k > v ==> stack_cost(c, stack.update(v, list), handles, stack_path, deferred, k)
            + frame_cost(c, stack_path, stack[v], v, handles) == stack_cost(
            c,
            stack,
            handles,
            stack_path,
            deferred,
            k,
        ) + frame_cost(c, stack_path, list, v, handles),
    decreases k,
{
    if k > 0 {
        lemma_stack_cost_update(c, stack, handles, stack_path, deferred, k - 1, v, list);
        if k - 1 != v {
            assert(stack.update(v, list)[k - 1] == stack[k - 1]);
        }
    }
}

pub proof fn lemma_idle_cost(s: State, w: World, item: ItemView)
    requires
        quiet(s, w),
    ensures
        potential(State { phase: Phase::Idle, ..s }, w.respond(ActionView::Yield(item)))
            == below_cost(s, w),
{
    let s2 = State { phase: Phase::Idle, ..s };
    let w2 = w.respond(ActionView::Yield(item));
    lemma_same_stack_cost(s, w, s2, w2);
}

pub proof fn lemma_emit_cost(s: State, w: World, dent: DirEntryView)
    requires
        quiet(s, w),
    ensures
        match s.emit(dent) {
            Some((s2, a)) => potential(s2, w.respond(a)) == below_cost(s, w),
            None => true,
        },
{
    if s.opts.in_window(dent.depth) {
        lemma_idle_cost(s, w, Ok(dent));
    }
}

pub proof fn lemma_begin_push_cost(s: State, w: World, dent: DirEntryView)
    requires
        quiet(s, w),
    ensures
        potential(s.begin_push(dent).0, w.respond(s.begin_push(dent).1)) < 3 + work_inside(
            context(s, w),
            anc_of(s),
            dent,
        ) + below_cost(s, w),
{
    let (s2, a) = s.begin_push(dent);
    let w2 = w.respond(a);
    lemma_first_open(s.stack, s.oldest_opened as int);
    lemma_same_stack_cost(s, w, s2, w2);
    assert(anc_of(s2) == anc_of(s));
    assert(context(s2, w2) == context(s, w));
}

pub proof fn lemma_handle_entry_cost(s: State, w: World, dent: DirEntryView)
    requires
        quiet(s, w),
    ensures
        match s.handle_entry(dent) {
            Some((s2, a)) => potential(s2, w.respond(a)) < work_final(
                context(s, w),
                anc_of(s),
                dent,
            ) + below_cost(s, w),
            None => true,
        },
{
    if dent.file_type.is_dir() && dent.depth < s.opts.max_depth {
        if s.opts.same_file_system && dent.depth > 0 {
            let s2 = State { phase: Phase::Device, pending: Some(dent), ..s };
            let a = ActionView::Stat { path: dent.path, follow: true };
            lemma_same_stack_cost(s, w, s2, w.respond(a));
            assert(anc_of(s2) == anc_of(s));
        } else {
            lemma_begin_push_cost(s, w, dent);
        }
    } else {
        lemma_emit_cost(s, w, dent);
    }
}

pub proof fn lemma_on_entry_cost(s: State, w: World, dent: DirEntryView)
    requires
        quiet(s, w),
    ensures
        match s.on_entry(dent) {
            Some((s2, a)) => potential(s2, w.respond(a)) < work_entry(
                context(s, w),
                anc_of(s),
                dent,
            ) + below_cost(s, w),
            None => true,
        },
{
    if s.opts.follow_links && dent.file_type.is_symlink() {
        let s2 = State { phase: Phase::Follow, pending: Some(dent), ..s };
        let a = ActionView::Stat { path: dent.path, follow: true };
        lemma_same_stack_cost(s, w, s2, w.respond(a));
        assert(anc_of(s2) == anc_of(s));
    } else {
        lemma_handle_entry_cost(s, w, dent);
    }
}

pub proof fn lemma_untyped_split(raws: Seq<Raw>)
    requires
        raws.len() > 0,
    ensures
        untyped(raws) == untyped(seq![raws[0]]) + untyped(raws.skip(1)),
{
    lemma_untyped_one(raws[0]);
}

pub proof fn lemma_read_cost(s: State, w: World)
    requires
        quiet(s, w),
        s.stack.len() > 0,
        s.stack.last().open,
    ensures
        potential(
            State { phase: Phase::Read, ..s },
            w.respond(ActionView::ReadDir { handle: (s.stack.len() - 1) as usize }),
        ) == below_cost(s, w) - 1,
{
    let c = context(s, w);
    let n = s.stack.len() as int;
    let i = n - 1;
    let top = s.stack.last();
    let s2 = State { phase: Phase::Read, ..s };
    let w2 = w.respond(ActionView::ReadDir { handle: i as usize });
    let raws = unread(w.handles, i as usize);
    assert(context(s2, w2) == c);
    assert(anc_of(s2) == anc_of(s));
    lemma_below_cost_unfold(s, w);
    lemma_below_cost_unfold(s2, w2);
    if raws.len() == 0 {
        assert(w2.handles == w.handles);
        lemma_same_stack_cost(s, w, s2, w2);
    } else {
        let head = opt_seq(item_of_raw(w.fs, top.path, n as usize, raws[0]));
        let tail = promote_all(w.fs, top.path, n as usize, raws.skip(1));
        assert(frame_items(w.fs, top, i, w.handles) == head + tail);
        assert(unread(w2.handles, i as usize) == raws.skip(1));
        assert(frame_items(w2.fs, top, i, w2.handles) == tail);
        lemma_work_items_concat(c, anc_of(s), top.path, head, tail);
        lemma_untyped_split(raws);
        assert forall|j: int| 0 <= j < i implies #[trigger] cost_agrees(
            c,
            s.stack,
            w.handles,
            s.deferred,
            s.stack_path,
            s2.stack,
            w2.handles,
            s2.deferred,
            s2.stack_path,
            j,
        ) by {
            assert(unread(w2.handles, j as usize) == unread(w.handles, j as usize));
        }
        lemma_stack_cost_agree(
            c,
            s.stack,
            w.handles,
            s.deferred,
            s.stack_path,
            s2.stack,
            w2.handles,
            s2.deferred,
            s2.stack_path,
            i,
        );
    }
}

pub proof fn lemma_pop_cost(s: State, w: World)
    requires
        quiet(s, w),
        s.stack.len() > 0,
        !s.stack.last().open,
        s.stack.last().rest.len() == 0,
    ensures
        below_cost(s, w) == below_cost(popped(s), w) + if s.opts.contents_first && s.deferred.len()
            > 0 {
            1nat
        } else {
            0nat
        },
{
    let n = s.stack.len() as int;
    let s3 = popped(s);
    lemma_below_cost_unfold(s, w);
    lemma_frames_below_top_cost(s, w, s3, n - 1);
}

pub proof fn lemma_consume_cost(s: State, w: World)
    requires
        quiet(s, w),
        s.stack.len() > 0,
        !s.stack.last().open,
        s.stack.last().rest.len() > 0,
    ensures
        below_cost(s, w) == work_taken(context(s, w), anc_of(s), s.stack.last().rest[0])
            + below_cost(s.consume(), w),
{
    let c = context(s, w);
    let n = s.stack.len() as int;
    let i = n - 1;
    let top = s.stack.last();
    let s1 = s.consume();
    assert(frame_ok(w.fs, s.stack[i], i, w.handles));
    assert(valid_items(w.fs, top.path, n as usize, top.rest));
    lemma_below_cost_unfold(s, w);
    lemma_below_cost_unfold(s1, w);
    lemma_frames_below_top_cost(s, w, s1, i);
    assert(context(s1, w) == c);
    assert(anc_of(s1) == anc_of(s));
    let first = work_item(c, anc_of(s), top.path, top.rest[0]);
    assert(work_items(c, anc_of(s), top.path, top.rest) == first + work_items(
        c,
        anc_of(s),
        top.path,
        top.rest.skip(1),
    ));
    assert(first == work_taken(c, anc_of(s), top.rest[0])) by {
        match top.rest[0] {
            Ok(dent) => {
                assert((w.fs.height)(dent.path) < (w.fs.height)(top.path));
            },
            Err(e) => {},
        }
    }
    assert(frame_items(w.fs, s1.stack.last(), i, w.handles) == top.rest.skip(1));
    assert(s1.stack.last().path == top.path);
}

/// Advancing from a quiet state leaves a state whose bound is below the
/// bound for the stack, unless the traversal is over.
pub proof fn lemma_advance_cost(s: State, w: World)
    requires
        quiet(s, w),
    ensures
        !(s.advance().1 is Done) ==> potential(s.advance().0, w.respond(s.advance().1))
            < below_cost(s, w),
    decreases s.stack.len(), s.stack.last().rest.len(),
{
    let (s2, a) = s.advance();
    let w2 = w.respond(a);
    if s.stack.len() == 0 {
    } else {
        let top = s.stack.last();
        if top.open {
            lemma_read_cost(s, w);
        } else if top.rest.len() == 0 {
            lemma_pop_sim(s, w);
            lemma_pop_cost(s, w);
            let s3 = popped(s);
            if s.opts.contents_first && s.deferred.len() > 0 {
                let dir = s.deferred.last();
                lemma_emit_cost(s3, w, dir);
                match s3.emit(dir) {
                    Some((s4, a4)) => {},
                    None => {
                        lemma_advance_cost(s3, w);
                    },
                }
            } else {
                lemma_advance_cost(s3, w);
            }
        } else {
            lemma_consume_sim(s, w);
            lemma_consume_cost(s, w);
            let s1 = s.consume();
            match top.rest[0] {
                Err(e) => {
                    lemma_idle_cost(s1, w, Err(e));
                },
                Ok(dent) => {
                    lemma_on_entry_cost(s1, w, dent);
                    match s1.on_entry(dent) {
                        Some(r) => {},
                        None => {
                            lemma_advance_cost(s1, w);
                        },
                    }
                },
            }
        }
    }
}

pub proof fn lemma_finish_cost(s: State, w: World, r: Option<(State, ActionView)>, expected: nat)
    requires
        quiet(s, w),
        match r {
            Some((s2, a)) => potential(s2, w.respond(a)) < expected + below_cost(s, w),
            None => true,
        },
    ensures
        !(s.finish(r).1 is Done) ==> potential(s.finish(r).0, w.respond(s.finish(r).1)) < expected
            + below_cost(s, w),
{
    match r {
        Some(r) => {},
        None => {
            lemma_advance_cost(s, w);
        },
    }
}

pub proof fn lemma_check_loop_cost(s: State, w: World, target: DirEntryView, k: int)
    requires
        quiet(s, w),
        s.opts.follow_links,
        k <= s.stack_path.len(),
    ensures
        !(s.check_loop(target, k).1 is Done) ==> potential(
            s.check_loop(target, k).0,
            w.respond(s.check_loop(target, k).1),
        ) < work_checked(context(s, w), anc_of(s), target, k) + below_cost(s, w),
{
    let c = context(s, w);
    if 0 < k <= s.stack_path.len() {
        let s2 = State { phase: Phase::Same, pending: Some(target), check: (k - 1) as usize, ..s };
        let a = ActionView::SameFile { ancestor: s.stack_path[k - 1], child: target.path };
        lemma_same_stack_cost(s, w, s2, w.respond(a));
        assert(anc_of(s2) == anc_of(s));
    } else {
        lemma_handle_entry_cost(s, w, target);
        lemma_finish_cost(s, w, s.handle_entry(target), work_final(c, anc_of(s), target));
    }
}

/// Putting a directory on the stack of a quiet state leaves a state whose
/// bound is at most the bound for the directory and for the stack.
pub proof fn lemma_push_listing_cost(s: State, w: World, dent: DirEntryView, list: ListView)
    requires
        quiet(s, w),
        count_open(s.stack) < s.opts.max_open,
        s.stack.len() < s.opts.max_depth,
        dent.depth == s.stack.len(),
        list.path == dent.path,
        frame_ok(w.fs, list, s.stack.len() as int, w.handles),
    ensures
        !(s.push_listing(dent, list).1 is Done) ==> potential(
            s.push_listing(dent, list).0,
            w.respond(s.push_listing(dent, list).1),
        ) <= frame_cost(
            context(s, w),
            if s.opts.follow_links {
                s.stack_path.push(dent.path)
            } else {
                s.stack_path
            },
            list,
            s.stack.len() as int,
            w.handles,
        ) + below_cost(s, w),
{
    let c = context(s, w);
    let n = s.stack.len() as int;
    crate::wellformed::lemma_count_open_push(s.stack, list);
    let s1 = State {
        phase: Phase::Idle,
        stack: s.stack.push(list),
        stack_path: if s.opts.follow_links {
            s.stack_path.push(dent.path)
        } else {
            s.stack_path
        },
        ..s
    };
    let s2 = if s.opts.contents_first {
        State { deferred: s.deferred.push(dent), ..s1 }
    } else {
        s1
    };
    assert(s2.structure()) by {
        assert forall|j: int| 0 <= j < s2.oldest_opened implies !(#[trigger] s2.stack[j]).open by {
            assert(!s.stack[j].open);
        }
    }
    assert forall|j: int| 0 <= j < s2.stack.len() implies frame_ok(
        w.fs,
        #[trigger] s2.stack[j],
        j,
        w.handles,
    ) by {
        if j < n {
            assert(frame_ok(w.fs, s.stack[j], j, w.handles));
        }
    }
    if s.opts.follow_links {
        assert forall|j: int| 0 <= j < s2.stack.len() implies #[trigger] s2.stack_path[j]
            == s2.stack[j].path by {
            if j < n {
                assert(s.stack_path[j] == s.stack[j].path);
            }
        }
    }
    assert(quiet(s2, w));
    lemma_below_cost_unfold(s2, w);
    lemma_frames_below_top_cost(s2, w, s, n);
    assert(context(s2, w) == c);
    if s.opts.contents_first {
        lemma_advance_cost(s2, w);
    } else {
        lemma_emit_cost(s2, w, dent);
        match s2.emit(dent) {
            Some((s3, a)) => {},
            None => {
                lemma_advance_cost(s2, w);
            },
        }
    }
}

/// The bound on the steps that a traversal has yet to take is never below
/// zero.
proof fn lemma_potential_nonneg(s: State, w: World)
    requires
        sim(s, w),
    ensures
        potential(s, w) >= 0,
{
    let c = context(s, w);
    let n = s.stack.len() as int;
    match s.phase {
        Phase::Read => {
            lemma_below_cost_unfold(s, w);
            assert(s.stack.last().open);
            assert(frame_cost(c, s.stack_path, s.stack.last(), n - 1, w.handles) >= 2);
            assert(below_cost(s, w) >= 2);
        },
        Phase::Evict | Phase::EvictType => {
            lemma_stack_cost_ge(
                c,
                s.stack,
                w.handles,
                s.stack_path,
                s.deferred,
                n,
                s.oldest_opened as int,
            );
        },
        _ => {},
    }
}

proof fn lemma_cost_idle(s: State, w: World)
    requires
        sim(s, w),
        s.phase == Phase::Idle,
    ensures
        !(s.step(w.event).1 is Done) ==> potential(s.step(w.event).0, w.respond(s.step(w.event).1))
            < potential(s, w),
{
    let (s2, a) = s.step(w.event);
    let w2 = w.respond(a);
    if s.closing.len() > 0 {
        lemma_same_stack_cost(s, w, s2, w2);
    } else {
        match s.start {
            Some(root) => {},
            None => {
                lemma_sim_quiet(s, w);
                lemma_advance_cost(s, w);
            },
        }
    }
}

proof fn lemma_cost_root_stat(s: State, w: World)
    requires
        sim(s, w),
        s.phase == Phase::RootStat,
    ensures
        !(s.step(w.event).1 is Done) ==> potential(s.step(w.event).0, w.respond(s.step(w.event).1))
            < potential(s, w),
{
    let root = s.pending.unwrap();
    let s0 = State { pending: None, ..s };
    lemma_sim_quiet(s, w);
    assert(below_cost(s0, w) == 0);
    match expect_stat(w.event) {
        Err(e) => {
            lemma_idle_cost(s0, w, Err(ErrorView::from_path(0, root.path, e)));
        },
        Ok(md) => {
            if s.opts.same_file_system && md.dev.is_none() {
                lemma_idle_cost(
                    s0,
                    w,
                    Err(ErrorView::from_path(0, root.path, IoError::Unsupported)),
                );
            } else {
                let s1 = State { root_device: md.dev, ..s0 };
                let dent = root.with_stat(md);
                assert(s1.stack =~= Seq::empty());
                assert(quiet(s1, w));
                assert(below_cost(s1, w) == 0);
                let c = context(s1, w);
                assert(anc_of(s1) =~= Seq::empty());
                lemma_handle_entry_cost(s1, w, dent);
                lemma_finish_cost(s1, w, s1.handle_entry(dent), work_final(c, anc_of(s1), dent));
            }
        },
    }
}

proof fn lemma_cost_read(s: State, w: World)
    requires
        sim(s, w),
        s.phase == Phase::Read,
    ensures
        !(s.step(w.event).1 is Done) ==> potential(s.step(w.event).0, w.respond(s.step(w.event).1))
            < potential(s, w),
{
    let (s2, a) = s.step(w.event);
    let w2 = w.respond(a);
    let c = context(s, w);
    let n = s.stack.len() as int;
    let i = n - 1;
    let top = s.stack.last();
    let anc = anc_of(s);
    lemma_sim_quiet(s, w);
    match expect_read(w.event) {
        None => {
            assert(context(s2, w2) == c);
            lemma_below_cost_unfold(s, w);
            if s.opts.follow_links {
                assert(s2.stack_path.len() == s2.stack.len());
            }
            lemma_below_cost_unfold(s2, w2);
            lemma_untyped_one(Err(IoError::Other));
            lemma_work_items_one(c, anc, top.path, Err(ErrorView::from_io(0, IoError::Other)));
            assert(frame_items(w.fs, top, i, w.handles) =~= Seq::empty());
            assert(frame_items(w2.fs, s2.stack.last(), i, w2.handles) =~= Seq::empty());
            lemma_frames_below_top_cost(s, w, s2, i);
            assert(anc_of(s2) == anc);
        },
        Some(raw) => {
            let item = item_of_raw(w.fs, top.path, n as usize, raw);
            lemma_untyped_one(raw);
            match item {
                None => {
                    lemma_work_items_one(c, anc, top.path, Ok(root_entry(Seq::empty())));
                    assert(opt_seq(item) =~= Seq::empty());
                    lemma_advance_cost(s, w);
                },
                Some(it) => {
                    assert(opt_seq(item)[0] == it);
                    lemma_work_items_one(c, anc, top.path, it);
                    match raw {
                        Err(e) => {
                            lemma_idle_cost(s, w, it);
                        },
                        Ok(r) => {
                            match r.file_type {
                                Some(ft) => {
                                    let dent = spec_from_raw(top.path, r, ft, n as usize);
                                    assert(work_item(c, anc, top.path, it) == work_entry(
                                        c,
                                        anc,
                                        dent,
                                    ));
                                    lemma_on_entry_cost(s, w, dent);
                                    lemma_finish_cost(
                                        s,
                                        w,
                                        s.on_entry(dent),
                                        work_entry(c, anc, dent),
                                    );
                                },
                                None => {
                                    let t = spec_from_raw(
                                        top.path,
                                        r,
                                        FileType(FileKind::Other),
                                        n as usize,
                                    );
                                    assert(it == typed_item(w.fs, t));
                                    lemma_same_stack_cost(s, w, s2, w2);
                                    assert(anc_of(s2) == anc);
                                    assert(work_item(c, anc, top.path, it) == work_taken(
                                        c,
                                        anc,
                                        it,
                                    ));
                                },
                            }
                        },
                    }
                },
            }
        },
    }
}

proof fn lemma_cost_type(s: State, w: World)
    requires
        sim(s, w),
        s.phase == Phase::Type,
    ensures
        !(s.step(w.event).1 is Done) ==> potential(s.step(w.event).0, w.respond(s.step(w.event).1))
            < potential(s, w),
{
    let c = context(s, w);
    let t = s.typing.unwrap();
    let s0 = State { typing: None, ..s };
    lemma_sim_quiet(s, w);
    lemma_same_stack_cost(s, w, s0, w);
    assert(anc_of(s0) == anc_of(s) && context(s0, w) == c);
    match expect_stat(w.event) {
        Err(e) => {
            lemma_idle_cost(s0, w, Err(ErrorView::from_path(t.depth, t.path, e)));
        },
        Ok(md) => {
            let dent = t.with_type(md.file_type);
            lemma_on_entry_cost(s0, w, dent);
            lemma_finish_cost(s0, w, s0.on_entry(dent), work_entry(c, anc_of(s), dent));
        },
    }
}

proof fn lemma_cost_follow(s: State, w: World)
    requires
        sim(s, w),
        s.phase == Phase::Follow,
    ensures
        !(s.step(w.event).1 is Done) ==> potential(s.step(w.event).0, w.respond(s.step(w.event).1))
            < potential(s, w),
{
    let c = context(s, w);
    let dent = s.pending.unwrap();
    let s0 = State { pending: None, ..s };
    let anc = anc_of(s);
    lemma_sim_quiet(s, w);
    lemma_same_stack_cost(s, w, s0, w);
    assert(anc_of(s0) == anc && context(s0, w) == c);
    match expect_stat(w.event) {
        Err(e) => {
            lemma_idle_cost(s0, w, Err(ErrorView::from_path(dent.depth, dent.path, e)));
        },
        Ok(md) => {
            let target = dent.followed(md);
            if target.file_type.is_dir() {
                lemma_check_loop_cost(s0, w, target, s0.stack_path.len() as int);
            } else {
                lemma_handle_entry_cost(s0, w, target);
                lemma_finish_cost(s0, w, s0.handle_entry(target), work_final(c, anc, target));
            }
        },
    }
}

proof fn lemma_cost_same(s: State, w: World)
    requires
        sim(s, w),
        s.phase == Phase::Same,
    ensures
        !(s.step(w.event).1 is Done) ==> potential(s.step(w.event).0, w.respond(s.step(w.event).1))
            < potential(s, w),
{
    let c = context(s, w);
    let target = s.pending.unwrap();
    let s0 = State { pending: None, ..s };
    let anc = anc_of(s);
    let k = s.check as int;
    lemma_sim_quiet(s, w);
    lemma_same_stack_cost(s, w, s0, w);
    assert(anc_of(s0) == anc && context(s0, w) == c);
    assert(anc == s.stack_path);
    match (w.fs.same)(anc[k], target.path) {
        Err(e) => {
            lemma_idle_cost(s0, w, Err(ErrorView::from_io(target.depth, e)));
        },
        Ok(same) => {
            if same {
                lemma_idle_cost(
                    s0,
                    w,
                    Err(ErrorView::from_loop(target.depth, anc[k], target.path)),
                );
            } else {
                lemma_check_loop_cost(s0, w, target, k);
            }
        },
    }
}

proof fn lemma_cost_device(s: State, w: World)
    requires
        sim(s, w),
        s.phase == Phase::Device,
    ensures
        !(s.step(w.event).1 is Done) ==> potential(s.step(w.event).0, w.respond(s.step(w.event).1))
            < potential(s, w),
{
    let c = context(s, w);
    let dent = s.pending.unwrap();
    let s0 = State { pending: None, ..s };
    let anc = anc_of(s);
    lemma_sim_quiet(s, w);
    lemma_same_stack_cost(s, w, s0, w);
    assert(anc_of(s0) == anc && context(s0, w) == c);
    match expect_stat(w.event) {
        Err(e) => {
            lemma_idle_cost(s0, w, Err(ErrorView::from_path(dent.depth, dent.path, e)));
        },
        Ok(md) => {
            if md.dev == s.root_device {
                lemma_begin_push_cost(s0, w, dent);
            } else {
                lemma_emit_cost(s0, w, dent);
                lemma_finish_cost(s0, w, s0.emit(dent), 1);
            }
        },
    }
}

/// The bound from which making records of the entries read from a
/// directory brings the traversal down.
pub open spec fn drain_bound(s: State, w: World, sd: State) -> int {
    let c = context(s, w);
    let inner = work_inside(c, anc_of(s), s.pending.unwrap()) as int;
    if sd.phase == Phase::Evict {
        let raws = unread(w.handles, s.oldest_opened);
        2 + inner + below_cost(s, w) - (2 + raws.len() + untyped(raws) - untyped(sd.drained))
    } else {
        inner + below_cost(s, w) - (untyped(source_raws(sd, w)) - untyped(sd.drained))
    }
}

proof fn lemma_sort_next_cost(s: State, w: World, ss: State)
    requires
        sort_base(s, w),
        sorting_from(s, ss),
        as_items(sort_into(w.fs.compare, ss.sorted, ss.queue)) + ss.promoted == arrange(
            w.fs,
            s.opts,
            listed(s, w),
        ),
    ensures
        !(ss.sort_next().1 is Done) ==> potential(
            ss.sort_next().0,
            w.respond(ss.sort_next().1),
        ) <= sort_work(ss.sorted.len(), ss.queue.len()) + sorted_work(s, w) + below_cost(s, w),
    decreases 2 * ss.queue.len() + 1,
{
    let c = context(s, w);
    let n = s.stack.len() as int;
    let dent = s.pending.unwrap();
    let anc = anc_of(s);
    if ss.queue.len() == 0 {
        let s0 = State { pending: None, promoted: Seq::empty(), sorted: Seq::empty(), ..ss };
        let list = ListView {
            path: dent.path,
            open: false,
            rest: as_items(ss.sorted) + ss.promoted,
        };
        let paths = if s.opts.follow_links {
            s.stack_path.push(dent.path)
        } else {
            s.stack_path
        };
        lemma_same_stack(s, w, s0, w);
        lemma_same_stack_cost(s, w, s0, w);
        assert(anc_of(s0) == anc && context(s0, w) == c);
        assert(child_depth(dent.depth) == (n + 1) as usize);
        assert(frame_anc(c.opts, paths, n) == child_anc(c.opts, anc, dent)) by {
            if s.opts.follow_links {
                assert(paths.take(n + 1) =~= paths);
            }
        }
        lemma_list_valid(w.fs, dent.path, (n + 1) as usize);
        lemma_arrange_valid(w.fs, s.opts, dent.path, (n + 1) as usize, listed(s, w));
        assert(list.rest == arrange(w.fs, uncapped(s.opts), listed(s, w)));
        lemma_push_listing_cost(s0, w, dent, list);
    } else {
        let sb = State {
            inserting: Some(ss.queue[0]),
            queue: ss.queue.skip(1),
            lo: 0,
            hi: ss.sorted.len() as usize,
            ..ss
        };
        lemma_bisect_cost(s, w, sb);
    }
}

proof fn lemma_bisect_cost(s: State, w: World, ss: State)
    requires
        sort_base(s, w),
        sorting_from(s, ss),
        ss.inserting is Some,
        as_items(
            sort_into(
                w.fs.compare,
                ss.sorted.insert(
                    bisect_at(
                        w.fs.compare,
                        ss.sorted,
                        ss.inserting.unwrap(),
                        ss.lo as int,
                        ss.hi as int,
                    ),
                    ss.inserting.unwrap(),
                ),
                ss.queue,
            ),
        ) + ss.promoted == arrange(w.fs, s.opts, listed(s, w)),
    ensures
        !(ss.bisect().1 is Done) ==> potential(ss.bisect().0, w.respond(ss.bisect().1)) <= (if ss.lo
            < ss.hi {
            ss.hi - ss.lo
        } else {
            0
        }) + sort_work(ss.sorted.len() + 1, ss.queue.len()) + sorted_work(s, w) + below_cost(
            s,
            w,
        ),
    decreases 2 * ss.queue.len() + 2,
{
    let x = ss.inserting.unwrap();
    if ss.lo < ss.hi && ss.hi <= ss.sorted.len() {
        let s2 = State { phase: Phase::Compare, ..ss };
        let a = ActionView::Compare { a: x, b: ss.sorted[ss.middle()] };
        let w2 = w.respond(a);
        lemma_same_stack_cost(s, w, s2, w2);
        assert(anc_of(s2) == anc_of(s));
        assert(context(s2, w2) == context(s, w));
        assert(listed(s2, w2) == listed(s, w));
        assert(sorted_work(s2, w2) == sorted_work(s, w));
    } else {
        let at = if ss.lo <= ss.sorted.len() {
            ss.lo as int
        } else {
            ss.sorted.len() as int
        };
        assert(at == bisect_at(w.fs.compare, ss.sorted, x, ss.lo as int, ss.hi as int));
        let sn = State { sorted: ss.sorted.insert(at, x), inserting: None, ..ss };
        lemma_sort_next_cost(s, w, sn);
    }
}

proof fn lemma_drained_cost(s: State, w: World, sd: State)
    requires
        s.wf(),
        stack_sim(s, w),
        pending_ok(s),
        s.closing.len() == 0,
        s.start.is_none(),
        sd.phase == Phase::Evict || sd.phase == Phase::SortDrain,
        sd.phase == Phase::Evict ==> s.evicting(),
        sd.phase == Phase::SortDrain ==> sorting_ok(s, w) && count_open(s.stack)
            < s.opts.max_open,
        sd == (State {
            phase: sd.phase,
            typing: sd.typing,
            drained: sd.drained,
            promoted: sd.promoted,
            ..s
        }),
        sd.promoted + promote_all(w.fs, sd.drain_dir(), sd.drain_depth(), sd.drained)
            == drain_total(sd, w),
    ensures
        !(sd.promote().1 is Done) ==> potential(sd.promote().0, w.respond(sd.promote().1))
            < drain_bound(s, w, sd),
{
    let (s2, a) = sd.promote();
    let w2 = w.respond(a);
    let c = context(s, w);
    let n = s.stack.len() as int;
    let dent = s.pending.unwrap();
    let total = drain_total(sd, w);
    lemma_promote_sim(sd, w.fs, total);
    if untyped(sd.drained) > 0 {
        lemma_same_stack_cost(s, w, s2, w2);
        assert(anc_of(s2) == anc_of(s));
        assert(context(s2, w2) == c);
        assert(source_raws(s2, w2) == source_raws(sd, w));
    } else {
        let done = State { drained: Seq::empty(), promoted: total, ..sd };
        assert((s2, a) == done.finish_promote());
        if sd.phase == Phase::SortDrain {
            let ss = State {
                sorted: Seq::empty(),
                queue: oks(total),
                promoted: errs(total),
                ..done
            };
            assert(listed(s, w) == total);
            assert(sort_of(w.fs.compare, oks(total)) == sort_into(
                w.fs.compare,
                ss.sorted,
                ss.queue,
            ));
            lemma_sort_next_cost(s, w, ss);
            assert(child_depth(dent.depth) == (n + 1) as usize);
        } else {
            let victim = s.oldest_opened as int;
            let list = s.stack[victim];
            let closed = ListView { open: false, rest: total, ..list };
            assert(total == frame_items(w.fs, list, victim, w.handles));
            assert(s2.stack == s.stack.update(victim, closed));
            assert(context(s2, w2) == c);
            assert(anc_of(s2) == anc_of(s));
            lemma_stack_cost_update(
                c,
                s.stack,
                w.handles,
                s.stack_path,
                s.deferred,
                n,
                victim,
                closed,
            );
            assert(frame_items(w.fs, closed, victim, w.handles) == total);
            assert(below_cost(s2, w) + (2 + unread(w.handles, s.oldest_opened).len() + untyped(
                unread(w.handles, s.oldest_opened),
            )) == below_cost(s, w));
            lemma_same_stack_cost(s2, w, s2, w2);
        }
    }
}

proof fn lemma_cost_drain(s: State, w: World)
    requires
        sim(s, w),
        s.phase == Phase::Evict || s.phase == Phase::SortDrain,
    ensures
        !(s.step(w.event).1 is Done) ==> potential(s.step(w.event).0, w.respond(s.step(w.event).1))
            < potential(s, w),
{
    let raws = source_raws(s, w);
    let sd = State { drained: raws, promoted: Seq::empty(), ..s };
    assert(s.step(w.event) == sd.promote());
    assert(sd.drain_dir() == s.drain_dir() && sd.drain_depth() == s.drain_depth());
    assert(source_raws(sd, w) == raws);
    assert(Seq::<ItemView>::empty() + drain_total(sd, w) =~= drain_total(sd, w));
    lemma_drained_cost(s, w, sd);
    assert(drain_bound(s, w, sd) == potential(s, w));
}

proof fn lemma_cost_drain_type(s: State, w: World)
    requires
        sim(s, w),
        s.phase == Phase::EvictType || s.phase == Phase::SortType,
    ensures
        !(s.step(w.event).1 is Done) ==> potential(s.step(w.event).0, w.respond(s.step(w.event).1))
            < potential(s, w),
{
    let t = s.typing.unwrap();
    let item = typed_item(w.fs, t);
    let sd = State {
        typing: None,
        promoted: s.promoted.push(item),
        phase: if s.phase == Phase::SortType {
            Phase::SortDrain
        } else {
            Phase::Evict
        },
        ..s
    };
    assert(s.step(w.event) == sd.promote());
    assert(sd.drain_dir() == s.drain_dir() && sd.drain_depth() == s.drain_depth());
    assert(source_raws(sd, w) == source_raws(s, w));
    let rest = promote_all(w.fs, s.drain_dir(), s.drain_depth(), s.drained);
    assert(sd.promoted + rest =~= s.promoted + seq![item] + rest);
    lemma_drained_cost(s, w, sd);
    assert(drain_bound(s, w, sd) == potential(s, w));
}

proof fn lemma_cost_open(s: State, w: World)
    requires
        sim(s, w),
        s.phase == Phase::Open,
    ensures
        !(s.step(w.event).1 is Done) ==> potential(s.step(w.event).0, w.respond(s.step(w.event).1))
            < potential(s, w),
{
    let (s2, a) = s.step(w.event);
    let w2 = w.respond(a);
    let c = context(s, w);
    let n = s.stack.len() as int;
    let dent = s.pending.unwrap();
    let s0 = State { pending: None, ..s };
    let anc = anc_of(s);
    let paths = if s.opts.follow_links {
        s.stack_path.push(dent.path)
    } else {
        s.stack_path
    };
    lemma_sim_quiet(s, w);
    lemma_same_stack_cost(s, w, s0, w);
    assert(anc_of(s0) == anc && context(s0, w) == c);
    assert(child_depth(dent.depth) == (n + 1) as usize);
    assert(frame_anc(c.opts, paths, n) == child_anc(c.opts, anc, dent)) by {
        if s.opts.follow_links {
            assert(paths.take(n + 1) =~= paths);
        }
    }
    match (w.fs.list)(dent.path) {
        Err(e) => {
            let err: ItemView = Err(ErrorView::from_path(dent.depth, dent.path, e));
            let list = ListView { path: dent.path, open: false, rest: seq![err] };
            assert(seq![err][0] == err);
            lemma_push_listing_cost(s0, w, dent, list);
            lemma_work_items_one(c, child_anc(c.opts, anc, dent), dent.path, err);
        },
        Ok(raws) => {
            lemma_list_valid(w.fs, dent.path, (n + 1) as usize);
            if s.opts.sorted {
                lemma_same_stack_cost(s, w, s2, w2);
                assert(anc_of(s2) == anc);
            } else {
                let list = ListView { path: dent.path, open: true, rest: Seq::empty() };
                lemma_push_listing_cost(s0, w, dent, list);
            }
        },
    }
}

proof fn lemma_cost_compare(s: State, w: World)
    requires
        sim(s, w),
        s.phase == Phase::Compare,
    ensures
        !(s.step(w.event).1 is Done) ==> potential(s.step(w.event).0, w.respond(s.step(w.event).1))
            < potential(s, w),
{
    let x = s.inserting.unwrap();
    let order = (w.fs.compare)(x, s.sorted[s.middle()]);
    let ss = if order == Order::Less {
        State { hi: s.middle() as usize, ..s }
    } else {
        State { lo: (s.middle() + 1) as usize, ..s }
    };
    assert(s.step(w.event) == ss.bisect());
    assert(bisect_at(w.fs.compare, s.sorted, x, s.lo as int, s.hi as int) == bisect_at(
        w.fs.compare,
        ss.sorted,
        x,
        ss.lo as int,
        ss.hi as int,
    ));
    lemma_bisect_cost(s, w, ss);
}

/// Every step brings the traversal nearer to its end: where the state of a
/// traversal agrees with the world it runs in, the bound on the steps that
/// it has yet to take is not below zero, and is lower after each step that
/// does not say that the traversal is over.
pub proof fn law_step_makes_progress(s: State, w: World)
    requires
        sim(s, w),
    ensures
        potential(s, w) >= 0,
        !(s.step(w.event).1 is Done) ==> potential(s.step(w.event).0, w.respond(s.step(w.event).1))
            < potential(s, w),
{
    lemma_potential_nonneg(s, w);
    match s.phase {
        Phase::Idle => lemma_cost_idle(s, w),
        Phase::RootStat => lemma_cost_root_stat(s, w),
        Phase::Read => lemma_cost_read(s, w),
        Phase::Type => lemma_cost_type(s, w),
        Phase::Follow => lemma_cost_follow(s, w),
        Phase::Same => lemma_cost_same(s, w),
        Phase::Device => lemma_cost_device(s, w),
        Phase::Evict | Phase::SortDrain => lemma_cost_drain(s, w),
        Phase::EvictType | Phase::SortType => lemma_cost_drain_type(s, w),
        Phase::Open => lemma_cost_open(s, w),
        Phase::Compare => lemma_cost_compare(s, w),
        Phase::Done => {},
    }
}

/// A traversal whose state agrees with the world it runs in is over within
/// as many steps as its bound says, and one more.
pub proof fn lemma_run_ends(s: State, w: World, fuel: nat)
    requires
        sim(s, w),
        fuel > potential(s, w),
    ensures
        completes(s, w, fuel),
    decreases fuel,
{
    law_step_makes_progress(s, w);
    law_step_follows_walk(s, w);
    let (s2, a) = s.step(w.event);
    if !(a is Done) {
        lemma_run_ends(s2, w.respond(a), (fuel - 1) as nat);
    }
}

/// The number of steps within which a traversal of the file system from
/// `root` is over.
pub open spec fn steps_bound(fs: FileSystem, root: Seq<u8>, opts: WalkDirOptions) -> nat {
    2 + work_root(fs, uncapped(opts), root, (fs.stat)(root, true))
}

/// Every traversal ends, and yields what the walk yields. In every file
/// system that is a finite tree, whatever the settings are, a traversal
/// that is run for as many steps as its bound says, or more, is over, and
/// has yielded exactly the records and errors that the walk of the file
/// system yields, in the same order.
pub proof fn law_traversal_ends_with_the_walk(
    fs: FileSystem,
    root: Seq<u8>,
    opts: WalkDirOptions,
    fuel: nat,
)
    requires
        opts.valid(),
        fs.wf(),
        fuel >= steps_bound(fs, root, opts),
    ensures
        completes(State::initial(root, opts), World::initial(fs), fuel),
        run(State::initial(root, opts), World::initial(fs), fuel) == walk(fs, opts, root),
{
    lemma_initial_sim(fs, root, opts);
    lemma_run_ends(State::initial(root, opts), World::initial(fs), fuel);
    lemma_run_follows_walk(State::initial(root, opts), World::initial(fs), fuel);
}

/// What a traversal yields does not depend on how many directories it may
/// keep open: two traversals of one file system from one root, whose
/// settings differ in nothing else, yield the same records and errors in
/// the same order.
pub proof fn law_max_open_never_shows(
    fs: FileSystem,
    root: Seq<u8>,
    opts: WalkDirOptions,
    max_open: usize,
    fuel1: nat,
    fuel2: nat,
)
    requires
        opts.valid(),
        max_open >= 1,
        fs.wf(),
        fuel1 >= steps_bound(fs, root, opts),
        fuel2 >= steps_bound(fs, root, WalkDirOptions { max_open, ..opts }),
    ensures
        run(State::initial(root, opts), World::initial(fs), fuel1) == run(
            State::initial(root, WalkDirOptions { max_open, ..opts }),
            World::initial(fs),
            fuel2,
        ),
{
    let other = WalkDirOptions { max_open, ..opts };
    law_traversal_ends_with_the_walk(fs, root, opts, fuel1);
    law_traversal_ends_with_the_walk(fs, root, other, fuel2);
    assert(uncapped(opts) == uncapped(other));
}

} // verus!
