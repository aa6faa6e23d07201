//! What a traversal shows: the files whose depth the settings show, in
//! either order the same ones, never `.` or `..`, and the targets of the
//! links that it follows.

use vstd::prelude::*;
use vstd::multiset::Multiset;
use crate::dent::{DirEntryView, spec_child_path};
use crate::dir::spec_is_dots;
use crate::error::{ErrorView, IoError};
use crate::walk::{
    ItemView, Order, State, WalkDirOptions, as_items, child_depth, errs, oks, root_entry,
};
use crate::model::{
    FileSystem, Raw, Walk, World, arrange, bisect_at, child_anc, enter, full, inside, item_of_raw,
    listed, loop_check, opt_seq, promote_all, run, shown, sort_into, sort_of, uncapped, walk,
    walk_entry, walk_final, walk_item, walk_items,
};
use crate::follows::{kept, law_run_yields_walk, lemma_sort_into_contains};
use crate::ends::{law_traversal_ends_with_the_walk, steps_bound};

verus! {

/// The records among the items whose depth lies between `lo` and `hi`, in
/// their order.
pub open spec fn visible(lo: usize, hi: usize, items: Seq<ItemView>) -> Seq<DirEntryView>
    decreases items.len(),
{
    if items.len() == 0 {
        Seq::empty()
    } else {
        (match items[0] {
            Ok(dent) => if lo <= dent.depth <= hi {
                seq![dent]
            } else {
                Seq::empty()
            },
            Err(_) => Seq::empty(),
        }) + visible(lo, hi, items.skip(1))
    }
}

/// The records among the items, in their order.
pub open spec fn records(items: Seq<ItemView>) -> Seq<DirEntryView> {
    visible(0, usize::MAX, items)
}

pub proof fn lemma_visible_concat(lo: usize, hi: usize, a: Seq<ItemView>, b: Seq<ItemView>)
    ensures
        visible(lo, hi, a + b) == visible(lo, hi, a) + visible(lo, hi, b),
    decreases a.len(),
{
    if a.len() == 0 {
        assert(a + b =~= b);
        assert(visible(lo, hi, a) + visible(lo, hi, b) =~= visible(lo, hi, b));
    } else {
        assert((a + b)[0] == a[0]);
        assert((a + b).skip(1) =~= a.skip(1) + b);
        lemma_visible_concat(lo, hi, a.skip(1), b);
        let head = visible(lo, hi, seq![a[0]]);
        assert(visible(lo, hi, a + b) =~= visible(lo, hi, a) + visible(lo, hi, b));
    }
}

pub proof fn lemma_visible_one(lo: usize, hi: usize, item: ItemView)
    ensures
        visible(lo, hi, seq![item]) == match item {
            Ok(dent) => if lo <= dent.depth <= hi {
                seq![dent]
            } else {
                Seq::empty()
            },
            Err(_) => Seq::empty(),
        },
        visible(lo, hi, Seq::empty()) == Seq::<DirEntryView>::empty(),
{
    assert(seq![item].len() == 1);
    assert(seq![item][0] == item);
    assert(seq![item].skip(1) =~= Seq::empty());
    assert(visible(lo, hi, seq![item].skip(1)) == Seq::<DirEntryView>::empty());
    assert(visible(lo, hi, seq![item]) =~= match item {
        Ok(dent) => if lo <= dent.depth <= hi {
            seq![dent]
        } else {
            Seq::empty()
        },
        Err(_) => Seq::empty(),
    });
}

/// The same settings, with directories shown on the other side of what they
/// hold.
pub open spec fn flipped(opts: WalkDirOptions) -> WalkDirOptions {
    WalkDirOptions { contents_first: !opts.contents_first, ..opts }
}

pub open spec fn flip(c: Walk) -> Walk {
    Walk { opts: flipped(c.opts), ..c }
}

/// Two runs of items hold the same items, and so the same records, however
/// often each, whatever their order.
pub open spec fn same_bag(a: Seq<ItemView>, b: Seq<ItemView>) -> bool {
    a.to_multiset() == b.to_multiset() && records(a).to_multiset() == records(b).to_multiset()
}

pub proof fn lemma_same_bag_concat(
    a1: Seq<ItemView>,
    b1: Seq<ItemView>,
    a2: Seq<ItemView>,
    b2: Seq<ItemView>,
)
    requires
        same_bag(a1, a2),
        same_bag(b1, b2),
    ensures
        same_bag(a1 + b1, a2 + b2),
        same_bag(a1 + b1, b2 + a2),
{
    vstd::seq_lib::lemma_multiset_commutative(a1, b1);
    vstd::seq_lib::lemma_multiset_commutative(a2, b2);
    vstd::seq_lib::lemma_multiset_commutative(b2, a2);
    lemma_visible_concat(0, usize::MAX, a1, b1);
    lemma_visible_concat(0, usize::MAX, a2, b2);
    lemma_visible_concat(0, usize::MAX, b2, a2);
    vstd::seq_lib::lemma_multiset_commutative(records(a1), records(b1));
    vstd::seq_lib::lemma_multiset_commutative(records(a2), records(b2));
    vstd::seq_lib::lemma_multiset_commutative(records(b2), records(a2));
    assert(a1.to_multiset().add(b1.to_multiset()) =~= b2.to_multiset().add(a2.to_multiset()));
    assert(records(a1).to_multiset().add(records(b1).to_multiset()) =~= records(
        b2,
    ).to_multiset().add(records(a2).to_multiset()));
}

pub proof fn lemma_flip_entry(c: Walk, anc: Seq<Seq<u8>>, dent: DirEntryView)
    ensures
        same_bag(walk_entry(c, anc, dent), walk_entry(flip(c), anc, dent)),
    decreases (c.fs.height)(dent.path), 3int, 0int,
{
    if c.opts.follow_links && dent.file_type.is_symlink() {
        match (c.fs.stat)(dent.path, true) {
            Err(e) => {},
            Ok(md) => {
                let target = dent.followed(md);
                if target.file_type.is_dir() {
                    match loop_check(c.fs, anc, target, anc.len() as int) {
                        Some(err) => {},
                        None => lemma_flip_final(c, anc, target),
                    }
                } else {
                    lemma_flip_final(c, anc, target);
                }
            },
        }
    } else {
        lemma_flip_final(c, anc, dent);
    }
}

pub proof fn lemma_flip_final(c: Walk, anc: Seq<Seq<u8>>, dent: DirEntryView)
    ensures
        same_bag(walk_final(c, anc, dent), walk_final(flip(c), anc, dent)),
    decreases (c.fs.height)(dent.path), 2int, 0int,
{
    let d = flip(c);
    if dent.file_type.is_dir() && dent.depth < c.opts.max_depth {
        if c.opts.same_file_system && dent.depth > 0 {
            match (c.fs.stat)(dent.path, true) {
                Err(e) => {},
                Ok(md) => if md.dev == c.dev {
                    lemma_flip_enter(c, anc, dent);
                },
            }
        } else {
            lemma_flip_enter(c, anc, dent);
        }
    }
}

pub proof fn lemma_flip_enter(c: Walk, anc: Seq<Seq<u8>>, dent: DirEntryView)
    ensures
        same_bag(enter(c, anc, dent), enter(flip(c), anc, dent)),
    decreases (c.fs.height)(dent.path), 1int, 1int,
{
    let d = flip(c);
    let own = shown(c.opts, dent);
    assert(shown(d.opts, dent) == own);
    match (c.fs.list)(dent.path) {
        Err(e) => {},
        Ok(raws) => {
            let items = arrange(
                c.fs,
                c.opts,
                promote_all(c.fs, dent.path, child_depth(dent.depth), raws),
            );
            assert(arrange(
                d.fs,
                d.opts,
                promote_all(d.fs, dent.path, child_depth(dent.depth), raws),
            ) == items);
            assert(child_anc(d.opts, anc, dent) == child_anc(c.opts, anc, dent));
            lemma_flip_items(c, child_anc(c.opts, anc, dent), dent.path, items);
        },
    }
    let inner1 = inside(c, anc, dent);
    let inner2 = inside(d, anc, dent);
    assert(same_bag(inner1, inner2));
    assert(same_bag(own, own));
    if c.opts.contents_first {
        lemma_same_bag_concat(inner1, own, inner2, own);
    } else {
        lemma_same_bag_concat(own, inner1, own, inner2);
    }
}

pub proof fn lemma_flip_items(c: Walk, anc: Seq<Seq<u8>>, dir: Seq<u8>, items: Seq<ItemView>)
    ensures
        same_bag(walk_items(c, anc, dir, items), walk_items(flip(c), anc, dir, items)),
    decreases (c.fs.height)(dir), 0int, items.len(),
{
    if items.len() > 0 {
        let d = flip(c);
        match items[0] {
            Err(e) => {},
            Ok(dent) => if (c.fs.height)(dent.path) < (c.fs.height)(dir) {
                lemma_flip_entry(c, anc, dent);
            },
        }
        lemma_flip_items(c, anc, dir, items.skip(1));
        lemma_same_bag_concat(
            walk_item(c, anc, dir, items[0]),
            walk_items(c, anc, dir, items.skip(1)),
            walk_item(d, anc, dir, items[0]),
            walk_items(d, anc, dir, items.skip(1)),
        );
    }
}

/// The order of emission does not change what is yielded: a traversal that
/// shows each directory before what it holds and one that shows it after
/// yield the same records and the same errors, each as often, for any file
/// system and any other settings.
pub proof fn law_order_keeps_what_is_yielded(fs: FileSystem, opts: WalkDirOptions, root: Seq<u8>)
    ensures
        walk(fs, opts, root).to_multiset() == walk(fs, flipped(opts), root).to_multiset(),
        records(walk(fs, opts, root)).to_multiset() == records(
            walk(fs, flipped(opts), root),
        ).to_multiset(),
{
    assert(uncapped(flipped(opts)) == flipped(uncapped(opts)));
    match (fs.stat)(root, true) {
        Err(e) => {},
        Ok(md) => {
            if !(opts.same_file_system && md.dev.is_none()) {
                let c = Walk { fs, opts: uncapped(opts), dev: md.dev };
                assert(flip(c) == Walk { fs, opts: uncapped(flipped(opts)), dev: md.dev });
                lemma_flip_final(c, Seq::empty(), root_entry(root).with_stat(md));
            }
        },
    }
}

/// The same settings, with every depth shown and every directory entered.
pub open spec fn widened(opts: WalkDirOptions) -> WalkDirOptions {
    WalkDirOptions { min_depth: 0, max_depth: usize::MAX, ..opts }
}

pub open spec fn widen(c: Walk) -> Walk {
    Walk { opts: widened(c.opts), ..c }
}

/// Every record among the items lies at the depth `depth`.
pub open spec fn at_depth(items: Seq<ItemView>, depth: usize) -> bool {
    forall|j: int|
        0 <= j < items.len() ==> match #[trigger] items[j] {
            Ok(dent) => dent.depth == depth,
            Err(_) => true,
        }
}

pub proof fn lemma_promote_all_depth(fs: FileSystem, dir: Seq<u8>, depth: usize, raws: Seq<Raw>)
    ensures
        at_depth(promote_all(fs, dir, depth, raws), depth),
    decreases raws.len(),
{
    if raws.len() > 0 {
        lemma_promote_all_depth(fs, dir, depth, raws.skip(1));
        let head = opt_seq(item_of_raw(fs, dir, depth, raws[0]));
        let tail = promote_all(fs, dir, depth, raws.skip(1));
        assert forall|j: int| 0 <= j < (head + tail).len() implies match #[trigger] (head + tail)[j] {
            Ok(dent) => dent.depth == depth,
            Err(_) => true,
        } by {
            if j < head.len() {
                assert((head + tail)[j] == head[j]);
            } else {
                assert((head + tail)[j] == tail[j - head.len()]);
            }
        }
    }
}

pub proof fn lemma_at_depth_skip(items: Seq<ItemView>, depth: usize)
    requires
        at_depth(items, depth),
        items.len() > 0,
    ensures
        at_depth(items.skip(1), depth),
{
    assert forall|j: int| 0 <= j < items.skip(1).len() implies match #[trigger] items.skip(1)[j] {
        Ok(dent) => dent.depth == depth,
        Err(_) => true,
    } by {
        assert(items.skip(1)[j] == items[j + 1]);
    }
}

/// The items of a directory in the order in which they are dealt with lie
/// at the depth at which they were listed.
pub proof fn lemma_arrange_depth(fs: FileSystem, opts: WalkDirOptions, items: Seq<ItemView>, depth: usize)
    requires
        fs.wf(),
        at_depth(items, depth),
    ensures
        at_depth(arrange(fs, opts, items), depth),
{
    if opts.sorted {
        let entries = oks(items);
        let sorted = sort_of(fs.compare, entries);
        lemma_oks_at_depth(items, depth);
        let all = as_items(sorted) + errs(items);
        assert forall|j: int| 0 <= j < all.len() implies match #[trigger] all[j] {
            Ok(dent) => dent.depth == depth,
            Err(_) => true,
        } by {
            if j < as_items(sorted).len() {
                let dent = sorted[j];
                assert(all[j] == Ok::<DirEntryView, ErrorView>(dent));
                assert(sorted.contains(dent));
                lemma_sort_into_contains(fs.compare, Seq::empty(), entries, dent);
                assert(entries.contains(dent));
            } else {
                lemma_errs_are_errors(items, j - as_items(sorted).len());
                assert(all[j] == errs(items)[j - as_items(sorted).len()]);
            }
        }
    }
}

/// The records among items that lie at one depth lie at that depth.
pub proof fn lemma_oks_at_depth(items: Seq<ItemView>, depth: usize)
    requires
        at_depth(items, depth),
    ensures
        forall|dent: DirEntryView| oks(items).contains(dent) ==> dent.depth == depth,
    decreases items.len(),
{
    if items.len() > 0 {
        assert forall|j: int| 0 <= j < items.drop_last().len() implies match #[trigger] items.drop_last()[j] {
            Ok(dent) => dent.depth == depth,
            Err(_) => true,
        } by {
            assert(items.drop_last()[j] == items[j]);
        }
        lemma_oks_at_depth(items.drop_last(), depth);
        let last = items.last();
        assert(items[items.len() - 1] == last);
        assert forall|dent: DirEntryView| oks(items).contains(dent) implies dent.depth == depth by {
            let k = choose|k: int| 0 <= k < oks(items).len() && oks(items)[k] == dent;
            match last {
                Ok(d) => {
                    if k < oks(items.drop_last()).len() {
                        assert(oks(items.drop_last())[k] == dent);
                        assert(oks(items.drop_last()).contains(dent));
                    }
                },
                Err(e) => {
                    assert(oks(items.drop_last()).contains(dent));
                },
            }
        }
    }
}

/// The errors among items are errors.
pub proof fn lemma_errs_are_errors(items: Seq<ItemView>, j: int)
    requires
        0 <= j < errs(items).len(),
    ensures
        errs(items)[j] is Err,
    decreases items.len(),
{
    if items.len() > 0 {
        match items.last() {
            Ok(d) => lemma_errs_are_errors(items.drop_last(), j),
            Err(e) => {
                if j < errs(items.drop_last()).len() {
                    lemma_errs_are_errors(items.drop_last(), j);
                }
            },
        }
    }
}

/// Below the greatest depth shown nothing is shown: of what a traversal
/// that enters every directory yields for a record that lies deeper than
/// `hi`, and for all below it, no record lies between `lo` and `hi`.
pub proof fn lemma_deep_entry(c: Walk, anc: Seq<Seq<u8>>, dent: DirEntryView, lo: usize, hi: usize)
    requires
        c.fs.wf(),
        dent.depth > hi,
    ensures
        visible(lo, hi, walk_entry(c, anc, dent)) == Seq::<DirEntryView>::empty(),
        visible(lo, hi, walk_final(c, anc, dent)) == Seq::<DirEntryView>::empty(),
    decreases (c.fs.height)(dent.path), 3int, 0int,
{
    lemma_deep_final(c, anc, dent, lo, hi);
    if c.opts.follow_links && dent.file_type.is_symlink() {
        match (c.fs.stat)(dent.path, true) {
            Err(e) => {
                lemma_visible_one(lo, hi, Err(ErrorView::from_path(dent.depth, dent.path, e)));
            },
            Ok(md) => {
                let target = dent.followed(md);
                if target.file_type.is_dir() {
                    match loop_check(c.fs, anc, target, anc.len() as int) {
                        Some(err) => {
                            lemma_visible_one(lo, hi, Err(err));
                        },
                        None => lemma_deep_final(c, anc, target, lo, hi),
                    }
                } else {
                    lemma_deep_final(c, anc, target, lo, hi);
                }
            },
        }
    }
}

pub proof fn lemma_deep_final(c: Walk, anc: Seq<Seq<u8>>, dent: DirEntryView, lo: usize, hi: usize)
    requires
        c.fs.wf(),
        dent.depth > hi,
    ensures
        visible(lo, hi, walk_final(c, anc, dent)) == Seq::<DirEntryView>::empty(),
    decreases (c.fs.height)(dent.path), 2int, 0int,
{
    lemma_visible_one(lo, hi, Ok(dent));
    assert(visible(lo, hi, shown(c.opts, dent)) == Seq::<DirEntryView>::empty());
    if dent.file_type.is_dir() && dent.depth < c.opts.max_depth {
        if c.opts.same_file_system && dent.depth > 0 {
            match (c.fs.stat)(dent.path, true) {
                Err(e) => {
                    lemma_visible_one(lo, hi, Err(ErrorView::from_path(dent.depth, dent.path, e)));
                },
                Ok(md) => if md.dev == c.dev {
                    lemma_deep_enter(c, anc, dent, lo, hi);
                },
            }
        } else {
            lemma_deep_enter(c, anc, dent, lo, hi);
        }
    }
}

pub proof fn lemma_deep_enter(c: Walk, anc: Seq<Seq<u8>>, dent: DirEntryView, lo: usize, hi: usize)
    requires
        c.fs.wf(),
        dent.depth >= hi,
        dent.depth < usize::MAX,
    ensures
        visible(lo, hi, inside(c, anc, dent)) == Seq::<DirEntryView>::empty(),
        dent.depth > hi ==> visible(lo, hi, enter(c, anc, dent)) == Seq::<DirEntryView>::empty(),
    decreases (c.fs.height)(dent.path), 1int, 1int,
{
    match (c.fs.list)(dent.path) {
        Err(e) => {
            lemma_visible_one(lo, hi, Err(ErrorView::from_path(dent.depth, dent.path, e)));
        },
        Ok(raws) => {
            let listed = promote_all(c.fs, dent.path, child_depth(dent.depth), raws);
            let items = arrange(c.fs, c.opts, listed);
            lemma_promote_all_depth(c.fs, dent.path, child_depth(dent.depth), raws);
            lemma_arrange_depth(c.fs, c.opts, listed, child_depth(dent.depth));
            lemma_deep_items(c, child_anc(c.opts, anc, dent), dent.path, items, lo, hi);
        },
    }
    let inner = inside(c, anc, dent);
    lemma_visible_one(lo, hi, Ok(dent));
    if dent.depth > hi {
        lemma_visible_concat(lo, hi, inner, shown(c.opts, dent));
        lemma_visible_concat(lo, hi, shown(c.opts, dent), inner);
        assert(visible(lo, hi, shown(c.opts, dent)) == Seq::<DirEntryView>::empty());
        assert(visible(lo, hi, enter(c, anc, dent)) =~= Seq::<DirEntryView>::empty());
    }
}

pub proof fn lemma_deep_items(
    c: Walk,
    anc: Seq<Seq<u8>>,
    dir: Seq<u8>,
    items: Seq<ItemView>,
    lo: usize,
    hi: usize,
)
    requires
        c.fs.wf(),
        exists|depth: usize| depth > hi && at_depth(items, depth),
    ensures
        visible(lo, hi, walk_items(c, anc, dir, items)) == Seq::<DirEntryView>::empty(),
    decreases (c.fs.height)(dir), 0int, items.len(),
{
    if items.len() > 0 {
        let depth = choose|depth: usize| depth > hi && at_depth(items, depth);
        lemma_at_depth_skip(items, depth);
        match items[0] {
            Err(e) => {
                lemma_visible_one(lo, hi, Err(e));
            },
            Ok(dent) => if (c.fs.height)(dent.path) < (c.fs.height)(dir) {
                lemma_deep_entry(c, anc, dent, lo, hi);
            } else {
                lemma_visible_one(lo, hi, Err(ErrorView::from_io(0, IoError::Other)));
            },
        }
        lemma_deep_items(c, anc, dir, items.skip(1), lo, hi);
        lemma_visible_concat(
            lo,
            hi,
            walk_item(c, anc, dir, items[0]),
            walk_items(c, anc, dir, items.skip(1)),
        );
        assert(visible(lo, hi, walk_items(c, anc, dir, items)) =~= Seq::<DirEntryView>::empty());
    }
}

/// Where the traversal stays on one file system, every stat through links
/// succeeds: no directory is left out for want of knowing its device.
pub open spec fn devices_known(fs: FileSystem, opts: WalkDirOptions) -> bool {
    opts.same_file_system ==> forall|path: Seq<u8>| #[trigger] (fs.stat)(path, true) is Ok
}

/// The settings for which the records of a traversal are held against those
/// of one that shows everything, in their order: a directory comes before
/// what it holds.
pub open spec fn forward(c: Walk) -> bool {
    !c.opts.contents_first && devices_known(c.fs, c.opts)
}

pub proof fn lemma_window_entry(c: Walk, anc: Seq<Seq<u8>>, dent: DirEntryView)
    requires
        c.fs.wf(),
        forward(c),
        dent.depth <= c.opts.max_depth,
    ensures
        records(walk_entry(c, anc, dent)) == visible(
            c.opts.min_depth,
            c.opts.max_depth,
            walk_entry(widen(c), anc, dent),
        ),
    decreases (c.fs.height)(dent.path), 3int, 0int,
{
    if c.opts.follow_links && dent.file_type.is_symlink() {
        match (c.fs.stat)(dent.path, true) {
            Err(e) => {
                let err: ItemView = Err(ErrorView::from_path(dent.depth, dent.path, e));
                lemma_visible_one(0, usize::MAX, err);
                lemma_visible_one(c.opts.min_depth, c.opts.max_depth, err);
            },
            Ok(md) => {
                let target = dent.followed(md);
                if target.file_type.is_dir() {
                    match loop_check(c.fs, anc, target, anc.len() as int) {
                        Some(err) => {
                            lemma_visible_one(0, usize::MAX, Err(err));
                            lemma_visible_one(c.opts.min_depth, c.opts.max_depth, Err(err));
                        },
                        None => lemma_window_final(c, anc, target),
                    }
                } else {
                    lemma_window_final(c, anc, target);
                }
            },
        }
    } else {
        lemma_window_final(c, anc, dent);
    }
}

pub proof fn lemma_window_final(c: Walk, anc: Seq<Seq<u8>>, dent: DirEntryView)
    requires
        c.fs.wf(),
        forward(c),
        dent.depth <= c.opts.max_depth,
    ensures
        records(walk_final(c, anc, dent)) == visible(
            c.opts.min_depth,
            c.opts.max_depth,
            walk_final(widen(c), anc, dent),
        ),
    decreases (c.fs.height)(dent.path), 2int, 0int,
{
    let lo = c.opts.min_depth;
    let hi = c.opts.max_depth;
    let wide = widen(c);
    let own = shown(c.opts, dent);
    lemma_visible_one(0, usize::MAX, Ok(dent));
    lemma_visible_one(lo, hi, Ok(dent));
    assert(shown(wide.opts, dent) == seq![Ok::<DirEntryView, ErrorView>(dent)]);
    assert(records(own) == visible(lo, hi, shown(wide.opts, dent)));
    if dent.file_type.is_dir() && dent.depth < usize::MAX {
        if dent.depth < hi {
            if c.opts.same_file_system && dent.depth > 0 {
                match (c.fs.stat)(dent.path, true) {
                    Err(e) => {
                        let err: ItemView = Err(ErrorView::from_path(dent.depth, dent.path, e));
                        lemma_visible_one(0, usize::MAX, err);
                        lemma_visible_one(lo, hi, err);
                    },
                    Ok(md) => if md.dev == c.dev {
                        lemma_window_enter(c, anc, dent);
                    },
                }
            } else {
                lemma_window_enter(c, anc, dent);
            }
        } else {
            let inner_wide = inside(wide, anc, dent);
            lemma_deep_enter(wide, anc, dent, lo, hi);
            lemma_visible_concat(lo, hi, shown(wide.opts, dent), inner_wide);
            assert(visible(lo, hi, enter(wide, anc, dent)) =~= records(own));
            if c.opts.same_file_system && dent.depth > 0 {
                assert((c.fs.stat)(dent.path, true) is Ok);
            }
        }
    }
}

pub proof fn lemma_window_enter(c: Walk, anc: Seq<Seq<u8>>, dent: DirEntryView)
    requires
        c.fs.wf(),
        forward(c),
        dent.depth < c.opts.max_depth,
    ensures
        records(enter(c, anc, dent)) == visible(
            c.opts.min_depth,
            c.opts.max_depth,
            enter(widen(c), anc, dent),
        ),
    decreases (c.fs.height)(dent.path), 1int, 1int,
{
    let lo = c.opts.min_depth;
    let hi = c.opts.max_depth;
    let wide = widen(c);
    let own = shown(c.opts, dent);
    let inner = inside(c, anc, dent);
    let inner_wide = inside(wide, anc, dent);
    lemma_visible_one(0, usize::MAX, Ok(dent));
    lemma_visible_one(lo, hi, Ok(dent));
    assert(shown(wide.opts, dent) == seq![Ok::<DirEntryView, ErrorView>(dent)]);
    match (c.fs.list)(dent.path) {
        Err(e) => {
            let err: ItemView = Err(ErrorView::from_path(dent.depth, dent.path, e));
            lemma_visible_one(0, usize::MAX, err);
            lemma_visible_one(lo, hi, err);
        },
        Ok(raws) => {
            let listed = promote_all(c.fs, dent.path, child_depth(dent.depth), raws);
            let items = arrange(c.fs, c.opts, listed);
            lemma_promote_all_depth(c.fs, dent.path, child_depth(dent.depth), raws);
            lemma_arrange_depth(c.fs, c.opts, listed, child_depth(dent.depth));
            assert(arrange(wide.fs, wide.opts, listed) == items);
            assert(child_anc(wide.opts, anc, dent) == child_anc(c.opts, anc, dent));
            lemma_window_items(
                c,
                child_anc(c.opts, anc, dent),
                dent.path,
                items,
                child_depth(dent.depth),
            );
        },
    }
    assert(records(inner) == visible(lo, hi, inner_wide));
    lemma_visible_concat(0, usize::MAX, own, inner);
    lemma_visible_concat(lo, hi, shown(wide.opts, dent), inner_wide);
}

pub proof fn lemma_window_items(
    c: Walk,
    anc: Seq<Seq<u8>>,
    dir: Seq<u8>,
    items: Seq<ItemView>,
    depth: usize,
)
    requires
        c.fs.wf(),
        forward(c),
        depth <= c.opts.max_depth,
        at_depth(items, depth),
    ensures
        records(walk_items(c, anc, dir, items)) == visible(
            c.opts.min_depth,
            c.opts.max_depth,
            walk_items(widen(c), anc, dir, items),
        ),
    decreases (c.fs.height)(dir), 0int, items.len(),
{
    let lo = c.opts.min_depth;
    let hi = c.opts.max_depth;
    let wide = widen(c);
    if items.len() > 0 {
        lemma_at_depth_skip(items, depth);
        match items[0] {
            Err(e) => {
                lemma_visible_one(0, usize::MAX, Err(e));
                lemma_visible_one(lo, hi, Err(e));
            },
            Ok(dent) => if (c.fs.height)(dent.path) < (c.fs.height)(dir) {
                lemma_window_entry(c, anc, dent);
            },
        }
        lemma_window_items(c, anc, dir, items.skip(1), depth);
        lemma_visible_concat(
            0,
            usize::MAX,
            walk_item(c, anc, dir, items[0]),
            walk_items(c, anc, dir, items.skip(1)),
        );
        lemma_visible_concat(
            lo,
            hi,
            walk_item(wide, anc, dir, items[0]),
            walk_items(wide, anc, dir, items.skip(1)),
        );
    }
}

/// The settings in which a directory comes before what it holds.
pub open spec fn forwards(opts: WalkDirOptions) -> WalkDirOptions {
    WalkDirOptions { contents_first: false, ..opts }
}

/// The records that the walk yields are the files of the tree whose depth
/// the settings show, each as often as the tree has it: they are the
/// records, between the least and the greatest depth, of the walk that
/// shows every depth, enters every directory, and shows each directory
/// before what it holds. Where the walk itself shows each directory before
/// what it holds, they come in the same order too. This holds in every file
/// system that is a finite tree, for all settings; where the traversal
/// stays on one file system, it holds if every stat succeeds.
pub proof fn law_records_are_the_files_in_the_window(
    fs: FileSystem,
    opts: WalkDirOptions,
    root: Seq<u8>,
)
    requires
        fs.wf(),
        devices_known(fs, opts),
    ensures
        records(walk(fs, opts, root)).to_multiset() == visible(
            opts.min_depth,
            opts.max_depth,
            walk(fs, widened(forwards(opts)), root),
        ).to_multiset(),
        !opts.contents_first ==> records(walk(fs, opts, root)) == visible(
            opts.min_depth,
            opts.max_depth,
            walk(fs, widened(opts), root),
        ),
{
    let pre = forwards(opts);
    if opts.contents_first {
        assert(flipped(opts) == pre);
        law_order_keeps_what_is_yielded(fs, opts, root);
    } else {
        assert(pre == opts);
    }
    assert(uncapped(widened(pre)) == widened(uncapped(pre)));
    match (fs.stat)(root, true) {
        Err(e) => {
            let err: ItemView = Err(ErrorView::from_path(0, root, e));
            lemma_visible_one(0, usize::MAX, err);
            lemma_visible_one(opts.min_depth, opts.max_depth, err);
        },
        Ok(md) => {
            if !(opts.same_file_system && md.dev.is_none()) {
                let c = Walk { fs, opts: uncapped(pre), dev: md.dev };
                assert(widen(c) == Walk { fs, opts: uncapped(widened(pre)), dev: md.dev });
                lemma_window_final(c, Seq::empty(), root_entry(root).with_stat(md));
            } else {
                let err: ItemView = Err(ErrorView::from_path(0, root, IoError::Unsupported));
                lemma_visible_one(0, usize::MAX, err);
                lemma_visible_one(opts.min_depth, opts.max_depth, err);
            }
        },
    }
}

/// A traversal yields the files of the tree whose depth the settings show,
/// each as often as the tree has it, whatever order the settings ask for
/// and however many directories may be open. This holds in every file
/// system that is a finite tree, for all settings; where the traversal
/// stays on one file system, it holds if every stat succeeds.
pub proof fn law_traversal_yields_the_files_in_the_window(
    fs: FileSystem,
    root: Seq<u8>,
    opts: WalkDirOptions,
    fuel: nat,
)
    requires
        opts.valid(),
        fs.wf(),
        devices_known(fs, opts),
        fuel >= steps_bound(fs, root, opts),
    ensures
        records(run(State::initial(root, opts), World::initial(fs), fuel)).to_multiset()
            == visible(
            opts.min_depth,
            opts.max_depth,
            walk(fs, widened(forwards(opts)), root),
        ).to_multiset(),
{
    law_traversal_ends_with_the_walk(fs, root, opts, fuel);
    law_records_are_the_files_in_the_window(fs, opts, root);
}

/// Two traversals of one file system from one root, of which one shows
/// each directory before what it holds and the other after, and whose
/// settings differ in nothing else, yield the same records and the same
/// errors, each as often.
pub proof fn law_traversals_in_both_orders_yield_the_same(
    fs: FileSystem,
    root: Seq<u8>,
    opts: WalkDirOptions,
    fuel1: nat,
    fuel2: nat,
)
    requires
        opts.valid(),
        fs.wf(),
        fuel1 >= steps_bound(fs, root, opts),
        fuel2 >= steps_bound(fs, root, flipped(opts)),
    ensures
        run(State::initial(root, opts), World::initial(fs), fuel1).to_multiset() == run(
            State::initial(root, flipped(opts)),
            World::initial(fs),
            fuel2,
        ).to_multiset(),
        records(run(State::initial(root, opts), World::initial(fs), fuel1)).to_multiset()
            == records(
            run(State::initial(root, flipped(opts)), World::initial(fs), fuel2),
        ).to_multiset(),
{
    law_traversal_ends_with_the_walk(fs, root, opts, fuel1);
    law_traversal_ends_with_the_walk(fs, root, flipped(opts), fuel2);
    law_order_keeps_what_is_yielded(fs, opts, root);
}

/// Every record among the items lies at a depth that the settings show.
pub open spec fn in_window_all(opts: WalkDirOptions, items: Seq<ItemView>) -> bool {
    forall|j: int|
        0 <= j < items.len() ==> match #[trigger] items[j] {
            Ok(dent) => opts.in_window(dent.depth),
            Err(_) => true,
        }
}

pub proof fn lemma_in_window_concat(opts: WalkDirOptions, a: Seq<ItemView>, b: Seq<ItemView>)
    requires
        in_window_all(opts, a),
        in_window_all(opts, b),
    ensures
        in_window_all(opts, a + b),
{
    assert forall|j: int| 0 <= j < (a + b).len() implies match #[trigger] (a + b)[j] {
        Ok(dent) => opts.in_window(dent.depth),
        Err(_) => true,
    } by {
        if j < a.len() {
            assert((a + b)[j] == a[j]);
        } else {
            assert((a + b)[j] == b[j - a.len()]);
        }
    }
}

pub proof fn lemma_in_window_entry(c: Walk, anc: Seq<Seq<u8>>, dent: DirEntryView)
    ensures
        in_window_all(c.opts, walk_entry(c, anc, dent)),
        in_window_all(c.opts, walk_final(c, anc, dent)),
    decreases (c.fs.height)(dent.path), 3int, 0int,
{
    lemma_in_window_final(c, anc, dent);
    if c.opts.follow_links && dent.file_type.is_symlink() {
        match (c.fs.stat)(dent.path, true) {
            Err(e) => {},
            Ok(md) => {
                lemma_in_window_final(c, anc, dent.followed(md));
            },
        }
    }
}

pub proof fn lemma_in_window_final(c: Walk, anc: Seq<Seq<u8>>, dent: DirEntryView)
    ensures
        in_window_all(c.opts, walk_final(c, anc, dent)),
    decreases (c.fs.height)(dent.path), 2int, 0int,
{
    if dent.file_type.is_dir() && dent.depth < c.opts.max_depth {
        lemma_in_window_enter(c, anc, dent);
    }
}

pub proof fn lemma_in_window_enter(c: Walk, anc: Seq<Seq<u8>>, dent: DirEntryView)
    ensures
        in_window_all(c.opts, enter(c, anc, dent)),
    decreases (c.fs.height)(dent.path), 1int, 1int,
{
    match (c.fs.list)(dent.path) {
        Err(e) => {},
        Ok(raws) => {
            lemma_in_window_items(
                c,
                child_anc(c.opts, anc, dent),
                dent.path,
                arrange(
                    c.fs,
                    c.opts,
                    promote_all(c.fs, dent.path, child_depth(dent.depth), raws),
                ),
            );
        },
    }
    let inner = inside(c, anc, dent);
    let own = shown(c.opts, dent);
    assert(in_window_all(c.opts, own));
    assert(in_window_all(c.opts, inner));
    lemma_in_window_concat(c.opts, own, inner);
    lemma_in_window_concat(c.opts, inner, own);
}

pub proof fn lemma_in_window_items(c: Walk, anc: Seq<Seq<u8>>, dir: Seq<u8>, items: Seq<ItemView>)
    ensures
        in_window_all(c.opts, walk_items(c, anc, dir, items)),
    decreases (c.fs.height)(dir), 0int, items.len(),
{
    if items.len() > 0 {
        match items[0] {
            Err(e) => {},
            Ok(dent) => if (c.fs.height)(dent.path) < (c.fs.height)(dir) {
                lemma_in_window_entry(c, anc, dent);
            },
        }
        lemma_in_window_items(c, anc, dir, items.skip(1));
        lemma_in_window_concat(
            c.opts,
            walk_item(c, anc, dir, items[0]),
            walk_items(c, anc, dir, items.skip(1)),
        );
    }
}

/// No record is yielded whose depth the settings do not show: every record
/// that a traversal yields, however far it is run, lies between the least
/// and the greatest depth.
pub proof fn law_yielded_records_lie_in_the_window(
    fs: FileSystem,
    root: Seq<u8>,
    opts: WalkDirOptions,
    fuel: nat,
    j: int,
)
    requires
        opts.valid(),
        fs.wf(),
        0 <= j < run(State::initial(root, opts), World::initial(fs), fuel).len(),
    ensures
        match run(State::initial(root, opts), World::initial(fs), fuel)[j] {
            Ok(dent) => opts.min_depth <= dent.depth <= opts.max_depth,
            Err(_) => true,
        },
{
    law_run_yields_walk(fs, root, opts, fuel);
    let all = walk(fs, opts, root);
    match (fs.stat)(root, true) {
        Err(e) => {},
        Ok(md) => {
            if !(opts.same_file_system && md.dev.is_none()) {
                lemma_in_window_final(
                    Walk { fs, opts: uncapped(opts), dev: md.dev },
                    Seq::empty(),
                    root_entry(root).with_stat(md),
                );
            }
        },
    }
    assert(in_window_all(uncapped(opts), all));
    assert(run(State::initial(root, opts), World::initial(fs), fuel)[j] == all[j]);
}

/// The entries without those named `.` and `..`.
pub open spec fn without_dots(raws: Seq<Raw>) -> Seq<Raw>
    decreases raws.len(),
{
    if raws.len() == 0 {
        Seq::empty()
    } else {
        (match raws[0] {
            Ok(r) => if spec_is_dots(r.name) {
                Seq::empty()
            } else {
                seq![raws[0]]
            },
            Err(_) => seq![raws[0]],
        }) + without_dots(raws.skip(1))
    }
}

pub proof fn lemma_promote_all_concat(
    fs: FileSystem,
    dir: Seq<u8>,
    depth: usize,
    a: Seq<Raw>,
    b: Seq<Raw>,
)
    ensures
        promote_all(fs, dir, depth, a + b) == promote_all(fs, dir, depth, a) + promote_all(
            fs,
            dir,
            depth,
            b,
        ),
    decreases a.len(),
{
    if a.len() == 0 {
        assert(a + b =~= b);
        assert(promote_all(fs, dir, depth, a) + promote_all(fs, dir, depth, b) =~= promote_all(
            fs,
            dir,
            depth,
            b,
        ));
    } else {
        assert((a + b)[0] == a[0]);
        assert((a + b).skip(1) =~= a.skip(1) + b);
        lemma_promote_all_concat(fs, dir, depth, a.skip(1), b);
        assert(promote_all(fs, dir, depth, a + b) =~= promote_all(fs, dir, depth, a) + promote_all(
            fs,
            dir,
            depth,
            b,
        ));
    }
}

/// The entries `.` and `..` never show: what becomes of the entries of a
/// listing is what becomes of them without those two, and no record among
/// it has the path of one of them.
pub proof fn law_dots_are_never_shown(fs: FileSystem, dir: Seq<u8>, depth: usize, raws: Seq<Raw>)
    ensures
        promote_all(fs, dir, depth, raws) == promote_all(fs, dir, depth, without_dots(raws)),
        forall|j: int|
            0 <= j < promote_all(fs, dir, depth, raws).len() ==> match #[trigger] promote_all(
                fs,
                dir,
                depth,
                raws,
            )[j] {
                Ok(dent) => dent.path != spec_child_path(dir, seq![46u8]) && dent.path
                    != spec_child_path(dir, seq![46u8, 46u8]),
                Err(_) => true,
            },
    decreases raws.len(),
{
    if raws.len() > 0 {
        law_dots_are_never_shown(fs, dir, depth, raws.skip(1));
        let head = opt_seq(item_of_raw(fs, dir, depth, raws[0]));
        let tail = promote_all(fs, dir, depth, raws.skip(1));
        let kept: Seq<Raw> = match raws[0] {
            Ok(r) => if spec_is_dots(r.name) {
                Seq::empty()
            } else {
                seq![raws[0]]
            },
            Err(_) => seq![raws[0]],
        };
        lemma_promote_all_concat(fs, dir, depth, kept, without_dots(raws.skip(1)));
        assert(promote_all(fs, dir, depth, kept) =~= head) by {
            if kept.len() > 0 {
                assert(kept[0] == raws[0]);
                assert(kept.skip(1) =~= Seq::empty());
                assert(promote_all(fs, dir, depth, kept) =~= opt_seq(
                    item_of_raw(fs, dir, depth, raws[0]),
                ) + promote_all(fs, dir, depth, kept.skip(1)));
            }
        }
        assert forall|j: int| 0 <= j < (head + tail).len() implies match #[trigger] (head + tail)[j] {
            Ok(dent) => dent.path != spec_child_path(dir, seq![46u8]) && dent.path
                != spec_child_path(dir, seq![46u8, 46u8]),
            Err(_) => true,
        } by {
            if j < head.len() {
                assert((head + tail)[j] == head[j]);
                match head[j] {
                    Ok(dent) => {
                        let r = raws[0]->Ok_0;
                        assert(dent.path == spec_child_path(dir, r.name));
                        assert(!spec_is_dots(r.name));
                        if dent.path == spec_child_path(dir, seq![46u8]) {
                            lemma_child_path_name(dir, r.name, seq![46u8]);
                        }
                        if dent.path == spec_child_path(dir, seq![46u8, 46u8]) {
                            lemma_child_path_name(dir, r.name, seq![46u8, 46u8]);
                        }
                    },
                    Err(_) => {},
                }
            } else {
                assert((head + tail)[j] == tail[j - head.len()]);
            }
        }
    }
}

/// Two names that give one path in a directory are one name.
pub proof fn lemma_child_path_name(dir: Seq<u8>, a: Seq<u8>, b: Seq<u8>)
    requires
        spec_child_path(dir, a) == spec_child_path(dir, b),
    ensures
        a == b,
{
    let base = if dir.len() == 0 || dir.last() == crate::os::unix::rawpath::SEPARATOR {
        dir
    } else {
        dir.push(crate::os::unix::rawpath::SEPARATOR)
    };
    assert(spec_child_path(dir, a) == base + a);
    assert(spec_child_path(dir, b) == base + b);
    assert((base + a).len() == (base + b).len());
    assert forall|i: int| 0 <= i < a.len() implies a[i] == b[i] by {
        assert((base + a)[base.len() + i] == a[i]);
        assert((base + b)[base.len() + i] == b[i]);
    }
    assert(a =~= b);
}

/// The record stands for its target only if it is the target: a record
/// that says that a link was followed has the type that the stat through
/// the link reports.
pub open spec fn faithful(fs: FileSystem, opts: WalkDirOptions, item: ItemView) -> bool {
    match item {
        Ok(dent) => dent.follow_link ==> opts.follow_links && (fs.stat)(dent.path, true) is Ok
            && (fs.stat)(dent.path, true)->Ok_0.file_type == dent.file_type,
        Err(_) => true,
    }
}

/// Every item is faithful.
pub open spec fn all_faithful(fs: FileSystem, opts: WalkDirOptions, items: Seq<ItemView>) -> bool {
    forall|j: int| 0 <= j < items.len() ==> faithful(fs, opts, #[trigger] items[j])
}

/// No record among the items says that a link was followed.
pub open spec fn unfollowed(items: Seq<ItemView>) -> bool {
    forall|j: int|
        0 <= j < items.len() ==> match #[trigger] items[j] {
            Ok(dent) => !dent.follow_link,
            Err(_) => true,
        }
}

pub proof fn lemma_faithful_concat(
    fs: FileSystem,
    opts: WalkDirOptions,
    a: Seq<ItemView>,
    b: Seq<ItemView>,
)
    requires
        all_faithful(fs, opts, a),
        all_faithful(fs, opts, b),
    ensures
        all_faithful(fs, opts, a + b),
{
    assert forall|j: int| 0 <= j < (a + b).len() implies faithful(fs, opts, #[trigger] (a + b)[j]) by {
        if j < a.len() {
            assert((a + b)[j] == a[j]);
        } else {
            assert((a + b)[j] == b[j - a.len()]);
        }
    }
}

pub proof fn lemma_promote_all_unfollowed(fs: FileSystem, dir: Seq<u8>, depth: usize, raws: Seq<Raw>)
    ensures
        unfollowed(promote_all(fs, dir, depth, raws)),
    decreases raws.len(),
{
    if raws.len() > 0 {
        lemma_promote_all_unfollowed(fs, dir, depth, raws.skip(1));
        let head = opt_seq(item_of_raw(fs, dir, depth, raws[0]));
        let tail = promote_all(fs, dir, depth, raws.skip(1));
        assert forall|j: int| 0 <= j < (head + tail).len() implies match #[trigger] (head + tail)[j] {
            Ok(dent) => !dent.follow_link,
            Err(_) => true,
        } by {
            if j < head.len() {
                assert((head + tail)[j] == head[j]);
            } else {
                assert((head + tail)[j] == tail[j - head.len()]);
            }
        }
    }
}

pub proof fn lemma_oks_unfollowed(items: Seq<ItemView>)
    requires
        unfollowed(items),
    ensures
        forall|dent: DirEntryView| oks(items).contains(dent) ==> !dent.follow_link,
    decreases items.len(),
{
    if items.len() > 0 {
        assert forall|j: int| 0 <= j < items.drop_last().len() implies match #[trigger] items.drop_last()[j] {
            Ok(dent) => !dent.follow_link,
            Err(_) => true,
        } by {
            assert(items.drop_last()[j] == items[j]);
        }
        lemma_oks_unfollowed(items.drop_last());
        let last = items.last();
        assert(items[items.len() - 1] == last);
        assert forall|dent: DirEntryView| oks(items).contains(dent) implies !dent.follow_link by {
            let k = choose|k: int| 0 <= k < oks(items).len() && oks(items)[k] == dent;
            match last {
                Ok(d) => {
                    if k < oks(items.drop_last()).len() {
                        assert(oks(items.drop_last())[k] == dent);
                        assert(oks(items.drop_last()).contains(dent));
                    }
                },
                Err(e) => {
                    assert(oks(items.drop_last()).contains(dent));
                },
            }
        }
    }
}

pub proof fn lemma_arrange_unfollowed(fs: FileSystem, opts: WalkDirOptions, items: Seq<ItemView>)
    requires
        fs.wf(),
        unfollowed(items),
    ensures
        unfollowed(arrange(fs, opts, items)),
{
    if opts.sorted {
        let entries = oks(items);
        let sorted = sort_of(fs.compare, entries);
        lemma_oks_unfollowed(items);
        let all = as_items(sorted) + errs(items);
        assert forall|j: int| 0 <= j < all.len() implies match #[trigger] all[j] {
            Ok(dent) => !dent.follow_link,
            Err(_) => true,
        } by {
            if j < as_items(sorted).len() {
                let dent = sorted[j];
                assert(all[j] == Ok::<DirEntryView, ErrorView>(dent));
                assert(sorted.contains(dent));
                lemma_sort_into_contains(fs.compare, Seq::empty(), entries, dent);
                assert(entries.contains(dent));
            } else {
                lemma_errs_are_errors(items, j - as_items(sorted).len());
                assert(all[j] == errs(items)[j - as_items(sorted).len()]);
            }
        }
    }
}

pub proof fn lemma_faithful_entry(c: Walk, anc: Seq<Seq<u8>>, dent: DirEntryView)
    requires
        c.fs.wf(),
        !dent.follow_link,
    ensures
        all_faithful(c.fs, c.opts, walk_entry(c, anc, dent)),
    decreases (c.fs.height)(dent.path), 3int, 0int,
{
    if c.opts.follow_links && dent.file_type.is_symlink() {
        match (c.fs.stat)(dent.path, true) {
            Err(e) => {},
            Ok(md) => {
                lemma_faithful_final(c, anc, dent.followed(md));
            },
        }
    } else {
        lemma_faithful_final(c, anc, dent);
    }
}

pub proof fn lemma_faithful_final(c: Walk, anc: Seq<Seq<u8>>, dent: DirEntryView)
    requires
        c.fs.wf(),
        faithful(c.fs, c.opts, Ok(dent)),
    ensures
        all_faithful(c.fs, c.opts, walk_final(c, anc, dent)),
    decreases (c.fs.height)(dent.path), 2int, 0int,
{
    assert(all_faithful(c.fs, c.opts, shown(c.opts, dent)));
    if dent.file_type.is_dir() && dent.depth < c.opts.max_depth {
        lemma_faithful_enter(c, anc, dent);
    }
}

pub proof fn lemma_faithful_enter(c: Walk, anc: Seq<Seq<u8>>, dent: DirEntryView)
    requires
        c.fs.wf(),
        faithful(c.fs, c.opts, Ok(dent)),
    ensures
        all_faithful(c.fs, c.opts, enter(c, anc, dent)),
    decreases (c.fs.height)(dent.path), 1int, 1int,
{
    match (c.fs.list)(dent.path) {
        Err(e) => {},
        Ok(raws) => {
            let listed = promote_all(c.fs, dent.path, child_depth(dent.depth), raws);
            lemma_promote_all_unfollowed(c.fs, dent.path, child_depth(dent.depth), raws);
            lemma_arrange_unfollowed(c.fs, c.opts, listed);
            lemma_faithful_items(
                c,
                child_anc(c.opts, anc, dent),
                dent.path,
                arrange(c.fs, c.opts, listed),
            );
        },
    }
    let inner = inside(c, anc, dent);
    let own = shown(c.opts, dent);
    assert(all_faithful(c.fs, c.opts, own));
    assert(all_faithful(c.fs, c.opts, inner));
    lemma_faithful_concat(c.fs, c.opts, own, inner);
    lemma_faithful_concat(c.fs, c.opts, inner, own);
}

pub proof fn lemma_faithful_items(c: Walk, anc: Seq<Seq<u8>>, dir: Seq<u8>, items: Seq<ItemView>)
    requires
        c.fs.wf(),
        unfollowed(items),
    ensures
        all_faithful(c.fs, c.opts, walk_items(c, anc, dir, items)),
    decreases (c.fs.height)(dir), 0int, items.len(),
{
    if items.len() > 0 {
        assert forall|j: int| 0 <= j < items.skip(1).len() implies match #[trigger] items.skip(1)[j] {
            Ok(dent) => !dent.follow_link,
            Err(_) => true,
        } by {
            assert(items.skip(1)[j] == items[j + 1]);
        }
        match items[0] {
            Err(e) => {},
            Ok(dent) => if (c.fs.height)(dent.path) < (c.fs.height)(dir) {
                lemma_faithful_entry(c, anc, dent);
            },
        }
        lemma_faithful_items(c, anc, dir, items.skip(1));
        lemma_faithful_concat(
            c.fs,
            c.opts,
            walk_item(c, anc, dir, items[0]),
            walk_items(c, anc, dir, items.skip(1)),
        );
    }
}

/// A record that says that a link was followed shows the target of the
/// link, never the link itself: every such record that a traversal yields,
/// however far it is run, was yielded with links being followed, and has
/// the type that the stat through the link reports. The record of the root
/// never says so.
pub proof fn law_followed_records_show_their_targets(
    fs: FileSystem,
    root: Seq<u8>,
    opts: WalkDirOptions,
    fuel: nat,
    j: int,
)
    requires
        opts.valid(),
        fs.wf(),
        0 <= j < run(State::initial(root, opts), World::initial(fs), fuel).len(),
    ensures
        match run(State::initial(root, opts), World::initial(fs), fuel)[j] {
            Ok(dent) => dent.follow_link ==> opts.follow_links && dent.depth > 0 && (fs.stat)(
                dent.path,
                true,
            ) is Ok && (fs.stat)(dent.path, true)->Ok_0.file_type == dent.file_type,
            Err(_) => true,
        },
{
    law_run_yields_walk(fs, root, opts, fuel);
    law_yielded_records_lie_in_the_window(fs, root, opts, fuel, j);
    let all = walk(fs, opts, root);
    match (fs.stat)(root, true) {
        Err(e) => {},
        Ok(md) => {
            if !(opts.same_file_system && md.dev.is_none()) {
                let c = Walk { fs, opts: uncapped(opts), dev: md.dev };
                let first = root_entry(root).with_stat(md);
                lemma_faithful_final(c, Seq::empty(), first);
                lemma_deeper_final(c, Seq::empty(), first);
            }
        },
    }
    assert(all_faithful(fs, uncapped(opts), all));
    assert(run(State::initial(root, opts), World::initial(fs), fuel)[j] == all[j]);
    assert(faithful(fs, uncapped(opts), all[j]));
}

/// Every record among the items that says that a link was followed lies
/// below the root.
pub open spec fn followed_below_root(items: Seq<ItemView>) -> bool {
    forall|j: int|
        0 <= j < items.len() ==> match #[trigger] items[j] {
            Ok(dent) => dent.follow_link ==> dent.depth > 0,
            Err(_) => true,
        }
}

pub proof fn lemma_followed_concat(a: Seq<ItemView>, b: Seq<ItemView>)
    requires
        followed_below_root(a),
        followed_below_root(b),
    ensures
        followed_below_root(a + b),
{
    assert forall|j: int| 0 <= j < (a + b).len() implies match #[trigger] (a + b)[j] {
        Ok(dent) => dent.follow_link ==> dent.depth > 0,
        Err(_) => true,
    } by {
        if j < a.len() {
            assert((a + b)[j] == a[j]);
        } else {
            assert((a + b)[j] == b[j - a.len()]);
        }
    }
}

pub proof fn lemma_deeper_entry(c: Walk, anc: Seq<Seq<u8>>, dent: DirEntryView)
    requires
        c.fs.wf(),
        dent.depth > 0,
    ensures
        followed_below_root(walk_entry(c, anc, dent)),
    decreases (c.fs.height)(dent.path), 3int, 0int,
{
    if c.opts.follow_links && dent.file_type.is_symlink() {
        match (c.fs.stat)(dent.path, true) {
            Err(e) => {},
            Ok(md) => {
                lemma_deeper_final(c, anc, dent.followed(md));
            },
        }
    } else {
        lemma_deeper_final(c, anc, dent);
    }
}

pub proof fn lemma_deeper_final(c: Walk, anc: Seq<Seq<u8>>, dent: DirEntryView)
    requires
        c.fs.wf(),
        dent.follow_link ==> dent.depth > 0,
    ensures
        followed_below_root(walk_final(c, anc, dent)),
    decreases (c.fs.height)(dent.path), 2int, 0int,
{
    assert(followed_below_root(shown(c.opts, dent)));
    if dent.file_type.is_dir() && dent.depth < c.opts.max_depth {
        match (c.fs.list)(dent.path) {
            Err(e) => {},
            Ok(raws) => {
                let listed = promote_all(c.fs, dent.path, child_depth(dent.depth), raws);
                lemma_promote_all_depth(c.fs, dent.path, child_depth(dent.depth), raws);
                lemma_arrange_depth(c.fs, c.opts, listed, child_depth(dent.depth));
                lemma_deeper_items(
                    c,
                    child_anc(c.opts, anc, dent),
                    dent.path,
                    arrange(c.fs, c.opts, listed),
                    child_depth(dent.depth),
                );
            },
        }
        let inner = inside(c, anc, dent);
        let own = shown(c.opts, dent);
        assert(followed_below_root(inner));
        lemma_followed_concat(own, inner);
        lemma_followed_concat(inner, own);
    }
}

pub proof fn lemma_deeper_items(
    c: Walk,
    anc: Seq<Seq<u8>>,
    dir: Seq<u8>,
    items: Seq<ItemView>,
    depth: usize,
)
    requires
        c.fs.wf(),
        depth > 0,
        at_depth(items, depth),
    ensures
        followed_below_root(walk_items(c, anc, dir, items)),
    decreases (c.fs.height)(dir), 0int, items.len(),
{
    if items.len() > 0 {
        lemma_at_depth_skip(items, depth);
        match items[0] {
            Err(e) => {},
            Ok(dent) => if (c.fs.height)(dent.path) < (c.fs.height)(dir) {
                lemma_deeper_entry(c, anc, dent);
            },
        }
        lemma_deeper_items(c, anc, dir, items.skip(1), depth);
        lemma_followed_concat(
            walk_item(c, anc, dir, items[0]),
            walk_items(c, anc, dir, items.skip(1)),
        );
    }
}

/// The comparison is that of an order in which every two records stand to
/// each other, alike or one before the other: one record comes before
/// another just when the other comes after it, and a record that does not
/// come after a second, which does not come after a third, does not come
/// after the third.
pub open spec fn total_preorder(compare: spec_fn(DirEntryView, DirEntryView) -> Order) -> bool {
    &&& forall|a: DirEntryView, b: DirEntryView|
        (#[trigger] compare(a, b) == Order::Less) == (compare(b, a) == Order::Greater)
    &&& forall|a: DirEntryView, b: DirEntryView, c: DirEntryView|
        #![trigger compare(a, b), compare(b, c)]
        compare(a, b) != Order::Greater && compare(b, c) != Order::Greater ==> compare(a, c)
            != Order::Greater
}

/// No record comes after one that follows it.
pub open spec fn in_order(
    compare: spec_fn(DirEntryView, DirEntryView) -> Order,
    entries: Seq<DirEntryView>,
) -> bool {
    forall|i: int, j: int|
        #![trigger entries[i], entries[j]]
        0 <= i < j < entries.len() ==> compare(entries[i], entries[j]) != Order::Greater
}

/// A record comes before every record from the place `at` on, and before
/// none of those before that place.
pub open spec fn place_of(
    compare: spec_fn(DirEntryView, DirEntryView) -> Order,
    sorted: Seq<DirEntryView>,
    dent: DirEntryView,
    at: int,
) -> bool {
    &&& forall|i: int| 0 <= i < at && i < sorted.len() ==> compare(dent, #[trigger] sorted[i])
        != Order::Less
    &&& forall|i: int| at <= i < sorted.len() ==> compare(dent, #[trigger] sorted[i]) == Order::Less
}

/// Among records in order, halving finds the place of a record: behind all
/// the records that it does not come before, and before all the others.
pub proof fn lemma_bisect_place(
    compare: spec_fn(DirEntryView, DirEntryView) -> Order,
    sorted: Seq<DirEntryView>,
    dent: DirEntryView,
    lo: int,
    hi: int,
)
    requires
        total_preorder(compare),
        in_order(compare, sorted),
        0 <= lo <= hi <= sorted.len(),
        forall|i: int| 0 <= i < lo ==> compare(dent, #[trigger] sorted[i]) != Order::Less,
        forall|i: int| hi <= i < sorted.len() ==> compare(dent, #[trigger] sorted[i]) == Order::Less,
    ensures
        place_of(compare, sorted, dent, bisect_at(compare, sorted, dent, lo, hi)),
        lo <= bisect_at(compare, sorted, dent, lo, hi) <= hi,
    decreases hi - lo,
{
    if lo < hi {
        let mid = lo + (hi - lo) / 2;
        let m = sorted[mid];
        if compare(dent, m) == Order::Less {
            assert forall|i: int| mid <= i < sorted.len() implies compare(
                dent,
                #[trigger] sorted[i],
            ) == Order::Less by {
                if mid < i && i < hi {
                    let e = sorted[i];
                    assert(compare(m, e) != Order::Greater);
                    if compare(dent, e) != Order::Less {
                        assert(compare(e, dent) != Order::Greater);
                        assert(compare(m, dent) != Order::Greater);
                        assert(compare(dent, m) != Order::Less);
                    }
                }
            }
            lemma_bisect_place(compare, sorted, dent, lo, mid);
        } else {
            assert forall|i: int| 0 <= i < mid + 1 implies compare(dent, #[trigger] sorted[i])
                != Order::Less by {
                if lo <= i && i < mid {
                    let e = sorted[i];
                    assert(compare(e, m) != Order::Greater);
                    assert(compare(m, dent) != Order::Greater);
                    assert(compare(e, dent) != Order::Greater);
                }
            }
            lemma_bisect_place(compare, sorted, dent, mid + 1, hi);
        }
    }
}

/// Records in order are in order with one more in its place.
pub proof fn lemma_insert_in_order(
    compare: spec_fn(DirEntryView, DirEntryView) -> Order,
    sorted: Seq<DirEntryView>,
    dent: DirEntryView,
    at: int,
)
    requires
        total_preorder(compare),
        in_order(compare, sorted),
        0 <= at <= sorted.len(),
        place_of(compare, sorted, dent, at),
    ensures
        in_order(compare, sorted.insert(at, dent)),
{
    let t = sorted.insert(at, dent);
    assert forall|i: int, j: int|
        #![trigger t[i], t[j]]
        0 <= i < j < t.len() implies compare(t[i], t[j]) != Order::Greater by {
        if j < at {
            assert(t[i] == sorted[i] && t[j] == sorted[j]);
        } else if j == at {
            assert(t[i] == sorted[i]);
            assert(compare(dent, sorted[i]) != Order::Less);
        } else if i < at {
            assert(t[i] == sorted[i] && t[j] == sorted[j - 1]);
            if i == j - 1 {
            } else {
                assert(compare(sorted[i], sorted[j - 1]) != Order::Greater);
            }
        } else if i == at {
            assert(t[j] == sorted[j - 1]);
            assert(compare(dent, sorted[j - 1]) == Order::Less);
        } else {
            assert(t[i] == sorted[i - 1] && t[j] == sorted[j - 1]);
        }
    }
}

/// Putting records in their places among records in order leaves all of
/// them in order, and neither adds nor loses any.
pub proof fn lemma_sort_into_in_order(
    compare: spec_fn(DirEntryView, DirEntryView) -> Order,
    sorted: Seq<DirEntryView>,
    queue: Seq<DirEntryView>,
)
    requires
        total_preorder(compare),
        in_order(compare, sorted),
        sorted.len() + queue.len() <= usize::MAX,
    ensures
        in_order(compare, sort_into(compare, sorted, queue)),
        sort_into(compare, sorted, queue).to_multiset() == sorted.to_multiset().add(
            queue.to_multiset(),
        ),
    decreases queue.len(),
{
    if queue.len() == 0 {
        assert(queue.to_multiset() =~= Multiset::empty()) by {
            queue.to_multiset_ensures();
        }
        assert(sorted.to_multiset().add(queue.to_multiset()) =~= sorted.to_multiset());
    } else {
        let x = queue[0];
        let at = bisect_at(compare, sorted, x, 0, full(sorted));
        lemma_bisect_place(compare, sorted, x, 0, sorted.len() as int);
        lemma_insert_in_order(compare, sorted, x, at);
        let next = sorted.insert(at, x);
        lemma_sort_into_in_order(compare, next, queue.skip(1));
        vstd::seq_lib::to_multiset_insert(sorted, at, x);
        assert(queue =~= seq![x] + queue.skip(1));
        vstd::seq_lib::lemma_multiset_commutative(seq![x], queue.skip(1));
        assert(seq![x].to_multiset() =~= Multiset::singleton(x)) by {
            seq![x].to_multiset_ensures();
            assert(seq![x] =~= Seq::<DirEntryView>::empty().push(x));
            Seq::<DirEntryView>::empty().to_multiset_ensures();
        }
        assert(next.to_multiset().add(queue.skip(1).to_multiset()) =~= sorted.to_multiset().add(
            queue.to_multiset(),
        ));
    }
}

/// Putting records in order puts them in the order of the comparison.
/// Where the comparison is that of an order in which every two records
/// stand to each other, the records in order are the records listed, each
/// as often, and none of them comes after one that follows it.
pub proof fn law_sorting_follows_the_order(
    compare: spec_fn(DirEntryView, DirEntryView) -> Order,
    entries: Seq<DirEntryView>,
)
    requires
        total_preorder(compare),
        entries.len() <= usize::MAX,
    ensures
        in_order(compare, sort_of(compare, entries)),
        sort_of(compare, entries).to_multiset() == entries.to_multiset(),
{
    lemma_sort_into_in_order(compare, Seq::empty(), entries);
    assert(Seq::<DirEntryView>::empty().to_multiset() =~= Multiset::empty()) by {
        Seq::<DirEntryView>::empty().to_multiset_ensures();
    }
    assert(Multiset::<DirEntryView>::empty().add(entries.to_multiset()) =~= entries.to_multiset());
}

/// Where directories are put in order, what a directory holds is dealt
/// with in the order of the comparison: first its records in order, then
/// the errors that came up while it was listed, in the order in which they
/// came up.
pub proof fn law_sorted_directory_follows_the_order(
    c: Walk,
    anc: Seq<Seq<u8>>,
    dent: DirEntryView,
    raws: Seq<Raw>,
)
    requires
        c.opts.sorted,
        (c.fs.list)(dent.path) == Ok::<Seq<Raw>, IoError>(raws),
    ensures
        inside(c, anc, dent) == walk_items(
            c,
            child_anc(c.opts, anc, dent),
            dent.path,
            as_items(
                sort_of(
                    c.fs.compare,
                    oks(promote_all(c.fs, dent.path, child_depth(dent.depth), raws)),
                ),
            ) + errs(promote_all(c.fs, dent.path, child_depth(dent.depth), raws)),
        ),
{
}

} // verus!
