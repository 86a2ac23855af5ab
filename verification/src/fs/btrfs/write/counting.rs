//! A transaction keeps the used counters of the block groups right.

use vstd::prelude::*;

use crate::error::Fault;
use crate::fs::btrfs::chunk::BLOCK_GROUP_DATA;
use crate::fs::btrfs::roots::optional_root;
use crate::fs::btrfs::tree::{CSUM_TREE_OBJECTID, FREE_SPACE_TREE_OBJECTID, FS_TREE_OBJECTID};
use crate::fs::btrfs::volume::FsV;
use crate::fs::btrfs::write::balance::{
    balanced, bulk, bulk_of_prefix, countable, first_fit_counts, free_extent_counts, home_same,
    parted, places, same_groups, share, sites, stays_untouched, steps_balance, steps_extend,
    untouched,
};
use crate::fs::btrfs::write::booking::frees;
use crate::fs::btrfs::write::change::{
    all_low, drop_low, extent_root, files_change_keeps, fit_for_data, fit_to_change,
    freed_spans_offer_nothing, offers_framed, op_key, sums_root, sums_steps_keep, write_low,
};
use crate::fs::btrfs::write::converge::{
    extent_ops, extent_start, finalized, has_space_tree, list_extent, only_files, unlist_extent,
    ChangesV, Lookups,
};
use crate::fs::btrfs::write::counters::{
    counted, counts_right, finish_counts_right, finish_takes_off, held, held_same, keeps_books,
    ops_add, space_root_known, takes_off_recorded, worth, worth_all,
};
use crate::fs::btrfs::write::csum_delete::trim_plan;
use crate::fs::btrfs::write::grove::{finish_low, grove};
use crate::fs::btrfs::write::handout::offered;
use crate::fs::btrfs::write::load::space_on;
use crate::fs::btrfs::write::payload::csum_tiles;
use crate::fs::btrfs::write::space::BgV;
use crate::fs::btrfs::write::tree_map::{contents, map_after_all, stays_low, steps_on_map};
use crate::fs::btrfs::write::txn::data::{
    csum_ops, csums_added, data_changes, data_placed, data_written, disk_len, with_extent,
};
use crate::fs::btrfs::write::txn::delete::{drop_changes, spans_lost};
use crate::fs::btrfs::write::txn::{files_changed, files_root};
use crate::fs::btrfs::write::unlink::{
    csums_dropped, data_dropped, span_pairs, spans_freed, Span,
};
use crate::fs::btrfs::write::workspace::{fresh_state, steps, OpV, StateV};

verus! {

/// Every used counter of a volume is the number of bytes that its extent tree
/// records in that block group.
pub open spec fn volume_counted(fs: FsV, space: Seq<BgV>) -> bool {
    &&& space.len() > 0
    &&& countable(space)
    &&& forall|g: int|
        0 <= g < space.len() ==> (#[trigger] space[g]).group.used == held(
            space,
            fs.sb.node_size,
            g,
            contents(fs, fresh_state(space), extent_root(fs)),
        )
}

/// The used counters of a volume are right, and the root of its free-space tree,
/// if that is to be rewritten, is not free.
pub open spec fn well_counted(fs: FsV, seen: Lookups) -> bool {
    let space = space_on(fs)->Ok_0;
    volume_counted(fs, space) && space_root_known(fs, fresh_state(space), seen.fst)
}

proof fn bulk_same(m: Seq<BgV>, n: Seq<BgV>, at: Seq<u64>, size: int, g: int)
    requires
        same_groups(m, n),
    ensures
        bulk(m, at, size, g) == bulk(n, at, size, g),
    decreases at.len(),
{
    if at.len() > 0 {
        bulk_same(m, n, at.drop_last(), size, g);
        home_same(m, n, at.last(), size);
    }
}

proof fn worth_same(m: Seq<BgV>, n: Seq<BgV>, size: u32, g: int, ops: Seq<OpV>)
    requires
        same_groups(m, n),
    ensures
        worth_all(m, size, g, ops) == worth_all(n, size, g, ops),
    decreases ops.len(),
{
    if ops.len() > 0 {
        worth_same(m, n, size, g, ops.drop_last());
        let k = op_key(ops.last());
        home_same(m, n, k.objectid, size as int);
        home_same(m, n, k.objectid, k.offset as int);
    }
}

/// A state in balance by the groups of a volume is counted.
proof fn balance_is_count(
    fs: FsV,
    c: ChangesV,
    base: Seq<BgV>,
    s: StateV,
    extent: (u64, u8),
)
    requires
        parted(s),
        countable(s.space),
        same_groups(base, s.space),
        forall|g: int|
            0 <= g < base.len() ==> #[trigger] balanced(
                base,
                fs.sb.node_size,
                g,
                s,
                held(base, fs.sb.node_size, g, contents(fs, s, extent)) + worth_all(
                    base,
                    fs.sb.node_size,
                    g,
                    extent_ops(c),
                ),
            ),
    ensures
        counted(fs, c, s, extent),
{
    let size = fs.sb.node_size;
    let m = contents(fs, s, extent);
    assert forall|g: int| 0 <= g < s.space.len() implies (#[trigger] s.space[g]).group.used + bulk(
        s.space,
        places(s.remove),
        size as int,
        g,
    ) == held(s.space, size, g, m) + worth_all(s.space, size, g, extent_ops(c)) + bulk(
        s.space,
        sites(s.add),
        size as int,
        g,
    ) by {
        assert(balanced(
            base,
            size,
            g,
            s,
            held(base, size, g, m) + worth_all(base, size, g, extent_ops(c)),
        ));
        bulk_same(base, s.space, places(s.remove), size as int, g);
        bulk_same(base, s.space, sites(s.add), size as int, g);
        worth_same(base, s.space, size, g, extent_ops(c));
        held_same(base, s.space, size, g, m);
    }
}

/// What is noted as given up is recorded, in every group, in the end.
proof fn given_up_is_recorded(
    fs: FsV,
    c: ChangesV,
    base: Seq<BgV>,
    s: StateV,
    fst: bool,
    extent: (u64, u8),
    g: int,
)
    requires
        fs.sb.node_size > 0,
        extent_start(fs, c) == Ok::<(u64, u8), Fault>(extent),
        grove(
            fs,
            s,
            (fs.sb.root, fs.sb.root_level),
            extent,
            (c.fs_tree.bytenr, c.fs_tree.level),
        ),
        finish_low(fs, c, s, fst),
        finalized(fs, c, s, fst) is Ok,
    ensures
        bulk(base, places(s.remove), fs.sb.node_size as int, g) <= held(
            base,
            fs.sb.node_size,
            g,
            contents(fs, s, extent),
        ) + worth_all(base, fs.sb.node_size, g, extent_ops(c)),
{
    let size = fs.sb.node_size;
    let m = contents(fs, s, extent);
    let eo = extent_ops(c);
    finish_takes_off(fs, c, s, fst, extent);
    assert forall|i: int| 0 <= i < eo.len() implies keeps_books(#[trigger] eo[i]) by {}
    ops_add(base, size, g, m, eo);
    takes_off_recorded(base, size, g, map_after_all(m, eo), s.remove);
}

proof fn fresh_is_parted(space: Seq<BgV>)
    ensures
        parted(fresh_state(space)),
{
    assert forall|b: u64| !#[trigger] frees(fresh_state(space).remove, b) by {}
}

/// The root of the free-space tree stays known where nothing untouched is
/// touched.
proof fn still_known(fs: FsV, s: StateV, t: StateV, seen: bool)
    requires
        space_root_known(fs, s, seen),
        stays_untouched(s, t),
    ensures
        space_root_known(fs, t, seen),
{
    if let Some(o) = optional_root(fs, FREE_SPACE_TREE_OBJECTID, seen) {
        if has_space_tree(fs) {
            assert(untouched(s, o.bytenr));
            assert(untouched(t, o.bytenr));
        }
    }
}

/// A transaction that changes files keeps the used counters right: if those of
/// the volume are right, so are those that it ends with.
pub proof fn change_counts_right(
    fs: FsV,
    generation: u64,
    space: Seq<BgV>,
    ops: Seq<OpV>,
    seen: Lookups,
)
    requires
        fit_to_change(fs, space),
        all_low(fs, generation, space, ops, seen),
        files_changed(fs, generation, space, ops, seen) is Ok,
        volume_counted(fs, space),
        space_root_known(fs, fresh_state(space), seen.fst),
    ensures
        counts_right(fs, files_changed(fs, generation, space, ops, seen)->Ok_0),
{
    let size = fs.sb.node_size;
    let s0 = fresh_state(space);
    let files = files_root(fs);
    let extent = extent_root(fs);
    let (s, r) = steps(fs, generation, FS_TREE_OBJECTID, s0, files, ops)->Ok_0;
    steps_on_map(fs, generation, FS_TREE_OBJECTID, s0, files, ops);
    files_change_keeps(fs, s0, s, files, r, None);
    let c = only_files(fs, generation, r);
    let m = contents(fs, s, extent);
    fresh_is_parted(space);
    assert(extent_ops(c) =~= Seq::<OpV>::empty());
    assert forall|g: int| 0 <= g < space.len() implies #[trigger] balanced(
        space,
        size,
        g,
        s,
        held(space, size, g, m) + worth_all(space, size, g, extent_ops(c)),
    ) && parted(s) && stays_untouched(s0, s) by {
        let k = held(space, size, g, m) + worth_all(space, size, g, extent_ops(c));
        assert(places(s0.remove) =~= Seq::<u64>::empty());
        assert(sites(s0.add) =~= Seq::<u64>::empty());
        assert(balanced(space, size, g, s0, k)) by {
            assert(space[g].group.used == held(space, size, g, contents(fs, s0, extent)));
        }
        given_up_is_recorded(fs, c, space, s, seen.fst, extent, g);
        steps_balance(fs, generation, FS_TREE_OBJECTID, space, g, s0, files, ops, k);
    }
    assert(balanced(
        space,
        size,
        0,
        s,
        held(space, size, 0, m) + worth_all(space, size, 0, extent_ops(c)),
    ));
    balance_is_count(fs, c, space, s, extent);
    still_known(fs, s0, s, seen.fst);
    finish_counts_right(fs, c, s, seen.fst, extent);
}

/// The operations that take the extents of `spans` off the extent tree.
spec fn unlisting(spans: Seq<Span>) -> Seq<OpV> {
    span_pairs(spans).map_values(|e: (u64, u64)| unlist_extent(e))
}

proof fn unlisting_takes(base: Seq<BgV>, size: u32, spans: Seq<Span>, g: int)
    ensures
        worth_all(base, size, g, unlisting(spans)) <= 0,
    decreases spans.len(),
{
    if spans.len() > 0 {
        unlisting_takes(base, size, spans.drop_last(), g);
        assert(unlisting(spans).drop_last() =~= unlisting(spans.drop_last()));
    }
}

/// Freeing data takes it off the counters.
proof fn spans_freed_counts(
    base: Seq<BgV>,
    size: u32,
    space: Seq<BgV>,
    spans: Seq<Span>,
    g: int,
)
    requires
        same_groups(base, space),
        countable(space),
        0 <= g < base.len(),
        spans_freed(space, spans) is Ok,
    ensures
        ({
            let rest = spans_freed(space, spans)->Ok_0;
            &&& same_groups(base, rest)
            &&& countable(rest)
            &&& rest[g].group.used == space[g].group.used + worth_all(
                base,
                size,
                g,
                unlisting(spans),
            )
        }),
    decreases spans.len(),
{
    if spans.len() > 0 {
        let front = spans.drop_last();
        let x = spans.last();
        spans_freed_counts(base, size, space, front, g);
        let mid = spans_freed(space, front)->Ok_0;
        free_extent_counts(mid, x.start, x.len, g);
        home_same(base, mid, x.start, x.len as int);
        assert(unlisting(spans).drop_last() =~= unlisting(front));
        assert(unlisting(spans).last() == unlist_extent((x.start, x.len)));
    }
}

/// A transaction that changes files and drops data keeps the used counters right.
pub proof fn loss_counts_right(
    fs: FsV,
    generation: u64,
    space: Seq<BgV>,
    ops: Seq<OpV>,
    spans: Seq<Span>,
    seen: Lookups,
)
    requires
        fit_for_data(fs, space, seen.csum),
        stays_low(fs, generation, FS_TREE_OBJECTID, fresh_state(space), files_root(fs), ops),
        drop_low(fs, generation, space, ops, spans, seen),
        spans_lost(fs, generation, space, ops, spans, seen) is Ok,
        volume_counted(fs, space),
        space_root_known(fs, fresh_state(space), seen.fst),
    ensures
        counts_right(fs, spans_lost(fs, generation, space, ops, spans, seen)->Ok_0),
{
    let size = fs.sb.node_size;
    let s0 = fresh_state(space);
    let files = files_root(fs);
    let extent = extent_root(fs);
    let sums = sums_root(fs, seen.csum);
    let (s, r) = steps(fs, generation, FS_TREE_OBJECTID, s0, files, ops)->Ok_0;
    steps_on_map(fs, generation, FS_TREE_OBJECTID, s0, files, ops);
    files_change_keeps(fs, s0, s, files, r, sums);
    let u = StateV { space: spans_freed(s.space, spans)->Ok_0, ..s };
    assert forall|a: int| #[trigger] offered(u.space, a) == offered(s.space, a) by {
        freed_spans_offer_nothing(s.space, spans, a);
    }
    offers_framed(fs, s, u, r, sums);
    let (t, c) = data_dropped(fs, generation, s, spans, seen.csum)->Ok_0;
    assert(csums_dropped(fs, generation, u, spans, seen.csum) == Ok::<
        (StateV, Option<(u64, u8)>),
        Fault,
    >((t, c)));
    let plan = trim_plan(fs, sums->Some_0.0, span_pairs(spans));
    if c is Some {
        sums_steps_keep(fs, generation, u, sums->Some_0, r, plan);
        steps_extend(fs, generation, CSUM_TREE_OBJECTID, u, sums->Some_0, plan);
    } else {
        assert(t == u);
    }
    let d = drop_changes(fs, generation, r, c, spans);
    assert(extent_start(fs, d) == Ok::<(u64, u8), Fault>(extent));
    let m = contents(fs, t, extent);
    assert(m == contents(fs, s0, extent)) by {
        assert(contents(fs, u, extent) == contents(fs, s, extent));
    }
    fresh_is_parted(space);
    assert(extent_ops(d) =~= unlisting(spans));
    assert forall|g: int| 0 <= g < space.len() implies #[trigger] balanced(
        space,
        size,
        g,
        t,
        held(space, size, g, m) + worth_all(space, size, g, extent_ops(d)),
    ) && parted(t) && stays_untouched(s0, t) by {
        let all = held(space, size, g, m);
        let k = all + worth_all(space, size, g, extent_ops(d));
        assert(places(s0.remove) =~= Seq::<u64>::empty());
        assert(sites(s0.add) =~= Seq::<u64>::empty());
        assert(balanced(space, size, g, s0, all)) by {
            assert(space[g].group.used == held(space, size, g, contents(fs, s0, extent)));
        }
        given_up_is_recorded(fs, d, space, t, seen.fst, extent, g);
        bulk_of_prefix(space, s.remove, t.remove, size as int, g);
        unlisting_takes(space, size, spans, g);
        steps_balance(fs, generation, FS_TREE_OBJECTID, space, g, s0, files, ops, all);
        spans_freed_counts(space, size, s.space, spans, g);
        assert(balanced(space, size, g, u, k));
        assert(parted(u)) by {
            assert forall|b: u64| #[trigger] frees(u.remove, b) implies untouched(u, b) by {
                assert(frees(s.remove, b));
                assert(untouched(s, b));
            }
        }
        if c is Some {
            steps_balance(
                fs,
                generation,
                CSUM_TREE_OBJECTID,
                space,
                g,
                u,
                sums->Some_0,
                plan,
                k,
            );
        }
        assert forall|b: u64| untouched(s0, b) implies #[trigger] untouched(t, b) by {
            assert(untouched(s, b));
            assert(untouched(u, b));
        }
    }
    assert(balanced(
        space,
        size,
        0,
        t,
        held(space, size, 0, m) + worth_all(space, size, 0, extent_ops(d)),
    ));
    balance_is_count(fs, d, space, t, extent);
    still_known(fs, s0, t, seen.fst);
    finish_counts_right(fs, d, t, seen.fst, extent);
}

/// A transaction that writes data for a file keeps the used counters right: if
/// those of the volume are right before the data is placed, those that the
/// transaction ends with are right.
pub proof fn gain_counts_right(
    fs: FsV,
    generation: u64,
    before: Seq<BgV>,
    space: Seq<BgV>,
    ops: Seq<OpV>,
    ino: u64,
    at: u64,
    content: Seq<u8>,
    seen: Lookups,
)
    requires
        data_placed(before, content.len() as int, fs.sb.sector_size) == Some((at, space)),
        volume_counted(fs, before),
        fit_for_data(fs, space, seen.csum),
        write_low(fs, generation, space, ops, ino, at, content, seen),
        data_written(fs, generation, space, ops, ino, at, content, seen) is Ok,
        space_root_known(fs, fresh_state(space), seen.fst),
    ensures
        counts_right(
            fs,
            data_written(fs, generation, space, ops, ino, at, content, seen)->Ok_0,
        ),
{
    let size = fs.sb.node_size;
    let s0 = fresh_state(space);
    let files = files_root(fs);
    let extent = extent_root(fs);
    let sums = sums_root(fs, seen.csum);
    let sector = fs.sb.sector_size;
    let len = disk_len(content.len() as int, sector);
    let all = with_extent(ops, generation, ino, at, len);
    let (s, r) = steps(fs, generation, FS_TREE_OBJECTID, s0, files, all)->Ok_0;
    steps_on_map(fs, generation, FS_TREE_OBJECTID, s0, files, all);
    files_change_keeps(fs, s0, s, files, r, sums);
    let (t, c) = csums_added(fs, generation, s, at, content, seen.csum)->Ok_0;
    let items = csum_tiles(fs.sb.csum_type, size, sector, at, len, content)->Ok_0;
    if c is Some {
        sums_steps_keep(fs, generation, s, sums->Some_0, r, csum_ops(items));
        steps_extend(fs, generation, CSUM_TREE_OBJECTID, s, sums->Some_0, csum_ops(items));
    } else {
        assert(t == s);
    }
    let d = data_changes(fs, generation, r, c, ino, at, content);
    assert(extent_start(fs, d) == Ok::<(u64, u8), Fault>(extent));
    let m = contents(fs, t, extent);
    assert(m == contents(fs, s0, extent));
    assert(m == contents(fs, fresh_state(before), extent));
    fresh_is_parted(space);
    assert(same_groups(before, space) && countable(space)) by {
        if len > 0 {
            first_fit_counts(before, BLOCK_GROUP_DATA, len, sector as u64, 0);
        }
    }
    assert forall|g: int| 0 <= g < space.len() implies #[trigger] balanced(
        space,
        size,
        g,
        t,
        held(space, size, g, m) + worth_all(space, size, g, extent_ops(d)),
    ) && parted(t) && stays_untouched(s0, t) by {
        let k = held(space, size, g, m) + worth_all(space, size, g, extent_ops(d));
        assert(places(s0.remove) =~= Seq::<u64>::empty());
        assert(sites(s0.add) =~= Seq::<u64>::empty());
        assert(space[g].group.used == k) by {
            assert(before[g].group.used == held(before, size, g, m));
            held_same(before, space, size, g, m);
            let eo = extent_ops(d);
            if len > 0 {
                first_fit_counts(before, BLOCK_GROUP_DATA, len, sector as u64, g);
                home_same(before, space, at, len as int);
                assert(eo.len() == 1);
                assert(eo[0] == list_extent(generation, (at, len, FS_TREE_OBJECTID, ino, 0u64)));
                assert(eo.drop_last() =~= Seq::<OpV>::empty());
                assert(worth_all(space, size, g, eo.drop_last()) == 0);
                assert(worth(space, size, g, eo.last()) == share(space, at, len as int, g));
            } else {
                assert(eo =~= Seq::<OpV>::empty());
            }
        }
        assert(balanced(space, size, g, s0, k));
        given_up_is_recorded(fs, d, space, t, seen.fst, extent, g);
        bulk_of_prefix(space, s.remove, t.remove, size as int, g);
        steps_balance(fs, generation, FS_TREE_OBJECTID, space, g, s0, files, all, k);
        if c is Some {
            steps_balance(
                fs,
                generation,
                CSUM_TREE_OBJECTID,
                space,
                g,
                s,
                sums->Some_0,
                csum_ops(items),
                k,
            );
        }
        assert forall|b: u64| untouched(s0, b) implies #[trigger] untouched(t, b) by {
            assert(untouched(s, b));
        }
    }
    assert(balanced(
        space,
        size,
        0,
        t,
        held(space, size, 0, m) + worth_all(space, size, 0, extent_ops(d)),
    ));
    balance_is_count(fs, d, space, t, extent);
    still_known(fs, s0, t, seen.fst);
    finish_counts_right(fs, d, t, seen.fst, extent);
}

} // verus!
