//! Where paths lead: name by name from the top of a subvolume, into others where an
//! entry stands for one, and back by `..`.

use vstd::prelude::*;

use crate::error::Fault;
use crate::fs::btrfs::crc32c::crc_feed;
use crate::fs::btrfs::files::{
    disk_item, entry_in, entry_key, inode_of, resolved, trail, trail_err, Located,
};
use crate::fs::btrfs::formats::{entry_reads_back, kind_of_byte, stores_entry, EntryFields};
use crate::fs::btrfs::inode::{dir_entries, has_name, DirItemV, Inode};
use crate::fs::btrfs::listing::{listing, shown_entries, shown_items};
use crate::fs::btrfs::roots::root_of;
use crate::fs::btrfs::search::range_items;
use crate::fs::btrfs::tree::{Item, Key};
use crate::fs::btrfs::volume::{FsV, TreeRoot};
use crate::fs::lossy::lossy_text;
use crate::fs::path::components;
use crate::fs::{EntryV, FileType};
use crate::seqs::first_idx_is;
use crate::text::utf8;

verus! {

/// Directory `at` has `to` as `name`: an entry that stands for an inode (type 1)
/// leads to that inode of the same tree; one that stands for a subvolume (type
/// 132) to the top directory of that subvolume's tree.
pub open spec fn enters(fs: FsV, at: Located, name: Seq<char>, to: Located) -> bool {
    &&& at.inode.kind() == FileType::Directory
    &&& entry_in(fs, at.tree.bytenr, at.inode.objectid, utf8(name)) matches Ok(Some(e)) && {
        ||| {
            &&& e.location.item_type == 1
            &&& to.tree == at.tree
            &&& inode_of(fs, at.tree.bytenr, e.location.objectid) == Ok::<Inode, Fault>(to.inode)
        }
        ||| {
            &&& e.location.item_type == 132
            &&& root_of(fs, e.location.objectid) == Ok::<TreeRoot, Fault>(to.tree)
            &&& inode_of(fs, to.tree.bytenr, to.tree.root_dirid) == Ok::<Inode, Fault>(to.inode)
        }
    }
}

/// `way` is what is met from `top` on along `cs`, each listed in the directory
/// before it.
pub open spec fn goes(fs: FsV, top: Located, cs: Seq<Seq<char>>, way: Seq<Located>) -> bool {
    &&& way.len() == cs.len() + 1
    &&& way[0] == top
    &&& forall|i: int|
        0 <= i < cs.len() ==> #[trigger] cs[i] != ".."@ && enters(fs, way[i], cs[i], way[i + 1])
}

/// `top` is the top directory of a tree.
pub open spec fn is_top(fs: FsV, tree: TreeRoot, top: Located) -> bool {
    &&& top.tree == tree
    &&& inode_of(fs, tree.bytenr, tree.root_dirid) == Ok::<Inode, Fault>(top.inode)
}

proof fn trail_goes(fs: FsV, top: Located, path: Seq<char>, cs: Seq<Seq<char>>, way: Seq<Located>)
    requires
        goes(fs, top, cs, way),
    ensures
        trail(fs, top, path, cs) == Ok::<Seq<Located>, Fault>(way),
    decreases cs.len(),
{
    if cs.len() == 0 {
        assert(way =~= seq![top]);
    } else {
        let n = cs.len() - 1;
        let front = cs.drop_last();
        let w = way.drop_last();
        assert forall|i: int| 0 <= i < front.len() implies #[trigger] front[i] != ".."@ && enters(
            fs,
            w[i],
            front[i],
            w[i + 1],
        ) by {
            assert(front[i] == cs[i]);
        }
        trail_goes(fs, top, path, front, w);
        assert(cs[n] != ".."@ && enters(fs, way[n], cs[n], way[n + 1]));
        assert(w.last() == way[n]);
        assert(w.push(way[n + 1]) =~= way);
    }
}

/// A path leads from the top directory on, name by name, to what the directories on
/// the way list; a link at the end is what is found.
pub proof fn path_leads_down(
    fs: FsV,
    tree: TreeRoot,
    path: Seq<char>,
    top: Located,
    way: Seq<Located>,
)
    requires
        is_top(fs, tree, top),
        goes(fs, top, components(path), way),
    ensures
        resolved(fs, tree, path) == Ok::<Located, Fault>(way.last()),
{
    trail_goes(fs, top, path, components(path), way);
}

/// `..` leads back to where the last name was listed, and from the top to the top.
pub proof fn up_leads_back(
    fs: FsV,
    tree: TreeRoot,
    path: Seq<char>,
    top: Located,
    way: Seq<Located>,
    cs: Seq<Seq<char>>,
)
    requires
        is_top(fs, tree, top),
        components(path) == cs.push(".."@),
        goes(fs, top, cs, way),
    ensures
        resolved(fs, tree, path) == Ok::<Located, Fault>(
            if cs.len() == 0 {
                top
            } else {
                way[cs.len() - 1]
            },
        ),
{
    trail_goes(fs, top, path, cs, way);
    assert(cs.push(".."@).drop_last() =~= cs);
}

/// A name that its directory does not list is not found, and nothing is found below
/// what is no directory; the error names the path.
pub proof fn unlisted_is_not_found(
    fs: FsV,
    tree: TreeRoot,
    path: Seq<char>,
    top: Located,
    way: Seq<Located>,
    k: int,
)
    requires
        is_top(fs, tree, top),
        0 <= k < components(path).len(),
        goes(fs, top, components(path).take(k), way),
        components(path)[k] != ".."@,
    ensures
        way.last().inode.kind() != FileType::Directory ==> resolved(fs, tree, path) == Err::<
            Located,
            Fault,
        >(Fault::NotADirectory(path)),
        way.last().inode.kind() == FileType::Directory && entry_in(
            fs,
            way.last().tree.bytenr,
            way.last().inode.objectid,
            utf8(components(path)[k]),
        ) == Ok::<Option<DirItemV>, Fault>(None) ==> resolved(fs, tree, path) == Err::<
            Located,
            Fault,
        >(Fault::NotFound(path)),
{
    let cs = components(path);
    trail_goes(fs, top, path, cs.take(k), way);
    assert(cs.take(k + 1).drop_last() =~= cs.take(k));
    assert(cs.take(k + 1).last() == cs[k]);
    if trail(fs, top, path, cs.take(k + 1)) is Err {
        trail_err(fs, top, path, cs, k + 1);
    }
}

/// An entry is kept under its directory, the type 84, and the checksum of its name
/// from the seed 0xFFFFFFFE on; where it is kept alone, it is what the name stands
/// for, and no other name with that checksum is found there.
pub proof fn entry_is_found_by_name(
    fs: FsV,
    root: u64,
    dir: u64,
    d: Seq<u8>,
    e: EntryFields,
    other: Seq<u8>,
)
    requires
        stores_entry(d, e),
        disk_item(
            fs,
            root,
            Key { objectid: dir, item_type: 84, offset: crc_feed(0xFFFF_FFFE, e.name) as u64 },
        ) == Ok::<Option<Seq<u8>>, Fault>(Some(d)),
    ensures
        entry_in(fs, root, dir, e.name) == Ok::<Option<DirItemV>, Fault>(
            Some(
                DirItemV {
                    location: e.location,
                    file_type: kind_of_byte(e.kind),
                    name: e.name,
                },
            ),
        ),
        other != e.name && crc_feed(0xFFFF_FFFE, other) == crc_feed(0xFFFF_FFFE, e.name)
            ==> entry_in(fs, root, dir, other) == Ok::<Option<DirItemV>, Fault>(None),
{
    entry_reads_back(d, e, Seq::empty());
    assert(d + Seq::<u8>::empty() =~= d);
    let es = dir_entries(d)->Ok_0;
    assert(es.len() == 1 && es[0].name == e.name);
    first_idx_is(es, has_name(e.name), 0);
    if other != e.name {
        first_idx_is(es, has_name(other), 1);
    }
    assert(entry_key(dir, e.name).offset == crc_feed(0xFFFF_FFFE, e.name) as u64);
}

/// Entries with the same checksum are kept one behind the other, and each is found
/// by its own name.
pub proof fn second_entry_is_found(
    fs: FsV,
    root: u64,
    dir: u64,
    d: Seq<u8>,
    e: EntryFields,
    d2: Seq<u8>,
    e2: EntryFields,
)
    requires
        stores_entry(d, e),
        stores_entry(d2, e2),
        e.name != e2.name,
        crc_feed(0xFFFF_FFFE, e.name) == crc_feed(0xFFFF_FFFE, e2.name),
        disk_item(
            fs,
            root,
            Key { objectid: dir, item_type: 84, offset: crc_feed(0xFFFF_FFFE, e.name) as u64 },
        ) == Ok::<Option<Seq<u8>>, Fault>(Some(d + d2)),
    ensures
        entry_in(fs, root, dir, e.name) matches Ok(Some(x)) && x.location == e.location,
        entry_in(fs, root, dir, e2.name) matches Ok(Some(x)) && x.location == e2.location,
{
    entry_reads_back(d2, e2, Seq::empty());
    assert(d2 + Seq::<u8>::empty() =~= d2);
    entry_reads_back(d, e, d2);
    let es = dir_entries(d + d2)->Ok_0;
    assert(es.len() == 2 && es[0].name == e.name && es[1].name == e2.name);
    first_idx_is(es, has_name(e.name), 0);
    first_idx_is(es, has_name(e2.name), 1);
    assert(entry_key(dir, e2.name) == entry_key(dir, e.name));
}

/// A directory's index is listed item by item, in the order of the index: each entry
/// by its name and kind, with the number of what it stands for, and whether that is
/// a subvolume.
pub proof fn index_is_listed(
    fs: FsV,
    root: u64,
    dir: u64,
    items: Seq<Item>,
    es: Seq<EntryFields>,
)
    requires
        range_items(
            fs,
            Map::empty(),
            root,
            Key { objectid: dir, item_type: 96, offset: 0 },
            Key { objectid: dir, item_type: 96, offset: u64::MAX },
        ) == Ok::<Seq<Item>, Fault>(items),
        es.len() == items.len(),
        forall|i: int| 0 <= i < items.len() ==> stores_entry((#[trigger] items[i]).data, es[i]),
    ensures
        listing(fs, root, dir) == Ok::<Seq<EntryV>, Fault>(
            Seq::new(es.len(), |i: int| listed_as(es[i])),
        ),
{
    items_are_shown(items, es);
}

/// How an entry is listed.
pub open spec fn listed_as(e: EntryFields) -> EntryV {
    EntryV {
        name: lossy_text(e.name),
        inode: e.location.objectid,
        file_type: kind_of_byte(e.kind),
        is_subvolume: e.location.item_type == 132,
    }
}

proof fn items_are_shown(items: Seq<Item>, es: Seq<EntryFields>)
    requires
        es.len() == items.len(),
        forall|i: int| 0 <= i < items.len() ==> stores_entry((#[trigger] items[i]).data, es[i]),
    ensures
        shown_items(items) == Ok::<Seq<EntryV>, Fault>(
            Seq::new(es.len(), |i: int| listed_as(es[i])),
        ),
    decreases items.len(),
{
    let all = Seq::new(es.len(), |i: int| listed_as(es[i]));
    if items.len() == 0 {
        assert(all =~= Seq::empty());
    } else {
        let n = items.len() - 1;
        let front = items.drop_last();
        let fes = es.drop_last();
        assert forall|i: int| 0 <= i < front.len() implies stores_entry(
            (#[trigger] front[i]).data,
            fes[i],
        ) by {
            assert(front[i] == items[i]);
        }
        items_are_shown(front, fes);
        let d = items[n].data;
        assert(stores_entry(d, es[n]));
        entry_reads_back(d, es[n], Seq::empty());
        assert(d + Seq::<u8>::empty() =~= d);
        let one = dir_entries(d)->Ok_0;
        assert(shown_entries(one) =~= seq![listed_as(es[n])]);
        assert(Seq::new(fes.len(), |i: int| listed_as(fes[i])) + seq![listed_as(es[n])] =~= all);
    }
}

} // verus!
