//! Listing directories.

use vstd::prelude::*;

use crate::device::ReadAt;
use crate::error::{Fault, Outcome, Result};
use crate::fs::btrfs::files::typed_items;
use crate::fs::btrfs::inode::{dir_entries, dir_items_of, parse_dir_entries, DirItem, DirItemV};
use crate::fs::btrfs::tree::{items_of, Item, DIR_INDEX_KEY, ROOT_ITEM_KEY};
use crate::fs::btrfs::volume::{Btrfs, FsV};
use crate::fs::btrfs::write::cow::agrees;
use crate::fs::lossy::{lossy_text, text_of_bytes};
use crate::fs::{entries_of, DirEntry, EntryV};

verus! {

/// What a listing shows of an entry.
pub open spec fn shown_entry(e: DirItemV) -> EntryV {
    EntryV {
        name: lossy_text(e.name),
        inode: e.location.objectid,
        file_type: e.file_type,
        is_subvolume: e.location.item_type == ROOT_ITEM_KEY,
    }
}

/// What a listing shows of some entries.
pub open spec fn shown_entries(s: Seq<DirItemV>) -> Seq<EntryV> {
    s.map_values(|e: DirItemV| shown_entry(e))
}

/// What a listing shows of a directory's index items.
pub open spec fn shown_items(items: Seq<Item>) -> Outcome<Seq<EntryV>>
    decreases items.len(),
{
    if items.len() == 0 {
        Ok(Seq::empty())
    } else {
        match shown_items(items.drop_last()) {
            Err(e) => Err(e),
            Ok(s) => match dir_entries(items.last().data) {
                Err(e) => Err(e),
                Ok(t) => Ok(s + shown_entries(t)),
            },
        }
    }
}

proof fn shown_items_err(items: Seq<Item>, n: int)
    requires
        0 <= n <= items.len(),
        shown_items(items.take(n)) is Err,
    ensures
        shown_items(items) == shown_items(items.take(n)),
    decreases items.len() - n,
{
    if n == items.len() {
        assert(items.take(n) =~= items);
    } else {
        assert(items.take(n + 1).drop_last() =~= items.take(n));
        shown_items_err(items, n + 1);
    }
}

/// The entries of directory `dir` in the tree at `root`, in the order in which
/// they were made. Neither `.` nor `..` is stored.
pub open spec fn listing(fs: FsV, root: u64, dir: u64) -> Outcome<Seq<EntryV>> {
    match typed_items(fs, root, dir, DIR_INDEX_KEY) {
        Err(e) => Err(e),
        Ok(items) => shown_items(items),
    }
}

fn push_shown(out: &mut Vec<DirEntry>, items: &Vec<DirItem>)
    ensures
        entries_of(final(out)@) == entries_of(old(out)@) + shown_entries(dir_items_of(items@)),
{
    let ghost before = entries_of(out@);
    let ghost all = shown_entries(dir_items_of(items@));
    let n: usize = items.len();
    let mut i: usize = 0;
    assert(entries_of(out@) =~= before + all.take(0));
    while i < n
        invariant
            i <= n,
            n == items@.len(),
            before == entries_of(old(out)@),
            all == shown_entries(dir_items_of(items@)),
            entries_of(out@) == before + all.take(i as int),
        decreases n - i,
    {
        let e = &items[i];
        let shown = DirEntry {
            name: text_of_bytes(e.name.as_slice()),
            inode: e.location.objectid,
            file_type: e.file_type,
            is_subvolume: e.location.item_type == ROOT_ITEM_KEY,
        };
        let ghost o = out@;
        proof {
            assert(dir_items_of(items@)[i as int] == items@[i as int]@);
            assert(all[i as int] == shown_entry(e@));
            assert(shown@ == all[i as int]);
        }
        out.push(shown);
        proof {
            assert(entries_of(out@) =~= entries_of(o).push(all[i as int]));
            assert(entries_of(out@) =~= before + all.take(i + 1));
        }
        i += 1;
    }
    assert(all.take(n as int) =~= all);
}

impl<D: ReadAt> Btrfs<D> {
    /// List directory `dir` of the tree at `root`.
    pub fn list_dir_by_inode(&self, root: u64, dir: u64) -> (r: Result<Vec<DirEntry>>)
        ensures
            agrees(
                self.steady(),
                r,
                listing(self@, root, dir),
                |v: Vec<DirEntry>| entries_of(v@),
            ),
    {
        let items = self.items_of_type(root, dir, DIR_INDEX_KEY)?;
        let ghost all = items_of(items@);
        let n: usize = items.len();
        let mut out: Vec<DirEntry> = Vec::new();
        let mut i: usize = 0;
        proof {
            assert(all.take(0) =~= Seq::<Item>::empty());
            assert(entries_of(out@) =~= Seq::<EntryV>::empty());
        }
        while i < n
            invariant
                i <= n,
                n == items@.len(),
                all == items_of(items@),
                typed_items(self@, root, dir, DIR_INDEX_KEY) == Ok::<Seq<Item>, Fault>(all),
                shown_items(all.take(i as int)) == Ok::<Seq<EntryV>, Fault>(entries_of(out@)),
            decreases n - i,
        {
            proof {
                assert(all.take(i + 1).drop_last() =~= all.take(i as int));
                assert(all.take(i + 1).last() == all[i as int]);
                assert(all[i as int].data == items@[i as int].data@);
                if shown_items(all.take(i + 1)) is Err {
                    shown_items_err(all, i + 1);
                }
            }
            let entries = parse_dir_entries(items[i].data.as_slice())?;
            push_shown(&mut out, &entries);
            i += 1;
        }
        assert(all.take(n as int) =~= all);
        Ok(out)
    }
}

} // verus!
