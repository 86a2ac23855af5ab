//! Directory items list the entries that were put into them.

use vstd::prelude::*;

use crate::bytes::{enc16, enc64, group_enc_len, le16, le16_of_enc, le32, le64, le64_of_enc};
use crate::error::{prefixed, Fault};
use crate::fs::btrfs::files::entry_named;
use crate::fs::btrfs::inode::{dir_entries, front_entry, has_name, has_name_for, DirItemV};
use crate::fs::btrfs::tree::{Key, INODE_ITEM_KEY};
use crate::fs::btrfs::write::edit::{entry_len, other_entries};
use crate::fs::btrfs::write::payload::dir_item_bytes;
use crate::fs::entry_type;
use crate::seqs::{first_idx, first_idx_is, first_idx_props};

verus! {

/// The entry that a directory item for a new file holds.
pub open spec fn new_dir_item(ino: u64, kind: u8, name: Seq<u8>) -> DirItemV {
    DirItemV {
        location: Key { objectid: ino, item_type: INODE_ITEM_KEY, offset: 0 },
        file_type: entry_type(kind),
        name,
    }
}

/// A directory item reads back as the entry it was made for.
pub proof fn dir_item_reads_back(ino: u64, transid: u64, kind: u8, name: Seq<u8>)
    requires
        name.len() <= u16::MAX,
    ensures
        dir_entries(dir_item_bytes(ino, transid, kind, name)) == Ok::<Seq<DirItemV>, Fault>(
            seq![new_dir_item(ino, kind, name)],
        ),
{
    broadcast use group_enc_len;

    let d = dir_item_bytes(ino, transid, kind, name);
    assert(d.len() == 30 + name.len());
    assert(d.subrange(0, 8) =~= enc64(ino));
    assert(d.subrange(9, 17) =~= enc64(0));
    assert(d.subrange(25, 27) =~= enc16(0));
    assert(d.subrange(27, 29) =~= enc16(name.len() as u16));
    le64_of_enc(d, 0, ino);
    le64_of_enc(d, 9, 0);
    le16_of_enc(d, 25, 0);
    le16_of_enc(d, 27, name.len() as u16);
    assert(d[8] == INODE_ITEM_KEY);
    assert(d[29] == kind);
    assert(entry_len(d) == d.len());
    assert(front_entry(d).name =~= name);
    assert(front_entry(d) == new_dir_item(ino, kind, name));
    let rest = d.skip(entry_len(d));
    assert(rest =~= Seq::<u8>::empty());
    assert(dir_entries(rest) == Ok::<Seq<DirItemV>, Fault>(Seq::empty()));
    assert(seq![front_entry(d)] + Seq::<DirItemV>::empty() =~= seq![
        new_dir_item(ino, kind, name),
    ]);
}

/// What follows an entry has no part in it.
proof fn entry_followed(a: Seq<u8>, b: Seq<u8>)
    requires
        a.len() >= 30,
        entry_len(a) <= a.len(),
    ensures
        entry_len(a + b) == entry_len(a),
        front_entry(a + b) == front_entry(a),
        (a + b).skip(entry_len(a)) == a.skip(entry_len(a)) + b,
{
    reveal(le16);
    reveal(le32);
    reveal(le64);
    let s = a + b;
    assert(forall|i: int| 0 <= i < 30 ==> #[trigger] s[i] == a[i]);
    assert(le16(s, 25) == le16(a, 25));
    assert(le16(s, 27) == le16(a, 27));
    assert(le64(s, 0) == le64(a, 0));
    assert(le64(s, 9) == le64(a, 9));
    assert(s.subrange(30, 30 + le16(s, 27)) =~= a.subrange(30, 30 + le16(a, 27)));
    assert(s.skip(entry_len(a)) =~= a.skip(entry_len(a)) + b);
}

/// The entries of two items in a row are those of the one and then those of the
/// other.
pub proof fn entries_joined(a: Seq<u8>, b: Seq<u8>)
    requires
        dir_entries(a) is Ok,
    ensures
        dir_entries(a + b) == prefixed(dir_entries(a)->Ok_0, dir_entries(b)),
    decreases a.len(),
{
    if a.len() == 0 {
        assert(a + b =~= b);
        match dir_entries(b) {
            Ok(s) => {
                assert(Seq::<DirItemV>::empty() + s =~= s);
            },
            Err(_) => {},
        }
    } else {
        let n = entry_len(a);
        let rest = a.skip(n);
        entry_followed(a, b);
        entries_joined(rest, b);
        assert((a + b).skip(n) == rest + b);
        match dir_entries(b) {
            Ok(s) => {
                let r = dir_entries(rest)->Ok_0;
                assert(seq![front_entry(a)] + (r + s) =~= (seq![front_entry(a)] + r) + s);
            },
            Err(_) => {},
        }
    }
}

/// Entries but those with this name for inode `ino`.
pub open spec fn not_for(name: Seq<u8>, ino: u64) -> spec_fn(DirItemV) -> bool {
    |e: DirItemV| !has_name_for(name, ino)(e)
}

/// Dropping the entries of a name and an inode leaves all other entries, in
/// their order.
pub proof fn others_stay(d: Seq<u8>, name: Seq<u8>, ino: u64)
    requires
        other_entries(d, name, ino) is Ok,
    ensures
        dir_entries(d) is Ok,
        dir_entries(other_entries(d, name, ino)->Ok_0) == Ok::<Seq<DirItemV>, Fault>(
            dir_entries(d)->Ok_0.filter(not_for(name, ino)),
        ),
    decreases d.len(),
{
    reveal(Seq::filter);
    if d.len() > 0 {
        let n = entry_len(d);
        let rest = d.skip(n);
        let keep = not_for(name, ino);
        others_stay(rest, name, ino);
        let e = front_entry(d);
        let r = dir_entries(rest)->Ok_0;
        let one = seq![e];
        assert(one.drop_last() =~= Seq::<DirItemV>::empty());
        assert(one.drop_last().filter(keep) =~= Seq::<DirItemV>::empty());
        Seq::filter_distributes_over_add(one, r, keep);
        let tail = other_entries(rest, name, ino)->Ok_0;
        if has_name_for(name, ino)(e) {
            assert(one.filter(keep) =~= Seq::<DirItemV>::empty());
            assert((one + r).filter(keep) =~= r.filter(keep));
            assert(other_entries(d, name, ino)->Ok_0 == tail);
        } else {
            assert(one.filter(keep) =~= one);
            let head = d.take(n);
            assert(head.skip(n) =~= Seq::<u8>::empty());
            assert(head + d.skip(n) =~= d);
            front_of_taken(d);
            entry_followed(head, tail);
            assert((head + tail).skip(n) =~= tail);
            assert(dir_entries(head + tail) == prefixed(one, dir_entries(tail)));
            assert(other_entries(d, name, ino)->Ok_0 == head + tail);
        }
    }
}

/// Entries can be dropped from every item whose entries can be read.
pub proof fn others_readable(d: Seq<u8>, name: Seq<u8>, ino: u64)
    requires
        dir_entries(d) is Ok,
    ensures
        other_entries(d, name, ino) is Ok,
    decreases d.len(),
{
    if d.len() > 0 {
        others_readable(d.skip(entry_len(d)), name, ino);
    }
}

proof fn front_of_taken(d: Seq<u8>)
    requires
        d.len() >= 30,
        entry_len(d) <= d.len(),
    ensures
        entry_len(d.take(entry_len(d))) == entry_len(d),
        front_entry(d.take(entry_len(d))) == front_entry(d),
{
    reveal(le16);
    reveal(le32);
    reveal(le64);
    let n = entry_len(d);
    let h = d.take(n);
    assert(forall|i: int| 0 <= i < 30 ==> #[trigger] h[i] == d[i]);
    assert(le16(h, 25) == le16(d, 25));
    assert(le16(h, 27) == le16(d, 27));
    assert(le64(h, 0) == le64(d, 0));
    assert(le64(h, 9) == le64(d, 9));
    assert(h.subrange(30, 30 + le16(h, 27)) =~= d.subrange(30, 30 + le16(d, 27)));
}

/// A name is found where it was appended to entries that do not have it.
pub proof fn appended_is_named(items: Seq<DirItemV>, e: DirItemV)
    requires
        entry_named(items, e.name) is None,
    ensures
        entry_named(items + seq![e], e.name) == Some(e),
{
    let f = has_name(e.name);
    let all = items + seq![e];
    let n = items.len() as int;
    first_idx_props(items, f);
    assert forall|j: int| 0 <= j < n implies !f(#[trigger] all[j]) by {
        assert(all[j] == items[j]);
    }
    assert(f(all[n]));
    first_idx_is(all, f, n);
}

/// Among the entries left there is none with the name for the inode; if the
/// name stood for that inode alone, it is not found.
pub proof fn dropped_is_not_named(items: Seq<DirItemV>, name: Seq<u8>, ino: u64)
    ensures
        ({
            let left = items.filter(not_for(name, ino));
            &&& entry_named(left, name) matches Some(e) ==> e.location.objectid != ino
            &&& (forall|i: int|
                0 <= i < items.len() && (#[trigger] items[i]).name == name
                    ==> items[i].location.objectid == ino) ==> entry_named(left, name) is None
        }),
{
    let keep = not_for(name, ino);
    let left = items.filter(keep);
    let f = has_name(name);
    first_idx_props(left, f);
    let i = first_idx(left, f);
    if i < left.len() {
        assert(f(left[i]));
        items.lemma_filter_pred(keep, i);
        items.lemma_filter_contains_rev(keep, left[i]);
        let j = choose|j: int| 0 <= j < items.len() && items[j] == left[i];
        assert(items[j].name == name);
    }
}

} // verus!
