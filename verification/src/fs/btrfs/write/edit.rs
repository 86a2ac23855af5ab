//! Edits of a single leaf item.

use vstd::prelude::*;

use crate::bytes::{
    append_bytes, bytes_eq, copy_bytes, copy_range, enc32, enc64, get_u16, get_u64, le16, le64,
    put_u32, put_u64, splice,
};
use crate::error::{prefixed, text, Fault, LuksError, Outcome, Result};
use crate::fs::btrfs::tree::{Item, Key};
use crate::fs::btrfs::write::extent_tree::cap64;
use crate::fs::btrfs::write::node::{has_key, slot, slot_bounds, Leaf, LeafV};

verus! {

/// What an inode edit does to the recorded size.
#[derive(Debug, Clone, Copy, PartialEq, Eq, Structural)]
pub enum SizeEdit {
    /// Leave it.
    Keep,
    /// Take `remove` off, but not below zero, then add `grow`.
    Adjust { remove: u64, grow: u64 },
    /// Record a new size and byte count.
    Record { size: u64, nbytes: u64 },
}

/// An edit of an inode item: transaction id, size, sequence and times.
#[derive(Debug, Clone, Copy, PartialEq, Eq, Structural)]
pub struct InodePatch {
    pub generation: u64,
    pub size: SizeEdit,
    pub sec: u64,
    pub nsec: u32,
    /// Whether the modification time changes along with the change time.
    pub modified: bool,
}

/// The sequence number that follows `x`.
pub open spec fn next_sequence(x: u64) -> u64 {
    if x == u64::MAX {
        0
    } else {
        (x + 1) as u64
    }
}

/// An inode item with its size edited.
pub open spec fn sized(d: Seq<u8>, e: SizeEdit) -> Seq<u8> {
    match e {
        SizeEdit::Keep => d,
        SizeEdit::Adjust { remove, grow } => splice(
            d,
            16,
            enc64(cap64(le64(d, 16).saturating_sub(remove) + grow)),
        ),
        SizeEdit::Record { size, nbytes } => splice(splice(d, 16, enc64(size)), 24, enc64(nbytes)),
    }
}

/// An inode item once patched.
pub open spec fn patched(d: Seq<u8>, p: InodePatch) -> Seq<u8> {
    let a = sized(splice(d, 8, enc64(p.generation)), p.size);
    let b = splice(a, 72, enc64(next_sequence(le64(a, 72))));
    let c = splice(splice(b, 124, enc64(p.sec)), 132, enc32(p.nsec));
    if p.modified {
        splice(splice(c, 136, enc64(p.sec)), 144, enc32(p.nsec))
    } else {
        c
    }
}

/// A root item that points at a new root node.
pub open spec fn repointed(d: Seq<u8>, generation: u64, bytenr: u64, level: u8) -> Seq<u8> {
    splice(splice(d, 160, enc64(generation)), 176, enc64(bytenr)).update(238, level)
}

/// Bytes of the directory entry at the front of `d`.
pub open spec fn entry_len(d: Seq<u8>) -> int {
    30 + le16(d, 27) + le16(d, 25)
}

/// The directory entries in `d` other than those named `name` for inode `ino`.
pub open spec fn other_entries(d: Seq<u8>, name: Seq<u8>, ino: u64) -> Outcome<Seq<u8>>
    decreases d.len(),
{
    if d.len() == 0 {
        Ok(Seq::empty())
    } else if d.len() < 30 {
        Err(Fault::CorruptFs("dir item truncated"@))
    } else if entry_len(d) > d.len() {
        Err(Fault::CorruptFs("dir item overruns"@))
    } else if d.subrange(30, 30 + le16(d, 27)) == name && le64(d, 0) == ino {
        other_entries(d.skip(entry_len(d)), name, ino)
    } else {
        prefixed(d.take(entry_len(d)), other_entries(d.skip(entry_len(d)), name, ino))
    }
}

/// An edit of the item with a given key.
///
/// `missing` and `truncated` are the messages for an absent and for a short
/// item.
#[derive(Debug)]
pub enum LeafEdit {
    /// Delete the item.
    Delete,
    /// Replace the payload.
    Put { data: Vec<u8>, missing: &'static str },
    /// Patch an inode item.
    Inode { patch: InodePatch, missing: &'static str, truncated: &'static str },
    /// Point a root item at a new root node.
    Root {
        generation: u64,
        bytenr: u64,
        level: u8,
        missing: &'static str,
        truncated: &'static str,
    },
    /// Set the used counter of a block group item.
    Used { used: u64 },
    /// Add to the used bytes of a device item.
    DevUsed { more: u64 },
    /// Drop one directory entry; an item left without entries is deleted.
    DropEntry { name: Vec<u8>, ino: u64, missing: &'static str },
}

/// The mathematical view of a [`LeafEdit`].
pub enum EditV {
    Delete,
    Put { data: Seq<u8>, missing: Seq<char> },
    Inode { patch: InodePatch, missing: Seq<char>, truncated: Seq<char> },
    Root {
        generation: u64,
        bytenr: u64,
        level: u8,
        missing: Seq<char>,
        truncated: Seq<char>,
    },
    Used { used: u64 },
    DevUsed { more: u64 },
    DropEntry { name: Seq<u8>, ino: u64, missing: Seq<char> },
}

impl View for LeafEdit {
    type V = EditV;

    open spec fn view(&self) -> EditV {
        match *self {
            LeafEdit::Delete => EditV::Delete,
            LeafEdit::Put { data, missing } => EditV::Put { data: data@, missing: missing@ },
            LeafEdit::Inode { patch, missing, truncated } => EditV::Inode {
                patch,
                missing: missing@,
                truncated: truncated@,
            },
            LeafEdit::Root { generation, bytenr, level, missing, truncated } => EditV::Root {
                generation,
                bytenr,
                level,
                missing: missing@,
                truncated: truncated@,
            },
            LeafEdit::Used { used } => EditV::Used { used },
            LeafEdit::DevUsed { more } => EditV::DevUsed { more },
            LeafEdit::DropEntry { name, ino, missing } => EditV::DropEntry {
                name: name@,
                ino,
                missing: missing@,
            },
        }
    }
}

/// The message for an absent item.
pub open spec fn missing_text(e: EditV) -> Seq<char> {
    match e {
        EditV::Delete => "item key not found in leaf"@,
        EditV::Put { missing, .. } => missing,
        EditV::Inode { missing, .. } => missing,
        EditV::Root { missing, .. } => missing,
        EditV::Used { .. } => "block group item not found in extent tree"@,
        EditV::DevUsed { .. } => "dev item not found in chunk tree"@,
        EditV::DropEntry { missing, .. } => missing,
    }
}

/// What an edit makes of a payload; `None` means that the item goes.
pub open spec fn edited(d: Seq<u8>, e: EditV) -> Outcome<Option<Seq<u8>>> {
    match e {
        EditV::Delete => Ok(None),
        EditV::Put { data, .. } => Ok(Some(data)),
        EditV::Inode { patch, truncated, .. } => if d.len() < 160 {
            Err(Fault::CorruptFs(truncated))
        } else {
            Ok(Some(patched(d, patch)))
        },
        EditV::Root { generation, bytenr, level, truncated, .. } => if d.len() < 239 {
            Err(Fault::CorruptFs(truncated))
        } else {
            Ok(Some(repointed(d, generation, bytenr, level)))
        },
        EditV::Used { used } => if d.len() < 24 {
            Err(Fault::CorruptFs("block group item truncated"@))
        } else {
            Ok(Some(splice(d, 0, enc64(used))))
        },
        EditV::DevUsed { more } => if d.len() < 24 {
            Err(Fault::CorruptFs("dev item truncated"@))
        } else if le64(d, 16) + more > u64::MAX {
            Err(Fault::CorruptFs("dev item bytes_used overflow"@))
        } else {
            Ok(Some(splice(d, 16, enc64((le64(d, 16) + more) as u64))))
        },
        EditV::DropEntry { name, ino, .. } => match other_entries(d, name, ino) {
            Err(f) => Err(f),
            Ok(rest) => if rest.len() == 0 {
                Ok(None)
            } else {
                Ok(Some(rest))
            },
        },
    }
}

/// The items of a leaf once the one with `key` was edited.
#[verifier::opaque]
pub open spec fn edit_items(items: Seq<Item>, key: Key, e: EditV) -> Outcome<Seq<Item>> {
    if !has_key(items, key) {
        Err(Fault::NotFound(missing_text(e)))
    } else {
        let i = slot(items, key);
        match edited(items[i].data, e) {
            Err(f) => Err(f),
            Ok(None) => Ok(items.remove(i)),
            Ok(Some(d)) => Ok(items.update(i, Item { key, data: d })),
        }
    }
}

fn resize(v: &mut Vec<u8>, e: SizeEdit)
    requires
        old(v)@.len() >= 160,
    ensures
        final(v)@ == sized(old(v)@, e),
        final(v)@.len() == old(v)@.len(),
{
    match e {
        SizeEdit::Keep => {},
        SizeEdit::Adjust { remove, grow } => {
            let now: u64 = get_u64(v.as_slice(), 16);
            put_u64(v, 16, now.saturating_sub(remove).saturating_add(grow));
        },
        SizeEdit::Record { size, nbytes } => {
            put_u64(v, 16, size);
            put_u64(v, 24, nbytes);
        },
    }
}

fn patch_inode(v: &mut Vec<u8>, p: &InodePatch)
    requires
        old(v)@.len() >= 160,
    ensures
        final(v)@ == patched(old(v)@, *p),
{
    put_u64(v, 8, p.generation);
    resize(v, p.size);
    let seq: u64 = get_u64(v.as_slice(), 72);
    put_u64(
        v,
        72,
        if seq == u64::MAX {
            0
        } else {
            seq + 1
        },
    );
    put_u64(v, 124, p.sec);
    put_u32(v, 132, p.nsec);
    if p.modified {
        put_u64(v, 136, p.sec);
        put_u32(v, 144, p.nsec);
    }
}

proof fn fields_at(s: Seq<u8>, p: int)
    requires
        0 <= p <= s.len(),
    ensures
        forall|o: int|
            0 <= o && p + o + 8 <= s.len() ==> #[trigger] le64(s.skip(p), o) == le64(s, p + o),
        forall|o: int|
            0 <= o && p + o + 2 <= s.len() ==> #[trigger] le16(s.skip(p), o) == le16(s, p + o),
{
    reveal(le64);
    reveal(crate::bytes::le32);
    reveal(le16);
}

/// The directory entries in `d` other than those named `name` for inode `ino`.
pub fn drop_entry(d: &[u8], name: &[u8], ino: u64) -> (r: Result<Vec<u8>>)
    ensures
        match r {
            Ok(v) => other_entries(d@, name@, ino) == Ok::<Seq<u8>, Fault>(v@),
            Err(e) => other_entries(d@, name@, ino) == Err::<Seq<u8>, Fault>(e@),
        },
{
    let n: usize = d.len();
    let mut out: Vec<u8> = Vec::new();
    let mut pos: usize = 0;
    let ghost whole = other_entries(d@, name@, ino);
    proof {
        assert(d@.skip(0) =~= d@);
        match whole {
            Ok(s) => {
                assert(Seq::<u8>::empty() + s =~= s);
            },
            Err(_) => {},
        }
        assert(out@ =~= Seq::<u8>::empty());
    }
    while pos < n
        invariant
            pos <= n,
            n == d@.len(),
            whole == other_entries(d@, name@, ino),
            whole == prefixed(out@, other_entries(d@.skip(pos as int), name@, ino)),
        decreases n - pos,
    {
        let left: usize = n - pos;
        let ghost cur = d@.skip(pos as int);
        proof {
            fields_at(d@, pos as int);
        }
        if left < 30 {
            return Err(LuksError::CorruptFs("dir item truncated"));
        }
        let data_len: usize = get_u16(d, pos + 25) as usize;
        let name_len: usize = get_u16(d, pos + 27) as usize;
        let total: usize = 30 + name_len + data_len;
        if total > left {
            return Err(LuksError::CorruptFs("dir item overruns"));
        }
        let this = copy_range(d, pos + 30, pos + 30 + name_len);
        let child: u64 = get_u64(d, pos);
        assert(this@ =~= cur.subrange(30, 30 + le16(cur, 27)));
        assert(d@.skip(pos + total) =~= cur.skip(entry_len(cur)));
        if !(bytes_eq(this.as_slice(), name) && child == ino) {
            let part = copy_range(d, pos, pos + total);
            let ghost before = out@;
            append_bytes(&mut out, part.as_slice());
            proof {
                assert(part@ =~= cur.take(entry_len(cur)));
                match other_entries(d@.skip(pos + total), name@, ino) {
                    Ok(s) => {
                        assert(before + (part@ + s) =~= (before + part@) + s);
                    },
                    Err(_) => {},
                }
            }
        }
        pos += total;
    }
    proof {
        assert(d@.skip(pos as int) =~= Seq::<u8>::empty());
        assert(out@ + Seq::<u8>::empty() =~= out@);
    }
    Ok(out)
}

fn edit_payload(d: &Vec<u8>, e: &LeafEdit) -> (r: Result<Option<Vec<u8>>>)
    ensures
        match r {
            Ok(Some(v)) => edited(d@, e@) == Ok::<Option<Seq<u8>>, Fault>(Some(v@)),
            Ok(None) => edited(d@, e@) == Ok::<Option<Seq<u8>>, Fault>(None),
            Err(f) => edited(d@, e@) == Err::<Option<Seq<u8>>, Fault>(f@),
        },
{
    broadcast use crate::bytes::group_enc_len;

    match e {
        LeafEdit::Delete => Ok(None),
        LeafEdit::Put { data, .. } => Ok(Some(copy_bytes(data.as_slice()))),
        LeafEdit::Inode { patch, truncated, .. } => {
            if d.len() < 160 {
                return Err(LuksError::CorruptFs(truncated));
            }
            let mut v = copy_bytes(d.as_slice());
            patch_inode(&mut v, patch);
            Ok(Some(v))
        },
        LeafEdit::Root { generation, bytenr, level, truncated, .. } => {
            if d.len() < 239 {
                return Err(LuksError::CorruptFs(truncated));
            }
            let mut v = copy_bytes(d.as_slice());
            put_u64(&mut v, 160, *generation);
            put_u64(&mut v, 176, *bytenr);
            v.set(238, *level);
            Ok(Some(v))
        },
        LeafEdit::Used { used } => {
            if d.len() < 24 {
                return Err(LuksError::CorruptFs("block group item truncated"));
            }
            let mut v = copy_bytes(d.as_slice());
            put_u64(&mut v, 0, *used);
            Ok(Some(v))
        },
        LeafEdit::DevUsed { more } => {
            if d.len() < 24 {
                return Err(LuksError::CorruptFs("dev item truncated"));
            }
            let now: u64 = get_u64(d.as_slice(), 16);
            if now > u64::MAX - *more {
                return Err(LuksError::CorruptFs("dev item bytes_used overflow"));
            }
            let mut v = copy_bytes(d.as_slice());
            put_u64(&mut v, 16, now + *more);
            Ok(Some(v))
        },
        LeafEdit::DropEntry { name, ino, .. } => {
            let rest = drop_entry(d.as_slice(), name.as_slice(), *ino)?;
            if rest.len() == 0 {
                Ok(None)
            } else {
                Ok(Some(rest))
            }
        },
    }
}

fn missing_message(e: &LeafEdit) -> (r: &'static str)
    ensures
        r@ == missing_text(e@),
{
    match e {
        LeafEdit::Delete => "item key not found in leaf",
        LeafEdit::Put { missing, .. } => missing,
        LeafEdit::Inode { missing, .. } => missing,
        LeafEdit::Root { missing, .. } => missing,
        LeafEdit::Used { .. } => "block group item not found in extent tree",
        LeafEdit::DevUsed { .. } => "dev item not found in chunk tree",
        LeafEdit::DropEntry { missing, .. } => missing,
    }
}

/// Edit the item with `key`.
pub fn apply_edit(leaf: &mut Leaf, key: &Key, e: &LeafEdit) -> (r: Result<()>)
    ensures
        match r {
            Ok(()) => {
                &&& edit_items(old(leaf)@.items, *key, e@) is Ok
                &&& final(leaf)@ == (LeafV {
                    items: edit_items(old(leaf)@.items, *key, e@)->Ok_0,
                    ..old(leaf)@
                })
            },
            Err(f) => {
                &&& edit_items(old(leaf)@.items, *key, e@) == Err::<Seq<Item>, Fault>(f@)
                &&& final(leaf)@ == old(leaf)@
            },
        },
{
    reveal(edit_items);
    proof {
        slot_bounds(leaf@.items, *key);
    }
    match leaf.find_item(key) {
        None => Err(LuksError::NotFound(text(missing_message(e)))),
        Some(i) => {
            assert(leaf@.items[i as int] == leaf.items@[i as int]@);
            match edit_payload(&leaf.items[i].data, e)? {
                None => {
                    leaf.delete_item(key)?;
                    Ok(())
                },
                Some(v) => {
                    leaf.set_data(i, v);
                    Ok(())
                },
            }
        },
    }
}

} // verus!
