//! A committed volume mounts again as it is, and one whose commit failed as it
//! was.

use vstd::prelude::*;

use crate::bytes::{enc64, group_enc_len, le16, le32, le64, le64_of_enc};
use crate::device::DeviceOp;
use crate::error::{Fault, Outcome};
use crate::fs::btrfs::chunk::locate;
use crate::fs::btrfs::files::disk_item;
use crate::fs::btrfs::mount::{mounted, no_root, system_chunks};
use crate::fs::btrfs::roots::{parse_root, root_of};
use crate::fs::btrfs::search::{range_below, range_children, range_items, MAX_DEPTH};
use crate::fs::btrfs::superblock::{
    parse_super, super_at, super_copy, super_fields, super_found, super_of, CopiesSeen, SuperV,
    SUPER_OFFSET_0, SUPER_OFFSET_1, SUPER_OFFSET_2, SUPER_SIZE,
};
use crate::fs::btrfs::tree::{
    csum_field, csum_field_len, Item, Key, KeyPtr, FS_TREE_OBJECTID, ROOT_ITEM_KEY,
};
use crate::fs::btrfs::volume::{disk_node, node_at, FsV, TreeRoot, VolV};
use crate::fs::btrfs::write::booking::keys_end;
use crate::fs::btrfs::write::change::{files_item, moves_files, root_follows, top_root};
use crate::fs::btrfs::write::commit::{
    body_script, breaks_off, commit_script, commits, committed, copy_script, flush_script,
    next_super, played, template_of,
};
use crate::fs::btrfs::write::contents::{
    bound, in_row, in_tree, row_sound, sound, sound_interior, tree_over_row,
};
use crate::fs::btrfs::write::edit::repointed;
use crate::fs::btrfs::write::grove::state_of;
use crate::fs::btrfs::write::load::{all_items, final_key, first_key};
use crate::fs::btrfs::write::readback::{
    block_reads_back, clear_cut, kept_by, played_len, search_agrees, touches, untouched,
    write_reads_back,
};
use crate::fs::btrfs::write::space::BgV;
use crate::fs::btrfs::write::sweep::{between, range_reads_contents};
use crate::fs::btrfs::write::tree_map::contents;
use crate::fs::btrfs::write::txn::TxnV;
use crate::fs::btrfs::write::workspace::fresh_state;

verus! {

proof fn same_u64(a: Seq<u8>, b: Seq<u8>, o: int)
    requires
        forall|i: int| o <= i < o + 8 ==> #[trigger] a[i] == b[i],
    ensures
        le64(a, o) == le64(b, o),
{
    reveal(le64);
    reveal(le32);
    assert(a[o] == b[o] && a[o + 1] == b[o + 1] && a[o + 2] == b[o + 2] && a[o + 3] == b[o + 3]);
    assert(a[o + 4] == b[o + 4] && a[o + 5] == b[o + 5] && a[o + 6] == b[o + 6] && a[o + 7] == b[o
        + 7]);
}

proof fn same_u32(a: Seq<u8>, b: Seq<u8>, o: int)
    requires
        forall|i: int| o <= i < o + 4 ==> #[trigger] a[i] == b[i],
    ensures
        le32(a, o) == le32(b, o),
{
    reveal(le32);
    assert(a[o] == b[o] && a[o + 1] == b[o + 1] && a[o + 2] == b[o + 2] && a[o + 3] == b[o + 3]);
}

/// A superblock copy reads back as the superblock it was made for, over a
/// template whose other fields are the superblock's.
pub proof fn super_copy_reads_back(old: SuperV, sb: SuperV, raw: Seq<u8>, from: u64, offset: u64)
    requires
        raw.len() == 4096,
        parse_super(raw, from) == Ok::<SuperV, Fault>(old),
        sb == (SuperV {
            generation: sb.generation,
            root: sb.root,
            root_level: sb.root_level,
            chunk_root: sb.chunk_root,
            chunk_root_level: sb.chunk_root_level,
            chunk_root_generation: sb.chunk_root_generation,
            bytes_used: sb.bytes_used,
            compat_ro_flags: sb.compat_ro_flags,
            ..old
        }),
    ensures
        super_copy(sb, raw, offset).len() == 4096,
        parse_super(super_copy(sb, raw, offset), offset) == Ok::<SuperV, Fault>(sb),
{
    broadcast use group_enc_len;

    reveal(parse_super);
    reveal(super_copy);
    let body = super_fields(sb, raw, offset);
    let tail = body.subrange(32, 4096);
    let c = super_copy(sb, raw, offset);
    assert(body.len() == 4096);
    csum_field_len(sb.csum_type, tail);
    assert(c.len() == 4096);
    assert(c.subrange(32, 4096) =~= tail);
    assert(c.subrange(0, 32) =~= csum_field(sb.csum_type, tail));
    assert forall|i: int| 32 <= i < 4096 implies #[trigger] c[i] == body[i] by {
        assert(c[i] == tail[i - 32]);
    }
    assert(c.subrange(0x30, 0x38) =~= enc64(offset));
    assert(c.subrange(0x48, 0x50) =~= enc64(sb.generation));
    assert(c.subrange(0x50, 0x58) =~= enc64(sb.root));
    assert(c.subrange(0x58, 0x60) =~= enc64(sb.chunk_root));
    assert(c.subrange(0x78, 0x80) =~= enc64(sb.bytes_used));
    assert(c.subrange(0xa4, 0xac) =~= enc64(sb.chunk_root_generation));
    assert(c.subrange(0xb4, 0xbc) =~= enc64(sb.compat_ro_flags));
    le64_of_enc(c, 0x30, offset);
    le64_of_enc(c, 0x48, sb.generation);
    le64_of_enc(c, 0x50, sb.root);
    le64_of_enc(c, 0x58, sb.chunk_root);
    le64_of_enc(c, 0x78, sb.bytes_used);
    le64_of_enc(c, 0xa4, sb.chunk_root_generation);
    le64_of_enc(c, 0xb4, sb.compat_ro_flags);
    same_u64(c, raw, 0x40);
    same_u64(c, raw, 0x60);
    same_u64(c, raw, 0x70);
    same_u64(c, raw, 0x88);
    same_u64(c, raw, 0xbc);
    same_u64(c, raw, 0xc9);
    same_u32(c, raw, 0x90);
    same_u32(c, raw, 0x94);
    same_u32(c, raw, 0xa0);
    assert(le16(c, 0xc4) == le16(raw, 0xc4)) by {
        reveal(le16);
    }
    assert(c.subrange(0x23b, 0x24b) =~= raw.subrange(0x23b, 0x24b));
    assert(c.subrange(0x20, 0x30) =~= raw.subrange(0x20, 0x30));
    assert(c.subrange(0x32b, 0x32b + le32(c, 0xa0)) =~= raw.subrange(
        0x32b,
        0x32b + le32(raw, 0xa0),
    ));
    assert(super_of(c).sys_chunks =~= sb.sys_chunks);
    assert(super_of(c) == sb);
}

/// The superblock copies that a device has room for.
pub open spec fn all_seen() -> CopiesSeen {
    CopiesSeen { first: true, second: true, third: true }
}

/// A commit leaves each superblock copy that the device has room for as the
/// new superblock, and no other.
proof fn copy_found(fs: FsV, len: Option<u64>, t: TxnV, at: u64, i: int)
    requires
        committed(fs, len, t) is Ok,
        clear_cut(commit_script(fs, len, t, template_of(fs)->Ok_0)),
        parse_super(template_of(fs)->Ok_0, SUPER_OFFSET_0) == Ok::<SuperV, Fault>(fs.sb),
        len matches Some(n) ==> n == fs.disk.len(),
        ({
            let s = commit_script(fs, len, t, template_of(fs)->Ok_0);
            let raw = template_of(fs)->Ok_0;
            let w = copy_script(next_super(fs.sb, t), raw, at, len);
            w.len() == 1 ==> 0 <= i < s.len() && s[i] == w[0]
        }),
    ensures
        ({
            let gs = committed(fs, len, t)->Ok_0.0;
            super_at(gs.disk, at, true) == if at + SUPER_SIZE <= fs.disk.len() {
                Some(gs.sb)
            } else {
                None::<SuperV>
            }
        }),
{
    let raw = template_of(fs)->Ok_0;
    let s = commit_script(fs, len, t, raw);
    let gs = committed(fs, len, t)->Ok_0.0;
    let sb = next_super(fs.sb, t);
    assert(raw.len() == 4096);
    super_copy_reads_back(fs.sb, sb, raw, SUPER_OFFSET_0, at);
    played_len(fs.disk, s);
    let w = copy_script(sb, raw, at, len);
    if w.len() == 1 {
        write_reads_back(fs.disk, s, i, at as int, super_copy(sb, raw, at));
    }
}

/// After a commit the device's superblock is the new one.
pub proof fn committed_super_is_found(fs: FsV, len: Option<u64>, t: TxnV)
    requires
        committed(fs, len, t) is Ok,
        clear_cut(commit_script(fs, len, t, template_of(fs)->Ok_0)),
        parse_super(template_of(fs)->Ok_0, SUPER_OFFSET_0) == Ok::<SuperV, Fault>(fs.sb),
        len matches Some(n) ==> n == fs.disk.len(),
    ensures
        ({
            let gs = committed(fs, len, t)->Ok_0.0;
            &&& super_found(gs.disk, all_seen()) == Some(gs.sb)
            &&& template_of(gs) matches Ok(raw) && parse_super(raw, SUPER_OFFSET_0) == Ok::<
                SuperV,
                Fault,
            >(gs.sb)
        }),
{
    let raw = template_of(fs)->Ok_0;
    let sb = next_super(fs.sb, t);
    let s = commit_script(fs, len, t, raw);
    let b = body_script(fs.chunks, t);
    let x = copy_script(sb, raw, SUPER_OFFSET_0, len);
    let y = copy_script(sb, raw, SUPER_OFFSET_1, len);
    let z = copy_script(sb, raw, SUPER_OFFSET_2, len);
    assert(s =~= b + ((x + y) + z) + flush_script());
    assert(x.len() == 1 ==> s[b.len() as int] == x[0]);
    assert(y.len() == 1 ==> s[(b.len() + x.len()) as int] == y[0]);
    assert(z.len() == 1 ==> s[(b.len() + x.len() + y.len()) as int] == z[0]);
    copy_found(fs, len, t, SUPER_OFFSET_0, b.len() as int);
    copy_found(fs, len, t, SUPER_OFFSET_1, (b.len() + x.len()) as int);
    copy_found(fs, len, t, SUPER_OFFSET_2, (b.len() + x.len() + y.len()) as int);
}

/// Collecting a range meets the same nodes in two volumes and gives the same.
proof fn range_agrees(
    fs: FsV,
    p: Map<u64, Seq<u8>>,
    gs: FsV,
    q: Map<u64, Seq<u8>>,
    b: u64,
    level: u8,
    from: int,
    to: int,
    lo: Key,
    hi: Key,
    depth: u8,
)
    requires
        sound(fs, p, b, level, from, to),
        level < depth,
        forall|a: u64| #[trigger] in_tree(fs, p, b, level, a) ==> node_at(gs, q, a) == node_at(fs, p, a),
    ensures
        range_below(gs, q, b, lo, hi, depth) == range_below(fs, p, b, lo, hi, depth),
    decreases level, 0nat, 0nat,
{
    reveal(range_below);
    reveal(range_children);
    reveal(sound);
    assert(in_tree(fs, p, b, level, b));
    let n = node_at(fs, p, b)->Ok_0;
    if level > 0 {
        let below = (level - 1) as u8;
        tree_over_row(fs, p, b, level, n);
        sound_interior(fs, p, b, level, from, to);
        assert forall|a: u64| #[trigger] in_row(fs, p, n.ptrs, below, a) implies node_at(gs, q, a)
            == node_at(fs, p, a) by {
            assert(in_tree(fs, p, b, level, a));
        }
        children_agree(
            fs,
            p,
            gs,
            q,
            n.ptrs,
            n.ptrs.len(),
            below,
            to,
            lo,
            hi,
            (depth - 1) as u8,
        );
    }
}

proof fn children_agree(
    fs: FsV,
    p: Map<u64, Seq<u8>>,
    gs: FsV,
    q: Map<u64, Seq<u8>>,
    row: Seq<KeyPtr>,
    n: nat,
    level: u8,
    to: int,
    lo: Key,
    hi: Key,
    depth: u8,
)
    requires
        row_sound(fs, p, row, level, to),
        n <= row.len(),
        level < depth,
        forall|a: u64| #[trigger] in_row(fs, p, row, level, a) ==> node_at(gs, q, a) == node_at(fs, p, a),
    ensures
        range_children(gs, q, row, n, lo, hi, depth) == range_children(
            fs,
            p,
            row,
            n,
            lo,
            hi,
            depth,
        ),
    decreases level, 1nat, n,
{
    reveal(range_children);
    reveal(range_below);
    if n > 0 {
        let m = (n - 1) as nat;
        children_agree(fs, p, gs, q, row, m, level, to, lo, hi, depth);
        let c = row[m as int];
        assert(sound(fs, p, c.blockptr, level, c.key.ord(), bound(row, m as int, to)));
        assert forall|a: u64| #[trigger] in_tree(fs, p, c.blockptr, level, a) implies node_at(
            gs,
            q,
            a,
        ) == node_at(fs, p, a) by {
            assert(in_tree(fs, p, row[m as int].blockptr, level, a));
            assert(in_row(fs, p, row, level, a));
        }
        range_agrees(
            fs,
            p,
            gs,
            q,
            c.blockptr,
            level,
            c.key.ord(),
            bound(row, m as int, to),
            lo,
            hi,
            depth,
        );
    }
}

/// A volume as it is known while its chunk tree is read.
pub open spec fn first_sight(fs: FsV) -> FsV {
    FsV {
        chunks: system_chunks(fs.sb.sys_chunks, 0, Seq::empty())->Ok_0,
        fs_tree: no_root(),
        ..fs
    }
}

/// A volume that is what mounting its device gives, by its first superblock
/// copy.
pub open spec fn in_step(fs: FsV) -> bool {
    &&& template_of(fs) matches Ok(raw) && parse_super(raw, SUPER_OFFSET_0) == Ok::<SuperV, Fault>(
        fs.sb,
    )
    &&& mounted(fs.disk, fs.sb) == Ok::<FsV, Fault>(fs)
}

/// No step of a script writes over the node at `a`.
pub open spec fn unwritten(fs: FsV, s: Seq<Outcome<DeviceOp>>, a: u64) -> bool {
    locate(fs.chunks, a) matches Ok((places, run)) ==> places.len() > 0 && forall|i: int, x: int|
        0 <= i < s.len() && places[0] <= x < places[0] + fs.sb.node_size ==> !#[trigger] touches(
            s[i],
            x,
        )
}

/// The chunk tree is sound, and a commit does not write over it.
pub open spec fn chunks_stay(fs: FsV, len: Option<u64>, t: TxnV) -> bool {
    let f = first_sight(fs);
    let s = commit_script(fs, len, t, template_of(fs)->Ok_0);
    &&& fs.sb.chunk_root_level < MAX_DEPTH
    &&& sound(f, Map::empty(), fs.sb.chunk_root, fs.sb.chunk_root_level, 0, keys_end())
    &&& forall|a: u64| #[trigger]
        in_tree(f, Map::empty(), fs.sb.chunk_root, fs.sb.chunk_root_level, a) ==> unwritten(f, s, a)
}

/// A node that is not written over is read as before.
proof fn unwritten_node(
    f: FsV,
    s: Seq<Outcome<DeviceOp>>,
    sb: SuperV,
    a: u64,
)
    requires
        played(f.disk, s).fault is None,
        unwritten(f, s, a),
        sb.node_size == f.sb.node_size,
        sb.csum_type == f.sb.csum_type,
        sb.metadata_uuid == f.sb.metadata_uuid,
    ensures
        node_at(
            (FsV { disk: played(f.disk, s).disk, sb, ..f }),
            Map::empty(),
            a,
        ) == node_at(f, Map::empty(), a),
{
    reveal(node_at);
    reveal(disk_node);
    let g = FsV { disk: played(f.disk, s).disk, sb, ..f };
    let n = f.sb.node_size as int;
    played_len(f.disk, s);
    match locate(f.chunks, a) {
        Err(_) => {},
        Ok((places, run)) => {
            let p = places[0] as int;
            assert forall|x: int| p <= x < p + n && 0 <= x < f.disk.len() implies g.disk[x]
                == f.disk[x] by {
                assert forall|i: int| 0 <= i < s.len() implies !touches(#[trigger] s[i], x) by {}
                untouched(f.disk, s, x);
            }
            if p + n <= f.disk.len() {
                assert(g.disk.subrange(p, p + n) =~= f.disk.subrange(p, p + n));
            }
        },
    }
}

/// Nodes do not depend on which subvolume is the default one.
proof fn nodes_without_default(fs: FsV, gs: FsV, p: Map<u64, Seq<u8>>, a: u64)
    requires
        gs == (FsV { fs_tree: gs.fs_tree, ..fs }),
    ensures
        node_at(gs, p, a) == node_at(fs, p, a),
{
    reveal(node_at);
    reveal(disk_node);
}

/// The root tree lists the files under one key only.
pub open spec fn listed_once(m: Map<Key, Seq<u8>>) -> bool {
    forall|k: Key|
        #[trigger] m.contains_key(k) && k.objectid == FS_TREE_OBJECTID && k.item_type
            == ROOT_ITEM_KEY ==> k == files_item()
}

/// The root of the files, read from a root tree that lists them once.
proof fn listed_root(items: Seq<Item>, m: Map<Key, Seq<u8>>)
    requires
        listed_once(m),
        m.contains_key(files_item()),
        forall|x: Item| #[trigger]
            items.contains(x) == (between(
                x.key,
                files_item(),
                Key { objectid: FS_TREE_OBJECTID, item_type: ROOT_ITEM_KEY, offset: u64::MAX },
            ) && m.contains_key(x.key) && m[x.key] == x.data),
    ensures
        items.len() > 0,
        items.last().data == m[files_item()],
{
    let x = Item { key: files_item(), data: m[files_item()] };
    assert(items.contains(x));
    let y = items.last();
    assert(items.contains(y));
    assert(y.key.objectid == FS_TREE_OBJECTID && y.key.item_type == ROOT_ITEM_KEY);
    assert(m.contains_key(y.key));
}

/// A root item that was pointed elsewhere reads back as pointing there, and is
/// otherwise the same.
pub proof fn repointed_reads_back(objectid: u64, d: Seq<u8>, generation: u64, bytenr: u64, level: u8)
    requires
        d.len() >= 239,
    ensures
        parse_root(objectid, repointed(d, generation, bytenr, level)) == Ok::<TreeRoot, Fault>(
            TreeRoot { bytenr, level, generation, ..parse_root(objectid, d)->Ok_0 },
        ),
{
    broadcast use group_enc_len;

    let r = repointed(d, generation, bytenr, level);
    assert(r.len() == d.len());
    assert(r.subrange(160, 168) =~= enc64(generation));
    assert(r.subrange(176, 184) =~= enc64(bytenr));
    le64_of_enc(r, 160, generation);
    le64_of_enc(r, 176, bytenr);
    same_u64(r, d, 168);
    same_u64(r, d, 208);
}

/// The root of the files in the root tree that a transaction leads to.
proof fn new_root_listed(fs: FsV, space: Seq<BgV>, t: TxnV)
    requires
        in_step(fs),
        root_follows(
            fs,
            contents(fs, fresh_state(space), top_root(fs)),
            contents(fs, state_of(t), t.root),
            t,
        ),
        t.fs_tree.bytenr != fs.fs_tree.bytenr,
        moves_files(fs, t),
        listed_once(contents(fs, fresh_state(space), top_root(fs))),
        sound(fs, Map::empty(), fs.sb.root, fs.sb.root_level, 0, keys_end()),
        fs.sb.root_level < MAX_DEPTH,
        sound(fs, t.blocks, t.root.0, t.root.1, 0, keys_end()),
        t.root.1 < MAX_DEPTH,
    ensures
        ({
            let lo = files_item();
            let hi = Key {
                objectid: FS_TREE_OBJECTID,
                item_type: ROOT_ITEM_KEY,
                offset: u64::MAX,
            };
            range_items(fs, t.blocks, t.root.0, lo, hi) matches Ok(items) && items.len() > 0
                && parse_root(FS_TREE_OBJECTID, items.last().data) == Ok::<TreeRoot, Fault>(
                t.fs_tree,
            )
        }),
{
    let lo = files_item();
    let hi = Key { objectid: FS_TREE_OBJECTID, item_type: ROOT_ITEM_KEY, offset: u64::MAX };
    let s0 = fresh_state(space);
    let m = contents(fs, s0, top_root(fs));
    let n = contents(fs, state_of(t), t.root);
    range_reads_contents(fs, s0, top_root(fs), lo, hi);
    range_reads_contents(fs, state_of(t), t.root, lo, hi);
    let old = range_items(fs, Map::empty(), fs.sb.root, lo, hi)->Ok_0;
    let new = range_items(fs, t.blocks, t.root.0, lo, hi)->Ok_0;
    assert(listed_once(n)) by {
        assert forall|k: Key| #[trigger]
            n.contains_key(k) && k.objectid == FS_TREE_OBJECTID && k.item_type
                == ROOT_ITEM_KEY implies k == files_item() by {
            if k != files_item() {
                assert(m.contains_key(k));
            }
        }
    }
    listed_root(old, m);
    listed_root(new, n);
    let bare = FsV { fs_tree: no_root(), ..fs };
    assert(root_of(bare, FS_TREE_OBJECTID) == Ok::<TreeRoot, Fault>(fs.fs_tree));
    assert forall|a: u64| #[trigger]
        in_tree(fs, Map::empty(), fs.sb.root, fs.sb.root_level, a) implies node_at(
        bare,
        Map::empty(),
        a,
    ) == node_at(fs, Map::empty(), a) by {
        nodes_without_default(fs, bare, Map::empty(), a);
    }
    range_agrees(
        fs,
        Map::empty(),
        bare,
        Map::empty(),
        fs.sb.root,
        fs.sb.root_level,
        0,
        keys_end(),
        lo,
        hi,
        MAX_DEPTH,
    );
    assert(parse_root(FS_TREE_OBJECTID, m[files_item()]) == Ok::<TreeRoot, Fault>(fs.fs_tree));
    repointed_reads_back(
        FS_TREE_OBJECTID,
        m[files_item()],
        t.generation,
        t.fs_tree.bytenr,
        t.fs_tree.level,
    );
}

/// Once a transaction that moved the files is committed, the device mounts as
/// the committed volume: the superblock found is the new one, the chunks are
/// the same, and the root tree leads to the new tree of the files.
///
/// The volume was in step with its device, the transaction's trees are in order,
/// and no device write of the commit damages another or the chunk tree.
pub proof fn committed_mounts_again(fs: FsV, len: Option<u64>, space: Seq<BgV>, t: TxnV)
    requires
        in_step(fs),
        len matches Some(n) ==> n == fs.disk.len(),
        committed(fs, len, t) is Ok,
        clear_cut(commit_script(fs, len, t, template_of(fs)->Ok_0)),
        chunks_stay(fs, len, t),
        t.blocks.dom().finite(),
        root_follows(
            fs,
            contents(fs, fresh_state(space), top_root(fs)),
            contents(fs, state_of(t), t.root),
            t,
        ),
        t.fs_tree.bytenr != fs.fs_tree.bytenr,
        moves_files(fs, t),
        listed_once(contents(fs, fresh_state(space), top_root(fs))),
        sound(fs, Map::empty(), fs.sb.root, fs.sb.root_level, 0, keys_end()),
        fs.sb.root_level < MAX_DEPTH,
        sound(fs, t.blocks, t.root.0, t.root.1, 0, keys_end()),
        t.root.1 < MAX_DEPTH,
        forall|a: u64| #[trigger]
            in_tree(fs, t.blocks, t.root.0, t.root.1, a) ==> kept_by(fs, len, t, a),
    ensures
        ({
            let gs = committed(fs, len, t)->Ok_0.0;
            &&& super_found(gs.disk, all_seen()) == Some(gs.sb)
            &&& mounted(gs.disk, gs.sb) == Ok::<FsV, Fault>(gs)
            &&& in_step(gs)
        }),
{
    let gs = committed(fs, len, t)->Ok_0.0;
    let s = commit_script(fs, len, t, template_of(fs)->Ok_0);
    let lo = files_item();
    let hi = Key { objectid: FS_TREE_OBJECTID, item_type: ROOT_ITEM_KEY, offset: u64::MAX };
    committed_super_is_found(fs, len, t);
    let f = first_sight(fs);
    let g = first_sight(gs);
    assert(g == (FsV { disk: played(f.disk, s).disk, sb: gs.sb, ..f }));
    assert forall|a: u64| #[trigger]
        in_tree(f, Map::empty(), fs.sb.chunk_root, fs.sb.chunk_root_level, a) implies node_at(
        g,
        Map::empty(),
        a,
    ) == node_at(f, Map::empty(), a) by {
        unwritten_node(f, s, gs.sb, a);
    }
    range_agrees(
        f,
        Map::empty(),
        g,
        Map::empty(),
        fs.sb.chunk_root,
        fs.sb.chunk_root_level,
        0,
        keys_end(),
        first_key(),
        final_key(),
        MAX_DEPTH,
    );
    assert(all_items(g, gs.sb.chunk_root) == all_items(f, fs.sb.chunk_root));
    new_root_listed(fs, space, t);
    let bare = FsV { fs_tree: no_root(), ..gs };
    assert forall|a: u64| #[trigger] in_tree(fs, t.blocks, t.root.0, t.root.1, a) implies node_at(
        bare,
        Map::empty(),
        a,
    ) == node_at(fs, t.blocks, a) by {
        block_reads_back(fs, len, t, a);
        nodes_without_default(gs, bare, Map::empty(), a);
    }
    range_agrees(
        fs,
        t.blocks,
        bare,
        Map::empty(),
        t.root.0,
        t.root.1,
        0,
        keys_end(),
        lo,
        hi,
        MAX_DEPTH,
    );
    assert(root_of(bare, FS_TREE_OBJECTID) == Ok::<TreeRoot, Fault>(t.fs_tree));
}

/// The device image `d` differs from `old` only in bytes that a step of the
/// script writes.
pub open spec fn keeps_to(old_disk: Seq<u8>, d: Seq<u8>, s: Seq<Outcome<DeviceOp>>) -> bool {
    &&& d.len() == old_disk.len()
    &&& forall|x: int|
        0 <= x < old_disk.len() && untouched_by(s, x) ==> #[trigger] d[x] == old_disk[x]
}

/// No step of a script writes the byte at `x`.
pub open spec fn untouched_by(s: Seq<Outcome<DeviceOp>>, x: int) -> bool {
    forall|i: int| 0 <= i < s.len() ==> !touches(#[trigger] s[i], x)
}

/// A node that no step of a script writes over is read as before from a device
/// that differs only where the script writes.
proof fn node_kept(f: FsV, d: Seq<u8>, s: Seq<Outcome<DeviceOp>>, a: u64)
    requires
        keeps_to(f.disk, d, s),
        unwritten(f, s, a),
    ensures
        node_at((FsV { disk: d, ..f }), Map::empty(), a) == node_at(f, Map::empty(), a),
{
    reveal(node_at);
    reveal(disk_node);
    let n = f.sb.node_size as int;
    match locate(f.chunks, a) {
        Err(_) => {},
        Ok((places, run)) => {
            let p = places[0] as int;
            assert forall|x: int| p <= x < p + n && 0 <= x < f.disk.len() implies d[x]
                == f.disk[x] by {
                assert(untouched_by(s, x));
            }
            if p + n <= f.disk.len() {
                assert(d.subrange(p, p + n) =~= f.disk.subrange(p, p + n));
            }
        },
    }
}

/// No step of a script writes over the tree at `root`, which is sound.
pub open spec fn tree_stays(f: FsV, s: Seq<Outcome<DeviceOp>>, root: (u64, u8)) -> bool {
    &&& root.1 < MAX_DEPTH
    &&& sound(f, Map::empty(), root.0, root.1, 0, keys_end())
    &&& forall|a: u64| #[trigger] in_tree(f, Map::empty(), root.0, root.1, a) ==> unwritten(f, s, a)
}

/// No step of a script writes over the first superblock copy.
pub open spec fn super_stays(s: Seq<Outcome<DeviceOp>>) -> bool {
    forall|i: int, x: int|
        0 <= i < s.len() && SUPER_OFFSET_0 <= x < SUPER_OFFSET_0 + SUPER_SIZE ==> !#[trigger] touches(
            s[i],
            x,
        )
}

/// A range of keys of a tree that stays reads the same.
proof fn range_kept(
    f: FsV,
    d: Seq<u8>,
    s: Seq<Outcome<DeviceOp>>,
    root: (u64, u8),
    lo: Key,
    hi: Key,
)
    requires
        tree_stays(f, s, root),
        keeps_to(f.disk, d, s),
    ensures
        range_items((FsV { disk: d, ..f }), Map::empty(), root.0, lo, hi) == range_items(
            f,
            Map::empty(),
            root.0,
            lo,
            hi,
        ),
{
    let g = FsV { disk: d, ..f };
    assert forall|a: u64| #[trigger] in_tree(f, Map::empty(), root.0, root.1, a) implies node_at(
        g,
        Map::empty(),
        a,
    ) == node_at(f, Map::empty(), a) by {
        node_kept(f, d, s, a);
    }
    range_agrees(
        f,
        Map::empty(),
        g,
        Map::empty(),
        root.0,
        root.1,
        0,
        keys_end(),
        lo,
        hi,
        MAX_DEPTH,
    );
}

/// A volume whose device was changed only where a script writes mounts as it did,
/// by its old superblock, where the script does not write over the first
/// superblock copy, the chunk tree and the root tree.
pub proof fn kept_mounts_as_before(fs: FsV, d: Seq<u8>, s: Seq<Outcome<DeviceOp>>)
    requires
        in_step(fs),
        keeps_to(fs.disk, d, s),
        super_stays(s),
        tree_stays(first_sight(fs), s, (fs.sb.chunk_root, fs.sb.chunk_root_level)),
        tree_stays(fs, s, (fs.sb.root, fs.sb.root_level)),
    ensures
        super_at(d, SUPER_OFFSET_0, true) == Some(fs.sb),
        mounted(d, fs.sb) == Ok::<FsV, Fault>(FsV { disk: d, ..fs }),
{
    let at = SUPER_OFFSET_0 as int;
    let n = SUPER_SIZE as int;
    assert forall|x: int| at <= x < at + n implies d[x] == fs.disk[x] by {
        assert(untouched_by(s, x));
    }
    assert(d.subrange(at, at + n) =~= fs.disk.subrange(at, at + n));
    let f = first_sight(fs);
    range_kept(
        f,
        d,
        s,
        (fs.sb.chunk_root, fs.sb.chunk_root_level),
        first_key(),
        final_key(),
    );
    let g = FsV { disk: d, ..f };
    assert(all_items(g, fs.sb.chunk_root) == all_items(f, fs.sb.chunk_root));
    let bare = FsV { fs_tree: no_root(), ..fs };
    let hi = Key { objectid: FS_TREE_OBJECTID, item_type: ROOT_ITEM_KEY, offset: u64::MAX };
    default_does_not_matter(fs, bare, (fs.sb.root, fs.sb.root_level), files_item(), hi);
    let later = FsV { disk: d, ..fs };
    let bare_later = FsV { fs_tree: no_root(), ..later };
    range_kept(fs, d, s, (fs.sb.root, fs.sb.root_level), files_item(), hi);
    later_default_does_not_matter(fs, later, bare_later, s, files_item(), hi);
    assert(root_of(bare_later, FS_TREE_OBJECTID) == root_of(bare, FS_TREE_OBJECTID));
}

/// A range of keys does not depend on which subvolume is the default one.
proof fn default_does_not_matter(fs: FsV, gs: FsV, root: (u64, u8), lo: Key, hi: Key)
    requires
        gs == (FsV { fs_tree: gs.fs_tree, ..fs }),
        root.1 < MAX_DEPTH,
        sound(fs, Map::empty(), root.0, root.1, 0, keys_end()),
    ensures
        range_items(gs, Map::empty(), root.0, lo, hi) == range_items(
            fs,
            Map::empty(),
            root.0,
            lo,
            hi,
        ),
{
    assert forall|a: u64| #[trigger] in_tree(fs, Map::empty(), root.0, root.1, a) implies node_at(
        gs,
        Map::empty(),
        a,
    ) == node_at(fs, Map::empty(), a) by {
        nodes_without_default(fs, gs, Map::empty(), a);
    }
    range_agrees(
        fs,
        Map::empty(),
        gs,
        Map::empty(),
        root.0,
        root.1,
        0,
        keys_end(),
        lo,
        hi,
        MAX_DEPTH,
    );
}

/// The same of a device that was changed only where a script writes.
proof fn later_default_does_not_matter(
    fs: FsV,
    later: FsV,
    bare: FsV,
    s: Seq<Outcome<DeviceOp>>,
    lo: Key,
    hi: Key,
)
    requires
        keeps_to(fs.disk, later.disk, s),
        later == (FsV { disk: later.disk, ..fs }),
        bare == (FsV { fs_tree: bare.fs_tree, ..later }),
        tree_stays(fs, s, (fs.sb.root, fs.sb.root_level)),
    ensures
        range_items(bare, Map::empty(), fs.sb.root, lo, hi) == range_items(
            later,
            Map::empty(),
            fs.sb.root,
            lo,
            hi,
        ),
{
    let (b, l) = (fs.sb.root, fs.sb.root_level);
    assert forall|a: u64| #[trigger] in_tree(fs, Map::empty(), b, l, a) implies node_at(
        bare,
        Map::empty(),
        a,
    ) == node_at(fs, Map::empty(), a) && node_at(later, Map::empty(), a) == node_at(
        fs,
        Map::empty(),
        a,
    ) by {
        node_kept(fs, later.disk, s, a);
        nodes_without_default(later, bare, Map::empty(), a);
    }
    range_agrees(fs, Map::empty(), bare, Map::empty(), b, l, 0, keys_end(), lo, hi, MAX_DEPTH);
    range_agrees(fs, Map::empty(), later, Map::empty(), b, l, 0, keys_end(), lo, hi, MAX_DEPTH);
}

/// A search in a tree that a script does not write over finds what it found, on
/// a device that was changed only where the script writes.
pub proof fn kept_finds_as_before(
    fs: FsV,
    d: Seq<u8>,
    s: Seq<Outcome<DeviceOp>>,
    root: (u64, u8),
    key: Key,
)
    requires
        keeps_to(fs.disk, d, s),
        tree_stays(fs, s, root),
    ensures
        disk_item((FsV { disk: d, ..fs }), root.0, key) == disk_item(fs, root.0, key),
{
    let g = FsV { disk: d, ..fs };
    let (r, l) = root;
    assert forall|a: u64| #[trigger] in_tree(fs, Map::empty(), r, l, a) implies node_at(
        g,
        Map::empty(),
        a,
    ) == node_at(fs, Map::empty(), a) by {
        node_kept(fs, d, s, a);
    }
    search_agrees(fs, Map::empty(), g, Map::empty(), r, l, 0, keys_end(), key, MAX_DEPTH);
}

/// A commit that fails before a superblock copy is reached changes the device
/// only where its data and its blocks go. It has not reached one while fewer
/// steps are done than come before the superblock copies.
pub proof fn failed_commit_keeps_to(v: VolV, w: VolV, e: Fault, t: TxnV)
    requires
        commits(v, w, Err(e), t),
        w.history.len() < v.history.len() + body_script(v.fs.chunks, t).len(),
    ensures
        keeps_to(v.fs.disk, w.fs.disk, body_script(v.fs.chunks, t)),
        w.fs == (FsV { disk: w.fs.disk, ..v.fs }),
{
    let b = body_script(v.fs.chunks, t);
    if template_of(v.fs) is Ok && !(w == v) {
        let s = commit_script(v.fs, v.len, t, template_of(v.fs)->Ok_0);
        let k = choose|k: int| breaks_off(v, w, e, s, k);
        let p = played(v.fs.disk, s.take(k));
        done_len(v.fs.disk, s.take(k));
        assert(w.history.len() == v.history.len() + k);
        assert(s.take(k) =~= b.take(k));
        assert(s[k] == b[k]);
        assert forall|x: int|
            0 <= x < v.fs.disk.len() && untouched_by(b, x) implies #[trigger] w.fs.disk[x]
            == v.fs.disk[x] by {
            assert(!touches(b[k], x));
            assert forall|i: int| 0 <= i < k implies !touches(#[trigger] s.take(k)[i], x) by {
                assert(s.take(k)[i] == b[i]);
                assert(!touches(b[i], x));
            }
            untouched(v.fs.disk, s.take(k), x);
            assert(w.fs.disk[x] == p.disk[x]);
        }
    }
}

/// Where nothing failed, every step was done.
proof fn done_len(disk: Seq<u8>, s: Seq<Outcome<DeviceOp>>)
    requires
        played(disk, s).fault is None,
    ensures
        played(disk, s).done.len() == s.len(),
    decreases s.len(),
{
    if s.len() > 0 {
        done_len(disk, s.drop_last());
    }
}

/// A commit that fails before its first superblock write leaves the volume as it
/// was: the device has its old superblock and mounts as before. The step it
/// failed at may be done in part.
///
/// The data and the blocks that the commit writes lie outside the first
/// superblock copy, the chunk tree and the old root tree.
pub proof fn failed_commit_mounts_as_before(v: VolV, w: VolV, e: Fault, t: TxnV)
    requires
        commits(v, w, Err(e), t),
        w.history.len() < v.history.len() + body_script(v.fs.chunks, t).len(),
        in_step(v.fs),
        super_stays(body_script(v.fs.chunks, t)),
        tree_stays(
            first_sight(v.fs),
            body_script(v.fs.chunks, t),
            (v.fs.sb.chunk_root, v.fs.sb.chunk_root_level),
        ),
        tree_stays(v.fs, body_script(v.fs.chunks, t), (v.fs.sb.root, v.fs.sb.root_level)),
    ensures
        super_at(w.fs.disk, SUPER_OFFSET_0, true) == Some(v.fs.sb),
        mounted(w.fs.disk, v.fs.sb) == Ok::<FsV, Fault>(w.fs),
        in_step(w.fs),
{
    failed_commit_keeps_to(v, w, e, t);
    kept_mounts_as_before(v.fs, w.fs.disk, body_script(v.fs.chunks, t));
}

/// A commit that fails before its first superblock write leaves what a search
/// finds in the tree of the files as it was.
pub proof fn failed_commit_finds_as_before(v: VolV, w: VolV, e: Fault, t: TxnV, key: Key)
    requires
        commits(v, w, Err(e), t),
        w.history.len() < v.history.len() + body_script(v.fs.chunks, t).len(),
        tree_stays(
            v.fs,
            body_script(v.fs.chunks, t),
            (v.fs.fs_tree.bytenr, v.fs.fs_tree.level),
        ),
    ensures
        disk_item(w.fs, w.fs.fs_tree.bytenr, key) == disk_item(
            v.fs,
            v.fs.fs_tree.bytenr,
            key,
        ),
{
    failed_commit_keeps_to(v, w, e, t);
    kept_finds_as_before(
        v.fs,
        w.fs.disk,
        body_script(v.fs.chunks, t),
        (v.fs.fs_tree.bytenr, v.fs.fs_tree.level),
        key,
    );
}

/// Where the superblock to build on is refused, a commit does nothing to the
/// device and leaves the volume as it was.
pub proof fn refused_commit_writes_nothing(v: VolV, w: VolV, r: Outcome<()>, t: TxnV)
    requires
        template_of(v.fs) is Err,
        commits(v, w, r, t),
    ensures
        r is Err,
        w == v,
{
}

} // verus!
