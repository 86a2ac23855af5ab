//! Builders of item payloads.

use vstd::prelude::*;

use crate::bytes::{
    append_bytes, append_u16, append_u32, append_u64, append_zeros, copy_range, enc16, enc32,
    enc64, put_bytes, zero_vec, zeros,
};
use crate::error::{Fault, LuksError, Outcome, Result};
use crate::text::{bytes_of, utf8};
use crate::fs::btrfs::tree::{
    csum_field, csum_field_len, CsumType, HEADER_SIZE, INODE_ITEM_KEY, ITEM_SIZE,
};

verus! {

broadcast use crate::bytes::group_enc_len;

/// A timestamp on disk.
pub open spec fn time_bytes(sec: u64, nsec: u32) -> Seq<u8> {
    enc64(sec) + enc32(nsec)
}

/// The payload of an `INODE_ITEM`.
pub open spec fn inode_item_bytes(
    generation: u64,
    size: u64,
    nbytes: u64,
    mode: u32,
    uid: u32,
    gid: u32,
    nlink: u32,
    sec: u64,
    nsec: u32,
) -> Seq<u8> {
    enc64(generation) + enc64(generation) + enc64(size) + enc64(nbytes) + enc64(0) + enc32(nlink)
        + enc32(uid) + enc32(gid) + enc32(mode) + enc64(0) + enc64(0) + enc64(1) + zeros(32)
        + time_bytes(sec, nsec) + time_bytes(sec, nsec) + time_bytes(sec, nsec) + time_bytes(
        sec,
        nsec,
    )
}

fn append_time(v: &mut Vec<u8>, sec: u64, nsec: u32)
    ensures
        final(v)@ == old(v)@ + time_bytes(sec, nsec),
{
    append_u64(v, sec);
    append_u32(v, nsec);
    assert(v@ =~= old(v)@ + time_bytes(sec, nsec));
}

/// Build a 160-byte inode item with the given size and byte count.
pub fn build_inode_item(
    generation: u64,
    size: u64,
    nbytes: u64,
    mode: u32,
    uid: u32,
    gid: u32,
    nlink: u32,
    sec: u64,
    nsec: u32,
) -> (r: Vec<u8>)
    ensures
        r@ == inode_item_bytes(generation, size, nbytes, mode, uid, gid, nlink, sec, nsec),
        r@.len() == 160,
{
    let mut v: Vec<u8> = Vec::new();
    append_u64(&mut v, generation);
    append_u64(&mut v, generation);
    append_u64(&mut v, size);
    append_u64(&mut v, nbytes);
    append_u64(&mut v, 0);
    append_u32(&mut v, nlink);
    append_u32(&mut v, uid);
    append_u32(&mut v, gid);
    append_u32(&mut v, mode);
    append_u64(&mut v, 0);
    append_u64(&mut v, 0);
    append_u64(&mut v, 1);
    append_zeros(&mut v, 32);
    append_time(&mut v, sec, nsec);
    append_time(&mut v, sec, nsec);
    append_time(&mut v, sec, nsec);
    append_time(&mut v, sec, nsec);
    assert(v@ =~= inode_item_bytes(generation, size, nbytes, mode, uid, gid, nlink, sec, nsec));
    v
}

/// Build a 160-byte inode item for a new empty file.
pub fn build_empty_inode_item(
    generation: u64,
    mode: u32,
    uid: u32,
    gid: u32,
    nlink: u32,
    sec: u64,
    nsec: u32,
) -> (r: Vec<u8>)
    ensures
        r@ == inode_item_bytes(generation, 0, 0, mode, uid, gid, nlink, sec, nsec),
        r@.len() == 160,
{
    build_inode_item(generation, 0, 0, mode, uid, gid, nlink, sec, nsec)
}

/// The payload of an `INODE_REF`.
pub open spec fn inode_ref_bytes(dir_index: u64, name: Seq<u8>) -> Seq<u8> {
    enc64(dir_index) + enc16(name.len() as u16) + name
}

/// Build an inode reference: index, name length, name.
pub fn build_inode_ref(dir_index: u64, name: &str) -> (r: Vec<u8>)
    ensures
        r@ == inode_ref_bytes(dir_index, utf8(name@)),
{
    let bytes = bytes_of(name);
    let mut v: Vec<u8> = Vec::new();
    append_u64(&mut v, dir_index);
    append_u16(&mut v, bytes.len() as u16);
    append_bytes(&mut v, bytes);
    assert(v@ =~= inode_ref_bytes(dir_index, utf8(name@)));
    v
}

/// A directory entry on disk.
pub open spec fn dir_item_bytes(child_ino: u64, transid: u64, file_type: u8, name: Seq<u8>) -> Seq<
    u8,
> {
    enc64(child_ino) + seq![INODE_ITEM_KEY] + enc64(0) + enc64(transid) + enc16(0) + enc16(
        name.len() as u16,
    ) + seq![file_type] + name
}

/// Build a directory entry: location, transid, lengths, type, name.
pub fn build_dir_item(child_ino: u64, transid: u64, file_type: u8, name: &str) -> (r: Vec<u8>)
    ensures
        r@ == dir_item_bytes(child_ino, transid, file_type, utf8(name@)),
{
    let bytes = bytes_of(name);
    let mut v: Vec<u8> = Vec::new();
    append_u64(&mut v, child_ino);
    v.push(INODE_ITEM_KEY);
    append_u64(&mut v, 0);
    append_u64(&mut v, transid);
    append_u16(&mut v, 0);
    append_u16(&mut v, bytes.len() as u16);
    v.push(file_type);
    append_bytes(&mut v, bytes);
    assert(v@ =~= dir_item_bytes(child_ino, transid, file_type, utf8(name@)));
    v
}

/// The payload of an `EXTENT_DATA` item for a regular uncompressed extent.
pub open spec fn file_extent_bytes(
    generation: u64,
    ram_bytes: u64,
    disk_bytenr: u64,
    disk_num_bytes: u64,
    num_bytes: u64,
) -> Seq<u8> {
    enc64(generation) + enc64(ram_bytes) + zeros(4) + seq![1u8] + enc64(disk_bytenr) + enc64(
        disk_num_bytes,
    ) + enc64(0) + enc64(num_bytes)
}

/// Build a 53-byte file extent item for a regular uncompressed data extent.
pub fn build_regular_file_extent(
    generation: u64,
    ram_bytes: u64,
    disk_bytenr: u64,
    disk_num_bytes: u64,
    num_bytes: u64,
) -> (r: Vec<u8>)
    ensures
        r@ == file_extent_bytes(generation, ram_bytes, disk_bytenr, disk_num_bytes, num_bytes),
        r@.len() == 53,
{
    let mut v: Vec<u8> = Vec::new();
    append_u64(&mut v, generation);
    append_u64(&mut v, ram_bytes);
    append_zeros(&mut v, 4);
    v.push(1);
    append_u64(&mut v, disk_bytenr);
    append_u64(&mut v, disk_num_bytes);
    append_u64(&mut v, 0);
    append_u64(&mut v, num_bytes);
    assert(v@ =~= file_extent_bytes(
        generation,
        ram_bytes,
        disk_bytenr,
        disk_num_bytes,
        num_bytes,
    ));
    v
}

/// Bytes left unused in a leaf that holds one largest checksum item.
pub const CSUM_ITEM_LEAF_HEADROOM: usize = 30;

/// The size of the largest checksum item.
pub open spec fn csum_item_limit(node_size: u32, csum_size: int) -> int {
    let usable = if node_size >= 156 {
        node_size - 156
    } else {
        0
    };
    if csum_size == 0 {
        0
    } else {
        usable / csum_size * csum_size
    }
}

/// The largest checksum item this geometry allows, rounded down to a whole
/// number of checksums; 0 if the node holds none.
pub fn max_csum_item_bytes(node_size: u32, csum_size: usize) -> (r: usize)
    ensures
        r == csum_item_limit(node_size, csum_size as int),
{
    let usable: usize = (node_size as usize).saturating_sub(HEADER_SIZE).saturating_sub(
        ITEM_SIZE,
    ).saturating_sub(CSUM_ITEM_LEAF_HEADROOM);
    if csum_size == 0 {
        return 0;
    }
    proof {
        vstd::arithmetic::div_mod::lemma_fundamental_div_mod(usable as int, csum_size as int);
        vstd::arithmetic::mul::lemma_mul_is_commutative(
            usable as int / csum_size as int,
            csum_size as int,
        );
        vstd::arithmetic::div_mod::lemma_mod_bound(usable as int, csum_size as int);
    }
    (usable / csum_size) * csum_size
}

/// Quotient rounded up.
pub open spec fn ceil_div(a: int, b: int) -> int {
    if a % b == 0 {
        a / b
    } else {
        a / b + 1
    }
}

/// Sector `i` of `data`, zero-padded.
pub open spec fn sector_of(data: Seq<u8>, i: int, sector: int) -> Seq<u8> {
    Seq::new(
        sector as nat,
        |j: int|
            if i * sector + j < data.len() {
                data[i * sector + j]
            } else {
                0u8
            },
    )
}

/// The stored checksum of one sector.
pub open spec fn sector_csum(t: CsumType, sector: Seq<u8>) -> Seq<u8> {
    csum_field(t, sector).take(t.width() as int)
}

/// The checksums of sectors `a` up to `b`.
pub open spec fn csum_run(t: CsumType, data: Seq<u8>, sector: int, a: int, b: int) -> Seq<u8>
    decreases b - a,
{
    if b <= a {
        Seq::empty()
    } else {
        csum_run(t, data, sector, a, b - 1) + sector_csum(t, sector_of(data, b - 1, sector))
    }
}

/// A run holds one checksum per sector.
pub proof fn csum_run_len(t: CsumType, data: Seq<u8>, sector: int, a: int, b: int)
    requires
        a <= b,
    ensures
        csum_run(t, data, sector, a, b).len() == t.width() * (b - a),
    decreases b - a,
{
    if a < b {
        csum_run_len(t, data, sector, a, b - 1);
        csum_field_len(t, sector_of(data, b - 1, sector));
        let w = t.width() as int;
        assert(w * (b - a) == w * (b - 1 - a) + w) by (nonlinear_arith);
    } else {
        assert(t.width() * 0 == 0);
    }
}

proof fn sector_start_bound(i: int, nr: int, total: int, sector: int)
    requires
        0 <= i < nr,
        sector > 0,
        total >= 0,
        nr == ceil_div(total, sector),
    ensures
        0 <= i * sector < total,
{
    vstd::arithmetic::div_mod::lemma_fundamental_div_mod(total, sector);
    vstd::arithmetic::div_mod::lemma_mod_bound(total, sector);
    let q = total / sector;
    assert(i * sector < total) by (nonlinear_arith)
        requires
            sector > 0,
            total == sector * q + total % sector,
            0 <= total % sector,
            i < q || (i == q && total % sector > 0),
    ;
    assert(0 <= i * sector) by (nonlinear_arith)
        requires
            0 <= i,
            sector > 0,
    ;
}

/// Append the checksum of the sector that starts at byte `start` of `data`.
fn append_sector_csum(
    v: &mut Vec<u8>,
    t: CsumType,
    data: &[u8],
    index: u64,
    start: u64,
    sector: usize,
)
    requires
        start == index * sector,
    ensures
        final(v)@ == old(v)@ + sector_csum(t, sector_of(data@, index as int, sector as int)),
{
    let mut buf: Vec<u8> = zero_vec(sector);
    let n: usize = data.len();
    if start < n as u64 {
        let s: usize = start as usize;
        let end: usize = if n - s > sector {
            s + sector
        } else {
            n
        };
        let part = copy_range(data, s, end);
        put_bytes(&mut buf, 0, part.as_slice());
    }
    assert(buf@ =~= sector_of(data@, index as int, sector as int));
    let csum = t.calculate(buf.as_slice());
    proof {
        csum_field_len(t, buf@);
    }
    let short = copy_range(csum.as_slice(), 0, t.size());
    assert(short@ =~= sector_csum(t, buf@));
    append_bytes(v, short.as_slice());
}

/// Append the checksums of `count` sectors from sector `first` on.
fn append_csum_run(
    v: &mut Vec<u8>,
    t: CsumType,
    data: &[u8],
    sector_size: u32,
    total: u64,
    first: u64,
    count: u64,
)
    requires
        sector_size > 0,
        first + count <= ceil_div(total as int, sector_size as int),
    ensures
        final(v)@ == old(v)@ + csum_run(
            t,
            data@,
            sector_size as int,
            first as int,
            first + count,
        ),
{
    let mut i: u64 = 0;
    assert(v@ =~= old(v)@ + csum_run(t, data@, sector_size as int, first as int, first as int));
    while i < count
        invariant
            i <= count,
            sector_size > 0,
            first + count <= ceil_div(total as int, sector_size as int),
            v@ == old(v)@ + csum_run(t, data@, sector_size as int, first as int, first + i),
        decreases count - i,
    {
        let index: u64 = first + i;
        proof {
            sector_start_bound(
                index as int,
                ceil_div(total as int, sector_size as int),
                total as int,
                sector_size as int,
            );
        }
        let start: u64 = index * (sector_size as u64);
        append_sector_csum(v, t, data, index, start, sector_size as usize);
        i += 1;
        assert(v@ =~= old(v)@ + csum_run(t, data@, sector_size as int, first as int, first + i));
    }
}

/// How many sectors hold `total` bytes.
pub fn sector_count(total: u64, sector_size: u32) -> (r: u64)
    requires
        sector_size > 0,
    ensures
        r == ceil_div(total as int, sector_size as int),
        r <= total,
{
    let s: u64 = sector_size as u64;
    proof {
        vstd::arithmetic::div_mod::lemma_fundamental_div_mod(total as int, s as int);
        vstd::arithmetic::div_mod::lemma_mod_bound(total as int, s as int);
        let q = total as int / s as int;
        assert(q + (if total as int % s as int == 0 { 0int } else { 1int }) <= total)
            by (nonlinear_arith)
            requires
                s >= 1,
                q >= 0,
                total == s * q + total as int % s as int,
                0 <= total as int % s as int,
        ;
    }
    if total % s == 0 {
        total / s
    } else {
        total / s + 1
    }
}

/// Build the checksums of one contiguous run of `disk_num_bytes`.
pub fn build_extent_csum_payload(
    csum_type: CsumType,
    sector_size: u32,
    disk_num_bytes: u64,
    data: &[u8],
) -> (r: Vec<u8>)
    requires
        sector_size > 0,
    ensures
        r@ == csum_run(
            csum_type,
            data@,
            sector_size as int,
            0,
            ceil_div(disk_num_bytes as int, sector_size as int),
        ),
{
    let nr: u64 = sector_count(disk_num_bytes, sector_size);
    let mut v: Vec<u8> = Vec::new();
    append_csum_run(&mut v, csum_type, data, sector_size, disk_num_bytes, 0, nr);
    assert(v@ =~= csum_run(csum_type, data@, sector_size as int, 0, nr as int));
    v
}

/// The views of addressed payloads.
pub open spec fn pairs_of(s: Seq<(u64, Vec<u8>)>) -> Seq<(u64, Seq<u8>)> {
    s.map_values(|p: (u64, Vec<u8>)| (p.0, p.1@))
}

/// Checksum item `k` of an extent at `base` of `nr` sectors, with `per_item`
/// checksums to an item.
pub open spec fn csum_tile(
    t: CsumType,
    data: Seq<u8>,
    sector: int,
    base: int,
    per_item: int,
    nr: int,
    k: int,
) -> (u64, Seq<u8>) {
    (
        (base + (k * per_item) * sector) as u64,
        csum_run(
            t,
            data,
            sector,
            k * per_item,
            if (k + 1) * per_item < nr {
                (k + 1) * per_item
            } else {
                nr
            },
        ),
    )
}

/// The checksum items that tile an extent end to end.
pub open spec fn csum_tiles(
    t: CsumType,
    node_size: u32,
    sector_size: u32,
    disk_bytenr: u64,
    disk_num_bytes: u64,
    data: Seq<u8>,
) -> Outcome<Seq<(u64, Seq<u8>)>> {
    let per_item = csum_item_limit(node_size, t.width() as int) / t.width() as int;
    let nr = ceil_div(disk_num_bytes as int, sector_size as int);
    if per_item == 0 {
        Err(
            Fault::BtrfsItemTooLarge {
                what: "checksum item"@,
                item_bytes: t.width(),
                node_size: node_size as nat,
            },
        )
    } else {
        Ok(
            Seq::new(
                ceil_div(nr, per_item) as nat,
                |k: int|
                    csum_tile(t, data, sector_size as int, disk_bytenr as int, per_item, nr, k),
            ),
        )
    }
}

/// Split an extent's per-sector checksums into as many items as the node
/// geometry needs, as `(logical address, payload)` pairs.
///
/// Data shorter than `disk_num_bytes` counts as zero-padded.
pub fn build_extent_csum_items(
    csum_type: CsumType,
    node_size: u32,
    sector_size: u32,
    disk_bytenr: u64,
    disk_num_bytes: u64,
    data: &[u8],
) -> (r: Result<Vec<(u64, Vec<u8>)>>)
    requires
        sector_size > 0,
        disk_bytenr + disk_num_bytes <= u64::MAX,
    ensures
        match r {
            Ok(v) => csum_tiles(
                csum_type,
                node_size,
                sector_size,
                disk_bytenr,
                disk_num_bytes,
                data@,
            ) == Ok::<Seq<(u64, Seq<u8>)>, Fault>(pairs_of(v@)),
            Err(e) => csum_tiles(
                csum_type,
                node_size,
                sector_size,
                disk_bytenr,
                disk_num_bytes,
                data@,
            ) == Err::<Seq<(u64, Seq<u8>)>, Fault>(e@),
        },
{
    let csum_size: usize = csum_type.size();
    let per_item: u64 = (max_csum_item_bytes(node_size, csum_size) / csum_size) as u64;
    if per_item == 0 {
        return Err(
            LuksError::BtrfsItemTooLarge {
                what: "checksum item",
                item_bytes: csum_size,
                node_size,
            },
        );
    }
    let nr: u64 = sector_count(disk_num_bytes, sector_size);
    let ghost s = sector_size as int;
    let ghost tile = |k: int|
        csum_tile(csum_type, data@, s, disk_bytenr as int, per_item as int, nr as int, k);
    let mut items: Vec<(u64, Vec<u8>)> = Vec::new();
    let mut first: u64 = 0;
    let ghost mut k: int = 0;
    assert(pairs_of(items@) =~= Seq::new(0, tile));
    while first < nr
        invariant
            0 <= k,
            sector_size > 0,
            per_item > 0,
            s == sector_size,
            nr == ceil_div(disk_num_bytes as int, s),
            disk_bytenr + disk_num_bytes <= u64::MAX,
            first <= nr,
            first == (if k * per_item < nr { k * per_item } else { nr as int }),
            k > 0 ==> (k - 1) * per_item < nr,
            tile == (|k: int|
                csum_tile(csum_type, data@, s, disk_bytenr as int, per_item as int, nr as int, k)),
            pairs_of(items@) == Seq::new(k as nat, tile),
        decreases nr - first,
    {
        let left: u64 = nr - first;
        let count: u64 = if per_item < left {
            per_item
        } else {
            left
        };
        proof {
            sector_start_bound(first as int, nr as int, disk_num_bytes as int, s);
            assert((k + 1) * per_item == k * per_item + per_item) by (nonlinear_arith);
        }
        let mut payload: Vec<u8> = Vec::new();
        append_csum_run(&mut payload, csum_type, data, sector_size, disk_num_bytes, first, count);
        let at: u64 = disk_bytenr + first * (sector_size as u64);
        let ghost before = items@;
        assert(payload@ =~= csum_run(csum_type, data@, s, first as int, first + count));
        items.push((at, payload));
        first = first + count;
        proof {
            assert(pairs_of(items@) =~= pairs_of(before).push((at, payload@)));
            assert((at, payload@) == tile(k));
            k = k + 1;
            assert(pairs_of(items@) =~= Seq::new(k as nat, tile));
        }
    }
    proof {
        let p = per_item as int;
        vstd::arithmetic::div_mod::lemma_fundamental_div_mod(nr as int, p);
        vstd::arithmetic::div_mod::lemma_mod_bound(nr as int, p);
        let q = nr as int / p;
        assert(k == ceil_div(nr as int, p)) by (nonlinear_arith)
            requires
                p > 0,
                k >= 0,
                nr == p * q + nr as int % p,
                0 <= nr as int % p < p,
                q == nr as int / p,
                k * p >= nr,
                k > 0 ==> (k - 1) * p < nr,
                k == 0 ==> nr == 0,
        ;
        assert(pairs_of(items@) =~= Seq::new(ceil_div(nr as int, p) as nat, tile));
    }
    Ok(items)
}

/// Checksum items while they are being packed.
pub struct Packing {
    /// The finished items.
    pub done: Seq<(u64, Seq<u8>)>,
    /// Where the open item starts.
    pub start: u64,
    /// The payload of the open item.
    pub body: Seq<u8>,
    /// The sector address that would continue the open item.
    pub next: u64,
}

/// Pack `(sector address, checksum)` pairs into items of at most `per_item`
/// checksums, breaking where addresses do not continue.
pub open spec fn pack_sums(sums: Seq<(u64, u32)>, per_item: int) -> Packing
    decreases sums.len(),
{
    if sums.len() == 0 {
        Packing { done: Seq::empty(), start: 0, body: Seq::empty(), next: 0 }
    } else {
        let p = pack_sums(sums.drop_last(), per_item);
        let (at, crc) = sums.last();
        let next = at.saturating_add(4096);
        if p.body.len() == 0 {
            Packing { done: p.done, start: at, body: enc32(crc), next }
        } else if at == p.next && p.body.len() < 4 * per_item {
            Packing { done: p.done, start: p.start, body: p.body + enc32(crc), next }
        } else {
            Packing { done: p.done.push((p.start, p.body)), start: at, body: enc32(crc), next }
        }
    }
}

/// The items packed from `sums`.
pub open spec fn packed_items(node_size: u32, sums: Seq<(u64, u32)>) -> Outcome<
    Seq<(u64, Seq<u8>)>,
> {
    let limit = csum_item_limit(node_size, 4);
    if sums.len() == 0 {
        Ok(Seq::empty())
    } else if limit == 0 {
        Err(
            Fault::BtrfsItemTooLarge {
                what: "checksum item"@,
                item_bytes: 4,
                node_size: node_size as nat,
            },
        )
    } else {
        let p = pack_sums(sums, limit / 4);
        Ok(p.done.push((p.start, p.body)))
    }
}

/// Split pre-calculated per-sector checksums into items.
///
/// An item ends when it is full or when the next sector address does not
/// continue it.
pub fn build_extent_csum_items_from_checksums(node_size: u32, checksums: &[(u64, u32)]) -> (r:
    Result<Vec<(u64, Vec<u8>)>>)
    ensures
        match r {
            Ok(v) => packed_items(node_size, checksums@) == Ok::<Seq<(u64, Seq<u8>)>, Fault>(
                pairs_of(v@),
            ),
            Err(e) => packed_items(node_size, checksums@) == Err::<Seq<(u64, Seq<u8>)>, Fault>(e@),
        },
{
    if checksums.len() == 0 {
        let r: Vec<(u64, Vec<u8>)> = Vec::new();
        assert(pairs_of(r@) =~= Seq::<(u64, Seq<u8>)>::empty());
        return Ok(r);
    }
    let limit: usize = max_csum_item_bytes(node_size, 4);
    if limit == 0 {
        return Err(
            LuksError::BtrfsItemTooLarge { what: "checksum item", item_bytes: 4, node_size },
        );
    }
    let per_item: usize = limit / 4;
    let mut items: Vec<(u64, Vec<u8>)> = Vec::new();
    let mut start: u64 = 0;
    let mut payload: Vec<u8> = Vec::new();
    let mut next: u64 = 0;
    let mut i: usize = 0;
    assert(checksums@.take(0) =~= Seq::<(u64, u32)>::empty());
    assert(pairs_of(items@) =~= Seq::<(u64, Seq<u8>)>::empty());
    while i < checksums.len()
        invariant
            i <= checksums@.len(),
            per_item <= limit / 4,
            limit <= node_size,
            ({
                let p = pack_sums(checksums@.take(i as int), per_item as int);
                &&& pairs_of(items@) == p.done
                &&& start == p.start
                &&& payload@ == p.body
                &&& next == p.next
                &&& i > 0 ==> p.body.len() > 0
            }),
        decreases checksums@.len() - i,
    {
        let (at, crc) = checksums[i];
        proof {
            assert(checksums@.take(i + 1).drop_last() =~= checksums@.take(i as int));
            assert(checksums@.take(i + 1).last() == checksums@[i as int]);
        }
        let ghost p = pack_sums(checksums@.take(i as int), per_item as int);
        let open: bool = payload.len() > 0;
        if open && (at != next || payload.len() >= 4 * per_item) {
            let ghost before = items@;
            let ghost full = payload@;
            items.push((start, payload));
            payload = Vec::new();
            start = at;
            assert(pairs_of(items@) =~= pairs_of(before).push((p.start, full)));
        } else if !open {
            start = at;
        }
        let ghost held = payload@;
        append_u32(&mut payload, crc);
        next = at.saturating_add(4096);
        i += 1;
        assert(payload@ =~= if held.len() == 0 { enc32(crc) } else { held + enc32(crc) });
    }
    assert(checksums@.take(checksums@.len() as int) =~= checksums@);
    let ghost before = items@;
    let ghost full = payload@;
    items.push((start, payload));
    assert(pairs_of(items@) =~= pairs_of(before).push((start, full)));
    Ok(items)
}

} // verus!
