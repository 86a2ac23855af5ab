//! The checksums that are kept of data: one for each sector, under the sector's
//! address.

use vstd::prelude::*;

use crate::bytes::{enc32, group_enc_len};
use crate::fs::btrfs::crc32c::crc_of;
use crate::fs::btrfs::sha256::{sha256_len, sha256_of};
use crate::fs::btrfs::tree::{csum_field, csum_field_len, CsumType};
use crate::fs::btrfs::write::payload::{
    csum_item_limit, csum_run, csum_run_len, pack_sums, packed_items, sector_of,
};

verus! {

/// Bytes `n` and on of `data`, `sector` of them, with zeros behind its end.
pub open spec fn sector_at(s: Seq<u8>, data: Seq<u8>, n: int, sector: int) -> bool {
    &&& s.len() == sector
    &&& forall|j: int|
        0 <= j < sector ==> #[trigger] s[j] == if n + j < data.len() {
            data[n + j]
        } else {
            0
        }
}

/// The bytes that are kept of a sector: four of a CRC-32C, the lowest first, or the
/// 32 of a SHA-256.
pub open spec fn kept_sum(t: CsumType, s: Seq<u8>) -> Seq<u8> {
    match t {
        CsumType::Crc32c => enc32(crc_of(s)),
        CsumType::Sha256 => sha256_of(s),
    }
}

/// How many bytes are kept of a sector.
pub open spec fn sum_bytes(t: CsumType) -> int {
    match t {
        CsumType::Crc32c => 4,
        CsumType::Sha256 => 32,
    }
}

/// The checksums of data are those of its sectors, one behind the other.
pub proof fn each_sector_is_summed(
    t: CsumType,
    data: Seq<u8>,
    sector: int,
    n: int,
    i: int,
    s: Seq<u8>,
)
    requires
        0 <= i < n,
        sector > 0,
        sector_at(s, data, i * sector, sector),
    ensures
        csum_run(t, data, sector, 0, n).len() == sum_bytes(t) * n,
        csum_run(t, data, sector, 0, n).subrange(sum_bytes(t) * i, sum_bytes(t) * (i + 1))
            == kept_sum(t, s),
    decreases n,
{
    broadcast use group_enc_len;

    let w = sum_bytes(t);
    let run = csum_run(t, data, sector, 0, n);
    csum_run_len(t, data, sector, 0, n);
    csum_run_len(t, data, sector, 0, n - 1);
    let front = csum_run(t, data, sector, 0, n - 1);
    assert(w * n == w * (n - 1) + w) by (nonlinear_arith);
    assert(w * (i + 1) == w * i + w) by (nonlinear_arith);
    assert(w * i >= 0) by (nonlinear_arith)
        requires
            w >= 0,
            i >= 0,
    ;
    if i < n - 1 {
        each_sector_is_summed(t, data, sector, n - 1, i, s);
        assert(w * (i + 1) <= w * (n - 1)) by (nonlinear_arith)
            requires
                w >= 0,
                i + 1 <= n - 1,
        ;
        assert(run.subrange(w * i, w * i + w) =~= front.subrange(w * i, w * i + w));
    } else {
        let x = sector_of(data, n - 1, sector);
        assert(x =~= s);
        csum_field_len(t, x);
        sha256_len(x);
        reveal(csum_field);
        assert(csum_field(t, x).take(w) =~= kept_sum(t, s));
        assert(run.subrange(w * i, w * i + w) =~= kept_sum(t, s));
    }
}

/// Checksum `c` of the sector at `x` is kept in an item: the item's own address is
/// that of its first sector, and each four bytes are for the next 4096.
pub open spec fn kept_in(item: (u64, Seq<u8>), x: u64, c: u32) -> bool {
    exists|i: int|
        0 <= i && #[trigger] (4 * i) + 4 <= item.1.len() && x == item.0 + 4096 * i
            && item.1.subrange(4 * i, 4 * i + 4) == enc32(c)
}

/// Packing keeps every checksum, in an item that is done or in the one that is being
/// filled.
proof fn packing_keeps(sums: Seq<(u64, u32)>, per_item: int, j: int)
    requires
        forall|k: int| 0 <= k < sums.len() ==> (#[trigger] sums[k]).0 + 4096 <= u64::MAX,
        0 <= j < sums.len(),
    ensures
        ({
            let p = pack_sums(sums, per_item);
            ||| kept_in((p.start, p.body), sums[j].0, sums[j].1)
            ||| exists|k: int|
                0 <= k < p.done.len() && kept_in(#[trigger] p.done[k], sums[j].0, sums[j].1)
        }),
    decreases sums.len(),
{
    broadcast use group_enc_len;

    let front = sums.drop_last();
    let (at, crc) = sums.last();
    let p = pack_sums(sums, per_item);
    let q = pack_sums(front, per_item);
    assert forall|k: int| 0 <= k < front.len() implies (#[trigger] front[k]).0 + 4096
        <= u64::MAX by {
        assert(front[k] == sums[k]);
    }
    body_runs_on(front, per_item);
    body_runs_on(sums, per_item);
    if j < sums.len() - 1 {
        packing_keeps(front, per_item, j);
        let (x, c) = sums[j];
        assert(front[j] == sums[j]);
        if kept_in((q.start, q.body), x, c) {
            let i = choose|i: int|
                0 <= i && #[trigger] (4 * i) + 4 <= q.body.len() && x == q.start + 4096 * i
                    && q.body.subrange(4 * i, 4 * i + 4) == enc32(c);
            if at == q.next && q.body.len() < 4 * per_item {
                assert(p.body.subrange(4 * i, 4 * i + 4) =~= q.body.subrange(4 * i, 4 * i + 4));
                assert(kept_in((p.start, p.body), x, c)) by {
                    assert((4 * i) + 4 <= p.body.len());
                }
            } else {
                assert(p.done[q.done.len() as int] == (q.start, q.body));
            }
        } else {
            let k = choose|k: int| 0 <= k < q.done.len() && kept_in(#[trigger] q.done[k], x, c);
            assert(p.done[k] == q.done[k]);
        }
    } else {
        let i = p.body.len() as int / 4 - 1;
        assert(4 * i + 4 == p.body.len());
        assert(p.body.subrange(4 * i, 4 * i + 4) =~= enc32(crc));
        assert((4 * i) + 4 <= p.body.len());
        assert(kept_in((p.start, p.body), at, crc));
    }
}

/// The item that is being filled has a checksum for each sector from its start up to
/// the next.
proof fn body_runs_on(sums: Seq<(u64, u32)>, per_item: int)
    requires
        forall|k: int| 0 <= k < sums.len() ==> (#[trigger] sums[k]).0 + 4096 <= u64::MAX,
    ensures
        ({
            let p = pack_sums(sums, per_item);
            &&& p.body.len() % 4 == 0
            &&& sums.len() == 0 <==> p.body.len() == 0
            &&& sums.len() > 0 ==> p.next == p.start + 1024 * p.body.len() && p.next
                == sums.last().0 + 4096
        }),
    decreases sums.len(),
{
    broadcast use group_enc_len;

    if sums.len() > 0 {
        let front = sums.drop_last();
        assert forall|k: int| 0 <= k < front.len() implies (#[trigger] front[k]).0 + 4096
            <= u64::MAX by {
            assert(front[k] == sums[k]);
        }
        body_runs_on(front, per_item);
        assert(sums[sums.len() - 1].0 + 4096 <= u64::MAX);
    }
}

/// Every checksum that is packed is found again, in an item, under its sector's
/// address.
pub proof fn packed_sum_is_found(node_size: u32, sums: Seq<(u64, u32)>, j: int) -> (k: int)
    requires
        packed_items(node_size, sums) is Ok,
        forall|k: int| 0 <= k < sums.len() ==> (#[trigger] sums[k]).0 + 4096 <= u64::MAX,
        0 <= j < sums.len(),
    ensures
        0 <= k < packed_items(node_size, sums)->Ok_0.len(),
        kept_in(packed_items(node_size, sums)->Ok_0[k], sums[j].0, sums[j].1),
{
    let per = csum_item_limit(node_size, 4) / 4;
    let p = pack_sums(sums, per);
    packing_keeps(sums, per, j);
    if kept_in((p.start, p.body), sums[j].0, sums[j].1) {
        p.done.len() as int
    } else {
        choose|k: int|
            0 <= k < p.done.len() && kept_in(#[trigger] p.done[k], sums[j].0, sums[j].1)
    }
}

} // verus!
