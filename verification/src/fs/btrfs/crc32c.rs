//! CRC-32C (Castagnoli), the checksum of btrfs metadata, data and names.

use vstd::prelude::*;

verus! {

/// One bit of the reflected polynomial division.
pub open spec fn crc_bit(c: u32) -> u32 {
    if c & 1 == 1 {
        (c >> 1) ^ 0x82F6_3B78
    } else {
        c >> 1
    }
}

/// Eight bits of the polynomial division.
pub open spec fn crc_byte(c: u32) -> u32 {
    crc_bit(crc_bit(crc_bit(crc_bit(crc_bit(crc_bit(crc_bit(crc_bit(c))))))))
}

/// The CRC register after `data` was fed into a register that held `seed`.
pub open spec fn crc_feed(seed: u32, data: Seq<u8>) -> u32
    decreases data.len(),
{
    if data.len() == 0 {
        seed
    } else {
        crc_byte(crc_feed(seed, data.drop_last()) ^ (data.last() as u32))
    }
}

/// The CRC-32C checksum of `data`.
pub open spec fn crc_of(data: Seq<u8>) -> u32 {
    !crc_feed(0xFFFF_FFFF, data)
}

/// The hash under which a directory keys an entry named `name`.
pub open spec fn hash_of_name(name: Seq<u8>) -> u64 {
    crc_feed(0xFFFF_FFFE, name) as u64
}

proof fn crc_byte_splits(c: u32)
    ensures
        crc_byte(c) == crc_byte(c & 0xff) ^ (c >> 8),
{
    assert(crc_byte(c) == crc_byte(c & 0xff) ^ (c >> 8)) by (bit_vector);
}

fn crc_bit_exec(c: u32) -> (r: u32)
    ensures
        r == crc_bit(c),
{
    if c & 1 == 1 {
        (c >> 1) ^ 0x82F6_3B78
    } else {
        c >> 1
    }
}

fn crc_table() -> (t: Vec<u32>)
    ensures
        t@.len() == 256,
        forall|i: int| 0 <= i < 256 ==> #[trigger] t@[i] == crc_byte(i as u32),
{
    let mut t: Vec<u32> = Vec::with_capacity(256);
    let mut i: u32 = 0;
    while i < 256
        invariant
            i <= 256,
            t@.len() == i,
            forall|j: int| 0 <= j < i ==> #[trigger] t@[j] == crc_byte(j as u32),
        decreases 256 - i,
    {
        let a: u32 = crc_bit_exec(crc_bit_exec(crc_bit_exec(crc_bit_exec(i))));
        t.push(crc_bit_exec(crc_bit_exec(crc_bit_exec(crc_bit_exec(a)))));
        i += 1;
    }
    t
}

/// Feed `data` into a CRC register that holds `seed`, with no final inversion.
pub fn crc32c_seed(seed: u32, data: &[u8]) -> (r: u32)
    ensures
        r == crc_feed(seed, data@),
{
    let t = crc_table();
    let n: usize = data.len();
    let mut c: u32 = seed;
    let mut i: usize = 0;
    assert(data@.take(0) =~= Seq::<u8>::empty());
    while i < n
        invariant
            i <= n,
            n == data@.len(),
            t@.len() == 256,
            forall|j: int| 0 <= j < 256 ==> #[trigger] t@[j] == crc_byte(j as u32),
            c == crc_feed(seed, data@.take(i as int)),
        decreases n - i,
    {
        let x: u32 = c ^ (data[i] as u32);
        assert(x & 0xff < 256) by (bit_vector);
        let idx: usize = (x & 0xff) as usize;
        proof {
            crc_byte_splits(x);
            assert(data@.take(i + 1).drop_last() =~= data@.take(i as int));
            assert(data@.take(i + 1).last() == data@[i as int]);
        }
        c = t[idx] ^ (x >> 8);
        i += 1;
    }
    assert(data@.take(n as int) =~= data@);
    c
}

/// The CRC-32C checksum of `data`.
pub fn crc32c(data: &[u8]) -> (r: u32)
    ensures
        r == crc_of(data@),
{
    !crc32c_seed(0xFFFF_FFFF, data)
}

/// The directory hash of an entry name.
pub fn name_hash(name: &[u8]) -> (r: u64)
    ensures
        r == hash_of_name(name@),
{
    crc32c_seed(0xFFFF_FFFE, name) as u64
}

} // verus!
