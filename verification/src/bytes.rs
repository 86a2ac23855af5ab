//! Little-endian fields and byte ranges.

use vstd::prelude::*;
use vstd::slice::{slice_subrange, slice_to_vec};

verus! {

/// The 16-bit little-endian field of `s` at offset `o`.
#[verifier::opaque]
pub open spec fn le16(s: Seq<u8>, o: int) -> u16 {
    (s[o] + 0x100 * s[o + 1]) as u16
}

/// The 32-bit little-endian field of `s` at offset `o`.
#[verifier::opaque]
pub open spec fn le32(s: Seq<u8>, o: int) -> u32 {
    (s[o] + 0x100 * s[o + 1] + 0x1_0000 * s[o + 2] + 0x100_0000 * s[o + 3]) as u32
}

/// The 64-bit little-endian field of `s` at offset `o`.
#[verifier::opaque]
pub open spec fn le64(s: Seq<u8>, o: int) -> u64 {
    (le32(s, o) + 0x1_0000_0000 * le32(s, o + 4)) as u64
}

/// `s` with the bytes from offset `o` on replaced by `b`.
pub open spec fn splice(s: Seq<u8>, o: int, b: Seq<u8>) -> Seq<u8> {
    Seq::new(
        s.len(),
        |i: int| if o <= i < o + b.len() { b[i - o] } else { s[i] },
    )
}

/// `n` zero bytes.
pub open spec fn zeros(n: nat) -> Seq<u8> {
    Seq::new(n, |i: int| 0u8)
}

/// The little-endian encoding of `x`.
#[verifier::opaque]
pub open spec fn enc16(x: u16) -> Seq<u8> {
    seq![(x % 0x100) as u8, (x / 0x100) as u8]
}

/// The little-endian encoding of `x`.
#[verifier::opaque]
pub open spec fn enc32(x: u32) -> Seq<u8> {
    seq![
        (x % 0x100) as u8,
        (x / 0x100 % 0x100) as u8,
        (x / 0x1_0000 % 0x100) as u8,
        (x / 0x100_0000) as u8,
    ]
}

/// The little-endian encoding of `x`.
#[verifier::opaque]
pub open spec fn enc64(x: u64) -> Seq<u8> {
    enc32((x % 0x1_0000_0000) as u32) + enc32((x / 0x1_0000_0000) as u32)
}

/// An encoding is as wide as its type.
pub broadcast proof fn enc16_len(x: u16)
    ensures
        #[trigger] enc16(x).len() == 2,
{
    reveal(enc16);
}

/// An encoding is as wide as its type.
pub broadcast proof fn enc32_len(x: u32)
    ensures
        #[trigger] enc32(x).len() == 4,
{
    reveal(enc32);
}

/// An encoding is as wide as its type.
pub broadcast proof fn enc64_len(x: u64)
    ensures
        #[trigger] enc64(x).len() == 8,
{
    reveal(enc64);
    reveal(enc32);
}

pub broadcast group group_enc_len {
    enc16_len,
    enc32_len,
    enc64_len,
}

/// A field read back where an encoding was placed is the encoded number.
pub proof fn le16_of_enc(s: Seq<u8>, o: int, x: u16)
    requires
        0 <= o,
        o + 2 <= s.len(),
        s.subrange(o, o + 2) == enc16(x),
    ensures
        le16(s, o) == x,
{
    reveal(le16);
    reveal(enc16);
    assert(s.subrange(o, o + 2)[0] == s[o]);
    assert(s.subrange(o, o + 2)[1] == s[o + 1]);
}

/// A field read back where an encoding was placed is the encoded number.
pub proof fn le32_of_enc(s: Seq<u8>, o: int, x: u32)
    requires
        0 <= o,
        o + 4 <= s.len(),
        s.subrange(o, o + 4) == enc32(x),
    ensures
        le32(s, o) == x,
{
    reveal(le32);
    reveal(enc32);
    assert(s.subrange(o, o + 4)[0] == s[o]);
    assert(s.subrange(o, o + 4)[1] == s[o + 1]);
    assert(s.subrange(o, o + 4)[2] == s[o + 2]);
    assert(s.subrange(o, o + 4)[3] == s[o + 3]);
}

/// A field read back where an encoding was placed is the encoded number.
pub proof fn le64_of_enc(s: Seq<u8>, o: int, x: u64)
    requires
        0 <= o,
        o + 8 <= s.len(),
        s.subrange(o, o + 8) == enc64(x),
    ensures
        le64(s, o) == x,
{
    broadcast use enc32_len;

    let lo: u32 = (x % 0x1_0000_0000) as u32;
    let hi: u32 = (x / 0x1_0000_0000) as u32;
    reveal(enc64);
    reveal(le64);
    assert(s.subrange(o, o + 4) =~= s.subrange(o, o + 8).subrange(0, 4));
    assert(s.subrange(o + 4, o + 8) =~= s.subrange(o, o + 8).subrange(4, 8));
    assert(enc64(x).subrange(0, 4) =~= enc32(lo));
    assert(enc64(x).subrange(4, 8) =~= enc32(hi));
    le32_of_enc(s, o, lo);
    le32_of_enc(s, o + 4, hi);
}

/// A 16-bit number is stored at `o`.
pub open spec fn has16(d: Seq<u8>, o: int, x: int) -> bool {
    0 <= x <= 0xFFFF && 0 <= o && o + 2 <= d.len() && d.subrange(o, o + 2) == enc16(x as u16)
}

/// A 32-bit number is stored at `o`.
pub open spec fn has32(d: Seq<u8>, o: int, x: int) -> bool {
    0 <= x <= 0xFFFF_FFFF && 0 <= o && o + 4 <= d.len() && d.subrange(o, o + 4) == enc32(x as u32)
}

/// A 64-bit number is stored at `o`.
pub open spec fn has64(d: Seq<u8>, o: int, x: int) -> bool {
    0 <= x <= 0xFFFF_FFFF_FFFF_FFFF && 0 <= o && o + 8 <= d.len() && d.subrange(o, o + 8) == enc64(
        x as u64,
    )
}

/// A stored number is read back.
pub broadcast proof fn has16_reads(d: Seq<u8>, o: int, x: int)
    requires
        #[trigger] has16(d, o, x),
    ensures
        le16(d, o) == x,
{
    le16_of_enc(d, o, x as u16);
}

/// A stored number is read back.
pub broadcast proof fn has32_reads(d: Seq<u8>, o: int, x: int)
    requires
        #[trigger] has32(d, o, x),
    ensures
        le32(d, o) == x,
{
    le32_of_enc(d, o, x as u32);
}

/// A stored number is read back.
pub broadcast proof fn has64_reads(d: Seq<u8>, o: int, x: int)
    requires
        #[trigger] has64(d, o, x),
    ensures
        le64(d, o) == x,
{
    le64_of_enc(d, o, x as u64);
}

pub broadcast group group_has_reads {
    has16_reads,
    has32_reads,
    has64_reads,
}

/// What is read at `o` is what is stored there.
pub proof fn enc_of_le16(d: Seq<u8>, o: int)
    requires
        0 <= o,
        o + 2 <= d.len(),
    ensures
        has16(d, o, le16(d, o) as int),
{
    reveal(le16);
    reveal(enc16);
    assert(d.subrange(o, o + 2) =~= enc16(le16(d, o)));
}

/// What is read at `o` is what is stored there.
pub proof fn enc_of_le32(d: Seq<u8>, o: int)
    requires
        0 <= o,
        o + 4 <= d.len(),
    ensures
        has32(d, o, le32(d, o) as int),
{
    let x = le32(d, o);
    let y = d[o + 1] + 0x100 * (d[o + 2] + 0x100 * d[o + 3]);
    let z = d[o + 2] + 0x100 * d[o + 3];
    assert(x == d[o] + 0x100 * y) by {
        reveal(le32);
    }
    digit_and_rest(x as int, d[o], y);
    digit_and_rest(y, d[o + 1], z);
    digit_and_rest(z, d[o + 2], d[o + 3] as int);
    assert(x / 0x1_0000 == z && x / 0x100_0000 == d[o + 3]);
    let e = enc32(x);
    assert(e.len() == 4 && e[0] == d[o] && e[1] == d[o + 1] && e[2] == d[o + 2] && e[3] == d[o
        + 3]) by {
        reveal(enc32);
    }
    assert(d.subrange(o, o + 4) =~= e);
}

/// A byte and a multiple of 256.
proof fn digit_and_rest(x: int, b: u8, rest: int)
    requires
        x == b + 0x100 * rest,
    ensures
        x % 0x100 == b,
        x / 0x100 == rest,
{
}

/// The lowest byte of a stored number comes first: each byte is worth 256 times as
/// much as the one before it.
pub proof fn lowest_byte_first(x: u32)
    ensures
        ({
            let b = enc32(x);
            x == b[0] + 0x100 * (b[1] + 0x100 * (b[2] + 0x100 * b[3]))
        }),
{
    reveal(enc32);
    reveal(enc16);
}

/// The two bytes of a short number come in the same order.
pub proof fn low_byte_first(x: u16)
    ensures
        x == enc16(x)[0] + 0x100 * enc16(x)[1],
{
    reveal(enc16);
}

/// The lower half of a long number comes first.
pub proof fn lower_half_first(x: u64)
    ensures
        enc64(x).take(4) == enc32((x % 0x1_0000_0000) as u32),
        enc64(x).skip(4) == enc32((x / 0x1_0000_0000) as u32),
{
    broadcast use group_enc_len;

    reveal(enc64);
    assert(enc64(x).take(4) =~= enc32((x % 0x1_0000_0000) as u32));
    assert(enc64(x).skip(4) =~= enc32((x / 0x1_0000_0000) as u32));
}

/// Read the 16-bit field at `o`.
pub fn get_u16(b: &[u8], o: usize) -> (r: u16)
    requires
        o + 2 <= b@.len(),
    ensures
        r == le16(b@, o as int),
{
    let n: usize = b.len();
    reveal(le16);
    b[o] as u16 + 0x100 * (b[o + 1] as u16)
}

/// Read the 32-bit field at `o`.
pub fn get_u32(b: &[u8], o: usize) -> (r: u32)
    requires
        o + 4 <= b@.len(),
    ensures
        r == le32(b@, o as int),
{
    let n: usize = b.len();
    reveal(le32);
    b[o] as u32 + 0x100 * (b[o + 1] as u32) + 0x1_0000 * (b[o + 2] as u32) + 0x100_0000 * (b[o + 3]
        as u32)
}

/// Read the 64-bit field at `o`.
pub fn get_u64(b: &[u8], o: usize) -> (r: u64)
    requires
        o + 8 <= b@.len(),
    ensures
        r == le64(b@, o as int),
{
    let n: usize = b.len();
    reveal(le64);
    let lo: u32 = get_u32(b, o);
    let hi: u32 = get_u32(b, o + 4);
    lo as u64 + 0x1_0000_0000 * (hi as u64)
}

/// Overwrite the bytes of `v` from offset `o` on with `b`.
pub fn put_bytes(v: &mut Vec<u8>, o: usize, b: &[u8])
    requires
        o + b@.len() <= old(v)@.len(),
    ensures
        final(v)@ == splice(old(v)@, o as int, b@),
{
    let n: usize = b.len();
    let vn: usize = v.len();
    let mut i: usize = 0;
    assert(v@ =~= splice(old(v)@, o as int, b@.subrange(0, 0)));
    while i < n
        invariant
            i <= n,
            n == b@.len(),
            o + n <= vn,
            vn == old(v)@.len(),
            v@ == splice(old(v)@, o as int, b@.subrange(0, i as int)),
        decreases n - i,
    {
        v[o + i] = b[i];
        i += 1;
        assert(v@ =~= splice(old(v)@, o as int, b@.subrange(0, i as int)));
    }
    assert(b@.subrange(0, n as int) =~= b@);
}

/// The little-endian encoding of `x`.
pub fn le_vec_u32(x: u32) -> (r: Vec<u8>)
    ensures
        r@ == enc32(x),
{
    let mut v: Vec<u8> = Vec::new();
    append_u32(&mut v, x);
    assert(v@ =~= enc32(x));
    v
}

/// The little-endian encoding of `x`.
pub fn le_vec_u64(x: u64) -> (r: Vec<u8>)
    ensures
        r@ == enc64(x),
{
    let mut v: Vec<u8> = Vec::new();
    append_u64(&mut v, x);
    assert(v@ =~= enc64(x));
    v
}

/// Overwrite the 64-bit field at `o`.
pub fn put_u64(v: &mut Vec<u8>, o: usize, x: u64)
    requires
        o + 8 <= old(v)@.len(),
    ensures
        final(v)@ == splice(old(v)@, o as int, enc64(x)),
{
    broadcast use enc64_len;

    let b = le_vec_u64(x);
    put_bytes(v, o, b.as_slice());
}

/// Overwrite the 32-bit field at `o`.
pub fn put_u32(v: &mut Vec<u8>, o: usize, x: u32)
    requires
        o + 4 <= old(v)@.len(),
    ensures
        final(v)@ == splice(old(v)@, o as int, enc32(x)),
{
    broadcast use enc32_len;

    let b = le_vec_u32(x);
    put_bytes(v, o, b.as_slice());
}

/// Append `b` to `v`.
pub fn append_bytes(v: &mut Vec<u8>, b: &[u8])
    ensures
        final(v)@ == old(v)@ + b@,
{
    v.extend_from_slice(b);
    assert(v@ =~= old(v)@ + b@);
}

/// Append the encoding of `x` to `v`.
pub fn append_u64(v: &mut Vec<u8>, x: u64)
    ensures
        final(v)@ == old(v)@ + enc64(x),
{
    append_u32(v, (x % 0x1_0000_0000) as u32);
    append_u32(v, (x / 0x1_0000_0000) as u32);
    reveal(enc64);
    assert(v@ =~= old(v)@ + enc64(x));
}

/// Append the encoding of `x` to `v`.
pub fn append_u32(v: &mut Vec<u8>, x: u32)
    ensures
        final(v)@ == old(v)@ + enc32(x),
{
    v.push((x % 0x100) as u8);
    v.push((x / 0x100 % 0x100) as u8);
    v.push((x / 0x1_0000 % 0x100) as u8);
    v.push((x / 0x100_0000) as u8);
    reveal(enc32);
    assert(v@ =~= old(v)@ + enc32(x));
}

/// Append the encoding of `x` to `v`.
pub fn append_u16(v: &mut Vec<u8>, x: u16)
    ensures
        final(v)@ == old(v)@ + enc16(x),
{
    v.push((x % 0x100) as u8);
    v.push((x / 0x100) as u8);
    reveal(enc16);
    assert(v@ =~= old(v)@ + enc16(x));
}

/// Append `n` zero bytes to `v`.
pub fn append_zeros(v: &mut Vec<u8>, n: usize)
    ensures
        final(v)@ == old(v)@ + zeros(n as nat),
{
    let z = zero_vec(n);
    append_bytes(v, z.as_slice());
}

/// A vector of `n` zero bytes.
pub fn zero_vec(n: usize) -> (r: Vec<u8>)
    ensures
        r@ == zeros(n as nat),
{
    let r: Vec<u8> = vec![0u8; n];
    assert(r@ =~= zeros(n as nat));
    r
}

/// The bytes of `b` from `i` up to `j`, copied.
pub fn copy_range(b: &[u8], i: usize, j: usize) -> (r: Vec<u8>)
    requires
        i <= j <= b@.len(),
    ensures
        r@ == b@.subrange(i as int, j as int),
{
    slice_to_vec(slice_subrange(b, i, j))
}

/// A copy of `b`.
pub fn copy_bytes(b: &[u8]) -> (r: Vec<u8>)
    ensures
        r@ == b@,
{
    slice_to_vec(b)
}

/// Whether `a` and `b` hold the same bytes.
pub fn bytes_eq(a: &[u8], b: &[u8]) -> (r: bool)
    ensures
        r == (a@ == b@),
{
    if a.len() != b.len() {
        return false;
    }
    let mut i: usize = 0;
    while i < a.len()
        invariant
            i <= a@.len(),
            a@.len() == b@.len(),
            forall|j: int| 0 <= j < i ==> a@[j] == b@[j],
        decreases a@.len() - i,
    {
        if a[i] != b[i] {
            return false;
        }
        i += 1;
    }
    assert(a@ =~= b@);
    true
}

/// The `N` bytes of `b` at offset `o`, as an array.
pub fn get_array<const N: usize>(b: &[u8], o: usize) -> (r: [u8; N])
    requires
        o + N <= b@.len(),
    ensures
        r@ == b@.subrange(o as int, o + N),
{
    let n: usize = b.len();
    let mut r: [u8; N] = [0u8; N];
    let mut i: usize = 0;
    while i < N
        invariant
            i <= N,
            o + N <= n,
            n == b@.len(),
            forall|j: int| 0 <= j < i ==> r@[j] == b@[o + j],
        decreases N - i,
    {
        r[i] = b[o + i];
        i += 1;
    }
    assert(r@ =~= b@.subrange(o as int, o + N));
    r
}


/// Copy `from` to the front of `to`.
pub fn fill_front(to: &mut [u8], from: &[u8])
    requires
        from@.len() <= old(to)@.len(),
    ensures
        final(to)@ == from@ + old(to)@.skip(from@.len() as int),
{
    let n: usize = from.len();
    let mut i: usize = 0;
    while i < n
        invariant
            i <= n,
            n == from@.len(),
            n <= old(to)@.len(),
            to@.len() == old(to)@.len(),
            forall|j: int| 0 <= j < i ==> to@[j] == from@[j],
            forall|j: int| i <= j < to@.len() ==> to@[j] == old(to)@[j],
        decreases n - i,
    {
        to[i] = from[i];
        i += 1;
    }
    assert(to@ =~= from@ + old(to)@.skip(n as int));
}

} // verus!
