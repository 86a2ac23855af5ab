//! SHA-256, the checksum of filesystems that ask for a cryptographic one.

use vstd::prelude::*;

use crate::bytes::{append_bytes, append_zeros, zeros};

verus! {

/// The round constants.
#[verifier::opaque]
pub open spec fn round_constants() -> Seq<u32> {
    seq![
        0x428a2f98u32, 0x71374491, 0xb5c0fbcf, 0xe9b5dba5, 0x3956c25b, 0x59f111f1, 0x923f82a4,
        0xab1c5ed5, 0xd807aa98, 0x12835b01, 0x243185be, 0x550c7dc3, 0x72be5d74, 0x80deb1fe,
        0x9bdc06a7, 0xc19bf174, 0xe49b69c1, 0xefbe4786, 0x0fc19dc6, 0x240ca1cc, 0x2de92c6f,
        0x4a7484aa, 0x5cb0a9dc, 0x76f988da, 0x983e5152, 0xa831c66d, 0xb00327c8, 0xbf597fc7,
        0xc6e00bf3, 0xd5a79147, 0x06ca6351, 0x14292967, 0x27b70a85, 0x2e1b2138, 0x4d2c6dfc,
        0x53380d13, 0x650a7354, 0x766a0abb, 0x81c2c92e, 0x92722c85, 0xa2bfe8a1, 0xa81a664b,
        0xc24b8b70, 0xc76c51a3, 0xd192e819, 0xd6990624, 0xf40e3585, 0x106aa070, 0x19a4c116,
        0x1e376c08, 0x2748774c, 0x34b0bcb5, 0x391c0cb3, 0x4ed8aa4a, 0x5b9cca4f, 0x682e6ff3,
        0x748f82ee, 0x78a5636f, 0x84c87814, 0x8cc70208, 0x90befffa, 0xa4506ceb, 0xbef9a3f7,
        0xc67178f2,
    ]
}

fn constants() -> (r: [u32; 64])
    ensures
        r@ == round_constants(),
{
    let r: [u32; 64] = [
        0x428a2f98u32, 0x71374491, 0xb5c0fbcf, 0xe9b5dba5, 0x3956c25b, 0x59f111f1, 0x923f82a4,
        0xab1c5ed5, 0xd807aa98, 0x12835b01, 0x243185be, 0x550c7dc3, 0x72be5d74, 0x80deb1fe,
        0x9bdc06a7, 0xc19bf174, 0xe49b69c1, 0xefbe4786, 0x0fc19dc6, 0x240ca1cc, 0x2de92c6f,
        0x4a7484aa, 0x5cb0a9dc, 0x76f988da, 0x983e5152, 0xa831c66d, 0xb00327c8, 0xbf597fc7,
        0xc6e00bf3, 0xd5a79147, 0x06ca6351, 0x14292967, 0x27b70a85, 0x2e1b2138, 0x4d2c6dfc,
        0x53380d13, 0x650a7354, 0x766a0abb, 0x81c2c92e, 0x92722c85, 0xa2bfe8a1, 0xa81a664b,
        0xc24b8b70, 0xc76c51a3, 0xd192e819, 0xd6990624, 0xf40e3585, 0x106aa070, 0x19a4c116,
        0x1e376c08, 0x2748774c, 0x34b0bcb5, 0x391c0cb3, 0x4ed8aa4a, 0x5b9cca4f, 0x682e6ff3,
        0x748f82ee, 0x78a5636f, 0x84c87814, 0x8cc70208, 0x90befffa, 0xa4506ceb, 0xbef9a3f7,
        0xc67178f2,
    ];
    assert(r@ =~= round_constants()) by {
        reveal(round_constants);
    }
    r
}

/// Addition of words.
pub open spec fn plus(a: u32, b: u32) -> u32 {
    ((a + b) % 0x1_0000_0000) as u32
}

fn sum(a: u32, b: u32) -> (r: u32)
    ensures
        r == plus(a, b),
{
    a.wrapping_add(b)
}

/// A word turned right by `n` bits.
pub open spec fn turned(x: u32, n: u32) -> u32 {
    (x >> n) | (x << ((32 - n) as u32))
}

fn turn(x: u32, n: u32) -> (r: u32)
    requires
        0 < n < 32,
    ensures
        r == turned(x, n),
{
    (x >> n) | (x << (32 - n))
}

/// The word of four bytes, the highest first.
pub open spec fn word_at(d: Seq<u8>, o: int) -> u32 {
    (d[o] * 0x100_0000 + d[o + 1] * 0x1_0000 + d[o + 2] * 0x100 + d[o + 3]) as u32
}

/// The first `n` words of the message schedule of the block of `d` at `o`.
pub open spec fn schedule(d: Seq<u8>, o: int, n: nat) -> Seq<u32>
    decreases n,
{
    if n == 0 {
        Seq::empty()
    } else {
        let w = schedule(d, o, (n - 1) as nat);
        let t = n - 1;
        w.push(
            if t < 16 {
                word_at(d, o + 4 * t)
            } else {
                let a = w[t - 15];
                let b = w[t - 2];
                plus(
                    plus(
                        turned(b, 17) ^ turned(b, 19) ^ (b >> 10),
                        w[t - 7],
                    ),
                    plus(turned(a, 7) ^ turned(a, 18) ^ (a >> 3), w[t - 16]),
                )
            },
        )
    }
}

/// The eight working words.
#[derive(Debug, Clone, Copy, PartialEq, Eq, Structural)]
pub struct Words {
    pub a: u32,
    pub b: u32,
    pub c: u32,
    pub d: u32,
    pub e: u32,
    pub f: u32,
    pub g: u32,
    pub h: u32,
}

/// The words that every digest starts from.
pub open spec fn first_words() -> Words {
    Words {
        a: 0x6a09e667,
        b: 0xbb67ae85,
        c: 0x3c6ef372,
        d: 0xa54ff53a,
        e: 0x510e527f,
        f: 0x9b05688c,
        g: 0x1f83d9ab,
        h: 0x5be0cd19,
    }
}

/// The working words after one round, with round constant `k` and message word
/// `w`.
pub open spec fn one_round(x: Words, k: u32, w: u32) -> Words {
    let s1 = turned(x.e, 6) ^ turned(x.e, 11) ^ turned(x.e, 25);
    let ch = (x.e & x.f) ^ (!x.e & x.g);
    let t1 = plus(plus(plus(x.h, s1), plus(ch, k)), w);
    let s0 = turned(x.a, 2) ^ turned(x.a, 13) ^ turned(x.a, 22);
    let maj = (x.a & x.b) ^ (x.a & x.c) ^ (x.b & x.c);
    let t2 = plus(s0, maj);
    Words {
        a: plus(t1, t2),
        b: x.a,
        c: x.b,
        d: x.c,
        e: plus(x.d, t1),
        f: x.e,
        g: x.f,
        h: x.g,
    }
}

/// The working words after `n` rounds.
pub open spec fn rounds(x: Words, w: Seq<u32>, n: nat) -> Words
    decreases n,
{
    if n == 0 {
        x
    } else {
        one_round(rounds(x, w, (n - 1) as nat), round_constants()[n - 1], w[n - 1])
    }
}

/// The words after the block of `d` at `o` was taken in.
pub open spec fn compressed(x: Words, d: Seq<u8>, o: int) -> Words {
    let y = rounds(x, schedule(d, o, 64), 64);
    Words {
        a: plus(x.a, y.a),
        b: plus(x.b, y.b),
        c: plus(x.c, y.c),
        d: plus(x.d, y.d),
        e: plus(x.e, y.e),
        f: plus(x.f, y.f),
        g: plus(x.g, y.g),
        h: plus(x.h, y.h),
    }
}

/// The words after the first `n` blocks of `d` were taken in.
pub open spec fn all_compressed(d: Seq<u8>, n: nat) -> Words
    decreases n,
{
    if n == 0 {
        first_words()
    } else {
        compressed(all_compressed(d, (n - 1) as nat), d, 64 * (n - 1))
    }
}

/// The bytes of a word, the highest first.
pub open spec fn word_bytes(x: u32) -> Seq<u8> {
    seq![(x >> 24) as u8, (x >> 16) as u8, (x >> 8) as u8, x as u8]
}

/// How many zeros fill the last block of a message of `n` bytes up.
pub open spec fn fill_len(n: int) -> int {
    (119 - n % 64) % 64
}

/// A message filled up to whole blocks: a one bit, zeros, and the length in
/// bits.
pub open spec fn filled(d: Seq<u8>) -> Seq<u8> {
    let bits = d.len() * 8;
    d + seq![0x80u8] + zeros(fill_len(d.len() as int) as nat) + word_bytes(
        ((bits / 0x1_0000_0000) % 0x1_0000_0000) as u32,
    ) + word_bytes((bits % 0x1_0000_0000) as u32)
}

/// The SHA-256 digest of `d`.
#[verifier::opaque]
pub open spec fn sha256_of(d: Seq<u8>) -> Seq<u8> {
    let m = filled(d);
    let x = all_compressed(m, m.len() / 64);
    word_bytes(x.a) + word_bytes(x.b) + word_bytes(x.c) + word_bytes(x.d) + word_bytes(x.e)
        + word_bytes(x.f) + word_bytes(x.g) + word_bytes(x.h)
}

/// A digest has 32 bytes.
pub proof fn sha256_len(d: Seq<u8>)
    ensures
        sha256_of(d).len() == 32,
{
    reveal(sha256_of);
}

fn read_word(d: &Vec<u8>, o: usize) -> (r: u32)
    requires
        o + 4 <= d@.len(),
    ensures
        r == word_at(d@, o as int),
{
    let n: usize = d.len();
    assert(o + 4 <= n);
    d[o] as u32 * 0x100_0000 + d[o + 1] as u32 * 0x1_0000 + d[o + 2] as u32 * 0x100 + d[o + 3] as u32
}

fn push_word(v: &mut Vec<u8>, x: u32)
    ensures
        final(v)@ == old(v)@ + word_bytes(x),
{
    v.push((x >> 24) as u8);
    v.push((x >> 16) as u8);
    v.push((x >> 8) as u8);
    v.push(x as u8);
    assert(v@ =~= old(v)@ + word_bytes(x));
}

fn message_schedule(d: &Vec<u8>, o: usize) -> (w: Vec<u32>)
    requires
        o + 64 <= d@.len(),
    ensures
        w@ == schedule(d@, o as int, 64),
        w@.len() == 64,
{
    let n: usize = d.len();
    let mut w: Vec<u32> = Vec::with_capacity(64);
    let mut t: usize = 0;
    while t < 64
        invariant
            t <= 64,
            n == d@.len(),
            o + 64 <= n,
            w@.len() == t,
            w@ == schedule(d@, o as int, t as nat),
        decreases 64 - t,
    {
        let x: u32 = if t < 16 {
            read_word(d, o + 4 * t)
        } else {
            let a: u32 = w[t - 15];
            let b: u32 = w[t - 2];
            sum(
                sum(turn(b, 17) ^ turn(b, 19) ^ (b >> 10), w[t - 7]),
                sum(turn(a, 7) ^ turn(a, 18) ^ (a >> 3), w[t - 16]),
            )
        };
        w.push(x);
        t += 1;
    }
    w
}

fn step(x: &Words, k: u32, w: u32) -> (r: Words)
    ensures
        r == one_round(*x, k, w),
{
    let s1: u32 = turn(x.e, 6) ^ turn(x.e, 11) ^ turn(x.e, 25);
    let ch: u32 = (x.e & x.f) ^ (!x.e & x.g);
    let t1: u32 = sum(sum(sum(x.h, s1), sum(ch, k)), w);
    let s0: u32 = turn(x.a, 2) ^ turn(x.a, 13) ^ turn(x.a, 22);
    let maj: u32 = (x.a & x.b) ^ (x.a & x.c) ^ (x.b & x.c);
    let t2: u32 = sum(s0, maj);
    Words {
        a: sum(t1, t2),
        b: x.a,
        c: x.b,
        d: x.c,
        e: sum(x.d, t1),
        f: x.e,
        g: x.f,
        h: x.g,
    }
}

fn compress(x: &Words, k: &[u32; 64], d: &Vec<u8>, o: usize) -> (r: Words)
    requires
        o + 64 <= d@.len(),
        k@ == round_constants(),
    ensures
        r == compressed(*x, d@, o as int),
{
    let w = message_schedule(d, o);
    let mut y = *x;
    let mut t: usize = 0;
    while t < 64
        invariant
            t <= 64,
            w@.len() == 64,
            k@ == round_constants(),
            y == rounds(*x, w@, t as nat),
        decreases 64 - t,
    {
        y = step(&y, k[t], w[t]);
        t += 1;
    }
    Words {
        a: sum(x.a, y.a),
        b: sum(x.b, y.b),
        c: sum(x.c, y.c),
        d: sum(x.d, y.d),
        e: sum(x.e, y.e),
        f: sum(x.f, y.f),
        g: sum(x.g, y.g),
        h: sum(x.h, y.h),
    }
}

fn fill(d: &[u8]) -> (m: Vec<u8>)
    ensures
        m@ == filled(d@),
{
    let n: usize = d.len();
    let mut m: Vec<u8> = Vec::new();
    append_bytes(&mut m, d);
    m.push(0x80);
    let k: usize = (119 - n % 64) % 64;
    append_zeros(&mut m, k);
    let bits: u128 = n as u128 * 8;
    assert(bits == d@.len() * 8);
    push_word(&mut m, ((bits / 0x1_0000_0000) % 0x1_0000_0000) as u32);
    push_word(&mut m, (bits % 0x1_0000_0000) as u32);
    assert(m@ =~= filled(d@));
    m
}

/// The SHA-256 digest of `d`.
pub fn sha256(d: &[u8]) -> (r: Vec<u8>)
    ensures
        r@ == sha256_of(d@),
{
    reveal(sha256_of);
    let k = constants();
    let m = fill(d);
    let len: usize = m.len();
    let n: usize = len / 64;
    let mut x = Words {
        a: 0x6a09e667,
        b: 0xbb67ae85,
        c: 0x3c6ef372,
        d: 0xa54ff53a,
        e: 0x510e527f,
        f: 0x9b05688c,
        g: 0x1f83d9ab,
        h: 0x5be0cd19,
    };
    let mut i: usize = 0;
    while i < n
        invariant
            i <= n,
            n == len / 64,
            len == m@.len(),
            k@ == round_constants(),
            x == all_compressed(m@, i as nat),
        decreases n - i,
    {
        x = compress(&x, &k, &m, 64 * i);
        i += 1;
    }
    let mut r: Vec<u8> = Vec::with_capacity(32);
    push_word(&mut r, x.a);
    push_word(&mut r, x.b);
    push_word(&mut r, x.c);
    push_word(&mut r, x.d);
    push_word(&mut r, x.e);
    push_word(&mut r, x.f);
    push_word(&mut r, x.g);
    push_word(&mut r, x.h);
    assert(r@ =~= sha256_of(d@));
    r
}

} // verus!
