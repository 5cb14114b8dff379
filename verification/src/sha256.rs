//! SHA-256, the hash that identifies contents.

use vstd::prelude::*;
use crate::model::ContentId;

verus! {

/// Round constants.
pub const K: [u32; 64] = [
    0x428a2f98, 0x71374491, 0xb5c0fbcf, 0xe9b5dba5,
    0x3956c25b, 0x59f111f1, 0x923f82a4, 0xab1c5ed5,
    0xd807aa98, 0x12835b01, 0x243185be, 0x550c7dc3,
    0x72be5d74, 0x80deb1fe, 0x9bdc06a7, 0xc19bf174,
    0xe49b69c1, 0xefbe4786, 0x0fc19dc6, 0x240ca1cc,
    0x2de92c6f, 0x4a7484aa, 0x5cb0a9dc, 0x76f988da,
    0x983e5152, 0xa831c66d, 0xb00327c8, 0xbf597fc7,
    0xc6e00bf3, 0xd5a79147, 0x06ca6351, 0x14292967,
    0x27b70a85, 0x2e1b2138, 0x4d2c6dfc, 0x53380d13,
    0x650a7354, 0x766a0abb, 0x81c2c92e, 0x92722c85,
    0xa2bfe8a1, 0xa81a664b, 0xc24b8b70, 0xc76c51a3,
    0xd192e819, 0xd6990624, 0xf40e3585, 0x106aa070,
    0x19a4c116, 0x1e376c08, 0x2748774c, 0x34b0bcb5,
    0x391c0cb3, 0x4ed8aa4a, 0x5b9cca4f, 0x682e6ff3,
    0x748f82ee, 0x78a5636f, 0x84c87814, 0x8cc70208,
    0x90befffa, 0xa4506ceb, 0xbef9a3f7, 0xc67178f2,
];

/// The eight working words.
#[derive(Clone, Copy)]
pub struct Words {
    pub a: u32,
    pub b: u32,
    pub c: u32,
    pub d: u32,
    pub e: u32,
    pub f: u32,
    pub g: u32,
    pub h: u32,
}

/// Initial hash value.
pub open spec fn init_words() -> Words {
    Words {
        a: 0x6a09e667,
        b: 0xbb67ae85,
        c: 0x3c6ef372,
        d: 0xa54ff53a,
        e: 0x510e527f,
        f: 0x9b05688c,
        g: 0x1f83d9ab,
        h: 0x5be0cd19,
    }
}

/// Addition modulo 2^32.
pub open spec fn plus(x: u32, y: u32) -> u32 {
    ((x as int + y as int) % 0x1_0000_0000) as u32
}

/// Rotation to the right by `n` places.
pub open spec fn rotr(x: u32, n: u32) -> u32 {
    (x >> n) | (x << ((32 - n) as u32))
}

pub open spec fn choice(x: u32, y: u32, z: u32) -> u32 {
    (x & y) ^ (!x & z)
}

pub open spec fn majority(x: u32, y: u32, z: u32) -> u32 {
    (x & y) ^ (x & z) ^ (y & z)
}

pub open spec fn big_sigma0(x: u32) -> u32 {
    rotr(x, 2) ^ rotr(x, 13) ^ rotr(x, 22)
}

pub open spec fn big_sigma1(x: u32) -> u32 {
    rotr(x, 6) ^ rotr(x, 11) ^ rotr(x, 25)
}

pub open spec fn small_sigma0(x: u32) -> u32 {
    rotr(x, 7) ^ rotr(x, 18) ^ (x >> 3)
}

pub open spec fn small_sigma1(x: u32) -> u32 {
    rotr(x, 17) ^ rotr(x, 19) ^ (x >> 10)
}

/// Four bytes read as a big-endian word.
pub open spec fn word(b: Seq<u8>, i: int) -> u32 {
    (b[i] as int * 0x100_0000 + b[i + 1] as int * 0x1_0000 + b[i + 2] as int * 0x100
        + b[i + 3] as int) as u32
}

/// Entry `t` of the message schedule of a block.
pub open spec fn schedule(block: Seq<u8>, t: int) -> u32
    decreases t,
{
    if t < 16 {
        word(block, 4 * t)
    } else {
        plus(
            plus(small_sigma1(schedule(block, t - 2)), schedule(block, t - 7)),
            plus(small_sigma0(schedule(block, t - 15)), schedule(block, t - 16)),
        )
    }
}

/// One round with round constant `k` and schedule entry `w`.
pub open spec fn round(s: Words, k: u32, w: u32) -> Words {
    let t1 = plus(plus(plus(s.h, big_sigma1(s.e)), plus(choice(s.e, s.f, s.g), k)), w);
    let t2 = plus(big_sigma0(s.a), majority(s.a, s.b, s.c));
    Words { a: plus(t1, t2), b: s.a, c: s.b, d: s.c, e: plus(s.d, t1), f: s.e, g: s.f, h: s.g }
}

/// The working words after `t` rounds over a block.
pub open spec fn rounds(s: Words, block: Seq<u8>, t: int) -> Words
    decreases t,
{
    if t <= 0 {
        s
    } else {
        round(rounds(s, block, t - 1), K[t - 1], schedule(block, t - 1))
    }
}

/// The hash value after one more block.
#[verifier::opaque]
pub open spec fn compress(s: Words, block: Seq<u8>) -> Words {
    let r = rounds(s, block, 64);
    Words {
        a: plus(s.a, r.a),
        b: plus(s.b, r.b),
        c: plus(s.c, r.c),
        d: plus(s.d, r.d),
        e: plus(s.e, r.e),
        f: plus(s.f, r.f),
        g: plus(s.g, r.g),
        h: plus(s.h, r.h),
    }
}

/// The hash value after the first `n` blocks of a padded message.
pub open spec fn blocks(padded: Seq<u8>, n: int) -> Words
    decreases n,
{
    if n <= 0 {
        init_words()
    } else {
        compress(blocks(padded, n - 1), padded.subrange(64 * (n - 1), 64 * n))
    }
}

/// Byte `i` of a number in eight big-endian bytes.
pub open spec fn length_byte(bits: nat, i: int) -> u8 {
    ((bits / vstd::arithmetic::power2::pow2((8 * (7 - i)) as nat)) % 256) as u8
}

/// Zero bytes between the mark and the length, so that whole blocks result.
pub open spec fn zeros(len: nat) -> nat {
    ((119 - (len % 64)) % 64) as nat
}

/// The message, a one bit, zeros, and the length in bits in eight bytes.
pub open spec fn pad(msg: Seq<u8>) -> Seq<u8> {
    msg + seq![0x80u8] + Seq::new(zeros(msg.len()), |i: int| 0u8) + Seq::new(
        8,
        |i: int| length_byte(8 * msg.len(), i),
    )
}

/// A word as four big-endian bytes.
pub open spec fn word_bytes(w: u32) -> Seq<u8> {
    seq![
        (w as int / 0x100_0000) as u8,
        (w as int / 0x1_0000 % 256) as u8,
        (w as int / 0x100 % 256) as u8,
        (w as int % 256) as u8,
    ]
}

pub open spec fn words_bytes(s: Words) -> Seq<u8> {
    word_bytes(s.a) + word_bytes(s.b) + word_bytes(s.c) + word_bytes(s.d) + word_bytes(s.e)
        + word_bytes(s.f) + word_bytes(s.g) + word_bytes(s.h)
}

/// The SHA-256 digest of a message.
pub open spec fn digest(msg: Seq<u8>) -> Seq<u8> {
    words_bytes(blocks(pad(msg), pad(msg).len() as int / 64))
}

/// The hash that identifies a text.
pub open spec fn content_hash(text: Seq<char>) -> Seq<u8> {
    digest(vstd::utf8::encode_utf8(text))
}

pub proof fn lemma_digest_len(msg: Seq<u8>)
    ensures
        digest(msg).len() == 32,
{
}

fn add32(x: u32, y: u32) -> (r: u32)
    ensures
        r == plus(x, y),
{
    ((x as u64 + y as u64) % 0x1_0000_0000) as u32
}

fn rot(x: u32, n: u32) -> (r: u32)
    requires
        0 < n < 32,
    ensures
        r == rotr(x, n),
{
    (x >> n) | (x << (32 - n))
}

fn sig0(x: u32) -> (r: u32)
    ensures
        r == small_sigma0(x),
{
    rot(x, 7) ^ rot(x, 18) ^ (x >> 3)
}

fn sig1(x: u32) -> (r: u32)
    ensures
        r == small_sigma1(x),
{
    rot(x, 17) ^ rot(x, 19) ^ (x >> 10)
}

fn one_round(s: Words, k: u32, w: u32) -> (r: Words)
    ensures
        r == round(s, k, w),
{
    let s1: u32 = rot(s.e, 6) ^ rot(s.e, 11) ^ rot(s.e, 25);
    let ch: u32 = (s.e & s.f) ^ (!s.e & s.g);
    let t1: u32 = add32(add32(add32(s.h, s1), add32(ch, k)), w);
    let s0: u32 = rot(s.a, 2) ^ rot(s.a, 13) ^ rot(s.a, 22);
    let maj: u32 = (s.a & s.b) ^ (s.a & s.c) ^ (s.b & s.c);
    let t2: u32 = add32(s0, maj);
    Words { a: add32(t1, t2), b: s.a, c: s.b, d: s.c, e: add32(s.d, t1), f: s.e, g: s.f, h: s.g }
}

fn load(b: &[u8], i: usize) -> (r: u32)
    requires
        i + 3 < b.len(),
    ensures
        r == word(b@, i as int),
{
    b[i] as u32 * 0x100_0000 + b[i + 1] as u32 * 0x1_0000 + b[i + 2] as u32 * 0x100
        + b[i + 3] as u32
}

fn one_block(s: Words, data: &[u8], at: usize) -> (r: Words)
    requires
        at + 64 <= data.len(),
    ensures
        r == compress(s, data@.subrange(at as int, at + 64)),
{
    reveal(compress);
    let ghost block = data@.subrange(at as int, at + 64);
    let mut w: [u32; 64] = [0u32; 64];
    let mut t: usize = 0;
    while t < 16
        invariant
            t <= 16,
            at + 64 <= data.len(),
            block == data@.subrange(at as int, at + 64),
            forall|k: int| 0 <= k < t ==> #[trigger] w@[k] == schedule(block, k),
        decreases 16 - t,
    {
        w[t] = load(data, at + 4 * t);
        assert(word(data@, at + 4 * t) == word(block, 4 * t as int));
        t += 1;
    }
    while t < 64
        invariant
            16 <= t <= 64,
            forall|k: int| 0 <= k < t ==> #[trigger] w@[k] == schedule(block, k),
        decreases 64 - t,
    {
        let x: u32 = add32(
            add32(sig1(w[t - 2]), w[t - 7]),
            add32(sig0(w[t - 15]), w[t - 16]),
        );
        assert(x == schedule(block, t as int));
        w[t] = x;
        t += 1;
    }
    let mut v: Words = s;
    let mut i: usize = 0;
    while i < 64
        invariant
            i <= 64,
            v == rounds(s, block, i as int),
            forall|k: int| 0 <= k < 64 ==> #[trigger] w@[k] == schedule(block, k),
        decreases 64 - i,
    {
        v = one_round(v, K[i], w[i]);
        i += 1;
    }
    Words {
        a: add32(s.a, v.a),
        b: add32(s.b, v.b),
        c: add32(s.c, v.c),
        d: add32(s.d, v.d),
        e: add32(s.e, v.e),
        f: add32(s.f, v.f),
        g: add32(s.g, v.g),
        h: add32(s.h, v.h),
    }
}

proof fn lemma_pow2_values()
    ensures
        vstd::arithmetic::power2::pow2(0) == 1,
        vstd::arithmetic::power2::pow2(8) == 0x100,
        vstd::arithmetic::power2::pow2(16) == 0x1_0000,
        vstd::arithmetic::power2::pow2(24) == 0x100_0000,
        vstd::arithmetic::power2::pow2(32) == 0x1_0000_0000,
        vstd::arithmetic::power2::pow2(40) == 0x100_0000_0000,
        vstd::arithmetic::power2::pow2(48) == 0x1_0000_0000_0000,
        vstd::arithmetic::power2::pow2(56) == 0x100_0000_0000_0000,
{
    vstd::arithmetic::power2::lemma2_to64();
    vstd::arithmetic::power2::lemma2_to64_rest();
}

fn padded(msg: &[u8]) -> (r: Vec<u8>)
    ensures
        r@ == pad(msg@),
        r@.len() % 64 == 0,
{
    let mut out: Vec<u8> = Vec::new();
    let mut i: usize = 0;
    while i < msg.len()
        invariant
            i <= msg.len(),
            out@ == msg@.take(i as int),
        decreases msg.len() - i,
    {
        out.push(msg[i]);
        i += 1;
        assert(out@ =~= msg@.take(i as int));
    }
    out.push(0x80u8);
    assert(out@ =~= msg@ + seq![0x80u8]);
    let z: usize = (119 - (msg.len() % 64)) % 64;
    let mut j: usize = 0;
    while j < z
        invariant
            j <= z,
            out@ == msg@ + seq![0x80u8] + Seq::new(j as nat, |i: int| 0u8),
        decreases z - j,
    {
        out.push(0u8);
        j += 1;
        assert(out@ =~= msg@ + seq![0x80u8] + Seq::new(j as nat, |i: int| 0u8));
    }
    assert(out@ =~= msg@ + seq![0x80u8] + Seq::new(z as nat, |i: int| 0u8));
    let ghost before = out@;
    let bits: u128 = msg.len() as u128 * 8;
    let mut div: u128 = 0x100_0000_0000_0000;
    let mut k: usize = 0;
    proof {
        lemma_pow2_values();
    }
    while k < 8
        invariant
            k <= 8,
            bits == 8 * msg@.len(),
            k < 8 ==> div == vstd::arithmetic::power2::pow2((8 * (7 - k)) as nat),
            div > 0,
            out@ == before + Seq::new(k as nat, |i: int| length_byte(8 * msg@.len(), i)),
        decreases 8 - k,
    {
        proof {
            lemma_pow2_values();
        }
        out.push(((bits / div) % 256) as u8);
        if k < 7 {
            div = div / 256;
        }
        k += 1;
        assert(out@ =~= before + Seq::new(k as nat, |i: int| length_byte(8 * msg@.len(), i)));
    }
    assert(out@ =~= pad(msg@));
    assert(pad(msg@).len() == msg@.len() + 1 + zeros(msg@.len()) + 8);
    assert((msg@.len() + 1 + zeros(msg@.len()) + 8) % 64 == 0);
    out
}

fn store(out: &mut [u8; 32], at: usize, w: u32)
    requires
        at + 4 <= 32,
    ensures
        final(out)@ == old(out)@.take(at as int) + word_bytes(w) + old(out)@.skip(at + 4),
{
    out[at] = (w / 0x100_0000) as u8;
    out[at + 1] = (w / 0x1_0000 % 256) as u8;
    out[at + 2] = (w / 0x100 % 256) as u8;
    out[at + 3] = (w % 256) as u8;
    assert(out@ =~= old(out)@.take(at as int) + word_bytes(w) + old(out)@.skip(at + 4));
}

/// The SHA-256 digest of `msg`.
pub fn sha256(msg: &[u8]) -> (r: [u8; 32])
    ensures
        r@ == digest(msg@),
{
    let data = padded(msg);
    let mut s: Words = Words {
        a: 0x6a09e667,
        b: 0xbb67ae85,
        c: 0x3c6ef372,
        d: 0xa54ff53a,
        e: 0x510e527f,
        f: 0x9b05688c,
        g: 0x1f83d9ab,
        h: 0x5be0cd19,
    };
    let mut n: usize = 0;
    let count: usize = data.len() / 64;
    while n < count
        invariant
            n <= count,
            64 * count == data.len(),
            s == blocks(data@, n as int),
        decreases count - n,
    {
        s = one_block(s, data.as_slice(), 64 * n);
        n += 1;
    }
    let mut out: [u8; 32] = [0u8; 32];
    store(&mut out, 0, s.a);
    store(&mut out, 4, s.b);
    store(&mut out, 8, s.c);
    store(&mut out, 12, s.d);
    store(&mut out, 16, s.e);
    store(&mut out, 20, s.f);
    store(&mut out, 24, s.g);
    store(&mut out, 28, s.h);
    assert(out@ =~= words_bytes(s));
    out
}

/// The hash that identifies a text: SHA-256 of its exact UTF-8 bytes.
pub fn content_id(text: &str) -> (r: ContentId)
    ensures
        r@ == content_hash(text@),
{
    ContentId(sha256(text.as_bytes()))
}

} // verus!
