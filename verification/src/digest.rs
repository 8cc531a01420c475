//! SHA-256 (FIPS 180-4) over raw source bytes, the hash that binds a
//! compiled program to the source it was compiled from.
use vstd::prelude::*;

verus! {

/// Addition modulo 2^32.
pub open spec fn wadd(a: u32, b: u32) -> u32 {
    ((a as int + b as int) % 0x1_0000_0000) as u32
}

pub open spec fn rotr(x: u32, n: u32) -> u32 {
    (x >> n) | (x << ((32 - n) as u32))
}

pub open spec fn ch(x: u32, y: u32, z: u32) -> u32 {
    (x & y) ^ (!x & z)
}

pub open spec fn maj(x: u32, y: u32, z: u32) -> u32 {
    (x & y) ^ (x & z) ^ (y & z)
}

pub open spec fn big_sigma0(x: u32) -> u32 {
    rotr(x, 2) ^ rotr(x, 13) ^ rotr(x, 22)
}

pub open spec fn big_sigma1(x: u32) -> u32 {
    rotr(x, 6) ^ rotr(x, 11) ^ rotr(x, 25)
}

pub open spec fn small_sigma0(x: u32) -> u32 {
    rotr(x, 7) ^ rotr(x, 18) ^ (x >> 3u32)
}

pub open spec fn small_sigma1(x: u32) -> u32 {
    rotr(x, 17) ^ rotr(x, 19) ^ (x >> 10u32)
}

/// The round constants.
pub open spec fn round_constants() -> Seq<u32> {
    seq![
        0x428a2f98u32, 0x71374491, 0xb5c0fbcf, 0xe9b5dba5, 0x3956c25b, 0x59f111f1, 0x923f82a4, 0xab1c5ed5,
        0xd807aa98, 0x12835b01, 0x243185be, 0x550c7dc3, 0x72be5d74, 0x80deb1fe, 0x9bdc06a7, 0xc19bf174,
        0xe49b69c1, 0xefbe4786, 0x0fc19dc6, 0x240ca1cc, 0x2de92c6f, 0x4a7484aa, 0x5cb0a9dc, 0x76f988da,
        0x983e5152, 0xa831c66d, 0xb00327c8, 0xbf597fc7, 0xc6e00bf3, 0xd5a79147, 0x06ca6351, 0x14292967,
        0x27b70a85, 0x2e1b2138, 0x4d2c6dfc, 0x53380d13, 0x650a7354, 0x766a0abb, 0x81c2c92e, 0x92722c85,
        0xa2bfe8a1, 0xa81a664b, 0xc24b8b70, 0xc76c51a3, 0xd192e819, 0xd6990624, 0xf40e3585, 0x106aa070,
        0x19a4c116, 0x1e376c08, 0x2748774c, 0x34b0bcb5, 0x391c0cb3, 0x4ed8aa4a, 0x5b9cca4f, 0x682e6ff3,
        0x748f82ee, 0x78a5636f, 0x84c87814, 0x8cc70208, 0x90befffa, 0xa4506ceb, 0xbef9a3f7, 0xc67178f2,
    ]
}

/// The initial hash value.
pub open spec fn initial_hash() -> Seq<u32> {
    seq![0x6a09e667u32, 0xbb67ae85, 0x3c6ef372, 0xa54ff53a, 0x510e527f, 0x9b05688c, 0x1f83d9ab, 0x5be0cd19]
}

/// The number of zero bytes between the `0x80` marker and the length.
pub open spec fn zero_pad_len(len: nat) -> nat {
    ((64 + 55 - (len % 64)) % 64) as nat
}

/// The message length in bits, modulo 2^64.
pub open spec fn bit_length(len: nat) -> u64 {
    ((len * 8) % 0x1_0000_0000_0000_0000) as u64
}

/// The eight big-endian bytes of `v`.
pub open spec fn be64(v: u64) -> Seq<u8> {
    Seq::new(8, |i: int| ((v >> ((56 - 8 * i) as u64)) & 0xffu64) as u8)
}

/// The message followed by the `0x80` marker, zero bytes up to 56 modulo
/// 64, and the bit length as 8 big-endian bytes.
pub open spec fn padded(m: Seq<u8>) -> Seq<u8> {
    m + seq![0x80u8] + Seq::new(zero_pad_len(m.len()), |i: int| 0u8) + be64(bit_length(m.len()))
}

/// The big-endian word at word index `t` of block `b` of `p`.
pub open spec fn word(p: Seq<u8>, b: int, t: int) -> u32 {
    let n = p.len();
    let o = 64 * b + 4 * t;
    ((p[o] as u32) << 24u32) | ((p[o + 1] as u32) << 16u32) | ((p[o + 2] as u32) << 8u32) | (p[o + 3] as u32)
}

/// Word `t` of the message schedule of block `b`.
pub open spec fn schedule(p: Seq<u8>, b: int, t: int) -> u32
    decreases t,
{
    if t < 16 {
        word(p, b, t)
    } else {
        wadd(
            wadd(small_sigma1(schedule(p, b, t - 2)), schedule(p, b, t - 7)),
            wadd(small_sigma0(schedule(p, b, t - 15)), schedule(p, b, t - 16)),
        )
    }
}

/// The working variables a..h.
#[derive(Clone, Copy)]
pub struct Working {
    pub a: u32,
    pub b: u32,
    pub c: u32,
    pub d: u32,
    pub e: u32,
    pub f: u32,
    pub g: u32,
    pub h: u32,
}

/// One compression round with schedule word `w` and constant `k`.
pub open spec fn round(s: Working, w: u32, k: u32) -> Working {
    let t1 = wadd(wadd(wadd(s.h, big_sigma1(s.e)), wadd(ch(s.e, s.f, s.g), k)), w);
    let t2 = wadd(big_sigma0(s.a), maj(s.a, s.b, s.c));
    Working { a: wadd(t1, t2), b: s.a, c: s.b, d: s.c, e: wadd(s.d, t1), f: s.e, g: s.f, h: s.g }
}

pub open spec fn start(hv: Seq<u32>) -> Working {
    Working { a: hv[0], b: hv[1], c: hv[2], d: hv[3], e: hv[4], f: hv[5], g: hv[6], h: hv[7] }
}

/// The working variables after the first `t` rounds of block `b`.
pub open spec fn rounds(hv: Seq<u32>, p: Seq<u8>, b: int, t: int) -> Working
    decreases t,
{
    if t <= 0 {
        start(hv)
    } else {
        round(rounds(hv, p, b, t - 1), schedule(p, b, t - 1), round_constants()[t - 1])
    }
}

/// The hash value after block `b` is added in.
pub open spec fn compress(hv: Seq<u32>, p: Seq<u8>, b: int) -> Seq<u32> {
    let s = rounds(hv, p, b, 64);
    seq![
        wadd(hv[0], s.a), wadd(hv[1], s.b), wadd(hv[2], s.c), wadd(hv[3], s.d),
        wadd(hv[4], s.e), wadd(hv[5], s.f), wadd(hv[6], s.g), wadd(hv[7], s.h),
    ]
}

/// The hash value after the first `n` blocks of `p`.
pub open spec fn hash_blocks(p: Seq<u8>, n: int) -> Seq<u32>
    decreases n,
{
    if n <= 0 {
        initial_hash()
    } else {
        compress(hash_blocks(p, n - 1), p, n - 1)
    }
}

/// The 32 big-endian bytes of eight words.
pub open spec fn digest_bytes(hv: Seq<u32>) -> Seq<u8> {
    Seq::new(32, |i: int| ((hv[i / 4] >> ((24 - 8 * (i % 4)) as u32)) & 0xffu32) as u8)
}

/// The SHA-256 digest of `m`.
pub open spec fn sha256_spec(m: Seq<u8>) -> Seq<u8> {
    let p = padded(m);
    digest_bytes(hash_blocks(p, (p.len() / 64) as int))
}

} // verus!

verus! {

fn wadd_exec(a: u32, b: u32) -> (r: u32)
    ensures
        r == wadd(a, b),
{
    let s: u64 = a as u64 + b as u64;
    (s % 0x1_0000_0000) as u32
}

fn rotr_exec(x: u32, n: u32) -> (r: u32)
    requires
        0 < n < 32,
    ensures
        r == rotr(x, n),
{
    (x >> n) | (x << (32 - n))
}

fn big_sigma0_exec(x: u32) -> (r: u32)
    ensures
        r == big_sigma0(x),
{
    rotr_exec(x, 2) ^ rotr_exec(x, 13) ^ rotr_exec(x, 22)
}

fn big_sigma1_exec(x: u32) -> (r: u32)
    ensures
        r == big_sigma1(x),
{
    rotr_exec(x, 6) ^ rotr_exec(x, 11) ^ rotr_exec(x, 25)
}

fn small_sigma0_exec(x: u32) -> (r: u32)
    ensures
        r == small_sigma0(x),
{
    rotr_exec(x, 7) ^ rotr_exec(x, 18) ^ (x >> 3)
}

fn small_sigma1_exec(x: u32) -> (r: u32)
    ensures
        r == small_sigma1(x),
{
    rotr_exec(x, 17) ^ rotr_exec(x, 19) ^ (x >> 10)
}

fn round_constants_exec() -> (r: Vec<u32>)
    ensures
        r@ == round_constants(),
{
    let r = vec![
        0x428a2f98u32, 0x71374491, 0xb5c0fbcf, 0xe9b5dba5, 0x3956c25b, 0x59f111f1, 0x923f82a4, 0xab1c5ed5,
        0xd807aa98, 0x12835b01, 0x243185be, 0x550c7dc3, 0x72be5d74, 0x80deb1fe, 0x9bdc06a7, 0xc19bf174,
        0xe49b69c1, 0xefbe4786, 0x0fc19dc6, 0x240ca1cc, 0x2de92c6f, 0x4a7484aa, 0x5cb0a9dc, 0x76f988da,
        0x983e5152, 0xa831c66d, 0xb00327c8, 0xbf597fc7, 0xc6e00bf3, 0xd5a79147, 0x06ca6351, 0x14292967,
        0x27b70a85, 0x2e1b2138, 0x4d2c6dfc, 0x53380d13, 0x650a7354, 0x766a0abb, 0x81c2c92e, 0x92722c85,
        0xa2bfe8a1, 0xa81a664b, 0xc24b8b70, 0xc76c51a3, 0xd192e819, 0xd6990624, 0xf40e3585, 0x106aa070,
        0x19a4c116, 0x1e376c08, 0x2748774c, 0x34b0bcb5, 0x391c0cb3, 0x4ed8aa4a, 0x5b9cca4f, 0x682e6ff3,
        0x748f82ee, 0x78a5636f, 0x84c87814, 0x8cc70208, 0x90befffa, 0xa4506ceb, 0xbef9a3f7, 0xc67178f2,
    ];
    proof {
        assert(r@ =~= round_constants());
    }
    r
}

/// The padded message.
fn pad(m: &[u8]) -> (p: Vec<u8>)
    ensures
        p@ == padded(m@),
        p@.len() % 64 == 0,
{
    let n = m.len();
    let mut out: Vec<u8> = Vec::new();
    let mut i: usize = 0;
    while i < n
        invariant
            i <= n == m@.len(),
            out@ == m@.take(i as int),
        decreases n - i,
    {
        out.push(m[i]);
        proof {
            assert(m@.take(i + 1) =~= m@.take(i as int).push(m@[i as int]));
        }
        i += 1;
    }
    proof {
        assert(m@.take(n as int) =~= m@);
    }
    out.push(0x80u8);
    let z: usize = (64 + 55 - (n % 64)) % 64;
    let ghost base = out@;
    let mut j: usize = 0;
    while j < z
        invariant
            j <= z,
            out@ == base + Seq::new(j as nat, |x: int| 0u8),
        decreases z - j,
    {
        out.push(0u8);
        proof {
            assert(out@ =~= base + Seq::new((j + 1) as nat, |x: int| 0u8));
        }
        j += 1;
    }
    let bits: u64 = ((n as u128 * 8) % 0x1_0000_0000_0000_0000) as u64;
    let ghost mid = out@;
    let mut k: usize = 0;
    while k < 8
        invariant
            k <= 8,
            out@ == mid + be64(bits).take(k as int),
        decreases 8 - k,
    {
        let shift: u64 = 56 - 8 * (k as u64);
        out.push(((bits >> shift) & 0xff) as u8);
        proof {
            assert(be64(bits).take(k + 1) =~= be64(bits).take(k as int).push(be64(bits)[k as int]));
        }
        k += 1;
    }
    proof {
        assert(be64(bits).take(8) =~= be64(bits));
        assert(out@ =~= padded(m@));
    }
    out
}

fn word_exec(p: &Vec<u8>, b: usize, t: usize) -> (r: u32)
    requires
        t < 16,
        64 * b + 64 <= p@.len(),
    ensures
        r == word(p@, b as int, t as int),
{
    let n = p.len();
    let o = 64 * b + 4 * t;
    ((p[o] as u32) << 24) | ((p[o + 1] as u32) << 16) | ((p[o + 2] as u32) << 8) | (p[o + 3] as u32)
}

fn round_exec(s: Working, w: u32, k: u32) -> (r: Working)
    ensures
        r == round(s, w, k),
{
    let t1 = wadd_exec(wadd_exec(wadd_exec(s.h, big_sigma1_exec(s.e)), wadd_exec((s.e & s.f) ^ (!s.e & s.g), k)), w);
    let t2 = wadd_exec(big_sigma0_exec(s.a), (s.a & s.b) ^ (s.a & s.c) ^ (s.b & s.c));
    Working { a: wadd_exec(t1, t2), b: s.a, c: s.b, d: s.c, e: wadd_exec(s.d, t1), f: s.e, g: s.f, h: s.g }
}

/// The SHA-256 digest of `input`.
pub fn sha256(input: &[u8]) -> (r: [u8; 32])
    ensures
        r@ == sha256_spec(input@),
{
    let p = pad(input);
    let nblocks = p.len() / 64;
    let k = round_constants_exec();
    let mut hv: Vec<u32> = vec![0x6a09e667u32, 0xbb67ae85, 0x3c6ef372, 0xa54ff53a, 0x510e527f, 0x9b05688c, 0x1f83d9ab, 0x5be0cd19];
    proof {
        assert(hv@ =~= initial_hash());
    }
    let mut b: usize = 0;
    while b < nblocks
        invariant
            b <= nblocks,
            nblocks == p@.len() / 64,
            p@.len() % 64 == 0,
            k@ == round_constants(),
            hv@.len() == 8,
            hv@ == hash_blocks(p@, b as int),
        decreases nblocks - b,
    {
        let mut w: Vec<u32> = Vec::new();
        let mut t: usize = 0;
        while t < 64
            invariant
                t <= 64,
                b < nblocks,
                nblocks == p@.len() / 64,
                p@.len() % 64 == 0,
                w@.len() == t,
                forall|j: int| 0 <= j < t ==> w@[j] == schedule(p@, b as int, j),
            decreases 64 - t,
        {
            let x = if t < 16 {
                word_exec(&p, b, t)
            } else {
                wadd_exec(
                    wadd_exec(small_sigma1_exec(w[t - 2]), w[t - 7]),
                    wadd_exec(small_sigma0_exec(w[t - 15]), w[t - 16]),
                )
            };
            w.push(x);
            t += 1;
        }
        let mut st = Working { a: hv[0], b: hv[1], c: hv[2], d: hv[3], e: hv[4], f: hv[5], g: hv[6], h: hv[7] };
        let mut t: usize = 0;
        while t < 64
            invariant
                t <= 64,
                w@.len() == 64,
                k@ == round_constants(),
                hv@.len() == 8,
                forall|j: int| 0 <= j < 64 ==> w@[j] == schedule(p@, b as int, j),
                st == rounds(hv@, p@, b as int, t as int),
            decreases 64 - t,
        {
            st = round_exec(st, w[t], k[t]);
            t += 1;
        }
        let next = vec![
            wadd_exec(hv[0], st.a), wadd_exec(hv[1], st.b), wadd_exec(hv[2], st.c), wadd_exec(hv[3], st.d),
            wadd_exec(hv[4], st.e), wadd_exec(hv[5], st.f), wadd_exec(hv[6], st.g), wadd_exec(hv[7], st.h),
        ];
        proof {
            assert(next@ =~= compress(hv@, p@, b as int));
        }
        hv = next;
        b += 1;
    }
    let mut out = [0u8; 32];
    let mut i: usize = 0;
    while i < 32
        invariant
            i <= 32,
            hv@.len() == 8,
            forall|j: int| 0 <= j < i ==> out@[j] == digest_bytes(hv@)[j],
        decreases 32 - i,
    {
        let shift: u32 = 24 - 8 * ((i % 4) as u32);
        out[i] = ((hv[i / 4] >> shift) & 0xff) as u8;
        i += 1;
    }
    proof {
        assert(out@ =~= digest_bytes(hv@));
    }
    out
}

/// The hash that binds compiled output to its source: SHA-256 over the raw
/// source bytes.
pub fn sha256_source(input: &[u8]) -> (r: [u8; 32])
    ensures
        r@ == sha256_spec(input@),
{
    sha256(input)
}

} // verus!
