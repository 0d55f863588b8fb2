//! SHA-256, as FIPS 180-4 defines it.
use vstd::prelude::*;
use crate::bytes;

verus! {

broadcast use vstd::slice::group_slice_axioms;

/// The eight initial hash values.
pub const H0: [u32; 8] = [
    0x6a09e667, 0xbb67ae85, 0x3c6ef372, 0xa54ff53a, 0x510e527f, 0x9b05688c, 0x1f83d9ab, 0x5be0cd19,
];

/// The round constants.
pub const K: [u32; 64] = [
    0x428a2f98, 0x71374491, 0xb5c0fbcf, 0xe9b5dba5, 0x3956c25b, 0x59f111f1, 0x923f82a4, 0xab1c5ed5,
    0xd807aa98, 0x12835b01, 0x243185be, 0x550c7dc3, 0x72be5d74, 0x80deb1fe, 0x9bdc06a7, 0xc19bf174,
    0xe49b69c1, 0xefbe4786, 0x0fc19dc6, 0x240ca1cc, 0x2de92c6f, 0x4a7484aa, 0x5cb0a9dc, 0x76f988da,
    0x983e5152, 0xa831c66d, 0xb00327c8, 0xbf597fc7, 0xc6e00bf3, 0xd5a79147, 0x06ca6351, 0x14292967,
    0x27b70a85, 0x2e1b2138, 0x4d2c6dfc, 0x53380d13, 0x650a7354, 0x766a0abb, 0x81c2c92e, 0x92722c85,
    0xa2bfe8a1, 0xa81a664b, 0xc24b8b70, 0xc76c51a3, 0xd192e819, 0xd6990624, 0xf40e3585, 0x106aa070,
    0x19a4c116, 0x1e376c08, 0x2748774c, 0x34b0bcb5, 0x391c0cb3, 0x4ed8aa4a, 0x5b9cca4f, 0x682e6ff3,
    0x748f82ee, 0x78a5636f, 0x84c87814, 0x8cc70208, 0x90befffa, 0xa4506ceb, 0xbef9a3f7, 0xc67178f2,
];

// ---------------------------------------------------------------------
// The standard
// ---------------------------------------------------------------------

/// Rotation to the right within 32 bits.
pub open spec fn rotr(x: u32, n: u32) -> u32 {
    (x >> n) | (x << ((32 - n) as u32))
}

/// Addition modulo 2^32.
pub open spec fn plus(x: u32, y: u32) -> u32 {
    if x + y > u32::MAX {
        (x + y - 0x1_0000_0000) as u32
    } else {
        (x + y) as u32
    }
}

/// `Ch`.
pub open spec fn choice(x: u32, y: u32, z: u32) -> u32 {
    (x & y) ^ (!x & z)
}

/// `Maj`.
pub open spec fn majority(x: u32, y: u32, z: u32) -> u32 {
    (x & y) ^ (x & z) ^ (y & z)
}

/// `Sigma0`.
pub open spec fn big_sigma0(x: u32) -> u32 {
    rotr(x, 2) ^ rotr(x, 13) ^ rotr(x, 22)
}

/// `Sigma1`.
pub open spec fn big_sigma1(x: u32) -> u32 {
    rotr(x, 6) ^ rotr(x, 11) ^ rotr(x, 25)
}

/// `sigma0`.
pub open spec fn small_sigma0(x: u32) -> u32 {
    rotr(x, 7) ^ rotr(x, 18) ^ (x >> 3)
}

/// `sigma1`.
pub open spec fn small_sigma1(x: u32) -> u32 {
    rotr(x, 17) ^ rotr(x, 19) ^ (x >> 10)
}

/// The 32-bit big-endian number at `at`.
pub open spec fn be32(s: Seq<u8>, at: int) -> u32 {
    (0x100_0000 * s[at] + 0x1_0000 * s[at + 1] + 0x100 * s[at + 2] + s[at + 3]) as u32
}

/// The message schedule up to, and without, word `n`.
pub open spec fn schedule(block: Seq<u8>, n: int) -> Seq<u32>
    decreases n,
{
    if n <= 0 {
        Seq::empty()
    } else {
        let w = schedule(block, n - 1);
        let t = n - 1;
        if t < 16 {
            w.push(be32(block, 4 * t))
        } else {
            w.push(
                plus(plus(plus(w[t - 16], small_sigma0(w[t - 15])), w[t - 7]), small_sigma1(w[t - 2])),
            )
        }
    }
}

/// The eight working variables.
pub struct Working {
    pub a: u32,
    pub b: u32,
    pub c: u32,
    pub d: u32,
    pub e: u32,
    pub f: u32,
    pub g: u32,
    pub h: u32,
}

/// One round with schedule word `w` and constant `k`.
pub open spec fn round(v: Working, k: u32, w: u32) -> Working {
    let temp1 = plus(plus(plus(plus(v.h, big_sigma1(v.e)), choice(v.e, v.f, v.g)), k), w);
    let temp2 = plus(big_sigma0(v.a), majority(v.a, v.b, v.c));
    Working {
        a: plus(temp1, temp2),
        b: v.a,
        c: v.b,
        d: v.c,
        e: plus(v.d, temp1),
        f: v.e,
        g: v.f,
        h: v.g,
    }
}

/// The first `n` rounds.
pub open spec fn rounds(v: Working, w: Seq<u32>, n: int) -> Working
    decreases n,
{
    if n <= 0 {
        v
    } else {
        round(rounds(v, w, n - 1), K@[n - 1], w[n - 1])
    }
}

/// A hash value as working variables.
pub open spec fn working(state: Seq<u32>) -> Working {
    Working {
        a: state[0],
        b: state[1],
        c: state[2],
        d: state[3],
        e: state[4],
        f: state[5],
        g: state[6],
        h: state[7],
    }
}

/// The hash value after one more 64-byte block.
pub open spec fn compressed(state: Seq<u32>, block: Seq<u8>) -> Seq<u32> {
    let v = rounds(working(state), schedule(block, 64), 64);
    seq![
        plus(state[0], v.a),
        plus(state[1], v.b),
        plus(state[2], v.c),
        plus(state[3], v.d),
        plus(state[4], v.e),
        plus(state[5], v.f),
        plus(state[6], v.g),
        plus(state[7], v.h),
    ]
}

/// The hash value after all whole blocks of `data`.
#[verifier::opaque]
pub open spec fn absorbed(state: Seq<u32>, data: Seq<u8>) -> Seq<u32>
    decreases data.len(),
{
    if data.len() < 64 {
        state
    } else {
        absorbed(
            compressed(state, data.subrange(0, 64)),
            data.subrange(64, data.len() as int),
        )
    }
}

/// How many zero bytes the padding of a message of `len` bytes has.
pub open spec fn zero_count(len: int) -> int {
    (55 - len) % 64
}

/// Big-endian bytes of a 64-bit number.
pub open spec fn be64_bytes(x: u64) -> Seq<u8> {
    Seq::new(8, |i: int| bytes::le_byte(x as int, 7 - i))
}

/// A message's length in bits, as its padding records it.
pub open spec fn bit_length(len: int) -> u64 {
    (len * 8 % 0x1_0000_0000_0000_0000) as u64
}

/// A message with its padding: a one bit, zeros, and its length.
pub open spec fn padded(message: Seq<u8>) -> Seq<u8> {
    message.push(0x80) + Seq::new(zero_count(message.len() as int) as nat, |i: int| 0u8)
        + be64_bytes(bit_length(message.len() as int))
}

/// A hash value as bytes.
pub open spec fn digest_bytes(state: Seq<u32>) -> Seq<u8> {
    Seq::new(32, |i: int| bytes::le_byte(state[i / 4] as int, 3 - i % 4))
}

/// The zeros are as many as it takes to leave eight bytes of a block.
proof fn lemma_zero_count(len: int, n: int)
    requires
        0 <= n <= zero_count(len),
    ensures
        (len + 1 + n) % 64 == 56 <==> n == zero_count(len),
        (len + 1 + zero_count(len) + 8) % 64 == 0,
{
}

/// The SHA-256 digest of a message.
pub open spec fn sha256(message: Seq<u8>) -> Seq<u8> {
    digest_bytes(absorbed(H0@, padded(message)))
}

// ---------------------------------------------------------------------
// The computation
// ---------------------------------------------------------------------

/// A running computation. Incremental, because a package's digest covers
/// several separate regions.
pub struct Sha256 {
    state: [u32; 8],
    /// Partial block, for input that does not arrive in 64-byte pieces.
    buffer: [u8; 64],
    buffered: usize,
    /// Total input length in bits, which is what the padding encodes.
    length_bits: u64,
    /// Everything fed in so far.
    fed: Ghost<Seq<u8>>,
}

impl View for Sha256 {
    type V = Seq<u8>;

    /// The message so far.
    closed spec fn view(&self) -> Seq<u8> {
        self.fed@
    }
}

fn rotate_right(x: u32, n: u32) -> (r: u32)
    requires
        0 < n < 32,
    ensures
        r == rotr(x, n),
{
    (x >> n) | (x << (32 - n))
}

fn word_at(block: &[u8], at: usize) -> (w: u32)
    requires
        at + 4 <= block.len(),
    ensures
        w == be32(block@, at as int),
{
    0x100_0000 * (block[at] as u32) + 0x1_0000 * (block[at + 1] as u32) + 0x100 * (block[at
        + 2] as u32) + block[at + 3] as u32
}

proof fn lemma_schedule_len(block: Seq<u8>, n: int)
    requires
        n >= 0,
    ensures
        schedule(block, n).len() == n,
    decreases n,
{
    if n > 0 {
        lemma_schedule_len(block, n - 1);
    }
}

fn expand(block: &[u8]) -> (w: Vec<u32>)
    requires
        block.len() == 64,
    ensures
        w@ == schedule(block@, 64),
        w.len() == 64,
{
    let mut w: Vec<u32> = Vec::new();
    let mut t: usize = 0;
    while t < 16
        invariant
            t <= 16,
            block.len() == 64,
            w.len() == t,
            w@ == schedule(block@, t as int),
        decreases 16 - t,
    {
        w.push(word_at(block, 4 * t));
        t += 1;
    }
    while t < 64
        invariant
            16 <= t <= 64,
            w.len() == t,
            w@ == schedule(block@, t as int),
        decreases 64 - t,
    {
        let x: u32 = w[t - 15];
        let y: u32 = w[t - 2];
        let s0: u32 = rotate_right(x, 7) ^ rotate_right(x, 18) ^ (x >> 3);
        let s1: u32 = rotate_right(y, 17) ^ rotate_right(y, 19) ^ (y >> 10);
        let next: u32 = w[t - 16].wrapping_add(s0).wrapping_add(w[t - 7]).wrapping_add(s1);
        w.push(next);
        t += 1;
    }
    w
}

fn compress(state: &[u32; 8], block: &[u8]) -> (out: [u32; 8])
    requires
        block.len() == 64,
    ensures
        out@ == compressed(state@, block@),
{
    let w: Vec<u32> = expand(block);
    let k: [u32; 64] = K;
    let mut a: u32 = state[0];
    let mut b: u32 = state[1];
    let mut c: u32 = state[2];
    let mut d: u32 = state[3];
    let mut e: u32 = state[4];
    let mut f: u32 = state[5];
    let mut g: u32 = state[6];
    let mut h: u32 = state[7];
    let mut t: usize = 0;
    while t < 64
        invariant
            t <= 64,
            w.len() == 64,
            w@ == schedule(block@, 64),
            k == K,
            (Working { a, b, c, d, e, f, g, h }) == rounds(working(state@), w@, t as int),
        decreases 64 - t,
    {
        let s1: u32 = rotate_right(e, 6) ^ rotate_right(e, 11) ^ rotate_right(e, 25);
        let ch: u32 = (e & f) ^ (!e & g);
        let temp1: u32 = h.wrapping_add(s1).wrapping_add(ch).wrapping_add(k[t]).wrapping_add(w[t]);
        let s0: u32 = rotate_right(a, 2) ^ rotate_right(a, 13) ^ rotate_right(a, 22);
        let maj: u32 = (a & b) ^ (a & c) ^ (b & c);
        let temp2: u32 = s0.wrapping_add(maj);
        h = g;
        g = f;
        f = e;
        e = d.wrapping_add(temp1);
        d = c;
        c = b;
        b = a;
        a = temp1.wrapping_add(temp2);
        t += 1;
    }
    let out: [u32; 8] = [
        state[0].wrapping_add(a),
        state[1].wrapping_add(b),
        state[2].wrapping_add(c),
        state[3].wrapping_add(d),
        state[4].wrapping_add(e),
        state[5].wrapping_add(f),
        state[6].wrapping_add(g),
        state[7].wrapping_add(h),
    ];
    assert(out@ =~= compressed(state@, block@));
    out
}

/// One more block is absorbed last.
proof fn lemma_absorb_block(state: Seq<u32>, data: Seq<u8>, block: Seq<u8>)
    requires
        data.len() % 64 == 0,
        block.len() == 64,
    ensures
        absorbed(state, data + block) == compressed(absorbed(state, data), block),
    decreases data.len(),
{
    reveal(absorbed);
    let all = data + block;
    if data.len() == 0 {
        assert(all.subrange(0, 64) =~= block);
        assert(absorbed(compressed(state, block), all.subrange(64, all.len() as int))
            == compressed(state, block));
    } else {
        let first = data.subrange(0, 64);
        let rest = data.subrange(64, data.len() as int);
        assert(all.subrange(0, 64) =~= first);
        assert(all.subrange(64, all.len() as int) =~= rest + block);
        lemma_absorb_block(compressed(state, first), rest, block);
    }
}

/// The part of a message that makes up whole blocks.
pub open spec fn whole_blocks(message: Seq<u8>) -> Seq<u8> {
    message.subrange(0, message.len() - message.len() % 64)
}

impl Sha256 {
    /// The state is that of the whole blocks fed in, the buffer holds the
    /// rest, and the length is the message's.
    pub closed spec fn wf(&self) -> bool {
        let m = self.fed@;
        &&& self.buffered == m.len() % 64
        &&& self.state@ == absorbed(H0@, whole_blocks(m))
        &&& forall|i: int|
            0 <= i < self.buffered ==> self.buffer@[i] == m[m.len() - self.buffered + i]
        &&& self.length_bits == bit_length(m.len() as int)
    }

    /// A computation over no input yet.
    pub fn new() -> (r: Sha256)
        ensures
            r.wf(),
            r@ == Seq::<u8>::empty(),
    {
        let r = Sha256 {
            state: H0,
            buffer: [0; 64],
            buffered: 0,
            length_bits: 0,
            fed: Ghost(Seq::empty()),
        };
        assert(whole_blocks(Seq::<u8>::empty()) =~= Seq::<u8>::empty());
        reveal(absorbed);
        r
    }

    /// Feeds `data` in.
    pub fn update(&mut self, data: &[u8])
        requires
            old(self).wf(),
        ensures
            final(self).wf(),
            final(self)@ == old(self)@ + data@,
    {
        let ghost start = self.fed@;
        let ghost bits = self.length_bits;
        self.length_bits = self.length_bits.wrapping_add((data.len() as u64).wrapping_mul(8));
        let total: u64 = self.length_bits;
        proof {
            lemma_bit_length(start.len() as int, data@.len() as int, bits, data.len() as u64);
        }
        let mut at: usize = 0;
        assert(data@.subrange(0, 0) =~= Seq::<u8>::empty());
        assert(start + data@.subrange(0, 0) =~= start);
        while at < data.len()
            invariant
                at <= data.len(),
                self.length_bits == total,
                total == bit_length((start.len() + data@.len()) as int),
                self.fed@ == start + data@.subrange(0, at as int),
                self.buffered == self.fed@.len() % 64,
                self.buffered < 64,
                self.state@ == absorbed(H0@, whole_blocks(self.fed@)),
                forall|i: int|
                    0 <= i < self.buffered ==> self.buffer@[i] == self.fed@[self.fed@.len()
                        - self.buffered + i],
            decreases data.len() - at,
        {
            let ghost before = self.fed@;
            if self.buffered == 0 && data.len() - at >= 64 {
                let block: &[u8] = vstd::slice::slice_subrange(data, at, at + 64);
                self.state = compress(&self.state, block);
                self.fed = Ghost(before + block@);
                proof {
                    lemma_absorb_block(H0@, before, block@);
                    assert(whole_blocks(before) =~= before);
                    assert(whole_blocks(before + block@) =~= before + block@);
                    assert(self.fed@ =~= start + data@.subrange(0, at + 64));
                }
                at += 64;
            } else {
                let room: usize = 64 - self.buffered;
                let left: usize = data.len() - at;
                let want: usize = if room <= left {
                    room
                } else {
                    left
                };
                self.take(data, at, want);
                at += want;
                assert(self.fed@ =~= start + data@.subrange(0, at as int));
            }
        }
        assert(data@.subrange(0, at as int) =~= data@);
    }

    /// Moves `want` bytes of `data` into the partial block, and compresses
    /// it once it is full.
    fn take(&mut self, data: &[u8], at: usize, want: usize)
        requires
            old(self).buffered < 64,
            0 < want <= 64 - old(self).buffered,
            at + want <= data.len(),
            old(self).buffered == old(self).fed@.len() % 64,
            old(self).state@ == absorbed(H0@, whole_blocks(old(self).fed@)),
            forall|i: int|
                0 <= i < old(self).buffered ==> old(self).buffer@[i]
                    == old(self).fed@[old(self).fed@.len() - old(self).buffered + i],
        ensures
            final(self).length_bits == old(self).length_bits,
            final(self).fed@ == old(self).fed@ + data@.subrange(at as int, at + want),
            final(self).buffered == final(self).fed@.len() % 64,
            final(self).buffered < 64,
            final(self).state@ == absorbed(H0@, whole_blocks(final(self).fed@)),
            forall|i: int|
                0 <= i < final(self).buffered ==> final(self).buffer@[i]
                    == final(self).fed@[final(self).fed@.len() - final(self).buffered + i],
    {
        let ghost before = self.fed@;
        let ghost old_buffer = self.buffer@;
        let base: usize = self.buffered;
        let mut i: usize = 0;
        while i < want
            invariant
                i <= want,
                base + want <= 64,
                at + want <= data.len(),
                base == old(self).buffered,
                self.buffered == base,
                self.length_bits == old(self).length_bits,
                self.state@ == old(self).state@,
                self.fed@ == before,
                old_buffer == old(self).buffer@,
                forall|j: int| 0 <= j < base ==> self.buffer@[j] == old_buffer[j],
                forall|j: int| base <= j < base + i ==> self.buffer@[j] == data@[at + (j - base)],
            decreases want - i,
        {
            self.buffer[base + i] = data[at + i];
            i += 1;
        }
        let ghost more = before + data@.subrange(at as int, at + want);
        self.fed = Ghost(more);
        self.buffered = base + want;
        proof {
            assert forall|j: int| 0 <= j < self.buffered implies self.buffer@[j] == more[more.len()
                - self.buffered + j] by {
                if j < base {
                    assert(old_buffer[j] == before[before.len() - base + j]);
                }
            }
        }
        if self.buffered == 64 {
            let block: &[u8] = self.buffer.as_slice();
            proof {
                let whole = whole_blocks(before);
                assert(more =~= whole + block@) by {
                    assert forall|j: int| 0 <= j < more.len() implies more[j] == (whole
                        + block@)[j] by {
                        if j >= whole.len() {
                            assert(block@[j - whole.len()] == more[more.len() - 64 + (j
                                - whole.len())]);
                        }
                    }
                }
                lemma_absorb_block(H0@, whole, block@);
                assert(whole_blocks(more) =~= more);
            }
            self.state = compress(&self.state, block);
            self.buffered = 0;
        } else {
            assert(whole_blocks(more) =~= whole_blocks(before));
        }
    }

    /// Finishes and returns the 32-byte digest.
    #[verifier::spinoff_prover]
    #[verifier::rlimit(60)]
    pub fn finish(self) -> (digest: [u8; 32])
        requires
            self.wf(),
        ensures
            digest@ == sha256(self@),
    {
        let mut hasher = self;
        let ghost message = hasher@;
        let length_bits: u64 = hasher.length_bits;
        let one: [u8; 1] = [0x80];
        let zero: [u8; 1] = [0];
        hasher.update(one.as_slice());
        assert(hasher@ =~= message.push(0x80));
        let ghost z = zero_count(message.len() as int);
        assert(zero@ =~= seq![0u8]);
        let ghost mut n: int = 0;
        assert(hasher@ =~= message.push(0x80) + Seq::new(0, |i: int| 0u8));
        while hasher.buffered != 56
            invariant
                hasher.wf(),
                zero@ == seq![0u8],
                z == zero_count(message.len() as int),
                0 <= n <= z,
                hasher@ == message.push(0x80) + Seq::new(n as nat, |i: int| 0u8),
            decreases z - n,
        {
            proof {
                assert(hasher@.len() == message.len() + 1 + n);
                lemma_zero_count(message.len() as int, n);
            }
            hasher.update(zero.as_slice());
            proof {
                n = n + 1;
                assert(hasher@ =~= message.push(0x80) + Seq::new(n as nat, |i: int| 0u8));
            }
        }
        proof {
            lemma_zero_count(message.len() as int, n);
        }
        let tail: Vec<u8> = u64_be_bytes(length_bits);
        hasher.update(tail.as_slice());
        proof {
            assert(hasher@ =~= padded(message));
            assert(hasher@.len() % 64 == 0);
            assert(whole_blocks(hasher@) =~= hasher@);
        }
        state_bytes(&hasher.state)
    }
}

impl Default for Sha256 {
    fn default() -> (r: Self)
        ensures
            r.wf(),
            r@ == Seq::<u8>::empty(),
    {
        Sha256::new()
    }
}

proof fn lemma_bit_length(before: int, more: int, bits: u64, n: u64)
    requires
        bits == bit_length(before),
        before >= 0,
        n == more,
    ensures
        (bits as u64).wrapping_add(n.wrapping_mul(8)) == bit_length(before + more),
{
    let m = 0x1_0000_0000_0000_0000int;
    let q = before * 8 / m;
    assert(before * 8 == q * m + bits) by {
        vstd::arithmetic::div_mod::lemma_fundamental_div_mod(before * 8, m);
        assert(m * q == q * m) by (nonlinear_arith);
    }
    let p = n * 8 / m;
    let r = n * 8 % m;
    assert(n.wrapping_mul(8) == r);
    assert(n * 8 == p * m + r) by {
        vstd::arithmetic::div_mod::lemma_fundamental_div_mod(n * 8, m);
        assert(m * p == p * m) by (nonlinear_arith);
    }
    assert((before + more) * 8 == (q + p) * m + (bits + r)) by (nonlinear_arith)
        requires
            before * 8 == q * m + bits,
            n * 8 == p * m + r,
            n == more,
    ;
    if bits + r >= m {
        assert((before + more) * 8 == (q + p + 1) * m + (bits + r - m)) by (nonlinear_arith)
            requires
                (before + more) * 8 == (q + p) * m + (bits + r),
        ;
        vstd::arithmetic::div_mod::lemma_fundamental_div_mod_converse(
            (before + more) * 8,
            m,
            q + p + 1,
            bits + r - m,
        );
    } else {
        vstd::arithmetic::div_mod::lemma_fundamental_div_mod_converse(
            (before + more) * 8,
            m,
            q + p,
            bits + r,
        );
    }
}

fn u64_be_bytes(x: u64) -> (out: Vec<u8>)
    ensures
        out@ == be64_bytes(x),
{
    let mut out: Vec<u8> = Vec::new();
    out.push((x / 0x100_0000_0000_0000 % 0x100) as u8);
    out.push((x / 0x1_0000_0000_0000 % 0x100) as u8);
    out.push((x / 0x100_0000_0000 % 0x100) as u8);
    out.push((x / 0x1_0000_0000 % 0x100) as u8);
    out.push((x / 0x100_0000 % 0x100) as u8);
    out.push((x / 0x1_0000 % 0x100) as u8);
    out.push((x / 0x100 % 0x100) as u8);
    out.push((x % 0x100) as u8);
    assert(out@ =~= be64_bytes(x));
    out
}

fn state_bytes(state: &[u32; 8]) -> (digest: [u8; 32])
    ensures
        digest@ == digest_bytes(state@),
{
    let mut digest: [u8; 32] = [0; 32];
    let mut i: usize = 0;
    while i < 8
        invariant
            i <= 8,
            forall|j: int| 0 <= j < 4 * i ==> digest@[j] == digest_bytes(state@)[j],
        decreases 8 - i,
    {
        let word: u32 = state[i];
        digest[4 * i] = (word / 0x100_0000 % 0x100) as u8;
        digest[4 * i + 1] = (word / 0x1_0000 % 0x100) as u8;
        digest[4 * i + 2] = (word / 0x100 % 0x100) as u8;
        digest[4 * i + 3] = (word % 0x100) as u8;
        assert forall|j: int| 0 <= j < 4 * (i + 1) implies digest@[j] == digest_bytes(
            state@,
        )[j] by {
            if j >= 4 * i {
                assert(j / 4 == i);
                assert(j % 4 == j - 4 * i);
            }
        }
        i += 1;
    }
    assert(digest@ =~= digest_bytes(state@));
    digest
}

/// The digest of `data`.
pub fn digest(data: &[u8]) -> (r: [u8; 32])
    ensures
        r@ == sha256(data@),
{
    let mut hasher = Sha256::new();
    hasher.update(data);
    assert(hasher@ =~= data@);
    hasher.finish()
}

/// Compares two digests without an early exit.
pub fn digests_equal(a: &[u8; 32], b: &[u8; 32]) -> (same: bool)
    ensures
        same == (a@ == b@),
{
    let mut difference: u8 = 0;
    let mut i: usize = 0;
    while i < 32
        invariant
            i <= 32,
            difference == 0 <==> forall|j: int| 0 <= j < i ==> a@[j] == b@[j],
        decreases 32 - i,
    {
        let x: u8 = a[i];
        let y: u8 = b[i];
        let d: u8 = difference;
        assert((d | (x ^ y)) == 0 <==> d == 0 && x == y) by (bit_vector);
        difference = d | (x ^ y);
        i += 1;
    }
    proof {
        if difference == 0 {
            assert(a@ =~= b@);
        }
    }
    difference == 0
}

/// The message "abc" and its digest.
pub open spec fn vector_abc() -> (Seq<u8>, Seq<u8>) {
    (
        seq![0x61, 0x62, 0x63],
        seq![
            0xba, 0x78, 0x16, 0xbf, 0x8f, 0x01, 0xcf, 0xea, 0x41, 0x41, 0x40, 0xde, 0x5d, 0xae,
            0x22, 0x23, 0xb0, 0x03, 0x61, 0xa3, 0x96, 0x17, 0x7a, 0x9c, 0xb4, 0x10, 0xff, 0x61,
            0xf2, 0x00, 0x15, 0xad,
        ],
    )
}

/// The empty message's digest: padding with no message at all.
pub open spec fn vector_empty() -> Seq<u8> {
    seq![
        0xe3, 0xb0, 0xc4, 0x42, 0x98, 0xfc, 0x1c, 0x14, 0x9a, 0xfb, 0xf4, 0xc8, 0x99, 0x6f, 0xb9,
        0x24, 0x27, 0xae, 0x41, 0xe4, 0x64, 0x9b, 0x93, 0x4c, 0xa4, 0x95, 0x99, 0x1b, 0x78, 0x52,
        0xb8, 0x55,
    ]
}

/// A 56-byte message, the length at which padding takes a second block,
/// and its digest.
pub open spec fn vector_two_block() -> (Seq<char>, Seq<u8>) {
    (
        "abcdbcdecdefdefgefghfghighijhijkijkljklmklmnlmnomnopnopq"@,
        seq![
            0x24, 0x8d, 0x6a, 0x61, 0xd2, 0x06, 0x38, 0xb8, 0xe5, 0xc0, 0x26, 0x93, 0x0c, 0x3e,
            0x60, 0x39, 0xa3, 0x3c, 0xe4, 0x59, 0x64, 0xff, 0x21, 0x67, 0xf6, 0xec, 0xed, 0xd4,
            0x19, 0xdb, 0x06, 0xc1,
        ],
    )
}

/// Checks the computation against the standard's own test vectors.
pub fn selftest_vectors() -> (ok: bool)
    ensures
        ok == (sha256(vector_abc().0) == vector_abc().1 && sha256(Seq::empty()) == vector_empty()
            && sha256(vstd::utf8::encode_utf8(vector_two_block().0)) == vector_two_block().1),
{
    let abc: [u8; 3] = [0x61, 0x62, 0x63];
    let expected_abc: [u8; 32] = [
        0xba, 0x78, 0x16, 0xbf, 0x8f, 0x01, 0xcf, 0xea, 0x41, 0x41, 0x40, 0xde, 0x5d, 0xae, 0x22,
        0x23, 0xb0, 0x03, 0x61, 0xa3, 0x96, 0x17, 0x7a, 0x9c, 0xb4, 0x10, 0xff, 0x61, 0xf2, 0x00,
        0x15, 0xad,
    ];
    let empty: [u8; 0] = [];
    let expected_empty: [u8; 32] = [
        0xe3, 0xb0, 0xc4, 0x42, 0x98, 0xfc, 0x1c, 0x14, 0x9a, 0xfb, 0xf4, 0xc8, 0x99, 0x6f, 0xb9,
        0x24, 0x27, 0xae, 0x41, 0xe4, 0x64, 0x9b, 0x93, 0x4c, 0xa4, 0x95, 0x99, 0x1b, 0x78, 0x52,
        0xb8, 0x55,
    ];
    let two_block: &str = "abcdbcdecdefdefgefghfghighijhijkijkljklmklmnlmnomnopnopq";
    let expected_two_block: [u8; 32] = [
        0x24, 0x8d, 0x6a, 0x61, 0xd2, 0x06, 0x38, 0xb8, 0xe5, 0xc0, 0x26, 0x93, 0x0c, 0x3e, 0x60,
        0x39, 0xa3, 0x3c, 0xe4, 0x59, 0x64, 0xff, 0x21, 0x67, 0xf6, 0xec, 0xed, 0xd4, 0x19, 0xdb,
        0x06, 0xc1,
    ];
    assert(abc@ =~= vector_abc().0);
    assert(expected_abc@ =~= vector_abc().1);
    assert(empty@ =~= Seq::<u8>::empty());
    assert(expected_empty@ =~= vector_empty());
    assert(expected_two_block@ =~= vector_two_block().1);
    digests_equal(&digest(abc.as_slice()), &expected_abc) && digests_equal(
        &digest(empty.as_slice()),
        &expected_empty,
    ) && digests_equal(&digest(two_block.as_bytes()), &expected_two_block)
}

/// How a message is padded: with one bit, zeros, and its length in bits as a
/// 64-bit number, the most significant byte first, so that whole blocks of 64
/// bytes come of it, and not one more than are needed.
pub proof fn law_messages_are_padded(message: Seq<u8>, i: int)
    requires
        message.len() < 0x1000_0000_0000_0000,
    ensures
        ({
            let all = padded(message);
            let n = message.len() as int;
            let end = all.len() as int;
            &&& end % 64 == 0
            &&& n + 9 <= end < n + 9 + 64
            &&& 0 <= i < n ==> all[i] == message[i]
            &&& all[n] == 0x80
            &&& n < i < end - 8 ==> all[i] == 0
            &&& all[end - 1] + 0x100 * (all[end - 2] + 0x100 * (all[end - 3] + 0x100 * (all[end - 4]
                + 0x100 * (all[end - 5] + 0x100 * (all[end - 6] + 0x100 * (all[end - 7] + 0x100
                * all[end - 8])))))) == 8 * n
        }),
{
    let n = message.len() as int;
    let zeros = zero_count(n);
    let x = bit_length(n);
    assert(0 <= zeros < 64 && (n + 1 + zeros) % 64 == 56);
    assert(x == 8 * n);
    let all = padded(message);
    let end = all.len() as int;
    assert(end == n + 1 + zeros + 8);
    let tail = be64_bytes(x);
    assert(all[end - 1] == tail[7] && all[end - 2] == tail[6] && all[end - 3] == tail[5] && all[end
        - 4] == tail[4] && all[end - 5] == tail[3] && all[end - 6] == tail[2] && all[end - 7]
        == tail[1] && all[end - 8] == tail[0]);
    let low = bytes::le64_bytes(x);
    bytes::lemma_le64_round_trip(x);
    bytes::law_numbers_are_little_endian(low, 0);
    assert(tail[7] == low[0] && tail[6] == low[1] && tail[5] == low[2] && tail[4] == low[3]
        && tail[3] == low[4] && tail[2] == low[5] && tail[1] == low[6] && tail[0] == low[7]);
}

/// Blocks are taken in one after another, each 64 bytes, and every one of
/// them counts.
pub proof fn law_blocks_are_absorbed_in_order(state: Seq<u32>, block: Seq<u8>, rest: Seq<u8>)
    requires
        block.len() == 64,
    ensures
        absorbed(state, block + rest) == absorbed(compressed(state, block), rest),
        rest.len() < 64 ==> absorbed(state, rest) == state,
{
    reveal_with_fuel(absorbed, 2);
    let all = block + rest;
    assert(all.subrange(0, 64) =~= block);
    assert(all.subrange(64, all.len() as int) =~= rest);
}

/// A digest is the eight words of the hash value, each with its most
/// significant byte first.
pub proof fn law_digest_is_the_hash_value(state: Seq<u32>, k: int)
    requires
        state.len() == 8,
        0 <= k < 8,
    ensures
        digest_bytes(state).len() == 32,
        state[k] == 0x100_0000 * digest_bytes(state)[4 * k] + 0x1_0000 * digest_bytes(state)[4 * k
            + 1] + 0x100 * digest_bytes(state)[4 * k + 2] + digest_bytes(state)[4 * k + 3],
{
    let v = state[k] as int;
    let d = digest_bytes(state);
    assert((4 * k) / 4 == k && (4 * k + 1) / 4 == k && (4 * k + 2) / 4 == k && (4 * k + 3) / 4
        == k);
    assert(d[4 * k] == bytes::le_byte(v, 3) && d[4 * k + 1] == bytes::le_byte(v, 2) && d[4 * k + 2]
        == bytes::le_byte(v, 1) && d[4 * k + 3] == bytes::le_byte(v, 0));
    let a = v / 0x100;
    let b = v / 0x1_0000;
    let c = v / 0x100_0000;
    assert(b == a / 0x100 && c == b / 0x100);
}

} // verus!
