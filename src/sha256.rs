//! The SHA-256 message digest: padding, message schedule, and the 64-round
//! compression function, each stated as a spec function that the code follows.
use vstd::prelude::*;
use crate::error::CryptoError;

verus! {

/// 32-bit addition that wraps.
pub open spec fn add32(x: u32, y: u32) -> u32 {
    ((x + y) % 0x1_0000_0000) as u32
}

/// Rotation right by `n` bits, `0 < n < 32`.
pub open spec fn spec_rotr(x: u32, n: u32) -> u32 {
    (x >> n) | (x << ((32 - n) as u32))
}

pub open spec fn spec_ch(x: u32, y: u32, z: u32) -> u32 {
    (x & y) ^ (!x & z)
}

pub open spec fn spec_maj(x: u32, y: u32, z: u32) -> u32 {
    (x & y) ^ (x & z) ^ (y & z)
}

pub open spec fn spec_big_sigma0(x: u32) -> u32 {
    spec_rotr(x, 2) ^ spec_rotr(x, 13) ^ spec_rotr(x, 22)
}

pub open spec fn spec_big_sigma1(x: u32) -> u32 {
    spec_rotr(x, 6) ^ spec_rotr(x, 11) ^ spec_rotr(x, 25)
}

pub open spec fn spec_small_sigma0(x: u32) -> u32 {
    spec_rotr(x, 7) ^ spec_rotr(x, 18) ^ (x >> 3u32)
}

pub open spec fn spec_small_sigma1(x: u32) -> u32 {
    spec_rotr(x, 17) ^ spec_rotr(x, 19) ^ (x >> 10u32)
}

/// The 64 round constants.
pub open spec fn k_table() -> Seq<u32> {
    seq![
        0x428a2f98, 0x71374491, 0xb5c0fbcf, 0xe9b5dba5, 0x3956c25b, 0x59f111f1,
        0x923f82a4, 0xab1c5ed5, 0xd807aa98, 0x12835b01, 0x243185be, 0x550c7dc3,
        0x72be5d74, 0x80deb1fe, 0x9bdc06a7, 0xc19bf174, 0xe49b69c1, 0xefbe4786,
        0x0fc19dc6, 0x240ca1cc, 0x2de92c6f, 0x4a7484aa, 0x5cb0a9dc, 0x76f988da,
        0x983e5152, 0xa831c66d, 0xb00327c8, 0xbf597fc7, 0xc6e00bf3, 0xd5a79147,
        0x06ca6351, 0x14292967, 0x27b70a85, 0x2e1b2138, 0x4d2c6dfc, 0x53380d13,
        0x650a7354, 0x766a0abb, 0x81c2c92e, 0x92722c85, 0xa2bfe8a1, 0xa81a664b,
        0xc24b8b70, 0xc76c51a3, 0xd192e819, 0xd6990624, 0xf40e3585, 0x106aa070,
        0x19a4c116, 0x1e376c08, 0x2748774c, 0x34b0bcb5, 0x391c0cb3, 0x4ed8aa4a,
        0x5b9cca4f, 0x682e6ff3, 0x748f82ee, 0x78a5636f, 0x84c87814, 0x8cc70208,
        0x90befffa, 0xa4506ceb, 0xbef9a3f7, 0xc67178f2,
    ]
}

/// The state before the first block.
pub open spec fn initial_state() -> Seq<u32> {
    seq![
        0x6a09e667, 0xbb67ae85, 0x3c6ef372, 0xa54ff53a, 0x510e527f, 0x9b05688c,
        0x1f83d9ab, 0x5be0cd19,
    ]
}

/// The number of zero bytes between the `0x80` marker and the length field,
/// for a message of `len` bytes.
pub open spec fn pad_zero_count(len: nat) -> nat {
    ((119 - (len % 64) as int) % 64) as nat
}

/// The message length in bits, as 8 big-endian bytes.
pub open spec fn length_field(bits: u64) -> Seq<u8> {
    Seq::new(8, |i: int| ((bits >> ((56 - 8 * i) as u64)) & 0xff) as u8)
}

/// The message, the `0x80` marker, zeros, and the bit length: a whole number of 64-byte blocks.
pub open spec fn padded(msg: Seq<u8>) -> Seq<u8> {
    msg + seq![0x80u8] + Seq::new(pad_zero_count(msg.len()), |i: int| 0u8) + length_field(
        (msg.len() * 8) as u64,
    )
}

/// The big-endian word at byte offset `i`.
pub open spec fn be_word(b: Seq<u8>, i: int) -> u32 {
    ((b[i] as u32) << 24u32) | ((b[i + 1] as u32) << 16u32) | ((b[i + 2] as u32) << 8u32) | (b[i
        + 3] as u32)
}

/// The 16 words of block `n`.
pub open spec fn block_words(p: Seq<u8>, n: int) -> Seq<u32> {
    Seq::new(16, |t: int| be_word(p, 64 * n + 4 * t))
}

/// Word `i` of the message schedule of block `m`.
pub open spec fn schedule(m: Seq<u32>, i: nat) -> u32
    decreases i,
{
    if i < 16 {
        m[i as int]
    } else {
        add32(
            add32(
                add32(spec_small_sigma1(schedule(m, (i - 2) as nat)), schedule(m, (i - 7) as nat)),
                spec_small_sigma0(schedule(m, (i - 15) as nat)),
            ),
            schedule(m, (i - 16) as nat),
        )
    }
}

/// One compression round on the working registers `a..h`.
pub open spec fn round(r: Seq<u32>, k: u32, w: u32) -> Seq<u32> {
    let t1 = add32(
        add32(add32(add32(r[7], spec_big_sigma1(r[4])), spec_ch(r[4], r[5], r[6])), k),
        w,
    );
    let t2 = add32(spec_big_sigma0(r[0]), spec_maj(r[0], r[1], r[2]));
    seq![add32(t1, t2), r[0], r[1], r[2], add32(r[3], t1), r[4], r[5], r[6]]
}

/// The registers after the first `n` rounds on block `m`, starting from `h`.
pub open spec fn rounds(h: Seq<u32>, m: Seq<u32>, n: nat) -> Seq<u32>
    decreases n,
{
    if n == 0 {
        h
    } else {
        round(rounds(h, m, (n - 1) as nat), k_table()[n - 1], schedule(m, (n - 1) as nat))
    }
}

/// The state after compressing block `m` into state `h`.
pub open spec fn compress(h: Seq<u32>, m: Seq<u32>) -> Seq<u32> {
    let r = rounds(h, m, 64);
    Seq::new(8, |i: int| add32(h[i], r[i]))
}

/// The state after the first `n` blocks of the padded message `p`.
pub open spec fn hash_blocks(p: Seq<u8>, n: nat) -> Seq<u32>
    decreases n,
{
    if n == 0 {
        initial_state()
    } else {
        compress(hash_blocks(p, (n - 1) as nat), block_words(p, n - 1))
    }
}

/// The state as 32 big-endian bytes.
pub open spec fn state_bytes(h: Seq<u32>) -> Seq<u8> {
    Seq::new(32, |i: int| ((h[i / 4] >> ((24 - 8 * (i % 4)) as u32)) & 0xff) as u8)
}

/// The SHA-256 digest of `msg`.
pub open spec fn sha256_spec(msg: Seq<u8>) -> Seq<u8> {
    let p = padded(msg);
    state_bytes(hash_blocks(p, p.len() / 64))
}

/// The digest depends on the message alone: equal messages have equal digests.
pub proof fn lemma_sha256_deterministic(m1: Seq<u8>, m2: Seq<u8>)
    requires
        m1 == m2,
    ensures
        sha256_spec(m1) == sha256_spec(m2),
        sha256_spec(m1).len() == 32,
{
}

/// The largest message, in bytes, whose length in bits fits in 64 bits.
pub open spec fn max_message_len() -> int {
    0x1fff_ffff_ffff_ffff
}

fn wadd(x: u32, y: u32) -> (r: u32)
    ensures
        r == add32(x, y),
{
    x.wrapping_add(y)
}

fn rotr(x: u32, n: u32) -> (r: u32)
    requires
        0 < n < 32,
    ensures
        r == spec_rotr(x, n),
{
    (x >> n) | (x << (32 - n))
}

fn ch(x: u32, y: u32, z: u32) -> (r: u32)
    ensures
        r == spec_ch(x, y, z),
{
    (x & y) ^ (!x & z)
}

fn maj(x: u32, y: u32, z: u32) -> (r: u32)
    ensures
        r == spec_maj(x, y, z),
{
    (x & y) ^ (x & z) ^ (y & z)
}

fn big_sigma0(x: u32) -> (r: u32)
    ensures
        r == spec_big_sigma0(x),
{
    rotr(x, 2) ^ rotr(x, 13) ^ rotr(x, 22)
}

fn big_sigma1(x: u32) -> (r: u32)
    ensures
        r == spec_big_sigma1(x),
{
    rotr(x, 6) ^ rotr(x, 11) ^ rotr(x, 25)
}

fn small_sigma0(x: u32) -> (r: u32)
    ensures
        r == spec_small_sigma0(x),
{
    rotr(x, 7) ^ rotr(x, 18) ^ (x >> 3u32)
}

fn small_sigma1(x: u32) -> (r: u32)
    ensures
        r == spec_small_sigma1(x),
{
    rotr(x, 17) ^ rotr(x, 19) ^ (x >> 10u32)
}

fn round_constants() -> (r: Vec<u32>)
    ensures
        r@ == k_table(),
{
    let r = vec![
        0x428a2f98, 0x71374491, 0xb5c0fbcf, 0xe9b5dba5, 0x3956c25b, 0x59f111f1,
        0x923f82a4, 0xab1c5ed5, 0xd807aa98, 0x12835b01, 0x243185be, 0x550c7dc3,
        0x72be5d74, 0x80deb1fe, 0x9bdc06a7, 0xc19bf174, 0xe49b69c1, 0xefbe4786,
        0x0fc19dc6, 0x240ca1cc, 0x2de92c6f, 0x4a7484aa, 0x5cb0a9dc, 0x76f988da,
        0x983e5152, 0xa831c66d, 0xb00327c8, 0xbf597fc7, 0xc6e00bf3, 0xd5a79147,
        0x06ca6351, 0x14292967, 0x27b70a85, 0x2e1b2138, 0x4d2c6dfc, 0x53380d13,
        0x650a7354, 0x766a0abb, 0x81c2c92e, 0x92722c85, 0xa2bfe8a1, 0xa81a664b,
        0xc24b8b70, 0xc76c51a3, 0xd192e819, 0xd6990624, 0xf40e3585, 0x106aa070,
        0x19a4c116, 0x1e376c08, 0x2748774c, 0x34b0bcb5, 0x391c0cb3, 0x4ed8aa4a,
        0x5b9cca4f, 0x682e6ff3, 0x748f82ee, 0x78a5636f, 0x84c87814, 0x8cc70208,
        0x90befffa, 0xa4506ceb, 0xbef9a3f7, 0xc67178f2,
    ];
    assert(r@ =~= k_table());
    r
}

fn start_state() -> (r: Vec<u32>)
    ensures
        r@ == initial_state(),
{
    let r = vec![
        0x6a09e667, 0xbb67ae85, 0x3c6ef372, 0xa54ff53a, 0x510e527f, 0x9b05688c,
        0x1f83d9ab, 0x5be0cd19,
    ];
    assert(r@ =~= initial_state());
    r
}

/// The message followed by its padding: the `0x80` marker, zeros, and the
/// length in bits as 8 big-endian bytes.
fn pad_message(data: &[u8]) -> (r: Vec<u8>)
    requires
        data@.len() <= max_message_len(),
    ensures
        r@ == padded(data@),
{
    let len = data.len();
    let mut r: Vec<u8> = Vec::new();
    let mut i: usize = 0;
    while i < len
        invariant
            len == data@.len(),
            i <= len,
            r@ == data@.subrange(0, i as int),
        decreases len - i,
    {
        r.push(data[i]);
        i = i + 1;
        assert(r@ =~= data@.subrange(0, i as int));
    }
    assert(data@.subrange(0, len as int) =~= data@);
    r.push(0x80u8);
    let ghost marked = r@;
    let zeros: usize = (119 - len % 64) % 64;
    let mut j: usize = 0;
    while j < zeros
        invariant
            j <= zeros,
            r@ == marked + Seq::new(j as nat, |t: int| 0u8),
        decreases zeros - j,
    {
        r.push(0u8);
        j = j + 1;
        assert(r@ =~= marked + Seq::new(j as nat, |t: int| 0u8));
    }
    let ghost body = r@;
    let bits: u64 = (len as u64) * 8;
    let mut t: usize = 0;
    while t < 8
        invariant
            t <= 8,
            r@ == body + length_field(bits).subrange(0, t as int),
        decreases 8 - t,
    {
        r.push(((bits >> (56 - 8 * (t as u64))) & 0xff) as u8);
        t = t + 1;
        assert(r@ =~= body + length_field(bits).subrange(0, t as int));
    }
    assert(length_field(bits).subrange(0, 8) =~= length_field(bits));
    assert(r@ =~= padded(data@));
    r
}

/// The 16 big-endian words of block `n` of `p`.
fn read_block(p: &Vec<u8>, n: usize) -> (r: Vec<u32>)
    requires
        64 * (n + 1) <= p@.len() <= usize::MAX,
    ensures
        r@ == block_words(p@, n as int),
{
    let mut r: Vec<u32> = Vec::new();
    let base = 64 * n;
    let mut t: usize = 0;
    while t < 16
        invariant
            base == 64 * n,
            64 * (n + 1) <= p@.len(),
            t <= 16,
            r@ == block_words(p@, n as int).subrange(0, t as int),
        decreases 16 - t,
    {
        let i = base + 4 * t;
        let w = ((p[i] as u32) << 24u32) | ((p[i + 1] as u32) << 16u32) | ((p[i + 2] as u32)
            << 8u32) | (p[i + 3] as u32);
        r.push(w);
        t = t + 1;
        assert(r@ =~= block_words(p@, n as int).subrange(0, t as int));
    }
    assert(r@ =~= block_words(p@, n as int));
    r
}

/// The 64-word message schedule of block `m`.
fn compute_schedule(m: &Vec<u32>) -> (w: Vec<u32>)
    requires
        m@.len() == 16,
    ensures
        w@.len() == 64,
        forall|i: int| 0 <= i < 64 ==> w@[i] == schedule(m@, i as nat),
{
    let mut w: Vec<u32> = Vec::new();
    let mut i: usize = 0;
    while i < 64
        invariant
            m@.len() == 16,
            i <= 64,
            w@.len() == i,
            forall|j: int| 0 <= j < i ==> w@[j] == schedule(m@, j as nat),
        decreases 64 - i,
    {
        let x = if i < 16 {
            m[i]
        } else {
            wadd(
                wadd(wadd(small_sigma1(w[i - 2]), w[i - 7]), small_sigma0(w[i - 15])),
                w[i - 16],
            )
        };
        assert(x == schedule(m@, i as nat));
        w.push(x);
        i = i + 1;
    }
    w
}

/// One compression round.
fn do_round(r: &Vec<u32>, k: u32, w: u32) -> (nr: Vec<u32>)
    requires
        r@.len() == 8,
    ensures
        nr@ == round(r@, k, w),
        nr@.len() == 8,
{
    let t1 = wadd(wadd(wadd(wadd(r[7], big_sigma1(r[4])), ch(r[4], r[5], r[6])), k), w);
    let t2 = wadd(big_sigma0(r[0]), maj(r[0], r[1], r[2]));
    let nr = vec![wadd(t1, t2), r[0], r[1], r[2], wadd(r[3], t1), r[4], r[5], r[6]];
    assert(nr@ =~= round(r@, k, w));
    nr
}

/// Compresses block `m` into state `h`.
fn compress_block(h: &Vec<u32>, m: &Vec<u32>, ktab: &Vec<u32>) -> (r: Vec<u32>)
    requires
        h@.len() == 8,
        m@.len() == 16,
        ktab@ == k_table(),
    ensures
        r@ == compress(h@, m@),
        r@.len() == 8,
{
    let w = compute_schedule(m);
    let mut regs = do_round(h, ktab[0], w[0]);
    assert(rounds(h@, m@, 0) == h@);
    let mut j: usize = 1;
    while j < 64
        invariant
            1 <= j <= 64,
            h@.len() == 8,
            ktab@ == k_table(),
            w@.len() == 64,
            forall|i: int| 0 <= i < 64 ==> w@[i] == schedule(m@, i as nat),
            regs@ == rounds(h@, m@, j as nat),
            regs@.len() == 8,
        decreases 64 - j,
    {
        regs = do_round(&regs, ktab[j], w[j]);
        j = j + 1;
    }
    let mut r: Vec<u32> = Vec::new();
    let mut i: usize = 0;
    while i < 8
        invariant
            i <= 8,
            h@.len() == 8,
            regs@.len() == 8,
            regs@ == rounds(h@, m@, 64),
            r@ == compress(h@, m@).subrange(0, i as int),
        decreases 8 - i,
    {
        r.push(wadd(h[i], regs[i]));
        i = i + 1;
        assert(r@ =~= compress(h@, m@).subrange(0, i as int));
    }
    assert(r@ =~= compress(h@, m@));
    r
}

/// The SHA-256 digest of `data`, as 32 bytes. `UnsupportedLength` where the
/// length of `data` in bits does not fit in 64 bits.
pub fn sha256(data: &[u8]) -> (r: Result<Vec<u8>, CryptoError>)
    ensures
        data@.len() > max_message_len() <==> r == Err::<Vec<u8>, CryptoError>(
            CryptoError::UnsupportedLength,
        ),
        r matches Ok(d) ==> d@ == sha256_spec(data@) && d@.len() == 32,
        data@.len() <= max_message_len() ==> r is Ok,
{
    if data.len() as u64 > 0x1fff_ffff_ffff_ffffu64 {
        return Err(CryptoError::UnsupportedLength);
    }
    let p = pad_message(data);
    let ghost pm = padded(data@);
    assert(pm.len() % 64 == 0);
    let ktab = round_constants();
    let mut state = start_state();
    let plen = p.len();
    let nblocks = plen / 64;
    let mut b: usize = 0;
    while b < nblocks
        invariant
            p@ == pm,
            plen == pm.len(),
            nblocks == pm.len() / 64,
            pm.len() % 64 == 0,
            b <= nblocks,
            ktab@ == k_table(),
            state@ == hash_blocks(pm, b as nat),
            state@.len() == 8,
        decreases nblocks - b,
    {
        let m = read_block(&p, b);
        state = compress_block(&state, &m, &ktab);
        b = b + 1;
    }
    let mut out: Vec<u8> = Vec::new();
    let mut i: usize = 0;
    while i < 32
        invariant
            i <= 32,
            state@.len() == 8,
            out@ == state_bytes(state@).subrange(0, i as int),
        decreases 32 - i,
    {
        out.push(((state[i / 4] >> (24 - 8 * (i % 4)) as u32) & 0xff) as u8);
        i = i + 1;
        assert(out@ =~= state_bytes(state@).subrange(0, i as int));
    }
    assert(out@ =~= state_bytes(state@));
    Ok(out)
}

} // verus!
