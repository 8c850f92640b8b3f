use vstd::prelude::*;

verus! {

/// Bytes per block of SHAKE128.
pub const SHAKE128_RATE: usize = 168;

/// Bytes per block of SHAKE256.
pub const SHAKE256_RATE: usize = 136;

/// Round constants of Keccak-f[1600].
pub const KECCAK_RC: [u64; 24] = [
    0x0000000000000001u64, 0x0000000000008082u64, 0x800000000000808au64, 0x8000000080008000u64,
    0x000000000000808bu64, 0x0000000080000001u64, 0x8000000080008081u64, 0x8000000000008009u64,
    0x000000000000008au64, 0x0000000000000088u64, 0x0000000080008009u64, 0x000000008000000au64,
    0x000000008000808bu64, 0x800000000000008bu64, 0x8000000000008089u64, 0x8000000000008003u64,
    0x8000000000008002u64, 0x8000000000000080u64, 0x000000000000800au64, 0x800000008000000au64,
    0x8000000080008081u64, 0x8000000000008080u64, 0x0000000080000001u64, 0x8000000080008008u64,
];

/// Rotation of a lane to the left by `n` bits, `0 < n < 64`.
pub open spec fn rotl(x: u64, n: u64) -> u64 {
    (x << n) | (x >> ((64 - n) as u64))
}

/// Rotation of a lane to the left by `n` bits.
fn rol(x: u64, n: u64) -> (r: u64)
    requires
        0 < n < 64,
    ensures
        r == rotl(x, n),
{
    (x << n) | (x >> (64 - n))
}

/// One round of Keccak-f[1600] (theta, rho, pi, chi, iota) on 25 lanes,
/// lane `x + 5 * y` holding the word at column `x` and row `y`.
pub open spec fn keccak_round(a: Seq<u64>, rc: u64) -> Seq<u64>
    recommends
        a.len() == 25,
{
    let a0 = a[0];
    let a1 = a[1];
    let a2 = a[2];
    let a3 = a[3];
    let a4 = a[4];
    let a5 = a[5];
    let a6 = a[6];
    let a7 = a[7];
    let a8 = a[8];
    let a9 = a[9];
    let a10 = a[10];
    let a11 = a[11];
    let a12 = a[12];
    let a13 = a[13];
    let a14 = a[14];
    let a15 = a[15];
    let a16 = a[16];
    let a17 = a[17];
    let a18 = a[18];
    let a19 = a[19];
    let a20 = a[20];
    let a21 = a[21];
    let a22 = a[22];
    let a23 = a[23];
    let a24 = a[24];
    let c0 = a0 ^ a5 ^ a10 ^ a15 ^ a20;
    let c1 = a1 ^ a6 ^ a11 ^ a16 ^ a21;
    let c2 = a2 ^ a7 ^ a12 ^ a17 ^ a22;
    let c3 = a3 ^ a8 ^ a13 ^ a18 ^ a23;
    let c4 = a4 ^ a9 ^ a14 ^ a19 ^ a24;
    let d0 = c4 ^ rotl(c1, 1u64);
    let d1 = c0 ^ rotl(c2, 1u64);
    let d2 = c1 ^ rotl(c3, 1u64);
    let d3 = c2 ^ rotl(c4, 1u64);
    let d4 = c3 ^ rotl(c0, 1u64);
    let e0 = a0 ^ d0;
    let e1 = a1 ^ d1;
    let e2 = a2 ^ d2;
    let e3 = a3 ^ d3;
    let e4 = a4 ^ d4;
    let e5 = a5 ^ d0;
    let e6 = a6 ^ d1;
    let e7 = a7 ^ d2;
    let e8 = a8 ^ d3;
    let e9 = a9 ^ d4;
    let e10 = a10 ^ d0;
    let e11 = a11 ^ d1;
    let e12 = a12 ^ d2;
    let e13 = a13 ^ d3;
    let e14 = a14 ^ d4;
    let e15 = a15 ^ d0;
    let e16 = a16 ^ d1;
    let e17 = a17 ^ d2;
    let e18 = a18 ^ d3;
    let e19 = a19 ^ d4;
    let e20 = a20 ^ d0;
    let e21 = a21 ^ d1;
    let e22 = a22 ^ d2;
    let e23 = a23 ^ d3;
    let e24 = a24 ^ d4;
    let b0 = e0;
    let b1 = rotl(e6, 44u64);
    let b2 = rotl(e12, 43u64);
    let b3 = rotl(e18, 21u64);
    let b4 = rotl(e24, 14u64);
    let b5 = rotl(e3, 28u64);
    let b6 = rotl(e9, 20u64);
    let b7 = rotl(e10, 3u64);
    let b8 = rotl(e16, 45u64);
    let b9 = rotl(e22, 61u64);
    let b10 = rotl(e1, 1u64);
    let b11 = rotl(e7, 6u64);
    let b12 = rotl(e13, 25u64);
    let b13 = rotl(e19, 8u64);
    let b14 = rotl(e20, 18u64);
    let b15 = rotl(e4, 27u64);
    let b16 = rotl(e5, 36u64);
    let b17 = rotl(e11, 10u64);
    let b18 = rotl(e17, 15u64);
    let b19 = rotl(e23, 56u64);
    let b20 = rotl(e2, 62u64);
    let b21 = rotl(e8, 55u64);
    let b22 = rotl(e14, 39u64);
    let b23 = rotl(e15, 41u64);
    let b24 = rotl(e21, 2u64);
    seq![
        (b0 ^ (!b1 & b2)) ^ rc,
        b1 ^ (!b2 & b3),
        b2 ^ (!b3 & b4),
        b3 ^ (!b4 & b0),
        b4 ^ (!b0 & b1),
        b5 ^ (!b6 & b7),
        b6 ^ (!b7 & b8),
        b7 ^ (!b8 & b9),
        b8 ^ (!b9 & b5),
        b9 ^ (!b5 & b6),
        b10 ^ (!b11 & b12),
        b11 ^ (!b12 & b13),
        b12 ^ (!b13 & b14),
        b13 ^ (!b14 & b10),
        b14 ^ (!b10 & b11),
        b15 ^ (!b16 & b17),
        b16 ^ (!b17 & b18),
        b17 ^ (!b18 & b19),
        b18 ^ (!b19 & b15),
        b19 ^ (!b15 & b16),
        b20 ^ (!b21 & b22),
        b21 ^ (!b22 & b23),
        b22 ^ (!b23 & b24),
        b23 ^ (!b24 & b20),
        b24 ^ (!b20 & b21),
    ]
}

/// The first `n` rounds of Keccak-f[1600].
pub open spec fn keccak_rounds(a: Seq<u64>, n: nat) -> Seq<u64>
    decreases n,
{
    if n == 0 {
        a
    } else {
        keccak_round(keccak_rounds(a, (n - 1) as nat), KECCAK_RC@[n - 1])
    }
}

/// The Keccak-f[1600] permutation.
pub open spec fn keccak_f(a: Seq<u64>) -> Seq<u64> {
    keccak_rounds(a, 24)
}

/// One round of Keccak-f[1600] with round constant `rc`, in place.
fn keccak_round_exec(s: &mut [u64; 25], rc: u64)
    ensures
        final(s)@ == keccak_round(old(s)@, rc),
{
    let a0 = s[0];
    let a1 = s[1];
    let a2 = s[2];
    let a3 = s[3];
    let a4 = s[4];
    let a5 = s[5];
    let a6 = s[6];
    let a7 = s[7];
    let a8 = s[8];
    let a9 = s[9];
    let a10 = s[10];
    let a11 = s[11];
    let a12 = s[12];
    let a13 = s[13];
    let a14 = s[14];
    let a15 = s[15];
    let a16 = s[16];
    let a17 = s[17];
    let a18 = s[18];
    let a19 = s[19];
    let a20 = s[20];
    let a21 = s[21];
    let a22 = s[22];
    let a23 = s[23];
    let a24 = s[24];
    let c0 = a0 ^ a5 ^ a10 ^ a15 ^ a20;
    let c1 = a1 ^ a6 ^ a11 ^ a16 ^ a21;
    let c2 = a2 ^ a7 ^ a12 ^ a17 ^ a22;
    let c3 = a3 ^ a8 ^ a13 ^ a18 ^ a23;
    let c4 = a4 ^ a9 ^ a14 ^ a19 ^ a24;
    let d0 = c4 ^ rol(c1, 1u64);
    let d1 = c0 ^ rol(c2, 1u64);
    let d2 = c1 ^ rol(c3, 1u64);
    let d3 = c2 ^ rol(c4, 1u64);
    let d4 = c3 ^ rol(c0, 1u64);
    let e0 = a0 ^ d0;
    let e1 = a1 ^ d1;
    let e2 = a2 ^ d2;
    let e3 = a3 ^ d3;
    let e4 = a4 ^ d4;
    let e5 = a5 ^ d0;
    let e6 = a6 ^ d1;
    let e7 = a7 ^ d2;
    let e8 = a8 ^ d3;
    let e9 = a9 ^ d4;
    let e10 = a10 ^ d0;
    let e11 = a11 ^ d1;
    let e12 = a12 ^ d2;
    let e13 = a13 ^ d3;
    let e14 = a14 ^ d4;
    let e15 = a15 ^ d0;
    let e16 = a16 ^ d1;
    let e17 = a17 ^ d2;
    let e18 = a18 ^ d3;
    let e19 = a19 ^ d4;
    let e20 = a20 ^ d0;
    let e21 = a21 ^ d1;
    let e22 = a22 ^ d2;
    let e23 = a23 ^ d3;
    let e24 = a24 ^ d4;
    let b0 = e0;
    let b1 = rol(e6, 44u64);
    let b2 = rol(e12, 43u64);
    let b3 = rol(e18, 21u64);
    let b4 = rol(e24, 14u64);
    let b5 = rol(e3, 28u64);
    let b6 = rol(e9, 20u64);
    let b7 = rol(e10, 3u64);
    let b8 = rol(e16, 45u64);
    let b9 = rol(e22, 61u64);
    let b10 = rol(e1, 1u64);
    let b11 = rol(e7, 6u64);
    let b12 = rol(e13, 25u64);
    let b13 = rol(e19, 8u64);
    let b14 = rol(e20, 18u64);
    let b15 = rol(e4, 27u64);
    let b16 = rol(e5, 36u64);
    let b17 = rol(e11, 10u64);
    let b18 = rol(e17, 15u64);
    let b19 = rol(e23, 56u64);
    let b20 = rol(e2, 62u64);
    let b21 = rol(e8, 55u64);
    let b22 = rol(e14, 39u64);
    let b23 = rol(e15, 41u64);
    let b24 = rol(e21, 2u64);
    s[0] = (b0 ^ (!b1 & b2)) ^ rc;
    s[1] = b1 ^ (!b2 & b3);
    s[2] = b2 ^ (!b3 & b4);
    s[3] = b3 ^ (!b4 & b0);
    s[4] = b4 ^ (!b0 & b1);
    s[5] = b5 ^ (!b6 & b7);
    s[6] = b6 ^ (!b7 & b8);
    s[7] = b7 ^ (!b8 & b9);
    s[8] = b8 ^ (!b9 & b5);
    s[9] = b9 ^ (!b5 & b6);
    s[10] = b10 ^ (!b11 & b12);
    s[11] = b11 ^ (!b12 & b13);
    s[12] = b12 ^ (!b13 & b14);
    s[13] = b13 ^ (!b14 & b10);
    s[14] = b14 ^ (!b10 & b11);
    s[15] = b15 ^ (!b16 & b17);
    s[16] = b16 ^ (!b17 & b18);
    s[17] = b17 ^ (!b18 & b19);
    s[18] = b18 ^ (!b19 & b15);
    s[19] = b19 ^ (!b15 & b16);
    s[20] = b20 ^ (!b21 & b22);
    s[21] = b21 ^ (!b22 & b23);
    s[22] = b22 ^ (!b23 & b24);
    s[23] = b23 ^ (!b24 & b20);
    s[24] = b24 ^ (!b20 & b21);
    assert(s@ =~= keccak_round(old(s)@, rc));
}

/// The Keccak-f[1600] permutation, in place.
pub fn keccak_f1600(s: &mut [u64; 25])
    ensures
        final(s)@ == keccak_f(old(s)@),
{
    let mut r: usize = 0;
    while r < 24
        invariant
            0 <= r <= 24,
            s@ == keccak_rounds(old(s)@, r as nat),
        decreases 24 - r,
    {
        keccak_round_exec(s, KECCAK_RC[r]);
        r = r + 1;
    }
}

/// A Keccak sponge: 25 lanes, and the byte position within the current
/// block (equal to the rate once the input has been padded).
pub struct KeccakState {
    pub s: [u64; 25],
    pub pos: usize,
}

/// The all-zero state.
pub open spec fn zero_lanes() -> Seq<u64> {
    Seq::new(25, |i: int| 0u64)
}

/// The lanes after XOR-ing byte `b` into byte position `pos` of the state.
pub open spec fn xor_byte(s: Seq<u64>, pos: int, b: u8) -> Seq<u64> {
    s.update(pos / 8, s[pos / 8] ^ ((b as u64) << ((8 * (pos % 8)) as u64)))
}

/// Byte number `pos` of the state (lanes are little-endian).
pub open spec fn lane_byte(s: Seq<u64>, pos: int) -> u8 {
    (s[pos / 8] >> ((8 * (pos % 8)) as u64)) as u8
}

/// Lanes and position after absorbing `bytes`, one at a time, into the
/// sponge `(s, pos)` of the given rate; a full block is permuted at once.
pub open spec fn absorb(s: Seq<u64>, pos: int, rate: int, bytes: Seq<u8>) -> (Seq<u64>, int)
    decreases bytes.len(),
{
    if bytes.len() == 0 {
        (s, pos)
    } else {
        let (s1, p1) = absorb(s, pos, rate, bytes.drop_last());
        let s2 = xor_byte(s1, p1, bytes.last());
        if p1 + 1 >= rate {
            (keccak_f(s2), 0)
        } else {
            (s2, p1 + 1)
        }
    }
}

/// Lanes after SHAKE padding (domain bits `1111`, then `10*1`) at `pos`.
pub open spec fn pad(s: Seq<u64>, pos: int, rate: int) -> Seq<u64> {
    let s1 = xor_byte(s, pos, 0x1Fu8);
    s1.update((rate - 1) / 8, s1[(rate - 1) / 8] ^ 0x8000000000000000u64)
}

/// The `n` next output bytes of the sponge `(s, pos)`, with the lanes and
/// position after them; the state is permuted whenever a block is used up.
pub open spec fn squeeze(s: Seq<u64>, pos: int, rate: int, n: nat) -> (Seq<u8>, Seq<u64>, int)
    decreases n,
{
    if n == 0 {
        (Seq::empty(), s, pos)
    } else {
        let (out, s1, p1) = squeeze(s, pos, rate, (n - 1) as nat);
        let s2 = if p1 >= rate { keccak_f(s1) } else { s1 };
        let p2 = if p1 >= rate { 0 } else { p1 };
        (out.push(lane_byte(s2, p2)), s2, p2 + 1)
    }
}

/// The first `n` bytes of the SHAKE stream at `rate` over `input`.
pub open spec fn shake(rate: int, input: Seq<u8>, n: nat) -> Seq<u8> {
    let (s, p) = absorb(zero_lanes(), 0, rate, input);
    squeeze(pad(s, p, rate), rate, rate, n).0
}

/// SHAKE256 of `input`, `n` bytes long.
pub open spec fn shake256_spec(input: Seq<u8>, n: nat) -> Seq<u8> {
    shake(SHAKE256_RATE as int, input, n)
}

/// A rate that this library uses.
pub open spec fn valid_rate(rate: int) -> bool {
    rate == SHAKE128_RATE || rate == SHAKE256_RATE
}

impl KeccakState {
    /// The sponge with all lanes zero, ready to absorb.
    pub fn new() -> (r: KeccakState)
        ensures
            r.s@ == zero_lanes(),
            r.pos == 0,
    {
        let r = KeccakState { s: [0u64; 25], pos: 0 };
        assert(r.s@ =~= zero_lanes());
        r
    }

    /// Resets the sponge to all lanes zero.
    pub fn init(&mut self)
        ensures
            final(self).s@ == zero_lanes(),
            final(self).pos == 0,
    {
        *self = KeccakState::new();
    }
}

impl Default for KeccakState {
    fn default() -> (r: KeccakState)
        ensures
            r.s@ == zero_lanes(),
            r.pos == 0,
    {
        KeccakState::new()
    }
}

/// The prefix of length `i + 1` is the prefix of length `i` and then `b[i]`.
proof fn lemma_take_last(b: Seq<u8>, i: int)
    requires
        0 <= i < b.len(),
    ensures
        b.take(i + 1).drop_last() == b.take(i),
        b.take(i + 1).last() == b[i],
{
    assert(b.take(i + 1).drop_last() =~= b.take(i));
}

/// Absorbs the first `inlen` bytes of `input` into the sponge.
pub fn keccak_absorb(state: &mut KeccakState, rate: usize, input: &[u8], inlen: usize)
    requires
        valid_rate(rate as int),
        old(state).pos < rate,
        inlen <= input@.len(),
    ensures
        final(state).pos < rate,
        (final(state).s@, final(state).pos as int) == absorb(
            old(state).s@,
            old(state).pos as int,
            rate as int,
            input@.take(inlen as int),
        ),
{
    let mut i: usize = 0;
    assert(input@.take(0) =~= Seq::<u8>::empty());
    while i < inlen
        invariant
            valid_rate(rate as int),
            i <= inlen <= input@.len(),
            state.pos < rate,
            (state.s@, state.pos as int) == absorb(
                old(state).s@,
                old(state).pos as int,
                rate as int,
                input@.take(i as int),
            ),
        decreases inlen - i,
    {
        proof {
            lemma_take_last(input@, i as int);
        }
        let pos = state.pos;
        let sh: u64 = (8 * (pos % 8)) as u64;
        state.s[pos / 8] = state.s[pos / 8] ^ ((input[i] as u64) << sh);
        if pos + 1 >= rate {
            keccak_f1600(&mut state.s);
            state.pos = 0;
        } else {
            state.pos = pos + 1;
        }
        i = i + 1;
    }
}

/// Pads the absorbed input; afterwards the sponge only squeezes.
pub fn keccak_finalize(state: &mut KeccakState, rate: usize)
    requires
        valid_rate(rate as int),
        old(state).pos < rate,
    ensures
        final(state).s@ == pad(old(state).s@, old(state).pos as int, rate as int),
        final(state).pos == rate,
{
    let pos = state.pos;
    let sh: u64 = (8 * (pos % 8)) as u64;
    state.s[pos / 8] = state.s[pos / 8] ^ ((0x1Fu8 as u64) << sh);
    state.s[(rate - 1) / 8] = state.s[(rate - 1) / 8] ^ 0x8000000000000000u64;
    state.pos = rate;
}

/// Writes the next `outlen` output bytes of the sponge to
/// `out[off..off + outlen]`, leaving the other bytes of `out` as they were.
pub fn keccak_squeeze(out: &mut [u8], off: usize, outlen: usize, state: &mut KeccakState, rate: usize)
    requires
        valid_rate(rate as int),
        old(state).pos <= rate,
        off + outlen <= old(out)@.len(),
        off + outlen <= usize::MAX,
    ensures
        final(state).pos <= rate,
        final(out)@.len() == old(out)@.len(),
        ({
            let (o, s, p) = squeeze(old(state).s@, old(state).pos as int, rate as int, outlen as nat);
            &&& final(out)@.subrange(off as int, off + outlen) == o
            &&& final(state).s@ == s
            &&& final(state).pos == p
        }),
        forall|j: int|
            0 <= j < old(out)@.len() && !(off <= j < off + outlen) ==> #[trigger] final(out)@[j] == old(out)@[j],
{
    let mut i: usize = 0;
    while i < outlen
        invariant
            valid_rate(rate as int),
            i <= outlen,
            off + outlen <= out@.len(),
            off + outlen <= usize::MAX,
            out@.len() == old(out)@.len(),
            state.pos <= rate,
            ({
                let (o, s, p) = squeeze(old(state).s@, old(state).pos as int, rate as int, i as nat);
                &&& out@.subrange(off as int, off + i) == o
                &&& state.s@ == s
                &&& state.pos == p
            }),
            forall|j: int|
                0 <= j < old(out)@.len() && !(off <= j < off + i) ==> #[trigger] out@[j] == old(out)@[j],
        decreases outlen - i,
    {
        if state.pos >= rate {
            keccak_f1600(&mut state.s);
            state.pos = 0;
        }
        let pos = state.pos;
        let sh: u64 = (8 * (pos % 8)) as u64;
        let b: u8 = #[verifier::truncate] ((state.s[pos / 8] >> sh) as u8);
        let ghost prev = out@;
        out[off + i] = b;
        assert(out@.subrange(off as int, off + i + 1) =~= prev.subrange(off as int, off + i).push(b));
        state.pos = pos + 1;
        i = i + 1;
    }
}

/// The lanes of the sponge that has absorbed `input` and been padded.
pub open spec fn padded(rate: int, input: Seq<u8>) -> Seq<u64> {
    let (s, p) = absorb(zero_lanes(), 0, rate, input);
    pad(s, p, rate)
}

/// Absorbing `a` then `b` is absorbing `a + b`.
pub proof fn lemma_absorb_concat(s: Seq<u64>, pos: int, rate: int, a: Seq<u8>, b: Seq<u8>)
    ensures
        ({
            let (s1, p1) = absorb(s, pos, rate, a);
            absorb(s1, p1, rate, b)
        }) == absorb(s, pos, rate, a + b),
    decreases b.len(),
{
    if b.len() == 0 {
        assert(a + b =~= a);
    } else {
        lemma_absorb_concat(s, pos, rate, a, b.drop_last());
        assert((a + b).drop_last() =~= a + b.drop_last());
        assert((a + b).last() == b.last());
    }
}

/// Absorbs `inlen` bytes of `input` into a SHAKE128 sponge.
pub fn shake128_absorb(state: &mut KeccakState, input: &[u8], inlen: usize)
    requires
        old(state).pos < SHAKE128_RATE,
        inlen <= input@.len(),
    ensures
        final(state).pos < SHAKE128_RATE,
        (final(state).s@, final(state).pos as int) == absorb(
            old(state).s@,
            old(state).pos as int,
            SHAKE128_RATE as int,
            input@.take(inlen as int),
        ),
{
    keccak_absorb(state, SHAKE128_RATE, input, inlen);
}

/// Pads a SHAKE128 sponge.
pub fn shake128_finalize(state: &mut KeccakState)
    requires
        old(state).pos < SHAKE128_RATE,
    ensures
        final(state).s@ == pad(old(state).s@, old(state).pos as int, SHAKE128_RATE as int),
        final(state).pos == SHAKE128_RATE,
{
    keccak_finalize(state, SHAKE128_RATE);
}

/// Squeezes `nblocks` whole blocks of a padded SHAKE128 sponge into
/// `out[off..]`.
pub fn shake128_squeezeblocks(out: &mut [u8], off: usize, nblocks: usize, state: &mut KeccakState)
    requires
        old(state).pos == SHAKE128_RATE,
        off + nblocks * SHAKE128_RATE <= old(out)@.len(),
        off + nblocks * SHAKE128_RATE <= usize::MAX,
    ensures
        final(out)@.len() == old(out)@.len(),
        ({
            let (o, s, p) = squeeze(old(state).s@, SHAKE128_RATE as int, SHAKE128_RATE as int, (nblocks * SHAKE128_RATE) as nat);
            &&& final(out)@.subrange(off as int, off + nblocks * SHAKE128_RATE) == o
            &&& final(state).s@ == s
            &&& final(state).pos == p
        }),
        final(state).pos == SHAKE128_RATE,
        forall|j: int|
            0 <= j < old(out)@.len() && !(off <= j < off + nblocks * SHAKE128_RATE) ==> #[trigger] final(out)@[j] == old(out)@[j],
{
    proof {
        lemma_squeeze_blocks_pos(old(state).s@, SHAKE128_RATE as int, nblocks as nat);
    }
    keccak_squeeze(out, off, nblocks * SHAKE128_RATE, state, SHAKE128_RATE);
}

/// Absorbs `inlen` bytes of `input` into a SHAKE256 sponge.
pub fn shake256_absorb(state: &mut KeccakState, input: &[u8], inlen: usize)
    requires
        old(state).pos < SHAKE256_RATE,
        inlen <= input@.len(),
    ensures
        final(state).pos < SHAKE256_RATE,
        (final(state).s@, final(state).pos as int) == absorb(
            old(state).s@,
            old(state).pos as int,
            SHAKE256_RATE as int,
            input@.take(inlen as int),
        ),
{
    keccak_absorb(state, SHAKE256_RATE, input, inlen);
}

/// Pads a SHAKE256 sponge.
pub fn shake256_finalize(state: &mut KeccakState)
    requires
        old(state).pos < SHAKE256_RATE,
    ensures
        final(state).s@ == pad(old(state).s@, old(state).pos as int, SHAKE256_RATE as int),
        final(state).pos == SHAKE256_RATE,
{
    keccak_finalize(state, SHAKE256_RATE);
}

/// Squeezes `outlen` bytes of a padded SHAKE256 sponge into `out[off..]`.
pub fn shake256_squeeze(out: &mut [u8], off: usize, outlen: usize, state: &mut KeccakState)
    requires
        old(state).pos <= SHAKE256_RATE,
        off + outlen <= old(out)@.len(),
        off + outlen <= usize::MAX,
    ensures
        final(state).pos <= SHAKE256_RATE,
        final(out)@.len() == old(out)@.len(),
        ({
            let (o, s, p) = squeeze(old(state).s@, old(state).pos as int, SHAKE256_RATE as int, outlen as nat);
            &&& final(out)@.subrange(off as int, off + outlen) == o
            &&& final(state).s@ == s
            &&& final(state).pos == p
        }),
        forall|j: int|
            0 <= j < old(out)@.len() && !(off <= j < off + outlen) ==> #[trigger] final(out)@[j] == old(out)@[j],
{
    keccak_squeeze(out, off, outlen, state, SHAKE256_RATE);
}

/// Squeezing whole blocks from a padded sponge ends at the end of a block.
pub proof fn lemma_squeeze_blocks_pos(s: Seq<u64>, rate: int, nblocks: nat)
    requires
        rate > 0,
    ensures
        squeeze(s, rate, rate, nblocks * rate as nat).2 == rate,
    decreases nblocks,
{
    if nblocks > 0 {
        lemma_squeeze_blocks_pos(s, rate, (nblocks - 1) as nat);
        let m = ((nblocks - 1) * rate) as nat;
        assert(nblocks * rate == m + rate) by (nonlinear_arith)
            requires m == (nblocks - 1) * rate, nblocks > 0;
        lemma_squeeze_run(s, rate, m, rate as nat);
    }
}

/// From the end of a block, the next `k <= rate` output bytes end at position `k`.
proof fn lemma_squeeze_run(s: Seq<u64>, rate: int, m: nat, k: nat)
    requires
        rate > 0,
        squeeze(s, rate, rate, m).2 == rate,
        1 <= k <= rate,
    ensures
        squeeze(s, rate, rate, m + k).2 == k,
    decreases k,
{
    if k > 1 {
        lemma_squeeze_run(s, rate, m, (k - 1) as nat);
        assert(squeeze(s, rate, rate, (m + k - 1) as nat).2 == k - 1);
    } else {
        assert(squeeze(s, rate, rate, (m + k - 1) as nat).2 == rate);
    }
}

/// One-shot SHAKE256: `out[off..off + outlen]` becomes the first `outlen`
/// bytes of SHAKE256 over the first `inlen` bytes of `input`.
pub fn shake256(out: &mut [u8], off: usize, outlen: usize, input: &[u8], inlen: usize)
    requires
        inlen <= input@.len(),
        off + outlen <= old(out)@.len(),
        off + outlen <= usize::MAX,
    ensures
        final(out)@.len() == old(out)@.len(),
        final(out)@.subrange(off as int, off + outlen) == shake256_spec(input@.take(inlen as int), outlen as nat),
        forall|j: int|
            0 <= j < old(out)@.len() && !(off <= j < off + outlen) ==> #[trigger] final(out)@[j] == old(out)@[j],
{
    let mut state = KeccakState::new();
    shake256_absorb(&mut state, input, inlen);
    shake256_finalize(&mut state);
    shake256_squeeze(out, off, outlen, &mut state);
}

/// Squeezing `n1 + n2` bytes is squeezing `n1` bytes, then `n2` more from
/// where those left the sponge.
pub proof fn lemma_squeeze_concat(s: Seq<u64>, pos: int, rate: int, n1: nat, n2: nat)
    ensures
        ({
            let (o1, s1, p1) = squeeze(s, pos, rate, n1);
            let (o2, s2, p2) = squeeze(s1, p1, rate, n2);
            squeeze(s, pos, rate, n1 + n2) == (o1 + o2, s2, p2)
        }),
    decreases n2,
{
    let (o1, s1, p1) = squeeze(s, pos, rate, n1);
    if n2 == 0 {
        assert(o1 + Seq::<u8>::empty() =~= o1);
    } else {
        lemma_squeeze_concat(s, pos, rate, n1, (n2 - 1) as nat);
        let (o2, s2, p2) = squeeze(s1, p1, rate, (n2 - 1) as nat);
        assert((n1 + n2 - 1) as nat == n1 + (n2 - 1) as nat);
        let s3 = if p2 >= rate { keccak_f(s2) } else { s2 };
        let p3 = if p2 >= rate { 0 } else { p2 };
        assert((o1 + o2).push(lane_byte(s3, p3)) =~= o1 + o2.push(lane_byte(s3, p3)));
    }
}

/// `squeeze` gives as many bytes as asked for.
pub proof fn lemma_squeeze_len(s: Seq<u64>, pos: int, rate: int, n: nat)
    ensures
        squeeze(s, pos, rate, n).0.len() == n,
    decreases n,
{
    if n > 0 {
        lemma_squeeze_len(s, pos, rate, (n - 1) as nat);
    }
}

} // verus!
