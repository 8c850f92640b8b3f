use vstd::prelude::*;
use crate::fips202::{
    lemma_absorb_concat, padded, shake128_absorb, shake128_finalize,
    shake128_squeezeblocks, shake256, shake256_absorb, shake256_finalize, shake256_spec, squeeze,
    zero_lanes, KeccakState, SHAKE128_RATE, SHAKE256_RATE,
};
use crate::params::{CRHBYTES, SEEDBYTES};

verus! {

pub type Stream128State = KeccakState;

pub type Stream256State = KeccakState;

pub const STREAM128_BLOCKBYTES: usize = SHAKE128_RATE;

pub const STREAM256_BLOCKBYTES: usize = SHAKE256_RATE;

/// The two little-endian bytes of a nonce.
pub open spec fn nonce_bytes(nonce: u16) -> Seq<u8> {
    seq![nonce as u8, (nonce >> 8u16) as u8]
}

/// The first `n` bytes of SHAKE128(`seed` || `nonce`).
pub open spec fn stream128(seed: Seq<u8>, nonce: u16, n: nat) -> Seq<u8> {
    squeeze(padded(SHAKE128_RATE as int, seed + nonce_bytes(nonce)), SHAKE128_RATE as int, SHAKE128_RATE as int, n).0
}

/// The first `n` bytes of SHAKE256(`seed` || `nonce`).
pub open spec fn stream256(seed: Seq<u8>, nonce: u16, n: nat) -> Seq<u8> {
    squeeze(padded(SHAKE256_RATE as int, seed + nonce_bytes(nonce)), SHAKE256_RATE as int, SHAKE256_RATE as int, n).0
}

/// Collision-resistant hash: `CRHBYTES` bytes of SHAKE256 over the first
/// `inbytes` bytes of `input`, written to the start of `out`.
pub fn _crh(out: &mut [u8], input: &[u8], inbytes: usize)
    requires
        inbytes <= input@.len(),
        CRHBYTES <= old(out)@.len(),
    ensures
        final(out)@.len() == old(out)@.len(),
        final(out)@.subrange(0, CRHBYTES as int) == shake256_spec(input@.take(inbytes as int), CRHBYTES as nat),
        forall|j: int| CRHBYTES <= j < old(out)@.len() ==> #[trigger] final(out)@[j] == old(out)@[j],
{
    shake256(out, 0, CRHBYTES, input, inbytes)
}

/// Starts the SHAKE128 stream of `seed` and `nonce`.
pub fn stream128_init(state: &mut Stream128State, seed: &[u8], nonce: u16)
    requires
        SEEDBYTES <= seed@.len(),
    ensures
        final(state).s@ == padded(SHAKE128_RATE as int, seed@.take(SEEDBYTES as int) + nonce_bytes(nonce)),
        final(state).pos == SHAKE128_RATE,
{
    dilithium_shake128_stream_init(state, seed, nonce);
}

/// Writes the next `outblocks` blocks of a SHAKE128 stream to `out[off..]`.
pub fn stream128_squeezeblocks(out: &mut [u8], off: usize, outblocks: u64, state: &mut Stream128State)
    requires
        old(state).pos == SHAKE128_RATE,
        off + outblocks * SHAKE128_RATE <= old(out)@.len(),
        off + outblocks * SHAKE128_RATE <= usize::MAX,
    ensures
        final(out)@.len() == old(out)@.len(),
        ({
            let (o, s, p) = squeeze(old(state).s@, SHAKE128_RATE as int, SHAKE128_RATE as int, (outblocks * SHAKE128_RATE) as nat);
            &&& final(out)@.subrange(off as int, off + outblocks * SHAKE128_RATE) == o
            &&& final(state).s@ == s
            &&& final(state).pos == p
        }),
        final(state).pos == SHAKE128_RATE,
        forall|j: int|
            0 <= j < old(out)@.len() && !(off <= j < off + outblocks * SHAKE128_RATE) ==> #[trigger] final(out)@[j] == old(out)@[j],
{
    shake128_squeezeblocks(out, off, outblocks as usize, state);
}

/// Sets `state` to SHAKE128 over the first `SEEDBYTES` bytes of `seed`
/// followed by the two bytes of `nonce`, padded.
pub fn dilithium_shake128_stream_init(state: &mut KeccakState, seed: &[u8], nonce: u16)
    requires
        SEEDBYTES <= seed@.len(),
    ensures
        final(state).s@ == padded(SHAKE128_RATE as int, seed@.take(SEEDBYTES as int) + nonce_bytes(nonce)),
        final(state).pos == SHAKE128_RATE,
{
    let t: [u8; 2] = [nonce as u8, (nonce >> 8u16) as u8];
    assert(t@ =~= nonce_bytes(nonce));
    state.init();
    shake128_absorb(state, seed, SEEDBYTES);
    shake128_absorb(state, &t, 2);
    proof {
        assert(t@.take(2) =~= t@);
        lemma_absorb_concat(zero_lanes(), 0, SHAKE128_RATE as int, seed@.take(SEEDBYTES as int), t@);
    }
    shake128_finalize(state);
}

/// Starts the SHAKE256 stream of `seed` and `nonce`.
pub fn stream256_init(state: &mut Stream256State, seed: &[u8], nonce: u16)
    requires
        CRHBYTES <= seed@.len(),
    ensures
        final(state).s@ == padded(SHAKE256_RATE as int, seed@.take(CRHBYTES as int) + nonce_bytes(nonce)),
        final(state).pos == SHAKE256_RATE,
{
    dilithium_shake256_stream_init(state, seed, nonce);
}

/// Writes the next `outblocks` blocks of a SHAKE256 stream to `out[off..]`.
pub fn stream256_squeezeblocks(out: &mut [u8], off: usize, outblocks: u64, state: &mut Stream256State)
    requires
        old(state).pos == SHAKE256_RATE,
        off + outblocks * SHAKE256_RATE <= old(out)@.len(),
        off + outblocks * SHAKE256_RATE <= usize::MAX,
    ensures
        final(out)@.len() == old(out)@.len(),
        ({
            let (o, s, p) = squeeze(old(state).s@, SHAKE256_RATE as int, SHAKE256_RATE as int, (outblocks * SHAKE256_RATE) as nat);
            &&& final(out)@.subrange(off as int, off + outblocks * SHAKE256_RATE) == o
            &&& final(state).s@ == s
            &&& final(state).pos == p
        }),
        final(state).pos == SHAKE256_RATE,
        forall|j: int|
            0 <= j < old(out)@.len() && !(off <= j < off + outblocks * SHAKE256_RATE) ==> #[trigger] final(out)@[j] == old(out)@[j],
{
    proof {
        crate::fips202::lemma_squeeze_blocks_pos(old(state).s@, SHAKE256_RATE as int, outblocks as nat);
    }
    crate::fips202::shake256_squeeze(out, off, (outblocks as usize) * SHAKE256_RATE, state);
}

/// Sets `state` to SHAKE256 over the first `CRHBYTES` bytes of `seed`
/// followed by the two bytes of `nonce`, padded.
pub fn dilithium_shake256_stream_init(state: &mut KeccakState, seed: &[u8], nonce: u16)
    requires
        CRHBYTES <= seed@.len(),
    ensures
        final(state).s@ == padded(SHAKE256_RATE as int, seed@.take(CRHBYTES as int) + nonce_bytes(nonce)),
        final(state).pos == SHAKE256_RATE,
{
    let t: [u8; 2] = [nonce as u8, (nonce >> 8u16) as u8];
    assert(t@ =~= nonce_bytes(nonce));
    state.init();
    shake256_absorb(state, seed, CRHBYTES);
    shake256_absorb(state, &t, 2);
    proof {
        assert(t@.take(2) =~= t@);
        lemma_absorb_concat(zero_lanes(), 0, SHAKE256_RATE as int, seed@.take(CRHBYTES as int), t@);
    }
    shake256_finalize(state);
}

} // verus!
