use vstd::prelude::*;
use crate::api::SignError;
use crate::fips202::{
    shake256, shake256_absorb, shake256_finalize, shake256_spec, shake256_squeeze, KeccakState,
};
use crate::ntt::{abs_lt, invntt_tomont_spec, ntt_spec};
use crate::packing::{
    hint_valid, pack_pk, pack_sig, pack_sk, sig_hint_bytes, unpack_pk, unpack_sig, unpack_sk,
    SIG_H_OFF, SK_S1_OFF, SK_S2_OFF, SK_T0_OFF,
};
use crate::params::{
    BETA, CRHBYTES, GAMMA1, GAMMA2, GAMMA2_I32, K, L, L_U16, N, OMEGA, POLYETA_PACKEDBYTES,
    POLYT0_PACKEDBYTES, POLYT1_PACKEDBYTES, POLYW1_PACKEDBYTES, POLYZ_PACKEDBYTES, PUBLICKEYBYTES,
    Q, SECRETKEYBYTES, SEEDBYTES, SIGNBYTES,
};
use crate::packing::hint_bit;
use crate::params::ETA;
use crate::symmetric::stream256;
use crate::poly::{
    count_nonzero, decompose_hi, decompose_lo, eta_field, make_hint_seq, t0_field,
    challenge_spec, pointwise_seq, shiftl_seq, sub_seq, t1_field, use_hint_seq, w1_byte,
    add_seq, caddq_seq, eta_byte, eta_poly, in_range, norm_exceeds, poly_challenge, poly_ntt,
    power2round_hi, power2round_lo, reduce_seq, t0_byte, t1_byte, uniform_poly, z_byte, z_field, Poly,
};
use crate::polyvec::{
    lemma_veck_abs_to_in, lemma_veck_caddq_range, lemma_veck_in_to_abs, lemma_veck_norm_ok,
    lemma_vecl_abs_to_in, lemma_vecl_in_to_abs, lemma_vecl_norm_ok, polyvec_matrix_expand,
    polyvec_matrix_pointwise_montgomery, polyveck_add, polyveck_caddq, polyveck_chknorm,
    polyveck_decompose, polyveck_invntt_tomont, polyveck_make_hint, polyveck_ntt,
    polyveck_pack_w1, polyveck_pointwise_poly_montgomery, polyveck_power2round, polyveck_reduce,
    polyveck_shiftl, polyveck_sub, polyveck_uniform_eta, polyveck_use_hint, polyvecl_add,
    polyvecl_chknorm, polyvecl_invntt_tomont, polyvecl_ntt, polyvecl_pointwise_poly_montgomery,
    polyvecl_reduce, polyvecl_uniform_eta, polyvecl_uniform_gamma1, veck_abs, veck_in, vecl_abs,
    acc_seq, vecl_in, vecl_view, Polyveck, Polyvecl,
};
use crate::randombytes::randombytes;

verus! {

/// `2 * SEEDBYTES + CRHBYTES`: the expanded key-generation seed.
pub const SEEDBUFBYTES: usize = 128;

/// The vector `A * s1 + s2` of key generation, row `k`, as key generation
/// computes it: the accumulated products with `s1` in the transform domain
/// (`s1hat`), reduced, transformed back, plus `s2`, made nonnegative.
pub open spec fn keygen_t(mat: [Polyvecl; K], s1hat: Polyvecl, s2: Polyveck, k: int) -> Seq<i32> {
    caddq_seq(add_seq(invntt_tomont_spec(reduce_seq(acc_seq(vecl_view(mat@[k]), vecl_view(s1hat), L as int))), s2.vec@[k].coeffs@))
}

/// The packed keys `pk` and `sk` are those that key generation derives from
/// the expanded seed `sb = (rho, rhoprime, key)`, with the matrix `mat`
/// sampled from `rho`, the short vectors `s1`, `s2` sampled from
/// `rhoprime`, and `s1hat` the transform of `s1`.
pub open spec fn keygen_relation(
    pk: Seq<u8>,
    sk: Seq<u8>,
    sb: Seq<u8>,
    mat: [Polyvecl; K],
    s1: Polyvecl,
    s1hat: Polyvecl,
    s2: Polyveck,
) -> bool {
    &&& sb.len() == SEEDBUFBYTES
    &&& pk.subrange(0, 32) == sb.subrange(0, 32)
    &&& sk.subrange(64, 96) == sb.subrange(96, 128)
    &&& forall|i: int, j: int| 0 <= i < K && 0 <= j < L ==>
        #[trigger] mat@[i].vec@[j].coeffs@ == uniform_poly(sb.subrange(0, 32), (256 * i + j) as u16)
    &&& forall|k: int| 0 <= k < L ==> #[trigger] s1.vec@[k].coeffs@ == eta_poly(sb.subrange(32, 96), k as u16)
    &&& forall|k: int| 0 <= k < K ==> #[trigger] s2.vec@[k].coeffs@ == eta_poly(sb.subrange(32, 96), (L + k) as u16)
    &&& forall|k: int| 0 <= k < L ==> #[trigger] s1hat.vec@[k].coeffs@ == ntt_spec(s1.vec@[k].coeffs@)
    &&& forall|k: int, b: int| 0 <= k < K && 0 <= b < POLYT1_PACKEDBYTES ==>
        #[trigger] pk[SEEDBYTES + k * POLYT1_PACKEDBYTES + b] == t1_byte(power2round_hi(keygen_t(mat, s1hat, s2, k)), b)
    &&& forall|k: int, b: int| 0 <= k < K && 0 <= b < POLYT0_PACKEDBYTES ==>
        #[trigger] sk[SK_T0_OFF + k * POLYT0_PACKEDBYTES + b] == t0_byte(power2round_lo(keygen_t(mat, s1hat, s2, k)), b)
    &&& forall|k: int, b: int| 0 <= k < L && 0 <= b < POLYETA_PACKEDBYTES ==>
        #[trigger] sk[SK_S1_OFF + k * POLYETA_PACKEDBYTES + b] == eta_byte(s1.vec@[k].coeffs@, b)
    &&& forall|k: int, b: int| 0 <= k < K && 0 <= b < POLYETA_PACKEDBYTES ==>
        #[trigger] sk[SK_S2_OFF + k * POLYETA_PACKEDBYTES + b] == eta_byte(s2.vec@[k].coeffs@, b)
}

/// Generates a key pair from the 32-byte `seed`, or from fresh random bytes
/// where `seed` is `None`. The seed is expanded by SHAKE256 into
/// `(rho, rhoprime, key)`; the public key is `(rho, t1)` and the secret key
/// `(rho, tr, key, t0, s1, s2)` with `tr = SHAKE256(pk)`.
#[verifier::spinoff_prover]
#[verifier::rlimit(100)]
pub fn crypto_sign_keypair(pk: &mut [u8], sk: &mut [u8], seed: Option<&[u8]>) -> (r: u8)
    requires
        old(pk)@.len() == PUBLICKEYBYTES,
        old(sk)@.len() == SECRETKEYBYTES,
        seed is Some ==> seed.unwrap()@.len() >= SEEDBYTES,
    ensures
        r == 0,
        final(pk)@.len() == PUBLICKEYBYTES,
        final(sk)@.len() == SECRETKEYBYTES,
        seed is Some ==> final(pk)@.subrange(0, 32) == shake256_spec(seed.unwrap()@.take(32), 128).subrange(0, 32),
        seed is Some ==> final(sk)@.subrange(64, 96) == shake256_spec(seed.unwrap()@.take(32), 128).subrange(96, 128),
        final(sk)@.subrange(0, 32) == final(pk)@.subrange(0, 32),
        final(sk)@.subrange(32, 64) == shake256_spec(final(pk)@, 32),
        exists|sb: Seq<u8>, mat: [Polyvecl; K], s1: Polyvecl, s1hat: Polyvecl, s2: Polyveck|
            #[trigger] keygen_relation(final(pk)@, final(sk)@, sb, mat, s1, s1hat, s2)
            && (seed is Some ==> sb == shake256_spec(seed.unwrap()@.take(32), 128)),
{
    let mut init_seed = [0u8; SEEDBYTES];
    match seed {
        Some(x) => {
            crate::packing::copy_bytes(&mut init_seed, 0, x, 0, SEEDBYTES);
            assert(init_seed@ =~= x@.take(32));
        },
        None => {
            randombytes(&mut init_seed, SEEDBYTES);
        },
    }
    let mut seedbuf = [0u8; SEEDBUFBYTES];
    let mut tr = [0u8; SEEDBYTES];
    let mut rho = [0u8; SEEDBYTES];
    let mut rhoprime = [0u8; CRHBYTES];
    let mut key = [0u8; SEEDBYTES];
    let mut mat = [Polyvecl::default(), Polyvecl::default(), Polyvecl::default(), Polyvecl::default(), Polyvecl::default(), Polyvecl::default()];
    let mut s1 = Polyvecl::default();
    let mut s2 = Polyveck::default();
    let mut t1 = Polyveck::default();
    let mut t0 = Polyveck::default();

    // Randomness for rho, rhoprime and key
    shake256(&mut seedbuf, 0, 2 * SEEDBYTES + CRHBYTES, &init_seed, SEEDBYTES);
    assert(init_seed@.take(32) =~= init_seed@);
    crate::packing::copy_bytes(&mut rho, 0, &seedbuf, 0, SEEDBYTES);
    crate::packing::copy_bytes(&mut rhoprime, 0, &seedbuf, SEEDBYTES, CRHBYTES);
    crate::packing::copy_bytes(&mut key, 0, &seedbuf, SEEDBYTES + CRHBYTES, SEEDBYTES);

    // Matrix and short vectors
    polyvec_matrix_expand(&mut mat, &rho);
    polyvecl_uniform_eta(&mut s1, &rhoprime, 0);
    polyveck_uniform_eta(&mut s2, &rhoprime, L_U16);

    // t = A * s1 + s2
    let mut s1hat = s1;
    proof {
        lemma_vecl_in_to_abs(s1hat, -4, 5, Q as int);
    }
    polyvecl_ntt(&mut s1hat);
    polyvec_matrix_pointwise_montgomery(&mut t1, &mat, &s1hat);
    let ghost t_acc = t1;
    proof {
        lemma_veck_abs_to_in(t1, L * Q as int, i32::MIN as int, 2143289344);
    }
    polyveck_reduce(&mut t1);
    let ghost t_red = t1;
    proof {
        lemma_veck_in_to_abs(t1, -6283009, 6283009, Q as int);
    }
    polyveck_invntt_tomont(&mut t1);
    assert forall|k: int| 0 <= k < K implies crate::poly::add_fits(#[trigger] t1.vec@[k].coeffs@, s2.vec@[k].coeffs@) by {
        assert(abs_lt(t1.vec@[k].coeffs@, Q as int));
        assert(in_range(s2.vec@[k].coeffs@, -4, 5));
    }
    let ghost t_inv = t1;
    polyveck_add(&mut t1, &s2);
    assert(veck_in(t1, -Q - 4, Q + 5)) by {
        assert forall|k: int| 0 <= k < K implies in_range(#[trigger] t1.vec@[k].coeffs@, -Q - 4, Q + 5) by {
            assert(abs_lt(t_inv.vec@[k].coeffs@, Q as int));
            assert(in_range(s2.vec@[k].coeffs@, -4, 5));
            assert forall|i: int| 0 <= i < t1.vec@[k].coeffs@.len() implies -Q - 4 <= #[trigger] t1.vec@[k].coeffs@[i] < Q + 5 by {
                assert(-Q < t_inv.vec@[k].coeffs@[i] < Q);
                assert(-4 <= s2.vec@[k].coeffs@[i] < 5);
            }
        }
    }
    let ghost t_sum = t1;
    polyveck_caddq(&mut t1);
    proof {
        lemma_veck_caddq_range(t_sum, t1, -Q - 4, Q + 5);
    }
    let ghost t_c = t1;
    polyveck_power2round(&mut t1, &mut t0);
    assert forall|k: int| 0 <= k < K implies #[trigger] t_c.vec@[k].coeffs@ == keygen_t(mat, s1hat, s2, k) by {
        assert(t_acc.vec@[k].coeffs@ == acc_seq(vecl_view(mat@[k]), vecl_view(s1hat), L as int));
        assert(t_red.vec@[k].coeffs@ == reduce_seq(t_acc.vec@[k].coeffs@));
        assert(t_inv.vec@[k].coeffs@ == invntt_tomont_spec(t_red.vec@[k].coeffs@));
        assert(t_sum.vec@[k].coeffs@ == add_seq(t_inv.vec@[k].coeffs@, s2.vec@[k].coeffs@));
    }
    pack_pk(pk, &rho, &t1);

    // tr = H(pk), then the secret key
    shake256(&mut tr, 0, SEEDBYTES, pk, PUBLICKEYBYTES);
    assert(pk@.take(PUBLICKEYBYTES as int) =~= pk@);
    assert(tr@.subrange(0, 32) =~= tr@);
    pack_sk(sk, &rho, &tr, &key, &t0, &s1, &s2);
    assert(sk@.subrange(0, 32) =~= pk@.subrange(0, 32));
    proof {
        let sb = seedbuf@;
        assert(rho@ =~= sb.subrange(0, 32));
        assert(rhoprime@ =~= sb.subrange(32, 96));
        assert(key@ =~= sb.subrange(96, 128));
        assert(pk@.subrange(0, 32) =~= sb.subrange(0, 32));
        assert(sk@.subrange(64, 96) =~= sb.subrange(96, 128));
        assert forall|k: int, b: int| 0 <= k < K && 0 <= b < POLYT1_PACKEDBYTES implies
            #[trigger] pk@[SEEDBYTES + k * POLYT1_PACKEDBYTES + b] == t1_byte(power2round_hi(keygen_t(mat, s1hat, s2, k)), b) by {
            assert(t1.vec@[k].coeffs@ == power2round_hi(t_c.vec@[k].coeffs@));
        }
        assert forall|k: int, b: int| 0 <= k < K && 0 <= b < POLYT0_PACKEDBYTES implies
            #[trigger] sk@[SK_T0_OFF + k * POLYT0_PACKEDBYTES + b] == t0_byte(power2round_lo(keygen_t(mat, s1hat, s2, k)), b) by {
            assert(t0.vec@[k].coeffs@ == power2round_lo(t_c.vec@[k].coeffs@));
        }
        assert(keygen_relation(pk@, sk@, sb, mat, s1, s1hat, s2));
    }
    0
}

/// The challenge seed of `sig` is SHAKE256 of `mu` and the packed high
/// bits `w`, where `mu = SHAKE256(tr || m)` and `tr` is stored in `sk`.
pub open spec fn challenge_commits(sig: Seq<u8>, sk: Seq<u8>, m: Seq<u8>, w: Seq<u8>) -> bool {
    &&& w.len() == K * POLYW1_PACKEDBYTES
    &&& sig.subrange(0, SEEDBYTES as int) == shake256_spec(shake256_spec(sk.subrange(32, 64) + m, CRHBYTES as nat) + w, SEEDBYTES as nat)
}

/// Verification recomputed the challenge seed of `sig` as SHAKE256 of
/// `mu = SHAKE256(SHAKE256(pk) || m)` and the packed high bits `w`.
pub open spec fn verify_commits(sig: Seq<u8>, pk: Seq<u8>, m: Seq<u8>, w: Seq<u8>) -> bool {
    &&& w.len() == K * POLYW1_PACKEDBYTES
    &&& sig.subrange(0, SEEDBYTES as int) == shake256_spec(shake256_spec(shake256_spec(pk, SEEDBYTES as nat) + m, CRHBYTES as nat) + w, SEEDBYTES as nat)
}

/// Polynomial `k` of `s1` in the secret key `sk`.
pub open spec fn sk_s1(sk: Seq<u8>, k: int) -> Seq<i32> {
    Seq::new(N as nat, |j: int| (ETA - eta_field(sk, SK_S1_OFF + k * POLYETA_PACKEDBYTES, j)) as i32)
}

/// Polynomial `k` of `s2` in the secret key `sk`.
pub open spec fn sk_s2(sk: Seq<u8>, k: int) -> Seq<i32> {
    Seq::new(N as nat, |j: int| (ETA - eta_field(sk, SK_S2_OFF + k * POLYETA_PACKEDBYTES, j)) as i32)
}

/// Polynomial `k` of `t0` in the secret key `sk`.
pub open spec fn sk_t0(sk: Seq<u8>, k: int) -> Seq<i32> {
    Seq::new(N as nat, |j: int| (4096 - t0_field(sk, SK_T0_OFF + k * POLYT0_PACKEDBYTES, j)) as i32)
}

/// `mu = SHAKE256(tr || m)`.
pub open spec fn sign_mu(sk: Seq<u8>, m: Seq<u8>) -> Seq<u8> {
    shake256_spec(sk.subrange(32, 64) + m, CRHBYTES as nat)
}

/// The masking seed `SHAKE256(key || mu)`.
pub open spec fn sign_rhoprime(sk: Seq<u8>, m: Seq<u8>) -> Seq<u8> {
    shake256_spec(sk.subrange(64, 96) + sign_mu(sk, m), CRHBYTES as nat)
}

/// Polynomial `k` of the masking vector `y` of attempt `n`.
pub open spec fn sign_y(sk: Seq<u8>, m: Seq<u8>, n: int, k: int) -> Seq<i32> {
    Seq::new(N as nat, |j: int| (GAMMA1 - z_field(stream256(sign_rhoprime(sk, m), (L * n + k) as u16, 680), 0, j)) as i32)
}

/// Polynomial `k` of `w = A y` of attempt `n`, made nonnegative.
pub open spec fn sign_w(sk: Seq<u8>, m: Seq<u8>, n: int, k: int) -> Seq<i32> {
    let yhat = Seq::new(L as nat, |j: int| ntt_spec(sign_y(sk, m, n, j)));
    caddq_seq(invntt_tomont_spec(reduce_seq(acc_seq(expand_row(sk.subrange(0, 32), k), yhat, L as int))))
}

/// The challenge seed of attempt `n`: the hash of `mu` and the packed high
/// bits of `w`.
pub open spec fn sign_c(sk: Seq<u8>, m: Seq<u8>, n: int) -> Seq<u8> {
    shake256_spec(sign_mu(sk, m) + pack_w1_bytes(Seq::new(K as nat, |k: int| decompose_hi(sign_w(sk, m, n, k)))), SEEDBYTES as nat)
}

/// The challenge of attempt `n` in the transform domain.
pub open spec fn sign_chat(sk: Seq<u8>, m: Seq<u8>, n: int) -> Seq<i32> {
    ntt_spec(challenge_spec(sign_c(sk, m, n)))
}

/// Polynomial `k` of `z = y + c s1` of attempt `n`.
pub open spec fn sign_z(sk: Seq<u8>, m: Seq<u8>, n: int, k: int) -> Seq<i32> {
    reduce_seq(add_seq(invntt_tomont_spec(pointwise_seq(sign_chat(sk, m, n), ntt_spec(sk_s1(sk, k)))), sign_y(sk, m, n, k)))
}

/// Polynomial `k` of the low bits `w0 - c s2` of attempt `n`.
pub open spec fn sign_w0p(sk: Seq<u8>, m: Seq<u8>, n: int, k: int) -> Seq<i32> {
    reduce_seq(sub_seq(decompose_lo(sign_w(sk, m, n, k)), invntt_tomont_spec(pointwise_seq(sign_chat(sk, m, n), ntt_spec(sk_s2(sk, k))))))
}

/// Polynomial `k` of `c t0` of attempt `n`.
pub open spec fn sign_ct0(sk: Seq<u8>, m: Seq<u8>, n: int, k: int) -> Seq<i32> {
    reduce_seq(invntt_tomont_spec(pointwise_seq(sign_chat(sk, m, n), ntt_spec(sk_t0(sk, k)))))
}

/// Polynomial `k` of the hint of attempt `n`.
pub open spec fn sign_h(sk: Seq<u8>, m: Seq<u8>, n: int, k: int) -> Seq<i32> {
    make_hint_seq(add_seq(sign_w0p(sk, m, n, k), sign_ct0(sk, m, n, k)), decompose_hi(sign_w(sk, m, n, k)))
}

/// Number of set coefficients in the first `n` of the sequences `hs`.
pub open spec fn seqs_weight(hs: Seq<Seq<i32>>, n: int) -> int
    decreases n,
{
    if n <= 0 {
        0
    } else {
        seqs_weight(hs, n - 1) + count_nonzero(hs[n - 1], N as int)
    }
}

/// Attempt `n` passes every check: `z` below `GAMMA1 - BETA`, the low bits
/// below `GAMMA2 - BETA`, `c t0` below `GAMMA2`, at most `OMEGA` hints.
pub closed spec fn attempt_accepts(sk: Seq<u8>, m: Seq<u8>, n: int) -> bool {
    &&& !exists|k: int| 0 <= k < L && norm_exceeds(#[trigger] sign_z(sk, m, n, k), GAMMA1 - BETA)
    &&& !exists|k: int| 0 <= k < K && norm_exceeds(#[trigger] sign_w0p(sk, m, n, k), GAMMA2 - BETA)
    &&& !exists|k: int| 0 <= k < K && norm_exceeds(#[trigger] sign_ct0(sk, m, n, k), GAMMA2 as int)
    &&& seqs_weight(Seq::new(K as nat, |k: int| sign_h(sk, m, n, k)), K as int) <= OMEGA
}

/// `sig` is the signature that attempt `n` gives: its challenge seed, `z`
/// packed, and the canonical encoding of its hint.
pub closed spec fn attempt_signature(sig: Seq<u8>, sk: Seq<u8>, m: Seq<u8>, n: int) -> bool {
    &&& sig.len() == SIGNBYTES
    &&& sig.subrange(0, SEEDBYTES as int) == sign_c(sk, m, n)
    &&& forall|k: int, b: int| 0 <= k < L && 0 <= b < POLYZ_PACKEDBYTES ==>
        #[trigger] sig[SEEDBYTES + k * POLYZ_PACKEDBYTES + b] == z_byte(sign_z(sk, m, n, k), b)
    &&& hint_valid(sig_hint_bytes(sig))
    &&& forall|k: int, p: int| 0 <= k < K && 0 <= p < N ==>
        (hint_bit(sig_hint_bytes(sig), k, p) <==> #[trigger] sign_h(sk, m, n, k)[p] != 0)
}

/// The hint weight of a vector is that of its coefficient sequences.
pub proof fn lemma_weight_view(h: Polyveck, n: int)
    requires
        0 <= n <= K,
    ensures
        crate::polyvec::hint_weight(h, n) == seqs_weight(Seq::new(K as nat, |k: int| h.vec@[k].coeffs@), n),
    decreases n,
{
    if n > 0 {
        lemma_weight_view(h, n - 1);
    }
}

/// Signing is deterministic: two signatures that the first accepting
/// attempt of the same key and message gives are the same bytes.
pub proof fn lemma_sign_deterministic(sig1: Seq<u8>, sig2: Seq<u8>, sk: Seq<u8>, m: Seq<u8>, n1: int, n2: int)
    requires
        0 <= n1,
        0 <= n2,
        attempt_accepts(sk, m, n1),
        attempt_accepts(sk, m, n2),
        forall|x: int| 0 <= x < n1 ==> !#[trigger] attempt_accepts(sk, m, x),
        forall|x: int| 0 <= x < n2 ==> !#[trigger] attempt_accepts(sk, m, x),
        attempt_signature(sig1, sk, m, n1),
        attempt_signature(sig2, sk, m, n2),
    ensures
        sig1 == sig2,
{
    assert(n1 == n2) by {
        if n1 < n2 {
            assert(!attempt_accepts(sk, m, n1));
        } else if n2 < n1 {
            assert(!attempt_accepts(sk, m, n2));
        }
    }
    let x = sig_hint_bytes(sig1);
    let y = sig_hint_bytes(sig2);
    assert forall|a: int, p: int| 0 <= a < K && 0 <= p < N implies #[trigger] hint_bit(x, a, p) == hint_bit(y, a, p) by {
        assert(hint_bit(x, a, p) <==> sign_h(sk, m, n1, a)[p] != 0);
        assert(hint_bit(y, a, p) <==> sign_h(sk, m, n1, a)[p] != 0);
    }
    crate::packing::lemma_hint_unique(x, y);
    assert forall|t: int| 0 <= t < SIGNBYTES implies sig1[t] == sig2[t] by {
        if t < SEEDBYTES {
            assert(sig1[t] == sig1.subrange(0, SEEDBYTES as int)[t]);
            assert(sig2[t] == sig2.subrange(0, SEEDBYTES as int)[t]);
        } else if t < SIG_H_OFF {
            let k = (t - SEEDBYTES) / (POLYZ_PACKEDBYTES as int);
            let b = (t - SEEDBYTES) % (POLYZ_PACKEDBYTES as int);
            assert(t == SEEDBYTES + k * POLYZ_PACKEDBYTES + b);
            assert(sig1[SEEDBYTES + k * POLYZ_PACKEDBYTES + b] == z_byte(sign_z(sk, m, n1, k), b));
        } else {
            assert(x[t - SIG_H_OFF] == y[t - SIG_H_OFF]);
        }
    }
    assert(sig1 =~= sig2);
}

/// Largest number of signing attempts. Each attempt succeeds with constant
/// probability, so running out does not happen in practice; it is reported
/// as a fault. It keeps every nonce `L * nonce + i` within 16 bits.
pub const MAX_SIGN_ATTEMPTS: u16 = 13000;

/// Signs `m` with the secret key `sk`, writing the signature `(c, z, h)` to
/// `sig`. Deterministic: the masking randomness is `SHAKE256(key || mu)`
/// with `mu = SHAKE256(tr || m)`. Returns `false`, with `sig` not a valid
/// signature, only when every one of `MAX_SIGN_ATTEMPTS` attempts was
/// rejected.
#[verifier::spinoff_prover]
#[verifier::rlimit(100)]
pub fn crypto_sign_signature(sig: &mut [u8], m: &[u8], sk: &[u8]) -> (ok: bool)
    requires
        old(sig)@.len() == SIGNBYTES,
        sk@.len() == SECRETKEYBYTES,
    ensures
        final(sig)@.len() == SIGNBYTES,
        ok ==> hint_valid(sig_hint_bytes(final(sig)@)),
        ok ==> forall|k: int, j: int| 0 <= k < L && 0 <= j < N ==>
            -(GAMMA1 - BETA) < #[trigger] z_field(final(sig)@, SEEDBYTES + k * POLYZ_PACKEDBYTES, j) - GAMMA1 < GAMMA1 - BETA,
        ok ==> !z_too_large(final(sig)@),
        ok ==> exists|w: Seq<u8>| #[trigger] challenge_commits(final(sig)@, sk@, m@, w),
        ok ==> exists|n: int| 0 <= n < MAX_SIGN_ATTEMPTS && #[trigger] attempt_accepts(sk@, m@, n)
            && attempt_signature(final(sig)@, sk@, m@, n)
            && forall|x: int| 0 <= x < n ==> !#[trigger] attempt_accepts(sk@, m@, x),
        !ok ==> forall|n: int| 0 <= n < MAX_SIGN_ATTEMPTS ==> !#[trigger] attempt_accepts(sk@, m@, n),
{
    // `key` and `mu` are concatenated
    let mut keymu = [0u8; 96];
    let mut nonce: u16 = 0;
    let mut mat = [Polyvecl::default(), Polyvecl::default(), Polyvecl::default(), Polyvecl::default(), Polyvecl::default(), Polyvecl::default()];
    let mut s1 = Polyvecl::default();
    let mut y = Polyvecl::default();
    let mut s2 = Polyveck::default();
    let mut t0 = Polyveck::default();
    let mut w1 = Polyveck::default();
    let mut w0 = Polyveck::default();
    let mut h = Polyveck::default();
    let mut cp = Poly::default();
    let mut state = KeccakState::new();
    let mut rho = [0u8; SEEDBYTES];
    let mut tr = [0u8; SEEDBYTES];
    let mut key = [0u8; SEEDBYTES];
    let mut rhoprime = [0u8; CRHBYTES];

    unpack_sk(&mut rho, &mut tr, &mut key, &mut t0, &mut s1, &mut s2, sk);
    crate::packing::copy_bytes(&mut keymu, 0, &key, 0, SEEDBYTES);

    // mu = CRH(tr, m)
    shake256_absorb(&mut state, &tr, SEEDBYTES);
    shake256_absorb(&mut state, m, m.len());
    proof {
        assert(tr@.take(SEEDBYTES as int) =~= sk@.subrange(32, 64));
        assert(m@.take(m@.len() as int) =~= m@);
        crate::fips202::lemma_absorb_concat(crate::fips202::zero_lanes(), 0, crate::fips202::SHAKE256_RATE as int, sk@.subrange(32, 64), m@);
    }
    shake256_finalize(&mut state);
    shake256_squeeze(&mut keymu, SEEDBYTES, CRHBYTES, &mut state);
    let mut mu = [0u8; CRHBYTES];
    crate::packing::copy_bytes(&mut mu, 0, &keymu, SEEDBYTES, CRHBYTES);
    assert(mu@ =~= mu@.subrange(0, CRHBYTES as int));
    assert(mu@ == shake256_spec(sk@.subrange(32, 64) + m@, CRHBYTES as nat));

    // rhoprime = CRH(key, mu)
    shake256(&mut rhoprime, 0, CRHBYTES, &keymu, SEEDBYTES + CRHBYTES);

    // Expand matrix and transform vectors
    polyvec_matrix_expand(&mut mat, &rho);
    proof {
        lemma_vecl_in_to_abs(s1, -11, 5, Q as int);
        lemma_veck_in_to_abs(s2, -11, 5, Q as int);
        lemma_veck_in_to_abs(t0, -4095, 4097, Q as int);
    }
    let ghost s1_in = s1;
    let ghost s2_in = s2;
    let ghost t0_in = t0;
    polyvecl_ntt(&mut s1);
    polyveck_ntt(&mut s2);
    polyveck_ntt(&mut t0);
    proof {
        assert(keymu@.take(96) =~= sk@.subrange(64, 96) + mu@);
        assert(rhoprime@ =~= rhoprime@.subrange(0, CRHBYTES as int));
        assert(rho@ =~= sk@.subrange(0, 32));
        assert(rho@.take(32) =~= rho@);
        assert forall|i: int| 0 <= i < K implies #[trigger] vecl_view(mat@[i]) == expand_row(sk@.subrange(0, 32), i) by {
            assert(vecl_view(mat@[i]) =~= expand_row(sk@.subrange(0, 32), i));
        }
        assert forall|k: int| 0 <= k < L implies #[trigger] s1.vec@[k].coeffs@ == ntt_spec(sk_s1(sk@, k)) by {
            assert(s1_in.vec@[k].coeffs@ =~= sk_s1(sk@, k));
        }
        assert forall|k: int| 0 <= k < K implies #[trigger] s2.vec@[k].coeffs@ == ntt_spec(sk_s2(sk@, k)) by {
            assert(s2_in.vec@[k].coeffs@ =~= sk_s2(sk@, k));
        }
        assert forall|k: int| 0 <= k < K implies #[trigger] t0.vec@[k].coeffs@ == ntt_spec(sk_t0(sk@, k)) by {
            assert(t0_in.vec@[k].coeffs@ =~= sk_t0(sk@, k));
        }
    }

    while nonce < MAX_SIGN_ATTEMPTS
        invariant
            sig@.len() == SIGNBYTES,
            rhoprime@.len() == CRHBYTES,
            mu@.len() == CRHBYTES,
            mu@ == shake256_spec(sk@.subrange(32, 64) + m@, CRHBYTES as nat),
            rhoprime@ == sign_rhoprime(sk@, m@),
            forall|i: int| 0 <= i < K ==> #[trigger] vecl_view(mat@[i]) == expand_row(sk@.subrange(0, 32), i),
            forall|k: int| 0 <= k < L ==> #[trigger] s1.vec@[k].coeffs@ == ntt_spec(sk_s1(sk@, k)),
            forall|k: int| 0 <= k < K ==> #[trigger] s2.vec@[k].coeffs@ == ntt_spec(sk_s2(sk@, k)),
            forall|k: int| 0 <= k < K ==> #[trigger] t0.vec@[k].coeffs@ == ntt_spec(sk_t0(sk@, k)),
            forall|x: int| 0 <= x < nonce ==> !#[trigger] attempt_accepts(sk@, m@, x),
            forall|i: int, j: int| 0 <= i < K && 0 <= j < L ==> abs_lt(#[trigger] mat@[i].vec@[j].coeffs@, Q as int),
            vecl_abs(s1, 9 * Q as int),
            veck_abs(s2, 9 * Q as int),
            veck_abs(t0, 9 * Q as int),
        decreases MAX_SIGN_ATTEMPTS - nonce,
    {
        // Sample intermediate vector y
        let ghost n0 = nonce as int;
        polyvecl_uniform_gamma1(&mut y, &rhoprime, nonce);
        nonce = nonce + 1;
        assert(rhoprime@.take(CRHBYTES as int) =~= rhoprime@);
        assert forall|k: int| 0 <= k < L implies #[trigger] y.vec@[k].coeffs@ == sign_y(sk@, m@, n0, k) by {
            assert(y.vec@[k].coeffs@ =~= sign_y(sk@, m@, n0, k));
        }

        // w = A * y
        let mut z = y;
        proof {
            lemma_vecl_in_to_abs(z, -GAMMA1 + 1, GAMMA1 + 1, Q as int);
        }
        polyvecl_ntt(&mut z);
        assert forall|i: int, j: int| 0 <= i < K && 0 <= j < L implies abs_lt(#[trigger] mat@[i].vec@[j].coeffs@, 9 * Q as int) by {
            assert(abs_lt(mat@[i].vec@[j].coeffs@, Q as int));
        }
        assert(vecl_view(z) =~= Seq::new(L as nat, |j: int| ntt_spec(sign_y(sk@, m@, n0, j))));
        polyvec_matrix_pointwise_montgomery(&mut w1, &mat, &z);
        let ghost w_acc = w1;
        proof {
            lemma_veck_abs_to_in(w1, L * Q as int, i32::MIN as int, 2143289344);
        }
        polyveck_reduce(&mut w1);
        let ghost w_red = w1;
        proof {
            lemma_veck_in_to_abs(w1, -6283009, 6283009, Q as int);
        }
        polyveck_invntt_tomont(&mut w1);

        // Decompose w and call the random oracle
        let ghost w_inv = w1;
        proof {
            lemma_veck_abs_to_in(w1, Q as int, -Q + 1, Q as int);
        }
        polyveck_caddq(&mut w1);
        proof {
            lemma_veck_caddq_range(w_inv, w1, -Q + 1, Q as int);
        }
        assert forall|k: int| 0 <= k < K implies #[trigger] w1.vec@[k].coeffs@ == sign_w(sk@, m@, n0, k) by {
            assert(w_acc.vec@[k].coeffs@ == acc_seq(vecl_view(mat@[k]), vecl_view(z), L as int));
            assert(w_red.vec@[k].coeffs@ == reduce_seq(w_acc.vec@[k].coeffs@));
            assert(w_inv.vec@[k].coeffs@ == invntt_tomont_spec(w_red.vec@[k].coeffs@));
        }
        let ghost w_cq = w1;
        polyveck_decompose(&mut w1, &mut w0);
        polyveck_pack_w1(sig, &w1);
        assert forall|k: int| 0 <= k < K implies #[trigger] w1.vec@[k].coeffs@ == decompose_hi(sign_w(sk@, m@, n0, k))
            && w0.vec@[k].coeffs@ == decompose_lo(sign_w(sk@, m@, n0, k)) by {
            assert(w_cq.vec@[k].coeffs@ == sign_w(sk@, m@, n0, k));
        }
        assert forall|t: int| 0 <= t < K * POLYW1_PACKEDBYTES implies #[trigger] sig@[t]
            == pack_w1_bytes(Seq::new(K as nat, |k: int| decompose_hi(sign_w(sk@, m@, n0, k))))[t] by {
            let k = t / (POLYW1_PACKEDBYTES as int);
            let j = t % (POLYW1_PACKEDBYTES as int);
            assert(t == k * POLYW1_PACKEDBYTES + j);
            assert(w1.vec@[k].coeffs@ == decompose_hi(sign_w(sk@, m@, n0, k)));
            assert(sig@[k * POLYW1_PACKEDBYTES + j] == w1_byte(w1.vec@[k].coeffs@, j));
        }
        assert(sig@.subrange(0, (K * POLYW1_PACKEDBYTES) as int)
            =~= pack_w1_bytes(Seq::new(K as nat, |k: int| decompose_hi(sign_w(sk@, m@, n0, k)))));

        state.init();
        let ghost w1bytes = sig@.subrange(0, (K * POLYW1_PACKEDBYTES) as int);
        shake256_absorb(&mut state, &mu, CRHBYTES);
        shake256_absorb(&mut state, sig, K * POLYW1_PACKEDBYTES);
        proof {
            assert(mu@.take(CRHBYTES as int) =~= mu@);
            assert(sig@.take((K * POLYW1_PACKEDBYTES) as int) =~= w1bytes);
            crate::fips202::lemma_absorb_concat(crate::fips202::zero_lanes(), 0, crate::fips202::SHAKE256_RATE as int, mu@, w1bytes);
        }
        shake256_finalize(&mut state);
        shake256_squeeze(sig, 0, SEEDBYTES, &mut state);
        assert(sig@.subrange(0, SEEDBYTES as int) == shake256_spec(mu@ + w1bytes, SEEDBYTES as nat));
        assert(sig@.subrange(0, SEEDBYTES as int) == sign_c(sk@, m@, n0));
        poly_challenge(&mut cp, sig);
        assert(sig@.take(SEEDBYTES as int) =~= sig@.subrange(0, SEEDBYTES as int));
        proof {
            crate::polyvec::lemma_in_to_abs(cp.coeffs@, -1, 2, Q as int);
        }
        poly_ntt(&mut cp);
        assert(cp.coeffs@ == sign_chat(sk@, m@, n0));

        // z = y + c * s1, rejected if it reveals the secret
        polyvecl_pointwise_poly_montgomery(&mut z, &cp, &s1);
        let ghost z_pw = z;
        polyvecl_invntt_tomont(&mut z);
        assert forall|k: int| 0 <= k < L implies crate::poly::add_fits(#[trigger] z.vec@[k].coeffs@, y.vec@[k].coeffs@) by {
            assert(abs_lt(z.vec@[k].coeffs@, Q as int));
            assert(in_range(y.vec@[k].coeffs@, -GAMMA1 + 1, GAMMA1 + 1));
        }
        let ghost z_inv = z;
        polyvecl_add(&mut z, &y);
        assert(vecl_in(z, i32::MIN as int, 2143289344)) by {
            assert forall|k: int| 0 <= k < L implies in_range(#[trigger] z.vec@[k].coeffs@, i32::MIN as int, 2143289344) by {
                assert(abs_lt(z_inv.vec@[k].coeffs@, Q as int));
                assert(in_range(y.vec@[k].coeffs@, -GAMMA1 + 1, GAMMA1 + 1));
                assert forall|i: int| 0 <= i < z.vec@[k].coeffs@.len() implies i32::MIN <= #[trigger] z.vec@[k].coeffs@[i] < 2143289344 by {
                    assert(-Q < z_inv.vec@[k].coeffs@[i] < Q);
                    assert(-GAMMA1 + 1 <= y.vec@[k].coeffs@[i] < GAMMA1 + 1);
                }
            }
        }
        let ghost z_sum = z;
        polyvecl_reduce(&mut z);
        proof {
            lemma_vecl_in_to_abs(z, -6283009, 6283009, 1073741824);
        }
        assert forall|k: int| 0 <= k < L implies #[trigger] z.vec@[k].coeffs@ == sign_z(sk@, m@, n0, k) by {
            assert(z_pw.vec@[k].coeffs@ == pointwise_seq(cp.coeffs@, s1.vec@[k].coeffs@));
            assert(z_inv.vec@[k].coeffs@ == invntt_tomont_spec(z_pw.vec@[k].coeffs@));
            assert(z_sum.vec@[k].coeffs@ == add_seq(z_inv.vec@[k].coeffs@, y.vec@[k].coeffs@));
        }
        if polyvecl_chknorm(&z, GAMMA1 - BETA) > 0 {
            proof {
                let k = choose|k: int| 0 <= k < L && norm_exceeds(#[trigger] z.vec@[k].coeffs@, GAMMA1 - BETA);
                assert(norm_exceeds(sign_z(sk@, m@, n0, k), GAMMA1 - BETA));
                assert(!attempt_accepts(sk@, m@, n0));
            }
            continue;
        }
        proof {
            lemma_vecl_norm_ok(z, GAMMA1 - BETA);
            lemma_vecl_abs_to_in(z, GAMMA1 - BETA, -524287, 524289);
        }

        // Subtracting c * s2 must keep the high bits of w; the low bits
        // must not reveal secret information
        polyveck_pointwise_poly_montgomery(&mut h, &cp, &s2);
        let ghost h_pw = h;
        polyveck_invntt_tomont(&mut h);
        assert forall|k: int| 0 <= k < K implies crate::poly::sub_fits(#[trigger] w0.vec@[k].coeffs@, h.vec@[k].coeffs@) by {
            assert(abs_lt(h.vec@[k].coeffs@, Q as int));
            assert(in_range(w0.vec@[k].coeffs@, -GAMMA2 as int, GAMMA2 + 1));
        }
        let ghost w0_prev = w0;
        polyveck_sub(&mut w0, &h);
        assert(veck_in(w0, i32::MIN as int, 2143289344)) by {
            assert forall|k: int| 0 <= k < K implies in_range(#[trigger] w0.vec@[k].coeffs@, i32::MIN as int, 2143289344) by {
                assert(abs_lt(h.vec@[k].coeffs@, Q as int));
                assert(in_range(w0_prev.vec@[k].coeffs@, -GAMMA2 as int, GAMMA2 + 1));
                assert forall|i: int| 0 <= i < w0.vec@[k].coeffs@.len() implies i32::MIN <= #[trigger] w0.vec@[k].coeffs@[i] < 2143289344 by {
                    assert(-Q < h.vec@[k].coeffs@[i] < Q);
                    assert(-GAMMA2 <= w0_prev.vec@[k].coeffs@[i] < GAMMA2 + 1);
                }
            }
        }
        let ghost w0_sub = w0;
        polyveck_reduce(&mut w0);
        proof {
            lemma_veck_in_to_abs(w0, -6283009, 6283009, 1073741824);
        }
        assert forall|k: int| 0 <= k < K implies #[trigger] w0.vec@[k].coeffs@ == sign_w0p(sk@, m@, n0, k) by {
            assert(h_pw.vec@[k].coeffs@ == pointwise_seq(cp.coeffs@, s2.vec@[k].coeffs@));
            assert(h.vec@[k].coeffs@ == invntt_tomont_spec(h_pw.vec@[k].coeffs@));
            assert(w0_sub.vec@[k].coeffs@ == sub_seq(w0_prev.vec@[k].coeffs@, h.vec@[k].coeffs@));
        }
        if polyveck_chknorm(&w0, GAMMA2 - BETA) > 0 {
            proof {
                let k = choose|k: int| 0 <= k < K && norm_exceeds(#[trigger] w0.vec@[k].coeffs@, GAMMA2 - BETA);
                assert(norm_exceeds(sign_w0p(sk@, m@, n0, k), GAMMA2 - BETA));
                assert(!attempt_accepts(sk@, m@, n0));
            }
            continue;
        }
        proof {
            lemma_veck_norm_ok(w0, GAMMA2 - BETA);
        }

        // Hints for w1
        polyveck_pointwise_poly_montgomery(&mut h, &cp, &t0);
        let ghost h_pw2 = h;
        polyveck_invntt_tomont(&mut h);
        let ghost h_inv2 = h;
        proof {
            lemma_veck_abs_to_in(h, Q as int, i32::MIN as int, 2143289344);
        }
        polyveck_reduce(&mut h);
        proof {
            lemma_veck_in_to_abs(h, -6283009, 6283009, 1073741824);
        }
        assert forall|k: int| 0 <= k < K implies #[trigger] h.vec@[k].coeffs@ == sign_ct0(sk@, m@, n0, k) by {
            assert(h_pw2.vec@[k].coeffs@ == pointwise_seq(cp.coeffs@, t0.vec@[k].coeffs@));
            assert(h_inv2.vec@[k].coeffs@ == invntt_tomont_spec(h_pw2.vec@[k].coeffs@));
        }
        if polyveck_chknorm(&h, GAMMA2_I32) > 0 {
            proof {
                let k = choose|k: int| 0 <= k < K && norm_exceeds(#[trigger] h.vec@[k].coeffs@, GAMMA2 as int);
                assert(norm_exceeds(sign_ct0(sk@, m@, n0, k), GAMMA2 as int));
                assert(!attempt_accepts(sk@, m@, n0));
            }
            continue;
        }
        proof {
            lemma_veck_norm_ok(h, GAMMA2 as int);
        }
        assert forall|k: int| 0 <= k < K implies crate::poly::add_fits(#[trigger] w0.vec@[k].coeffs@, h.vec@[k].coeffs@) by {
            assert(abs_lt(h.vec@[k].coeffs@, GAMMA2 as int));
            assert(abs_lt(w0.vec@[k].coeffs@, GAMMA2 - BETA));
        }
        let ghost ct0v = h;
        let ghost w0pv = w0;
        polyveck_add(&mut w0, &h);
        let n: u32 = polyveck_make_hint(&mut h, &w0, &w1);
        assert forall|k: int| 0 <= k < K implies #[trigger] h.vec@[k].coeffs@ == sign_h(sk@, m@, n0, k) by {
            assert(w0.vec@[k].coeffs@ == add_seq(w0pv.vec@[k].coeffs@, ct0v.vec@[k].coeffs@));
            assert(ct0v.vec@[k].coeffs@ == sign_ct0(sk@, m@, n0, k));
            assert(w0pv.vec@[k].coeffs@ == sign_w0p(sk@, m@, n0, k));
        }
        proof {
            lemma_weight_view(h, K as int);
            assert(Seq::new(K as nat, |k: int| h.vec@[k].coeffs@) =~= Seq::new(K as nat, |k: int| sign_h(sk@, m@, n0, k)));
        }
        if n > OMEGA as u32 {
            assert(!attempt_accepts(sk@, m@, n0));
            continue;
        }
        proof {
            assert forall|k: int| 0 <= k < L && norm_exceeds(#[trigger] sign_z(sk@, m@, n0, k), GAMMA1 - BETA) implies false by {
                assert(z.vec@[k].coeffs@ == sign_z(sk@, m@, n0, k));
            }
            assert forall|k: int| 0 <= k < K && norm_exceeds(#[trigger] sign_w0p(sk@, m@, n0, k), GAMMA2 - BETA) implies false by {
                assert(w0pv.vec@[k].coeffs@ == sign_w0p(sk@, m@, n0, k));
            }
            assert forall|k: int| 0 <= k < K && norm_exceeds(#[trigger] sign_ct0(sk@, m@, n0, k), GAMMA2 as int) implies false by {
                assert(ct0v.vec@[k].coeffs@ == sign_ct0(sk@, m@, n0, k));
            }
            assert(attempt_accepts(sk@, m@, n0));
        }
        assert(veck_in(h, 0, 2)) by {
            assert forall|k: int| 0 <= k < K implies in_range(#[trigger] h.vec@[k].coeffs@, 0, 2) by {
                assert(h.vec@[k].coeffs@ == crate::poly::make_hint_seq(w0.vec@[k].coeffs@, w1.vec@[k].coeffs@));
            }
        }

        // Write signature
        let ghost c_seed = sig@.subrange(0, SEEDBYTES as int);
        pack_sig(sig, None, &z, &h);
        assert(sig@.subrange(0, SEEDBYTES as int) == c_seed);
        assert(challenge_commits(sig@, sk@, m@, w1bytes));
        proof {
            assert forall|k: int, j: int| 0 <= k < L && 0 <= j < N implies
                -(GAMMA1 - BETA) < #[trigger] z_field(sig@, SEEDBYTES + k * POLYZ_PACKEDBYTES, j) - GAMMA1 < GAMMA1 - BETA by {
                assert(SEEDBYTES + k * POLYZ_PACKEDBYTES + POLYZ_PACKEDBYTES <= SIGNBYTES) by (nonlinear_arith)
                    requires 0 <= k < L;
                assert forall|t: int| 0 <= t < 640 implies #[trigger] sig@[SEEDBYTES + k * POLYZ_PACKEDBYTES + t] == z_byte(z.vec@[k].coeffs@, t) by {
                }
                assert(in_range(z.vec@[k].coeffs@, -524287, 524289));
                crate::poly::lemma_z_pack_decode(sig@, SEEDBYTES + k * POLYZ_PACKEDBYTES, z.vec@[k].coeffs@);
                assert(abs_lt(z.vec@[k].coeffs@, GAMMA1 - BETA));
                assert(-(GAMMA1 - BETA) < z.vec@[k].coeffs@[j] < GAMMA1 - BETA);
            }
        }
        proof {
            assert forall|k: int, b: int| 0 <= k < L && 0 <= b < POLYZ_PACKEDBYTES implies
                #[trigger] sig@[SEEDBYTES + k * POLYZ_PACKEDBYTES + b] == z_byte(sign_z(sk@, m@, n0, k), b) by {
                assert(z.vec@[k].coeffs@ == sign_z(sk@, m@, n0, k));
            }
            assert forall|k: int, p: int| 0 <= k < K && 0 <= p < N implies
                (hint_bit(sig_hint_bytes(sig@), k, p) <==> #[trigger] sign_h(sk@, m@, n0, k)[p] != 0) by {
                assert(h.vec@[k].coeffs@ == sign_h(sk@, m@, n0, k));
            }
            assert(attempt_signature(sig@, sk@, m@, n0));
        }
        return true;
    }
    false
}

/// Some coefficient of the `z` that `sig` encodes reaches `GAMMA1 - BETA`
/// in absolute value.
pub open spec fn z_too_large(sig: Seq<u8>) -> bool {
    exists|k: int, i: int| 0 <= k < L && 0 <= i < N
        && crate::poly::abs(GAMMA1 - #[trigger] z_field(sig, SEEDBYTES + k * POLYZ_PACKEDBYTES, i)) >= GAMMA1 - BETA
}

/// Row `i` of the matrix expanded from `rho`.
pub open spec fn expand_row(rho: Seq<u8>, i: int) -> Seq<Seq<i32>> {
    Seq::new(L as nat, |j: int| uniform_poly(rho, (256 * i + j) as u16))
}

/// The bytes of `K` polynomials with coefficients in `[0, 16)`, packed as
/// `polyveck_pack_w1` does.
pub open spec fn pack_w1_bytes(ws: Seq<Seq<i32>>) -> Seq<u8> {
    Seq::new((K * POLYW1_PACKEDBYTES) as nat, |t: int| w1_byte(ws[t / (POLYW1_PACKEDBYTES as int)], t % (POLYW1_PACKEDBYTES as int)) as u8)
}

/// Polynomial `k` of the packed `t1` of `pk`.
pub open spec fn pk_t1(pk: Seq<u8>, k: int) -> Seq<i32> {
    Seq::new(N as nat, |j: int| t1_field(pk, SEEDBYTES + k * POLYT1_PACKEDBYTES, j) as i32)
}

/// Polynomial `k` of the `z` that `sig` encodes.
pub open spec fn sig_z(sig: Seq<u8>, k: int) -> Seq<i32> {
    Seq::new(N as nat, |j: int| (GAMMA1 - z_field(sig, SEEDBYTES + k * POLYZ_PACKEDBYTES, j)) as i32)
}

/// Polynomial `k` of the hint that `sig` encodes.
pub open spec fn sig_h(sig: Seq<u8>, k: int) -> Seq<i32> {
    Seq::new(N as nat, |p: int| if hint_bit(sig_hint_bytes(sig), k, p) { 1i32 } else { 0i32 })
}

/// The high bits that verification reconstructs, polynomial `k`:
/// `use_hint(caddq(invntt(reduce(A z - c t1 2^D))), h)` in the transform
/// domain, with `A` expanded from the `rho` of `pk` and `c` the challenge of
/// the seed of `sig`.
pub open spec fn verify_w1(sig: Seq<u8>, pk: Seq<u8>, k: int) -> Seq<i32> {
    let az = acc_seq(expand_row(pk.subrange(0, SEEDBYTES as int), k), Seq::new(L as nat, |j: int| ntt_spec(sig_z(sig, j))), L as int);
    let ct1 = pointwise_seq(ntt_spec(challenge_spec(sig.subrange(0, SEEDBYTES as int))), ntt_spec(shiftl_seq(pk_t1(pk, k))));
    use_hint_seq(caddq_seq(invntt_tomont_spec(reduce_seq(sub_seq(az, ct1)))), sig_h(sig, k))
}

/// The packed high bits that verification hashes.
pub open spec fn verify_w1_bytes(sig: Seq<u8>, pk: Seq<u8>) -> Seq<u8> {
    pack_w1_bytes(Seq::new(K as nat, |k: int| verify_w1(sig, pk, k)))
}

/// `sig` is a valid signature of `m` under `pk`: the lengths are right, the
/// hint is canonical, `z` is small, and the challenge seed is the hash of
/// `mu` and the reconstructed high bits.
pub open spec fn verify_ok(sig: Seq<u8>, m: Seq<u8>, pk: Seq<u8>) -> bool {
    &&& sig.len() == SIGNBYTES
    &&& pk.len() == PUBLICKEYBYTES
    &&& hint_valid(sig_hint_bytes(sig))
    &&& !z_too_large(sig)
    &&& verify_commits(sig, pk, m, verify_w1_bytes(sig, pk))
}

/// Checks the lengths and unpacks the public key into `(rho, t1)`. Fails
/// with `Input` exactly when `sig` or `pk` has the wrong length.
pub fn crypto_sign_verify_stage1(sig: &[u8], pk: &[u8]) -> (r: Result<([u8; SEEDBYTES], Polyveck), SignError>)
    ensures
        r is Err <==> (sig@.len() != SIGNBYTES || pk@.len() != PUBLICKEYBYTES),
        r is Err ==> r == Err::<([u8; SEEDBYTES], Polyveck), SignError>(SignError::Input),
        r is Ok ==> r.unwrap().0@ == pk@.subrange(0, SEEDBYTES as int),
        r is Ok ==> forall|k: int, j: int| 0 <= k < K && 0 <= j < N ==>
            #[trigger] r.unwrap().1.vec@[k].coeffs@[j] == crate::poly::t1_field(pk@, SEEDBYTES + k * crate::params::POLYT1_PACKEDBYTES, j),
        r is Ok ==> veck_in(r.unwrap().1, 0, 1024),
{
    if sig.len() != SIGNBYTES || pk.len() != PUBLICKEYBYTES {
        return Err(SignError::Input);
    }
    let mut rho = [0u8; SEEDBYTES];
    let mut t1 = Polyveck::default();
    unpack_pk(&mut rho, &mut t1, pk);
    assert(rho@.subrange(0, 32) =~= rho@);
    Ok((rho, t1))
}

/// Unpacks the signature into `(c, z, h)` and checks the norm of `z`. Fails
/// with `Input` when the hint bytes are malformed, and with `Verify` when
/// `z` is too large.
pub fn crypto_sign_verify_stage2(sig: &[u8]) -> (r: Result<([u8; SEEDBYTES], Polyvecl, Polyveck), SignError>)
    requires
        sig@.len() == SIGNBYTES,
    ensures
        !hint_valid(sig_hint_bytes(sig@)) ==> r == Err::<([u8; SEEDBYTES], Polyvecl, Polyveck), SignError>(SignError::Input),
        hint_valid(sig_hint_bytes(sig@)) ==> (r is Err <==> z_too_large(sig@)),
        hint_valid(sig_hint_bytes(sig@)) ==> (r is Err ==> r == Err::<([u8; SEEDBYTES], Polyvecl, Polyveck), SignError>(SignError::Verify)),
        r is Ok ==> r.unwrap().0@ == sig@.subrange(0, SEEDBYTES as int),
        r is Ok ==> forall|k: int, j: int| 0 <= k < L && 0 <= j < N ==>
            #[trigger] r.unwrap().1.vec@[k].coeffs@[j] == GAMMA1 as int - z_field(sig@, SEEDBYTES + k * POLYZ_PACKEDBYTES, j),
        r is Ok ==> vecl_abs(r.unwrap().1, GAMMA1 - BETA),
        r is Ok ==> veck_in(r.unwrap().2, 0, 2),
        r is Ok ==> forall|k: int, p: int| 0 <= k < K && 0 <= p < N ==>
            #[trigger] r.unwrap().2.vec@[k].coeffs@[p] == (if crate::packing::hint_bit(sig_hint_bytes(sig@), k, p) { 1int } else { 0int }),
{
    let mut c = [0u8; SEEDBYTES];
    let mut z = Polyvecl::default();
    let mut h = Polyveck::default();
    if let Err(e) = unpack_sig(&mut c, &mut z, &mut h, sig) {
        return Err(e);
    }
    proof {
        lemma_vecl_in_to_abs(z, -524287, 524289, 1073741824);
    }
    if polyvecl_chknorm(&z, GAMMA1 - BETA) > 0 {
        proof {
            let k = choose|k: int| 0 <= k < L && norm_exceeds(#[trigger] z.vec@[k].coeffs@, GAMMA1 - BETA);
            let i = choose|i: int| 0 <= i < N && crate::poly::abs(#[trigger] z.vec@[k].coeffs@[i] as int) >= GAMMA1 - BETA;
            assert(z.vec@[k].coeffs@[i] == GAMMA1 as int - z_field(sig@, SEEDBYTES + k * POLYZ_PACKEDBYTES, i));
        }
        return Err(SignError::Verify);
    }
    proof {
        lemma_vecl_norm_ok(z, GAMMA1 - BETA);
        if z_too_large(sig@) {
            let k = choose|k: int, i: int| 0 <= k < L && 0 <= i < N && crate::poly::abs(GAMMA1 - #[trigger] z_field(sig@, SEEDBYTES + k * POLYZ_PACKEDBYTES, i)) >= GAMMA1 - BETA;
            let (k, i) = k;
            assert(z.vec@[k].coeffs@[i] == GAMMA1 as int - z_field(sig@, SEEDBYTES + k * POLYZ_PACKEDBYTES, i));
            assert(abs_lt(z.vec@[k].coeffs@, GAMMA1 - BETA));
        }
    }
    assert(c@.subrange(0, 32) =~= c@);
    Ok((c, z, h))
}

/// `mu = SHAKE256(SHAKE256(pk, SEEDBYTES) || m, CRHBYTES)`.
pub fn crypto_sign_verify_stage3(pk: &[u8], m: &[u8]) -> (mu: [u8; CRHBYTES])
    requires
        pk@.len() == PUBLICKEYBYTES,
    ensures
        mu@ == shake256_spec(shake256_spec(pk@, SEEDBYTES as nat) + m@, CRHBYTES as nat),
{
    let mut mu = [0u8; CRHBYTES];
    let mut state = KeccakState::new();
    shake256(&mut mu, 0, SEEDBYTES, pk, PUBLICKEYBYTES);
    let ghost tr = mu@.subrange(0, SEEDBYTES as int);
    assert(pk@.take(PUBLICKEYBYTES as int) =~= pk@);
    shake256_absorb(&mut state, &mu, SEEDBYTES);
    shake256_absorb(&mut state, m, m.len());
    proof {
        assert(mu@.take(SEEDBYTES as int) =~= tr);
        assert(m@.take(m@.len() as int) =~= m@);
        crate::fips202::lemma_absorb_concat(crate::fips202::zero_lanes(), 0, crate::fips202::SHAKE256_RATE as int, tr, m@);
    }
    shake256_finalize(&mut state);
    shake256_squeeze(&mut mu, 0, CRHBYTES, &mut state);
    assert(mu@.subrange(0, CRHBYTES as int) =~= mu@);
    mu
}

/// The challenge polynomial of the seed `c`.
pub fn crypto_sign_verify_stage4(c: &[u8; SEEDBYTES]) -> (cp: Poly)
    ensures
        cp.coeffs@ == challenge_spec(c@),
        in_range(cp.coeffs@, -1, 2),
{
    let mut cp = Poly::default();
    poly_challenge(&mut cp, c);
    assert(c@.take(SEEDBYTES as int) =~= c@);
    cp
}

/// The matrix expanded from `rho`.
pub fn crypto_sign_verify_stage5(rho: &[u8; SEEDBYTES]) -> (mat: [Polyvecl; K])
    ensures
        forall|i: int, j: int| 0 <= i < K && 0 <= j < L ==> in_range(#[trigger] mat@[i].vec@[j].coeffs@, 0, Q as int),
        forall|i: int, j: int| 0 <= i < K && 0 <= j < L ==> abs_lt(#[trigger] mat@[i].vec@[j].coeffs@, Q as int),
        forall|i: int| 0 <= i < K ==> #[trigger] vecl_view(mat@[i]) == expand_row(rho@, i),
{
    let mut mat = [Polyvecl::default(), Polyvecl::default(), Polyvecl::default(), Polyvecl::default(), Polyvecl::default(), Polyvecl::default()];
    polyvec_matrix_expand(&mut mat, rho);
    assert(rho@.take(SEEDBYTES as int) =~= rho@);
    assert forall|i: int| 0 <= i < K implies #[trigger] vecl_view(mat@[i]) == expand_row(rho@, i) by {
        assert(vecl_view(mat@[i]) =~= expand_row(rho@, i));
    }
    mat
}

/// In the transform domain: `w1 = A * z` and `ct1 = c * t1 * 2^D`.
pub fn crypto_sign_verify_stage6(cp: Poly, mat: [Polyvecl; K], z: Polyvecl, t1: Polyveck) -> (r: (Polyveck, Polyveck))
    requires
        in_range(cp.coeffs@, -1, 2),
        forall|i: int, j: int| 0 <= i < K && 0 <= j < L ==> abs_lt(#[trigger] mat@[i].vec@[j].coeffs@, Q as int),
        vecl_abs(z, GAMMA1 - BETA),
        veck_in(t1, 0, 1024),
    ensures
        veck_abs(r.0, L * Q as int),
        veck_abs(r.1, Q as int),
        forall|k: int| 0 <= k < K ==> #[trigger] r.0.vec@[k].coeffs@
            == acc_seq(vecl_view(mat@[k]), Seq::new(L as nat, |j: int| ntt_spec(z.vec@[j].coeffs@)), L as int),
        forall|k: int| 0 <= k < K ==> #[trigger] r.1.vec@[k].coeffs@
            == pointwise_seq(ntt_spec(cp.coeffs@), ntt_spec(shiftl_seq(t1.vec@[k].coeffs@))),
{
    let ghost z0 = z;
    let ghost cp0 = cp;
    let ghost t10 = t1;
    let mut z = z;
    let mut cp = cp;
    let mut t1 = t1;
    let mut w1 = Polyveck::default();
    proof {
        lemma_vecl_abs_to_in(z, GAMMA1 - BETA, -Q + 1, Q as int);
        lemma_vecl_in_to_abs(z, -Q + 1, Q as int, Q as int);
    }
    polyvecl_ntt(&mut z);
    assert(vecl_view(z) =~= Seq::new(L as nat, |j: int| ntt_spec(z0.vec@[j].coeffs@)));
    assert forall|i: int, j: int| 0 <= i < K && 0 <= j < L implies abs_lt(#[trigger] mat@[i].vec@[j].coeffs@, 9 * Q as int) by {
        assert(abs_lt(mat@[i].vec@[j].coeffs@, Q as int));
    }
    polyvec_matrix_pointwise_montgomery(&mut w1, &mat, &z);
    proof {
        crate::polyvec::lemma_in_to_abs(cp.coeffs@, -1, 2, Q as int);
        lemma_veck_in_to_abs(t1, 0, 1024, 262144);
    }
    poly_ntt(&mut cp);
    let ghost t1_in = t1;
    polyveck_shiftl(&mut t1);
    assert(veck_abs(t1, Q as int)) by {
        assert forall|k: int| 0 <= k < K implies abs_lt(#[trigger] t1.vec@[k].coeffs@, Q as int) by {
            assert(in_range(t1_in.vec@[k].coeffs@, 0, 1024));
            assert forall|i: int| 0 <= i < t1.vec@[k].coeffs@.len() implies -Q < #[trigger] t1.vec@[k].coeffs@[i] < Q by {
                assert(0 <= t1_in.vec@[k].coeffs@[i] < 1024);
                assert(t1.vec@[k].coeffs@ == crate::poly::shiftl_seq(t1_in.vec@[k].coeffs@));
            }
        }
    }
    let ghost t1_sh = t1;
    polyveck_ntt(&mut t1);
    let t1_2 = t1;
    polyveck_pointwise_poly_montgomery(&mut t1, &cp, &t1_2);
    assert forall|k: int| 0 <= k < K implies #[trigger] t1.vec@[k].coeffs@
        == pointwise_seq(ntt_spec(cp0.coeffs@), ntt_spec(shiftl_seq(t10.vec@[k].coeffs@))) by {
        assert(t1_sh.vec@[k].coeffs@ == shiftl_seq(t10.vec@[k].coeffs@));
        assert(t1_2.vec@[k].coeffs@ == ntt_spec(t1_sh.vec@[k].coeffs@));
    }
    (w1, t1)
}

/// `w1 - ct1`, reduced and transformed back.
pub fn crypto_sign_verify_stage7(w1: Polyveck, t1: Polyveck) -> (r: Polyveck)
    requires
        veck_abs(w1, L * Q as int),
        veck_abs(t1, Q as int),
    ensures
        veck_abs(r, Q as int),
        forall|k: int| 0 <= k < K ==> #[trigger] r.vec@[k].coeffs@
            == invntt_tomont_spec(reduce_seq(sub_seq(w1.vec@[k].coeffs@, t1.vec@[k].coeffs@))),
{
    let ghost w10 = w1;
    let mut w1 = w1;
    assert forall|k: int| 0 <= k < K implies crate::poly::sub_fits(#[trigger] w1.vec@[k].coeffs@, t1.vec@[k].coeffs@) by {
        assert(abs_lt(w1.vec@[k].coeffs@, L * Q as int));
        assert(abs_lt(t1.vec@[k].coeffs@, Q as int));
    }
    let ghost w_in = w1;
    polyveck_sub(&mut w1, &t1);
    assert(veck_abs(w1, 6 * Q as int)) by {
        assert forall|k: int| 0 <= k < K implies abs_lt(#[trigger] w1.vec@[k].coeffs@, 6 * Q as int) by {
            assert(abs_lt(w_in.vec@[k].coeffs@, L * Q as int));
            assert(abs_lt(t1.vec@[k].coeffs@, Q as int));
            assert forall|i: int| 0 <= i < w1.vec@[k].coeffs@.len() implies -(6 * Q) < #[trigger] w1.vec@[k].coeffs@[i] < 6 * Q by {
                assert(-(5 * Q) < w_in.vec@[k].coeffs@[i] < 5 * Q);
                assert(-Q < t1.vec@[k].coeffs@[i] < Q);
            }
        }
    }
    proof {
        lemma_veck_abs_to_in(w1, 6 * Q as int, i32::MIN as int, 2143289344);
    }
    let ghost w_sub = w1;
    polyveck_reduce(&mut w1);
    proof {
        lemma_veck_in_to_abs(w1, -6283009, 6283009, Q as int);
    }
    let ghost w_red = w1;
    polyveck_invntt_tomont(&mut w1);
    assert forall|k: int| 0 <= k < K implies #[trigger] w1.vec@[k].coeffs@
        == invntt_tomont_spec(reduce_seq(sub_seq(w10.vec@[k].coeffs@, t1.vec@[k].coeffs@))) by {
        assert(w_red.vec@[k].coeffs@ == reduce_seq(w_sub.vec@[k].coeffs@));
        assert(w_sub.vec@[k].coeffs@ == sub_seq(w_in.vec@[k].coeffs@, t1.vec@[k].coeffs@));
    }
    w1
}

/// Reconstructs the high bits of `w1` with the hint `h`, packs them, and
/// recomputes the challenge seed `c2 = SHAKE256(mu || w1)`. Succeeds exactly
/// when `c2 == c`.
pub fn crypto_sign_verify_stage8(
    buf: &mut [u8],
    w1: Polyveck,
    h: &Polyveck,
    mu: &[u8; CRHBYTES],
    c: &[u8; SEEDBYTES],
    c2: &mut [u8; SEEDBYTES],
) -> (r: Result<(), SignError>)
    requires
        old(buf)@.len() == K * POLYW1_PACKEDBYTES,
        veck_abs(w1, Q as int),
        veck_in(*h, 0, 2),
    ensures
        final(buf)@.len() == K * POLYW1_PACKEDBYTES,
        final(buf)@ == pack_w1_bytes(Seq::new(K as nat, |k: int| use_hint_seq(caddq_seq(w1.vec@[k].coeffs@), h.vec@[k].coeffs@))),
        final(c2)@ == shake256_spec(mu@ + final(buf)@, SEEDBYTES as nat),
        r is Ok <==> c@ == final(c2)@,
        r is Err ==> r == Err::<(), SignError>(SignError::Verify),
{
    let mut w1 = w1;
    let ghost w_in = w1;
    proof {
        lemma_veck_abs_to_in(w1, Q as int, -Q + 1, Q as int);
    }
    polyveck_caddq(&mut w1);
    proof {
        lemma_veck_caddq_range(w_in, w1, -Q + 1, Q as int);
    }
    let ghost w_c = w1;
    polyveck_use_hint(&mut w1, h);
    polyveck_pack_w1(buf, &w1);
    assert forall|t: int| 0 <= t < K * POLYW1_PACKEDBYTES implies #[trigger] buf@[t]
        == pack_w1_bytes(Seq::new(K as nat, |k: int| use_hint_seq(caddq_seq(w_in.vec@[k].coeffs@), h.vec@[k].coeffs@)))[t] by {
        let k = t / (POLYW1_PACKEDBYTES as int);
        let j = t % (POLYW1_PACKEDBYTES as int);
        assert(t == k * POLYW1_PACKEDBYTES + j);
        assert(w1.vec@[k].coeffs@ == use_hint_seq(w_c.vec@[k].coeffs@, h.vec@[k].coeffs@));
        assert(w_c.vec@[k].coeffs@ == caddq_seq(w_in.vec@[k].coeffs@));
        assert(buf@[k * POLYW1_PACKEDBYTES + j] == w1_byte(w1.vec@[k].coeffs@, j));
    }
    assert(buf@ =~= pack_w1_bytes(Seq::new(K as nat, |k: int| use_hint_seq(caddq_seq(w_in.vec@[k].coeffs@), h.vec@[k].coeffs@))));

    let mut state = KeccakState::new();
    shake256_absorb(&mut state, mu, CRHBYTES);
    shake256_absorb(&mut state, buf, K * POLYW1_PACKEDBYTES);
    shake256_finalize(&mut state);
    shake256_squeeze(c2, 0, SEEDBYTES, &mut state);
    proof {
        assert(mu@.take(CRHBYTES as int) =~= mu@);
        assert(buf@.take((K * POLYW1_PACKEDBYTES) as int) =~= buf@);
        crate::fips202::lemma_absorb_concat(crate::fips202::zero_lanes(), 0, crate::fips202::SHAKE256_RATE as int, mu@, buf@);
        assert(c2@.subrange(0, 32) =~= c2@);
    }
    if !bytes_eq(c, c2) {
        Err(SignError::Verify)
    } else {
        Ok(())
    }
}

/// Whether the two seeds are equal.
pub fn bytes_eq(a: &[u8; SEEDBYTES], b: &[u8; SEEDBYTES]) -> (r: bool)
    ensures
        r <==> a@ == b@,
{
    let mut i: usize = 0;
    while i < SEEDBYTES
        invariant
            i <= SEEDBYTES,
            forall|j: int| 0 <= j < i ==> a@[j] == b@[j],
        decreases SEEDBYTES - i,
    {
        if a[i] != b[i] {
            return false;
        }
        i = i + 1;
    }
    assert(a@ =~= b@);
    true
}

/// Stages 4 to 6 of verification: the challenge, the matrix, and the two
/// products in the transform domain.
fn solvematrix(rho: &[u8; SEEDBYTES], c: &[u8; SEEDBYTES], z: Polyvecl, t1: &Polyveck) -> (r: (Polyveck, Polyveck))
    requires
        vecl_abs(z, GAMMA1 - BETA),
        veck_in(*t1, 0, 1024),
    ensures
        veck_abs(r.0, L * Q as int),
        veck_abs(r.1, Q as int),
        forall|k: int| 0 <= k < K ==> #[trigger] r.0.vec@[k].coeffs@
            == acc_seq(expand_row(rho@, k), Seq::new(L as nat, |j: int| ntt_spec(z.vec@[j].coeffs@)), L as int),
        forall|k: int| 0 <= k < K ==> #[trigger] r.1.vec@[k].coeffs@
            == pointwise_seq(ntt_spec(challenge_spec(c@)), ntt_spec(shiftl_seq(t1.vec@[k].coeffs@))),
{
    let cp = crypto_sign_verify_stage4(c);
    let mat = crypto_sign_verify_stage5(rho);
    let r = crypto_sign_verify_stage6(cp, mat, z, *t1);
    assert forall|k: int| 0 <= k < K implies #[trigger] r.0.vec@[k].coeffs@
        == acc_seq(expand_row(rho@, k), Seq::new(L as nat, |j: int| ntt_spec(z.vec@[j].coeffs@)), L as int) by {
        assert(vecl_view(mat@[k]) == expand_row(rho@, k));
    }
    r
}

/// The packed high bits that stages 7 and 8 compute from `A z` in the
/// transform domain (`w1p`), `c t1 2^D` (`ct1`) and the hint `h`.
pub open spec fn final_bytes(w1p: Polyveck, ct1: Polyveck, h: Polyveck) -> Seq<u8> {
    pack_w1_bytes(Seq::new(K as nat, |k: int| use_hint_seq(
        caddq_seq(invntt_tomont_spec(reduce_seq(sub_seq(w1p.vec@[k].coeffs@, ct1.vec@[k].coeffs@)))),
        h.vec@[k].coeffs@,
    )))
}

/// Stages 7 and 8 of verification. Succeeds exactly when `c` is the hash of
/// `mu` and the reconstructed, packed high bits.
pub fn finalverify(w1_part1: Polyveck, t1: Polyveck, h: Polyveck, mu: [u8; CRHBYTES], c: [u8; SEEDBYTES]) -> (r: Result<(), SignError>)
    requires
        veck_abs(w1_part1, L * Q as int),
        veck_abs(t1, Q as int),
        veck_in(h, 0, 2),
    ensures
        r is Err ==> r == Err::<(), SignError>(SignError::Verify),
        r is Ok <==> c@ == shake256_spec(mu@ + final_bytes(w1_part1, t1, h), SEEDBYTES as nat),
{
    let w1 = crypto_sign_verify_stage7(w1_part1, t1);
    let mut buf = [0u8; 768];
    let mut c2 = [0u8; SEEDBYTES];
    let r = crypto_sign_verify_stage8(&mut buf, w1, &h, &mu, &c, &mut c2);
    assert(Seq::new(K as nat, |k: int| use_hint_seq(caddq_seq(w1.vec@[k].coeffs@), h.vec@[k].coeffs@))
        =~= Seq::new(K as nat, |k: int| use_hint_seq(
            caddq_seq(invntt_tomont_spec(reduce_seq(sub_seq(w1_part1.vec@[k].coeffs@, t1.vec@[k].coeffs@)))),
            h.vec@[k].coeffs@)));
    assert(buf@ == final_bytes(w1_part1, t1, h));
    r
}

/// Verifies the signature `sig` of the message `m` under the public key
/// `pk`. Succeeds exactly when `verify_ok` holds. Fails with `Input` when a
/// length is wrong or the hint bytes are malformed, and otherwise with
/// `Verify`.
pub fn crypto_sign_verify(sig: &[u8], m: &[u8], pk: &[u8]) -> (r: Result<(), SignError>)
    ensures
        r is Ok <==> verify_ok(sig@, m@, pk@),
        (sig@.len() != SIGNBYTES || pk@.len() != PUBLICKEYBYTES) ==> r == Err::<(), SignError>(SignError::Input),
        (sig@.len() == SIGNBYTES && pk@.len() == PUBLICKEYBYTES) ==> (r == Err::<(), SignError>(SignError::Input) <==> !hint_valid(sig_hint_bytes(sig@))),
        r is Err && r != Err::<(), SignError>(SignError::Input) ==> r == Err::<(), SignError>(SignError::Verify),
{
    // Lengths, then the public key
    let (rho, t1) = match crypto_sign_verify_stage1(sig, pk) {
        Ok(v) => v,
        Err(e) => {
            return Err(e);
        },
    };
    // The signature, with the norm of z
    let (c, z, h) = match crypto_sign_verify_stage2(sig) {
        Ok(v) => v,
        Err(e) => {
            return Err(e);
        },
    };
    // mu = CRH(H(pk), m)
    let mu = crypto_sign_verify_stage3(pk, m);
    // A * z - c * t1 * 2^D, in the transform domain
    let (w1, ct1) = solvematrix(&rho, &c, z, &t1);
    let r = finalverify(w1, ct1, h, mu, c);
    proof {
        let sd = sig@.subrange(0, SEEDBYTES as int);
        assert forall|j: int| 0 <= j < L implies #[trigger] z.vec@[j].coeffs@ == sig_z(sig@, j) by {
            assert(z.vec@[j].coeffs@ =~= sig_z(sig@, j));
        }
        assert(Seq::new(L as nat, |j: int| ntt_spec(z.vec@[j].coeffs@)) =~= Seq::new(L as nat, |j: int| ntt_spec(sig_z(sig@, j))));
        assert forall|k: int| 0 <= k < K implies #[trigger] t1.vec@[k].coeffs@ == pk_t1(pk@, k) by {
            assert(t1.vec@[k].coeffs@ =~= pk_t1(pk@, k));
        }
        assert forall|k: int| 0 <= k < K implies #[trigger] h.vec@[k].coeffs@ == sig_h(sig@, k) by {
            assert(h.vec@[k].coeffs@ =~= sig_h(sig@, k));
        }
        assert(rho@ == pk@.subrange(0, SEEDBYTES as int));
        assert(c@ == sd);
        assert(Seq::new(K as nat, |k: int| use_hint_seq(
            caddq_seq(invntt_tomont_spec(reduce_seq(sub_seq(w1.vec@[k].coeffs@, ct1.vec@[k].coeffs@)))),
            h.vec@[k].coeffs@)) =~= Seq::new(K as nat, |k: int| verify_w1(sig@, pk@, k)));
        assert(final_bytes(w1, ct1, h) == verify_w1_bytes(sig@, pk@));
    }
    r
}

/// Signing and verification hash a message alike: where the secret key
/// stores `tr = SHAKE256(pk)`, as key generation makes it, the `mu` that
/// signing binds into the challenge seed is the one that verification
/// recomputes from the public key, so the two commitments are the same
/// statement.
pub proof fn lemma_same_commitment(sig: Seq<u8>, pk: Seq<u8>, sk: Seq<u8>, m: Seq<u8>, w: Seq<u8>)
    requires
        sk.len() == SECRETKEYBYTES,
        sk.subrange(32, 64) == shake256_spec(pk, 32),
    ensures
        challenge_commits(sig, sk, m, w) <==> verify_commits(sig, pk, m, w),
{
}

/// Zeroes the message and its length after a failed verification.
fn goto_badsig(msg: &mut Vec<u8>, mlen: &mut usize) -> (r: Result<(), SignError>)
    ensures
        *final(mlen) == 0,
        final(msg)@.len() == old(msg)@.len(),
        forall|j: int| 0 <= j < final(msg)@.len() ==> #[trigger] final(msg)@[j] == 0,
        r == Err::<(), SignError>(SignError::Verify),
{
    *mlen = 0;
    let mut i: usize = 0;
    while i < msg.len()
        invariant
            i <= msg@.len(),
            msg@.len() == old(msg)@.len(),
            forall|j: int| 0 <= j < i ==> #[trigger] msg@[j] == 0,
        decreases msg@.len() - i,
    {
        msg[i] = 0;
        i = i + 1;
    }
    Err(SignError::Verify)
}

/// Opens the signed message `sm = sig || m`: verifies it under `pk`, and on
/// success writes `m` to `msg` and its length to `mlen`. On failure `msg`
/// is zeroed, `mlen` is 0 and the error is `Verify`.
pub fn crypto_sign_open(msg: &mut Vec<u8>, mlen: &mut usize, sm: &[u8], pk: &[u8]) -> (r: Result<(), SignError>)
    ensures
        r is Ok ==> sm@.len() >= SIGNBYTES && *final(mlen) == sm@.len() - SIGNBYTES && final(msg)@ == sm@.subrange(SIGNBYTES as int, sm@.len() as int),
        r is Err ==> r == Err::<(), SignError>(SignError::Verify) && *final(mlen) == 0,
        r is Err ==> final(msg)@.len() == old(msg)@.len() && forall|j: int| 0 <= j < final(msg)@.len() ==> #[trigger] final(msg)@[j] == 0,
        sm@.len() < SIGNBYTES ==> r is Err,
        r is Ok <==> sm@.len() >= SIGNBYTES && verify_ok(sm@.subrange(0, SIGNBYTES as int), sm@.subrange(SIGNBYTES as int, sm@.len() as int), pk@),
{
    let smlen = sm.len();
    if smlen < SIGNBYTES {
        return goto_badsig(msg, mlen);
    }
    *mlen = smlen - SIGNBYTES;
    let mut sig: Vec<u8> = Vec::new();
    let mut m: Vec<u8> = Vec::new();
    let mut i: usize = 0;
    while i < smlen
        invariant
            i <= smlen == sm@.len(),
            smlen >= SIGNBYTES,
            i <= SIGNBYTES ==> sig@ == sm@.subrange(0, i as int) && m@.len() == 0,
            i > SIGNBYTES ==> sig@ == sm@.subrange(0, SIGNBYTES as int) && m@ == sm@.subrange(SIGNBYTES as int, i as int),
        decreases smlen - i,
    {
        if i < SIGNBYTES {
            sig.push(sm[i]);
            assert(sig@ =~= sm@.subrange(0, i + 1));
        } else {
            m.push(sm[i]);
            assert(m@ =~= sm@.subrange(SIGNBYTES as int, i + 1));
        }
        i = i + 1;
    }
    if crypto_sign_verify(sig.as_slice(), m.as_slice(), pk).is_err() {
        return goto_badsig(msg, mlen);
    }
    *msg = m;
    Ok(())
}

} // verus!
