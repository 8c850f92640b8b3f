use vstd::prelude::*;
use crate::api::SignError;
use crate::params::{
    K, L, N, OMEGA, OMEGA_U8, POLYETA_PACKEDBYTES, POLYT0_PACKEDBYTES, POLYT1_PACKEDBYTES,
    POLYZ_PACKEDBYTES, PUBLICKEYBYTES, SECRETKEYBYTES, SEEDBYTES, SIGNBYTES,
};
use crate::poly::{
    count_nonzero, eta_byte, eta_field, in_range, lemma_t1_reencode, lemma_z_reencode, polyeta_pack, polyeta_unpack, polyt0_pack, polyt0_unpack,
    polyt1_pack, polyt1_unpack, polyz_pack, polyz_unpack, t0_byte, t0_field, t1_byte, t1_field,
    z_byte, z_field, Poly,
};
use crate::polyvec::{hint_weight, Polyveck, Polyvecl};
use crate::params::{ETA, GAMMA1};

verus! {

/// Copies `src[soff..soff + n]` to `dst[doff..doff + n]`.
pub fn copy_bytes(dst: &mut [u8], doff: usize, src: &[u8], soff: usize, n: usize)
    requires
        doff + n <= old(dst)@.len(),
        soff + n <= src@.len(),
        doff + n <= usize::MAX,
        soff + n <= usize::MAX,
    ensures
        final(dst)@.len() == old(dst)@.len(),
        final(dst)@.subrange(doff as int, doff + n) == src@.subrange(soff as int, soff + n),
        forall|j: int| 0 <= j < old(dst)@.len() && !(doff <= j < doff + n) ==> #[trigger] final(dst)@[j] == old(dst)@[j],
{
    let mut i: usize = 0;
    while i < n
        invariant
            i <= n,
            doff + n <= dst@.len(),
            soff + n <= src@.len(),
            doff + n <= usize::MAX,
            soff + n <= usize::MAX,
            dst@.len() == old(dst)@.len(),
            forall|j: int| 0 <= j < i ==> #[trigger] dst@[doff + j] == src@[soff + j],
            forall|j: int| 0 <= j < old(dst)@.len() && !(doff <= j < doff + i) ==> #[trigger] dst@[j] == old(dst)@[j],
        decreases n - i,
    {
        dst[doff + i] = src[soff + i];
        i = i + 1;
    }
    assert forall|j: int| 0 <= j < n implies #[trigger] dst@.subrange(doff as int, doff + n)[j] == src@.subrange(soff as int, soff + n)[j] by {
        assert(dst@[doff + j] == src@[soff + j]);
    }
    assert(dst@.subrange(doff as int, doff + n) =~= src@.subrange(soff as int, soff + n));
}

/// Packs every polynomial of `v` (coefficients in `[0, 1024)`), polynomial
/// `k` at `r[off + k * 320..]`.
pub fn pack_t1_veck(r: &mut [u8], off: usize, v: &Polyveck)
    requires
        off + K * 320 <= old(r)@.len(),
        off + K * 320 <= usize::MAX,
        forall|k: int| 0 <= k < K ==> in_range(#[trigger] v.vec@[k].coeffs@, 0, 1024),
    ensures
        final(r)@.len() == old(r)@.len(),
        forall|k: int, j: int| 0 <= k < K && 0 <= j < 320 ==>
            #[trigger] final(r)@[off + k * 320 + j] == t1_byte(v.vec@[k].coeffs@, j),
        forall|j: int| 0 <= j < old(r)@.len() && !(off <= j < off + K * 320) ==> #[trigger] final(r)@[j] == old(r)@[j],
{
    let mut i: usize = 0;
    while i < K
        invariant
            i <= K,
            off + K * 320 <= r@.len(),
            off + K * 320 <= usize::MAX,
            r@.len() == old(r)@.len(),
            forall|k: int| 0 <= k < K ==> in_range(#[trigger] v.vec@[k].coeffs@, 0, 1024),
            forall|k: int, j: int| 0 <= k < i && 0 <= j < 320 ==>
                #[trigger] r@[off + k * 320 + j] == t1_byte(v.vec@[k].coeffs@, j),
            forall|j: int| 0 <= j < old(r)@.len() && !(off <= j < off + i * 320) ==> #[trigger] r@[j] == old(r)@[j],
        decreases K - i,
    {
        let ghost prev = r@;
        polyt1_pack(r, off + i * 320, &v.vec[i]);
        proof {
            assert forall|k: int, j: int| 0 <= k < i + 1 && 0 <= j < 320 implies
                #[trigger] r@[off + k * 320 + j] == t1_byte(v.vec@[k].coeffs@, j) by {
                if k < i {
                    assert(k * 320 + j < i * 320) by (nonlinear_arith)
                        requires k < i, 0 <= j < 320;
                    assert(prev[off + k * 320 + j] == r@[off + k * 320 + j]);
                } else {
                    assert(off + k * 320 + j == (off + i * 320) + j);
                }
            }
        }
        i = i + 1;
    }
}

/// Unpacks every polynomial of `v`, polynomial `k` from `a[off + k * 320..]`.
pub fn unpack_t1_veck(v: &mut Polyveck, a: &[u8], off: usize)
    requires
        off + K * 320 <= a@.len(),
        off + K * 320 <= usize::MAX,
    ensures
        forall|k: int, j: int| 0 <= k < K && 0 <= j < N ==>
            #[trigger] final(v).vec@[k].coeffs@[j] == t1_field(a@, off + k * 320, j),
        forall|k: int| 0 <= k < K ==> in_range(#[trigger] final(v).vec@[k].coeffs@, 0, 1024),
{
    let mut i: usize = 0;
    while i < K
        invariant
            i <= K,
            off + K * 320 <= a@.len(),
            off + K * 320 <= usize::MAX,
            forall|k: int, j: int| 0 <= k < i && 0 <= j < N ==>
                #[trigger] v.vec@[k].coeffs@[j] == t1_field(a@, off + k * 320, j),
            forall|k: int| 0 <= k < i ==> in_range(#[trigger] v.vec@[k].coeffs@, 0, 1024),
        decreases K - i,
    {
        assert(off + i * 320 + 320 <= off + K * 320) by (nonlinear_arith)
            requires i < K;
        polyt1_unpack(&mut v.vec[i], a, off + i * 320);
        i = i + 1;
    }
}

/// Packs every polynomial of `v` (coefficients in `[-4095, 4097)`), polynomial
/// `k` at `r[off + k * 416..]`.
pub fn pack_t0_veck(r: &mut [u8], off: usize, v: &Polyveck)
    requires
        off + K * 416 <= old(r)@.len(),
        off + K * 416 <= usize::MAX,
        forall|k: int| 0 <= k < K ==> in_range(#[trigger] v.vec@[k].coeffs@, -4095, 4097),
    ensures
        final(r)@.len() == old(r)@.len(),
        forall|k: int, j: int| 0 <= k < K && 0 <= j < 416 ==>
            #[trigger] final(r)@[off + k * 416 + j] == t0_byte(v.vec@[k].coeffs@, j),
        forall|j: int| 0 <= j < old(r)@.len() && !(off <= j < off + K * 416) ==> #[trigger] final(r)@[j] == old(r)@[j],
{
    let mut i: usize = 0;
    while i < K
        invariant
            i <= K,
            off + K * 416 <= r@.len(),
            off + K * 416 <= usize::MAX,
            r@.len() == old(r)@.len(),
            forall|k: int| 0 <= k < K ==> in_range(#[trigger] v.vec@[k].coeffs@, -4095, 4097),
            forall|k: int, j: int| 0 <= k < i && 0 <= j < 416 ==>
                #[trigger] r@[off + k * 416 + j] == t0_byte(v.vec@[k].coeffs@, j),
            forall|j: int| 0 <= j < old(r)@.len() && !(off <= j < off + i * 416) ==> #[trigger] r@[j] == old(r)@[j],
        decreases K - i,
    {
        let ghost prev = r@;
        polyt0_pack(r, off + i * 416, &v.vec[i]);
        proof {
            assert forall|k: int, j: int| 0 <= k < i + 1 && 0 <= j < 416 implies
                #[trigger] r@[off + k * 416 + j] == t0_byte(v.vec@[k].coeffs@, j) by {
                if k < i {
                    assert(k * 416 + j < i * 416) by (nonlinear_arith)
                        requires k < i, 0 <= j < 416;
                    assert(prev[off + k * 416 + j] == r@[off + k * 416 + j]);
                } else {
                    assert(off + k * 416 + j == (off + i * 416) + j);
                }
            }
        }
        i = i + 1;
    }
}

/// Unpacks every polynomial of `v`, polynomial `k` from `a[off + k * 416..]`.
pub fn unpack_t0_veck(v: &mut Polyveck, a: &[u8], off: usize)
    requires
        off + K * 416 <= a@.len(),
        off + K * 416 <= usize::MAX,
    ensures
        forall|k: int, j: int| 0 <= k < K && 0 <= j < N ==>
            #[trigger] final(v).vec@[k].coeffs@[j] == 4096 - t0_field(a@, off + k * 416, j),
        forall|k: int| 0 <= k < K ==> in_range(#[trigger] final(v).vec@[k].coeffs@, -4095, 4097),
{
    let mut i: usize = 0;
    while i < K
        invariant
            i <= K,
            off + K * 416 <= a@.len(),
            off + K * 416 <= usize::MAX,
            forall|k: int, j: int| 0 <= k < i && 0 <= j < N ==>
                #[trigger] v.vec@[k].coeffs@[j] == 4096 - t0_field(a@, off + k * 416, j),
            forall|k: int| 0 <= k < i ==> in_range(#[trigger] v.vec@[k].coeffs@, -4095, 4097),
        decreases K - i,
    {
        assert(off + i * 416 + 416 <= off + K * 416) by (nonlinear_arith)
            requires i < K;
        polyt0_unpack(&mut v.vec[i], a, off + i * 416);
        i = i + 1;
    }
}

/// Packs every polynomial of `v` (coefficients in `[-4, 5)`), polynomial
/// `k` at `r[off + k * 128..]`.
pub fn pack_eta_vecl(r: &mut [u8], off: usize, v: &Polyvecl)
    requires
        off + L * 128 <= old(r)@.len(),
        off + L * 128 <= usize::MAX,
        forall|k: int| 0 <= k < L ==> in_range(#[trigger] v.vec@[k].coeffs@, -4, 5),
    ensures
        final(r)@.len() == old(r)@.len(),
        forall|k: int, j: int| 0 <= k < L && 0 <= j < 128 ==>
            #[trigger] final(r)@[off + k * 128 + j] == eta_byte(v.vec@[k].coeffs@, j),
        forall|j: int| 0 <= j < old(r)@.len() && !(off <= j < off + L * 128) ==> #[trigger] final(r)@[j] == old(r)@[j],
{
    let mut i: usize = 0;
    while i < L
        invariant
            i <= L,
            off + L * 128 <= r@.len(),
            off + L * 128 <= usize::MAX,
            r@.len() == old(r)@.len(),
            forall|k: int| 0 <= k < L ==> in_range(#[trigger] v.vec@[k].coeffs@, -4, 5),
            forall|k: int, j: int| 0 <= k < i && 0 <= j < 128 ==>
                #[trigger] r@[off + k * 128 + j] == eta_byte(v.vec@[k].coeffs@, j),
            forall|j: int| 0 <= j < old(r)@.len() && !(off <= j < off + i * 128) ==> #[trigger] r@[j] == old(r)@[j],
        decreases L - i,
    {
        let ghost prev = r@;
        polyeta_pack(r, off + i * 128, &v.vec[i]);
        proof {
            assert forall|k: int, j: int| 0 <= k < i + 1 && 0 <= j < 128 implies
                #[trigger] r@[off + k * 128 + j] == eta_byte(v.vec@[k].coeffs@, j) by {
                if k < i {
                    assert(k * 128 + j < i * 128) by (nonlinear_arith)
                        requires k < i, 0 <= j < 128;
                    assert(prev[off + k * 128 + j] == r@[off + k * 128 + j]);
                } else {
                    assert(off + k * 128 + j == (off + i * 128) + j);
                }
            }
        }
        i = i + 1;
    }
}

/// Unpacks every polynomial of `v`, polynomial `k` from `a[off + k * 128..]`.
pub fn unpack_eta_vecl(v: &mut Polyvecl, a: &[u8], off: usize)
    requires
        off + L * 128 <= a@.len(),
        off + L * 128 <= usize::MAX,
    ensures
        forall|k: int, j: int| 0 <= k < L && 0 <= j < N ==>
            #[trigger] final(v).vec@[k].coeffs@[j] == ETA as int - eta_field(a@, off + k * 128, j),
        forall|k: int| 0 <= k < L ==> in_range(#[trigger] final(v).vec@[k].coeffs@, -11, 5),
{
    let mut i: usize = 0;
    while i < L
        invariant
            i <= L,
            off + L * 128 <= a@.len(),
            off + L * 128 <= usize::MAX,
            forall|k: int, j: int| 0 <= k < i && 0 <= j < N ==>
                #[trigger] v.vec@[k].coeffs@[j] == ETA as int - eta_field(a@, off + k * 128, j),
            forall|k: int| 0 <= k < i ==> in_range(#[trigger] v.vec@[k].coeffs@, -11, 5),
        decreases L - i,
    {
        assert(off + i * 128 + 128 <= off + L * 128) by (nonlinear_arith)
            requires i < L;
        polyeta_unpack(&mut v.vec[i], a, off + i * 128);
        i = i + 1;
    }
}

/// Packs every polynomial of `v` (coefficients in `[-4, 5)`), polynomial
/// `k` at `r[off + k * 128..]`.
pub fn pack_eta_veck(r: &mut [u8], off: usize, v: &Polyveck)
    requires
        off + K * 128 <= old(r)@.len(),
        off + K * 128 <= usize::MAX,
        forall|k: int| 0 <= k < K ==> in_range(#[trigger] v.vec@[k].coeffs@, -4, 5),
    ensures
        final(r)@.len() == old(r)@.len(),
        forall|k: int, j: int| 0 <= k < K && 0 <= j < 128 ==>
            #[trigger] final(r)@[off + k * 128 + j] == eta_byte(v.vec@[k].coeffs@, j),
        forall|j: int| 0 <= j < old(r)@.len() && !(off <= j < off + K * 128) ==> #[trigger] final(r)@[j] == old(r)@[j],
{
    let mut i: usize = 0;
    while i < K
        invariant
            i <= K,
            off + K * 128 <= r@.len(),
            off + K * 128 <= usize::MAX,
            r@.len() == old(r)@.len(),
            forall|k: int| 0 <= k < K ==> in_range(#[trigger] v.vec@[k].coeffs@, -4, 5),
            forall|k: int, j: int| 0 <= k < i && 0 <= j < 128 ==>
                #[trigger] r@[off + k * 128 + j] == eta_byte(v.vec@[k].coeffs@, j),
            forall|j: int| 0 <= j < old(r)@.len() && !(off <= j < off + i * 128) ==> #[trigger] r@[j] == old(r)@[j],
        decreases K - i,
    {
        let ghost prev = r@;
        polyeta_pack(r, off + i * 128, &v.vec[i]);
        proof {
            assert forall|k: int, j: int| 0 <= k < i + 1 && 0 <= j < 128 implies
                #[trigger] r@[off + k * 128 + j] == eta_byte(v.vec@[k].coeffs@, j) by {
                if k < i {
                    assert(k * 128 + j < i * 128) by (nonlinear_arith)
                        requires k < i, 0 <= j < 128;
                    assert(prev[off + k * 128 + j] == r@[off + k * 128 + j]);
                } else {
                    assert(off + k * 128 + j == (off + i * 128) + j);
                }
            }
        }
        i = i + 1;
    }
}

/// Unpacks every polynomial of `v`, polynomial `k` from `a[off + k * 128..]`.
pub fn unpack_eta_veck(v: &mut Polyveck, a: &[u8], off: usize)
    requires
        off + K * 128 <= a@.len(),
        off + K * 128 <= usize::MAX,
    ensures
        forall|k: int, j: int| 0 <= k < K && 0 <= j < N ==>
            #[trigger] final(v).vec@[k].coeffs@[j] == ETA as int - eta_field(a@, off + k * 128, j),
        forall|k: int| 0 <= k < K ==> in_range(#[trigger] final(v).vec@[k].coeffs@, -11, 5),
{
    let mut i: usize = 0;
    while i < K
        invariant
            i <= K,
            off + K * 128 <= a@.len(),
            off + K * 128 <= usize::MAX,
            forall|k: int, j: int| 0 <= k < i && 0 <= j < N ==>
                #[trigger] v.vec@[k].coeffs@[j] == ETA as int - eta_field(a@, off + k * 128, j),
            forall|k: int| 0 <= k < i ==> in_range(#[trigger] v.vec@[k].coeffs@, -11, 5),
        decreases K - i,
    {
        assert(off + i * 128 + 128 <= off + K * 128) by (nonlinear_arith)
            requires i < K;
        polyeta_unpack(&mut v.vec[i], a, off + i * 128);
        i = i + 1;
    }
}

/// Packs every polynomial of `v` (coefficients in `[-524287, 524289)`), polynomial
/// `k` at `r[off + k * 640..]`.
pub fn pack_z_vecl(r: &mut [u8], off: usize, v: &Polyvecl)
    requires
        off + L * 640 <= old(r)@.len(),
        off + L * 640 <= usize::MAX,
        forall|k: int| 0 <= k < L ==> in_range(#[trigger] v.vec@[k].coeffs@, -524287, 524289),
    ensures
        final(r)@.len() == old(r)@.len(),
        forall|k: int, j: int| 0 <= k < L && 0 <= j < 640 ==>
            #[trigger] final(r)@[off + k * 640 + j] == z_byte(v.vec@[k].coeffs@, j),
        forall|j: int| 0 <= j < old(r)@.len() && !(off <= j < off + L * 640) ==> #[trigger] final(r)@[j] == old(r)@[j],
{
    let mut i: usize = 0;
    while i < L
        invariant
            i <= L,
            off + L * 640 <= r@.len(),
            off + L * 640 <= usize::MAX,
            r@.len() == old(r)@.len(),
            forall|k: int| 0 <= k < L ==> in_range(#[trigger] v.vec@[k].coeffs@, -524287, 524289),
            forall|k: int, j: int| 0 <= k < i && 0 <= j < 640 ==>
                #[trigger] r@[off + k * 640 + j] == z_byte(v.vec@[k].coeffs@, j),
            forall|j: int| 0 <= j < old(r)@.len() && !(off <= j < off + i * 640) ==> #[trigger] r@[j] == old(r)@[j],
        decreases L - i,
    {
        let ghost prev = r@;
        polyz_pack(r, off + i * 640, &v.vec[i]);
        proof {
            assert forall|k: int, j: int| 0 <= k < i + 1 && 0 <= j < 640 implies
                #[trigger] r@[off + k * 640 + j] == z_byte(v.vec@[k].coeffs@, j) by {
                if k < i {
                    assert(k * 640 + j < i * 640) by (nonlinear_arith)
                        requires k < i, 0 <= j < 640;
                    assert(prev[off + k * 640 + j] == r@[off + k * 640 + j]);
                } else {
                    assert(off + k * 640 + j == (off + i * 640) + j);
                }
            }
        }
        i = i + 1;
    }
}

/// Unpacks every polynomial of `v`, polynomial `k` from `a[off + k * 640..]`.
pub fn unpack_z_vecl(v: &mut Polyvecl, a: &[u8], off: usize)
    requires
        off + L * 640 <= a@.len(),
        off + L * 640 <= usize::MAX,
    ensures
        forall|k: int, j: int| 0 <= k < L && 0 <= j < N ==>
            #[trigger] final(v).vec@[k].coeffs@[j] == GAMMA1 as int - z_field(a@, off + k * 640, j),
        forall|k: int| 0 <= k < L ==> in_range(#[trigger] final(v).vec@[k].coeffs@, -524287, 524289),
{
    let mut i: usize = 0;
    while i < L
        invariant
            i <= L,
            off + L * 640 <= a@.len(),
            off + L * 640 <= usize::MAX,
            forall|k: int, j: int| 0 <= k < i && 0 <= j < N ==>
                #[trigger] v.vec@[k].coeffs@[j] == GAMMA1 as int - z_field(a@, off + k * 640, j),
            forall|k: int| 0 <= k < i ==> in_range(#[trigger] v.vec@[k].coeffs@, -524287, 524289),
        decreases L - i,
    {
        assert(off + i * 640 + 640 <= off + L * 640) by (nonlinear_arith)
            requires i < L;
        polyz_unpack(&mut v.vec[i], a, off + i * 640);
        i = i + 1;
    }
}

/// Offset of packed `t0` in a secret key.
pub const SK_T0_OFF: usize = 96;

/// Offset of packed `s1` in a secret key: `3 * SEEDBYTES + K * POLYT0_PACKEDBYTES`.
pub const SK_S1_OFF: usize = 2592;

/// Offset of packed `s2` in a secret key: `SK_S1_OFF + L * POLYETA_PACKEDBYTES`.
pub const SK_S2_OFF: usize = 3232;

/// Offset of the hint bytes in a signature: `SEEDBYTES + L * POLYZ_PACKEDBYTES`.
pub const SIG_H_OFF: usize = 3232;

/// Packs the public key `pk = (rho, t1)`.
pub fn pack_pk(pk: &mut [u8], rho: &[u8], t1: &Polyveck)
    requires
        old(pk)@.len() == PUBLICKEYBYTES,
        rho@.len() >= SEEDBYTES,
        forall|k: int| 0 <= k < K ==> in_range(#[trigger] t1.vec@[k].coeffs@, 0, 1024),
    ensures
        final(pk)@.len() == PUBLICKEYBYTES,
        final(pk)@.subrange(0, SEEDBYTES as int) == rho@.subrange(0, SEEDBYTES as int),
        forall|k: int, j: int| 0 <= k < K && 0 <= j < POLYT1_PACKEDBYTES ==>
            #[trigger] final(pk)@[SEEDBYTES + k * POLYT1_PACKEDBYTES + j] == t1_byte(t1.vec@[k].coeffs@, j),
{
    copy_bytes(pk, 0, rho, 0, SEEDBYTES);
    pack_t1_veck(pk, SEEDBYTES, t1);
    assert(pk@.subrange(0, SEEDBYTES as int) =~= rho@.subrange(0, SEEDBYTES as int));
}

/// Unpacks the public key `pk = (rho, t1)`.
pub fn unpack_pk(rho: &mut [u8], t1: &mut Polyveck, pk: &[u8])
    requires
        pk@.len() >= PUBLICKEYBYTES,
        old(rho)@.len() >= SEEDBYTES,
    ensures
        final(rho)@.len() == old(rho)@.len(),
        final(rho)@.subrange(0, SEEDBYTES as int) == pk@.subrange(0, SEEDBYTES as int),
        forall|k: int, j: int| 0 <= k < K && 0 <= j < N ==>
            #[trigger] final(t1).vec@[k].coeffs@[j] == t1_field(pk@, SEEDBYTES + k * POLYT1_PACKEDBYTES, j),
        forall|k: int| 0 <= k < K ==> in_range(#[trigger] final(t1).vec@[k].coeffs@, 0, 1024),
{
    copy_bytes(rho, 0, pk, 0, SEEDBYTES);
    unpack_t1_veck(t1, pk, SEEDBYTES);
}

/// Packs the secret key `sk = (rho, tr, key, t0, s1, s2)`.
pub fn pack_sk(sk: &mut [u8], rho: &[u8], tr: &[u8], key: &[u8], t0: &Polyveck, s1: &Polyvecl, s2: &Polyveck)
    requires
        old(sk)@.len() == SECRETKEYBYTES,
        rho@.len() >= SEEDBYTES,
        tr@.len() >= SEEDBYTES,
        key@.len() >= SEEDBYTES,
        forall|k: int| 0 <= k < K ==> in_range(#[trigger] t0.vec@[k].coeffs@, -4095, 4097),
        forall|k: int| 0 <= k < L ==> in_range(#[trigger] s1.vec@[k].coeffs@, -4, 5),
        forall|k: int| 0 <= k < K ==> in_range(#[trigger] s2.vec@[k].coeffs@, -4, 5),
    ensures
        final(sk)@.len() == SECRETKEYBYTES,
        final(sk)@.subrange(0, 32) == rho@.subrange(0, 32),
        final(sk)@.subrange(32, 64) == tr@.subrange(0, 32),
        final(sk)@.subrange(64, 96) == key@.subrange(0, 32),
        forall|k: int, j: int| 0 <= k < K && 0 <= j < POLYT0_PACKEDBYTES ==>
            #[trigger] final(sk)@[SK_T0_OFF + k * POLYT0_PACKEDBYTES + j] == t0_byte(t0.vec@[k].coeffs@, j),
        forall|k: int, j: int| 0 <= k < L && 0 <= j < POLYETA_PACKEDBYTES ==>
            #[trigger] final(sk)@[SK_S1_OFF + k * POLYETA_PACKEDBYTES + j] == eta_byte(s1.vec@[k].coeffs@, j),
        forall|k: int, j: int| 0 <= k < K && 0 <= j < POLYETA_PACKEDBYTES ==>
            #[trigger] final(sk)@[SK_S2_OFF + k * POLYETA_PACKEDBYTES + j] == eta_byte(s2.vec@[k].coeffs@, j),
{
    copy_bytes(sk, 0, rho, 0, SEEDBYTES);
    copy_bytes(sk, SEEDBYTES, tr, 0, SEEDBYTES);
    copy_bytes(sk, 2 * SEEDBYTES, key, 0, SEEDBYTES);
    let ghost a = sk@;
    pack_t0_veck(sk, SK_T0_OFF, t0);
    let ghost b = sk@;
    pack_eta_vecl(sk, SK_S1_OFF, s1);
    let ghost c = sk@;
    pack_eta_veck(sk, SK_S2_OFF, s2);
    assert(sk@.subrange(0, 32) =~= a.subrange(0, 32));
    assert(sk@.subrange(32, 64) =~= a.subrange(32, 64));
    assert(sk@.subrange(64, 96) =~= a.subrange(64, 96));
    assert forall|k: int, j: int| 0 <= k < K && 0 <= j < POLYT0_PACKEDBYTES implies
        #[trigger] sk@[SK_T0_OFF + k * POLYT0_PACKEDBYTES + j] == t0_byte(t0.vec@[k].coeffs@, j) by {
        assert(k * POLYT0_PACKEDBYTES + j < K * POLYT0_PACKEDBYTES) by (nonlinear_arith)
            requires 0 <= k < K, 0 <= j < POLYT0_PACKEDBYTES;
        assert(b[SK_T0_OFF + k * POLYT0_PACKEDBYTES + j] == t0_byte(t0.vec@[k].coeffs@, j));
    }
    assert forall|k: int, j: int| 0 <= k < L && 0 <= j < POLYETA_PACKEDBYTES implies
        #[trigger] sk@[SK_S1_OFF + k * POLYETA_PACKEDBYTES + j] == eta_byte(s1.vec@[k].coeffs@, j) by {
        assert(k * POLYETA_PACKEDBYTES + j < L * POLYETA_PACKEDBYTES) by (nonlinear_arith)
            requires 0 <= k < L, 0 <= j < POLYETA_PACKEDBYTES;
        assert(c[SK_S1_OFF + k * POLYETA_PACKEDBYTES + j] == eta_byte(s1.vec@[k].coeffs@, j));
    }
}

/// Unpacks the secret key `sk = (rho, tr, key, t0, s1, s2)`.
pub fn unpack_sk(
    rho: &mut [u8],
    tr: &mut [u8],
    key: &mut [u8],
    t0: &mut Polyveck,
    s1: &mut Polyvecl,
    s2: &mut Polyveck,
    sk: &[u8],
)
    requires
        sk@.len() >= SECRETKEYBYTES,
        old(rho)@.len() >= SEEDBYTES,
        old(tr)@.len() >= SEEDBYTES,
        old(key)@.len() >= SEEDBYTES,
    ensures
        final(rho)@.len() == old(rho)@.len(),
        final(tr)@.len() == old(tr)@.len(),
        final(key)@.len() == old(key)@.len(),
        final(rho)@.subrange(0, 32) == sk@.subrange(0, 32),
        final(tr)@.subrange(0, 32) == sk@.subrange(32, 64),
        final(key)@.subrange(0, 32) == sk@.subrange(64, 96),
        forall|k: int, j: int| 0 <= k < K && 0 <= j < N ==>
            #[trigger] final(t0).vec@[k].coeffs@[j] == 4096 - t0_field(sk@, SK_T0_OFF + k * POLYT0_PACKEDBYTES, j),
        forall|k: int, j: int| 0 <= k < L && 0 <= j < N ==>
            #[trigger] final(s1).vec@[k].coeffs@[j] == ETA as int - eta_field(sk@, SK_S1_OFF + k * POLYETA_PACKEDBYTES, j),
        forall|k: int, j: int| 0 <= k < K && 0 <= j < N ==>
            #[trigger] final(s2).vec@[k].coeffs@[j] == ETA as int - eta_field(sk@, SK_S2_OFF + k * POLYETA_PACKEDBYTES, j),
        forall|k: int| 0 <= k < K ==> in_range(#[trigger] final(t0).vec@[k].coeffs@, -4095, 4097),
        forall|k: int| 0 <= k < L ==> in_range(#[trigger] final(s1).vec@[k].coeffs@, -11, 5),
        forall|k: int| 0 <= k < K ==> in_range(#[trigger] final(s2).vec@[k].coeffs@, -11, 5),
{
    copy_bytes(rho, 0, sk, 0, SEEDBYTES);
    copy_bytes(tr, 0, sk, SEEDBYTES, SEEDBYTES);
    copy_bytes(key, 0, sk, 2 * SEEDBYTES, SEEDBYTES);
    unpack_t0_veck(t0, sk, SK_T0_OFF);
    unpack_eta_vecl(s1, sk, SK_S1_OFF);
    unpack_eta_veck(s2, sk, SK_S2_OFF);
}

/// Index into the hint bytes `hb` where the positions of polynomial `i` begin.
pub open spec fn hint_start(hb: Seq<u8>, i: int) -> int {
    if i <= 0 { 0 } else { hb[OMEGA + i - 1] as int }
}

/// Index into the hint bytes `hb` where the positions of polynomial `i` end.
pub open spec fn hint_end(hb: Seq<u8>, i: int) -> int {
    hb[OMEGA + i] as int
}

/// The entry for polynomial `i` is well formed: its end lies between its
/// start and `OMEGA`, and its positions strictly increase.
pub open spec fn hint_poly_ok(hb: Seq<u8>, i: int) -> bool {
    &&& hint_start(hb, i) <= hint_end(hb, i) <= OMEGA
    &&& forall|j: int| hint_start(hb, i) < j < hint_end(hb, i) ==> hb[j - 1] < #[trigger] hb[j]
}

/// The hint bytes are the canonical encoding of some hint: every entry is
/// well formed and the unused position bytes are zero.
pub open spec fn hint_valid(hb: Seq<u8>) -> bool {
    &&& forall|i: int| 0 <= i < K ==> #[trigger] hint_poly_ok(hb, i)
    &&& forall|j: int| hint_end(hb, K - 1) <= j < OMEGA ==> #[trigger] hb[j] == 0
}

/// Whether the hint bytes set coefficient `p` of polynomial `i`.
pub open spec fn hint_bit(hb: Seq<u8>, i: int, p: int) -> bool {
    exists|j: int| hint_start(hb, i) <= j < hint_end(hb, i) && #[trigger] hb[j] as int == p
}

/// The hint bytes of a signature.
pub open spec fn sig_hint_bytes(sig: Seq<u8>) -> Seq<u8> {
    sig.subrange(SIG_H_OFF as int, SIGNBYTES as int)
}

/// Sets `row` from the hint positions `hb[k..e]` of a signature: fails
/// exactly when they do not strictly increase.
fn decode_entry(row: &mut Poly, sig: &[u8], k: usize, e: usize) -> (ok: bool)
    requires
        sig@.len() >= SIGNBYTES,
        k <= e <= OMEGA,
        in_range(old(row).coeffs@, 0, 1),
    ensures
        in_range(final(row).coeffs@, 0, 2),
        ok <==> forall|t: int| k < t < e ==> sig_hint_bytes(sig@)[t - 1] < #[trigger] sig_hint_bytes(sig@)[t],
        ok ==> forall|p: int| 0 <= p < N ==> #[trigger] final(row).coeffs@[p] == (if exists|t: int| k <= t < e && #[trigger] sig_hint_bytes(sig@)[t] as int == p { 1int } else { 0int }),
{
    let ghost hb = sig_hint_bytes(sig@);
    let mut j: usize = k;
    while j < e
        invariant
            sig@.len() >= SIGNBYTES,
            hb == sig_hint_bytes(sig@),
            k <= j <= e <= OMEGA,
            in_range(row.coeffs@, 0, 2),
            forall|t: int| k < t < j ==> hb[t - 1] < #[trigger] hb[t],
            forall|p: int| 0 <= p < N ==> #[trigger] row.coeffs@[p] == (if exists|t: int| k <= t < j && #[trigger] hb[t] as int == p { 1int } else { 0int }),
        decreases e - j,
    {
        let cur: u8 = sig[SIG_H_OFF + j];
        assert(cur == hb[j as int]);
        if j > k && cur <= sig[SIG_H_OFF + j - 1] {
            assert(hb[j - 1] == sig@[SIG_H_OFF + j - 1]);
            return false;
        }
        let ghost before = row.coeffs@;
        row.coeffs[cur as usize] = 1;
        proof {
            assert forall|p: int| 0 <= p < N implies #[trigger] row.coeffs@[p] == (if exists|t: int| k <= t < j + 1 && #[trigger] hb[t] as int == p { 1int } else { 0int }) by {
                if p == cur as int {
                    assert(hb[j as int] as int == p);
                } else {
                    assert(row.coeffs@[p] == before[p]);
                    if exists|t: int| k <= t < j + 1 && #[trigger] hb[t] as int == p {
                        let t = choose|t: int| k <= t < j + 1 && #[trigger] hb[t] as int == p;
                        assert(t != j);
                    }
                }
            }
        }
        j = j + 1;
    }
    true
}

/// `row` holds entry `a` of the hint bytes `hb` as 0/1 coefficients.
pub open spec fn row_matches(hb: Seq<u8>, a: int, row: Seq<i32>) -> bool {
    forall|p: int| 0 <= p < N ==> #[trigger] row[p] == (if hint_bit(hb, a, p) { 1int } else { 0int })
}

/// Decodes the hint bytes of `sig` into `h`. Fails with `Input` exactly
/// when they are not a canonical encoding.
#[verifier::spinoff_prover]
#[verifier::rlimit(100)]
pub fn unpack_hint(h: &mut Polyveck, sig: &[u8]) -> (r: Result<(), SignError>)
    requires
        sig@.len() >= SIGNBYTES,
    ensures
        r is Ok <==> hint_valid(sig_hint_bytes(sig@)),
        r is Err ==> r == Err::<(), SignError>(SignError::Input),
        forall|k: int| 0 <= k < K ==> in_range(#[trigger] final(h).vec@[k].coeffs@, 0, 2),
        r is Ok ==> forall|k: int, p: int| 0 <= k < K && 0 <= p < N ==>
            #[trigger] final(h).vec@[k].coeffs@[p] == (if hint_bit(sig_hint_bytes(sig@), k, p) { 1int } else { 0int }),
{
    let ghost hb = sig_hint_bytes(sig@);
    *h = Polyveck::default();
    let mut k: usize = 0;
    let mut i: usize = 0;
    while i < K
        invariant
            i <= K,
            sig@.len() >= SIGNBYTES,
            hb == sig_hint_bytes(sig@),
            k == hint_start(hb, i as int),
            k <= OMEGA,
            forall|a: int| 0 <= a < i ==> #[trigger] hint_poly_ok(hb, a),
            forall|a: int| 0 <= a < i ==> #[trigger] row_matches(hb, a, h.vec@[a].coeffs@),
            forall|a: int| i <= a < K ==> in_range(#[trigger] h.vec@[a].coeffs@, 0, 1),
            forall|a: int| 0 <= a < K ==> in_range(#[trigger] h.vec@[a].coeffs@, 0, 2),
        decreases K - i,
    {
        let e: u8 = sig[SIG_H_OFF + OMEGA + i];
        assert(e == hb[OMEGA + i]);
        if e < k as u8 || e > OMEGA_U8 {
            assert(!hint_poly_ok(hb, i as int));
            return Err(SignError::Input);
        }
        let ok = decode_entry(&mut h.vec[i], sig, k, e as usize);
        if !ok {
            assert(!hint_poly_ok(hb, i as int));
            return Err(SignError::Input);
        }
        proof {
            assert(hint_start(hb, i as int) == k && hint_end(hb, i as int) == e);
            assert(hint_poly_ok(hb, i as int));
            assert(row_matches(hb, i as int, h.vec@[i as int].coeffs@));
        }
        k = e as usize;
        i = i + 1;
    }
    assert forall|a: int, p: int| 0 <= a < K && 0 <= p < N implies
        #[trigger] h.vec@[a].coeffs@[p] == (if hint_bit(hb, a, p) { 1int } else { 0int }) by {
        assert(row_matches(hb, a, h.vec@[a].coeffs@));
    }
    let ghost hfinal = *h;
    let mut j: usize = k;
    while j < OMEGA
        invariant
            sig@.len() >= SIGNBYTES,
            hb == sig_hint_bytes(sig@),
            *h == hfinal,
            forall|a: int, p: int| 0 <= a < K && 0 <= p < N ==>
                #[trigger] hfinal.vec@[a].coeffs@[p] == (if hint_bit(hb, a, p) { 1int } else { 0int }),
            k == hint_end(hb, K - 1),
            k <= j <= OMEGA,
            forall|t: int| k <= t < j ==> #[trigger] hb[t] == 0,
            forall|a: int| 0 <= a < K ==> in_range(#[trigger] h.vec@[a].coeffs@, 0, 2),
        decreases OMEGA - j,
    {
        if sig[SIG_H_OFF + j] > 0 {
            assert(hb[j as int] != 0);
            return Err(SignError::Input);
        }
        j = j + 1;
    }
    Ok(())
}

/// Unpacks the signature `sig = (c, z, h)`. Fails with `Input` exactly when
/// the hint bytes are not a canonical encoding.
pub fn unpack_sig(c: &mut [u8], z: &mut Polyvecl, h: &mut Polyveck, sig: &[u8]) -> (r: Result<(), SignError>)
    requires
        old(c)@.len() >= SEEDBYTES,
        sig@.len() >= SIGNBYTES,
    ensures
        final(c)@.len() == old(c)@.len(),
        final(c)@.subrange(0, SEEDBYTES as int) == sig@.subrange(0, SEEDBYTES as int),
        forall|k: int, j: int| 0 <= k < L && 0 <= j < N ==>
            #[trigger] final(z).vec@[k].coeffs@[j] == GAMMA1 as int - z_field(sig@, SEEDBYTES + k * POLYZ_PACKEDBYTES, j),
        forall|k: int| 0 <= k < L ==> in_range(#[trigger] final(z).vec@[k].coeffs@, -524287, 524289),
        r is Ok <==> hint_valid(sig_hint_bytes(sig@)),
        r is Err ==> r == Err::<(), SignError>(SignError::Input),
        forall|k: int| 0 <= k < K ==> in_range(#[trigger] final(h).vec@[k].coeffs@, 0, 2),
        r is Ok ==> forall|k: int, p: int| 0 <= k < K && 0 <= p < N ==>
            #[trigger] final(h).vec@[k].coeffs@[p] == (if hint_bit(sig_hint_bytes(sig@), k, p) { 1int } else { 0int }),
{
    copy_bytes(c, 0, sig, 0, SEEDBYTES);
    unpack_z_vecl(z, sig, SEEDBYTES);
    unpack_hint(h, sig)
}

/// A prefix count never exceeds the full count.
pub proof fn lemma_count_nonzero_le(s: Seq<i32>, j: int, n: int)
    requires
        0 <= j <= n,
    ensures
        count_nonzero(s, j) <= count_nonzero(s, n),
    decreases n - j,
{
    if j < n {
        lemma_count_nonzero_le(s, j + 1, n);
    }
}

/// The weight of a prefix of the vector never exceeds the total weight.
pub proof fn lemma_hint_weight_le(h: Polyveck, i: int, n: int)
    requires
        0 <= i <= n,
    ensures
        hint_weight(h, i) <= hint_weight(h, n),
    decreases n - i,
{
    if i < n {
        lemma_hint_weight_le(h, i + 1, n);
        assert(count_nonzero(h.vec@[i].coeffs@, N as int) >= 0) by {
            lemma_count_nonzero_nonneg(h.vec@[i].coeffs@, N as int);
        }
    }
}

/// Counts are not negative.
pub proof fn lemma_count_nonzero_nonneg(s: Seq<i32>, n: int)
    ensures
        count_nonzero(s, n) >= 0,
    decreases n,
{
    if n > 0 {
        lemma_count_nonzero_nonneg(s, n - 1);
    }
}

/// Hint bytes that agree below the end of entry `a` and on its two counts
/// describe entry `a` alike.
proof fn lemma_hint_frame(x: Seq<u8>, y: Seq<u8>, a: int)
    requires
        x.len() == y.len() == OMEGA + K,
        0 <= a < K,
        a > 0 ==> x[OMEGA + a - 1] == y[OMEGA + a - 1],
        x[OMEGA + a] == y[OMEGA + a],
        hint_end(x, a) <= OMEGA,
        forall|t: int| 0 <= t < hint_end(x, a) ==> x[t] == y[t],
    ensures
        hint_poly_ok(x, a) == hint_poly_ok(y, a),
        forall|p: int| #[trigger] hint_bit(x, a, p) == hint_bit(y, a, p),
{
    assert forall|p: int| #[trigger] hint_bit(x, a, p) == hint_bit(y, a, p) by {
        if hint_bit(x, a, p) {
            let t = choose|t: int| hint_start(x, a) <= t < hint_end(x, a) && #[trigger] x[t] as int == p;
            assert(y[t] as int == p);
        }
        if hint_bit(y, a, p) {
            let t = choose|t: int| hint_start(y, a) <= t < hint_end(y, a) && #[trigger] y[t] as int == p;
            assert(x[t] as int == p);
        }
    }
    if hint_poly_ok(x, a) {
        assert forall|j: int| hint_start(y, a) < j < hint_end(y, a) implies y[j - 1] < #[trigger] y[j] by {
            assert(x[j - 1] < x[j]);
        }
    }
    if hint_poly_ok(y, a) {
        assert forall|j: int| hint_start(x, a) < j < hint_end(x, a) implies x[j - 1] < #[trigger] x[j] by {
            assert(y[j - 1] < y[j]);
        }
    }
}

/// Writing one hint byte of a signature updates its hint bytes at that index.
proof fn lemma_hint_bytes_update(s: Seq<u8>, pos: int, v: u8)
    requires
        s.len() == SIGNBYTES,
        0 <= pos < OMEGA + K,
    ensures
        sig_hint_bytes(s.update(SIG_H_OFF + pos, v)) == sig_hint_bytes(s).update(pos, v),
{
    assert(sig_hint_bytes(s.update(SIG_H_OFF + pos, v)) =~= sig_hint_bytes(s).update(pos, v));
}

/// Hint bytes that agree below `bound` and on the first `i` counts, where
/// every one of the first `i` entries ends by `bound`, describe those
/// entries alike.
proof fn lemma_hint_frame_prefix(x: Seq<u8>, y: Seq<u8>, i: int, bound: int)
    requires
        x.len() == y.len() == OMEGA + K,
        0 <= i <= K,
        bound <= OMEGA,
        forall|a: int| 0 <= a < i ==> #[trigger] hint_end(x, a) <= bound,
        forall|t: int| 0 <= t < bound ==> x[t] == y[t],
        forall|t: int| OMEGA <= t < OMEGA + i ==> x[t] == y[t],
    ensures
        forall|a: int| 0 <= a < i ==> #[trigger] hint_poly_ok(y, a) == hint_poly_ok(x, a),
        forall|a: int| 0 <= a < i ==> #[trigger] hint_end(y, a) == hint_end(x, a),
        forall|a: int, p: int| 0 <= a < i ==> #[trigger] hint_bit(y, a, p) == hint_bit(x, a, p),
{
    assert forall|a: int| 0 <= a < i implies #[trigger] hint_poly_ok(y, a) == hint_poly_ok(x, a) by {
        assert(hint_end(x, a) <= bound);
        assert(x[OMEGA + a] == y[OMEGA + a]);
        if a > 0 {
            assert(x[OMEGA + (a - 1)] == y[OMEGA + (a - 1)]);
        }
        lemma_hint_frame(x, y, a);
    }
    assert forall|a: int, p: int| 0 <= a < i implies #[trigger] hint_bit(y, a, p) == hint_bit(x, a, p) by {
        assert(hint_end(x, a) <= bound);
        assert(x[OMEGA + a] == y[OMEGA + a]);
        if a > 0 {
            assert(x[OMEGA + (a - 1)] == y[OMEGA + (a - 1)]);
        }
        lemma_hint_frame(x, y, a);
    }
}

/// The positions written for one polynomial so far: `hb[k0..k]` strictly
/// increases, stays below `j`, and lists exactly the set coefficients of
/// `row` below `j`.
pub open spec fn positions_so_far(hb: Seq<u8>, k0: int, k: int, j: int, row: Seq<i32>) -> bool {
    &&& forall|t: int| k0 <= t < k ==> #[trigger] hb[t] < j
    &&& forall|t: int| k0 < t < k ==> hb[t - 1] < #[trigger] hb[t]
    &&& forall|p: int| 0 <= p < N ==> ((exists|t: int| k0 <= t < k && #[trigger] hb[t] as int == p) <==> (p < j && #[trigger] row[p] != 0))
}

/// Listing position `j`, which `row` sets, keeps the positions in order.
proof fn lemma_position_set(hb: Seq<u8>, k0: int, k: int, j: int, row: Seq<i32>)
    requires
        hb.len() == OMEGA + K,
        0 <= k0 <= k < OMEGA,
        0 <= j < N,
        row.len() == N,
        row[j] != 0,
        positions_so_far(hb, k0, k, j, row),
    ensures
        positions_so_far(hb.update(k, j as u8), k0, k + 1, j + 1, row),
{
    let hb1 = hb.update(k, j as u8);
    assert forall|t: int| k0 < t < k + 1 implies hb1[t - 1] < #[trigger] hb1[t] by {
        if t == k {
            assert(hb[t - 1] < j);
        }
    }
    assert forall|p: int| 0 <= p < N implies ((exists|t: int| k0 <= t < k + 1 && #[trigger] hb1[t] as int == p) <==> (p < j + 1 && #[trigger] row[p] != 0)) by {
        if p == j {
            assert(hb1[k] as int == p);
        } else {
            if exists|t: int| k0 <= t < k + 1 && #[trigger] hb1[t] as int == p {
                let t = choose|t: int| k0 <= t < k + 1 && #[trigger] hb1[t] as int == p;
                assert(t != k);
                assert(hb[t] as int == p);
            }
            if p < j && row[p] != 0 {
                let t = choose|t: int| k0 <= t < k && #[trigger] hb[t] as int == p;
                assert(hb1[t] as int == p);
            }
        }
    }
}

/// Passing over position `j`, which `row` leaves 0, keeps the positions.
proof fn lemma_position_skip(hb: Seq<u8>, k0: int, k: int, j: int, row: Seq<i32>)
    requires
        0 <= j < N,
        row.len() == N,
        row[j] == 0,
        positions_so_far(hb, k0, k, j, row),
    ensures
        positions_so_far(hb, k0, k, j + 1, row),
{
    assert forall|p: int| 0 <= p < N implies ((exists|t: int| k0 <= t < k && #[trigger] hb[t] as int == p) <==> (p < j + 1 && #[trigger] row[p] != 0)) by {
        if p == j {
            if exists|t: int| k0 <= t < k && #[trigger] hb[t] as int == p {
                let t = choose|t: int| k0 <= t < k && #[trigger] hb[t] as int == p;
                assert(hb[t] < j);
            }
        }
    }
}

/// Writing the count `k` of polynomial `i` closes its entry: it is well
/// formed and sets exactly the listed positions.
proof fn lemma_close_entry(hb: Seq<u8>, i: int, k0: int, k: int, row: Seq<i32>)
    requires
        hb.len() == OMEGA + K,
        0 <= i < K,
        0 <= k0 <= k <= OMEGA,
        i > 0 ==> hb[OMEGA + i - 1] == k0,
        i == 0 ==> k0 == 0,
        row.len() == N,
        positions_so_far(hb, k0, k, N as int, row),
    ensures
        hint_poly_ok(hb.update(OMEGA + i, k as u8), i),
        hint_end(hb.update(OMEGA + i, k as u8), i) == k,
        forall|p: int| 0 <= p < N ==> (hint_bit(hb.update(OMEGA + i, k as u8), i, p) <==> #[trigger] row[p] != 0),
{
    let hb1 = hb.update(OMEGA + i, k as u8);
    assert(hint_start(hb1, i) == k0);
    assert(hint_end(hb1, i) == k);
    assert forall|t: int| hint_start(hb1, i) < t < hint_end(hb1, i) implies hb1[t - 1] < #[trigger] hb1[t] by {
        assert(hb[t - 1] < hb[t]);
    }
    assert forall|p: int| 0 <= p < N implies (hint_bit(hb1, i, p) <==> #[trigger] row[p] != 0) by {
        if hint_bit(hb1, i, p) {
            let t = choose|t: int| hint_start(hb1, i) <= t < hint_end(hb1, i) && #[trigger] hb1[t] as int == p;
            assert(hb[t] as int == p);
        }
        if row[p] != 0 {
            let t = choose|t: int| k0 <= t < k && #[trigger] hb[t] as int == p;
            assert(hb1[t] as int == p);
        }
    }
}

/// Writes the canonical encoding of the hint `h` (coefficients 0 or 1, at
/// most `OMEGA` of them set) to the hint bytes of `sig`: for each
/// polynomial its set positions in increasing order, then the running
/// counts, unused bytes zero.
#[verifier::spinoff_prover]
#[verifier::rlimit(100)]
pub fn pack_hint(sig: &mut [u8], h: &Polyveck)
    requires
        old(sig)@.len() == SIGNBYTES,
        forall|k: int| 0 <= k < K ==> in_range(#[trigger] h.vec@[k].coeffs@, 0, 2),
        hint_weight(*h, K as int) <= OMEGA,
    ensures
        final(sig)@.len() == SIGNBYTES,
        forall|j: int| 0 <= j < SIG_H_OFF ==> #[trigger] final(sig)@[j] == old(sig)@[j],
        hint_valid(sig_hint_bytes(final(sig)@)),
        forall|a: int, p: int| 0 <= a < K && 0 <= p < N ==>
            (hint_bit(sig_hint_bytes(final(sig)@), a, p) <==> #[trigger] h.vec@[a].coeffs@[p] != 0),
{
    let ghost s0 = sig@;
    let mut t: usize = 0;
    while t < OMEGA + K
        invariant
            sig@.len() == SIGNBYTES,
            t <= OMEGA + K,
            forall|j: int| 0 <= j < SIG_H_OFF ==> #[trigger] sig@[j] == s0[j],
            forall|j: int| 0 <= j < t ==> #[trigger] sig@[SIG_H_OFF + j] == 0,
        decreases OMEGA + K - t,
    {
        sig[SIG_H_OFF + t] = 0;
        t = t + 1;
    }
    let ghost mut hb = sig_hint_bytes(sig@);
    assert forall|t: int| 0 <= t < OMEGA implies #[trigger] hb[t] == 0 by {
        assert(hb[t] == sig@[SIG_H_OFF + t]);
    }
    let mut k: usize = 0;
    let mut i: usize = 0;
    while i < K
        invariant
            i <= K,
            sig@.len() == SIGNBYTES,
            hb == sig_hint_bytes(sig@),
            hb.len() == OMEGA + K,
            k == hint_weight(*h, i as int),
            hint_weight(*h, K as int) <= OMEGA,
            k <= OMEGA,
            forall|a: int| 0 <= a < K ==> in_range(#[trigger] h.vec@[a].coeffs@, 0, 2),
            forall|j: int| 0 <= j < SIG_H_OFF ==> #[trigger] sig@[j] == s0[j],
            forall|a: int| 0 <= a < i ==> #[trigger] hint_end(hb, a) == hint_weight(*h, a + 1),
            forall|a: int| 0 <= a < i ==> #[trigger] hint_poly_ok(hb, a),
            forall|a: int, p: int| 0 <= a < i && 0 <= p < N ==>
                (hint_bit(hb, a, p) <==> #[trigger] h.vec@[a].coeffs@[p] != 0),
            forall|t: int| k <= t < OMEGA ==> #[trigger] hb[t] == 0,
        decreases K - i,
    {
        let ghost k0 = k;
        proof {
            lemma_hint_weight_le(*h, i + 1, K as int);
            lemma_count_nonzero_nonneg(h.vec@[i as int].coeffs@, N as int);
            if i > 0 {
                assert(hint_end(hb, i - 1) == hint_weight(*h, i as int));
            }
        }
        let mut j: usize = 0;
        while j < N
            invariant
                i < K,
                j <= N,
                sig@.len() == SIGNBYTES,
                hb == sig_hint_bytes(sig@),
                hb.len() == OMEGA + K,
                k0 == hint_weight(*h, i as int),
                k0 <= OMEGA,
                k0 <= k <= hint_weight(*h, i + 1),
                k == k0 + count_nonzero(h.vec@[i as int].coeffs@, j as int),
                hint_weight(*h, i + 1) <= OMEGA,
                forall|a: int| 0 <= a < K ==> in_range(#[trigger] h.vec@[a].coeffs@, 0, 2),
                forall|j: int| 0 <= j < SIG_H_OFF ==> #[trigger] sig@[j] == s0[j],
                i > 0 ==> hint_end(hb, i - 1) == k0,
                forall|a: int| 0 <= a < i ==> #[trigger] hint_end(hb, a) == hint_weight(*h, a + 1),
                forall|a: int| 0 <= a < i ==> #[trigger] hint_poly_ok(hb, a),
                forall|a: int, p: int| 0 <= a < i && 0 <= p < N ==>
                    (hint_bit(hb, a, p) <==> #[trigger] h.vec@[a].coeffs@[p] != 0),
                forall|t: int| k <= t < OMEGA ==> #[trigger] hb[t] == 0,
                positions_so_far(hb, k0 as int, k as int, j as int, h.vec@[i as int].coeffs@),
            decreases N - j,
        {
            proof {
                lemma_count_nonzero_le(h.vec@[i as int].coeffs@, j + 1, N as int);
                lemma_count_nonzero_nonneg(h.vec@[i as int].coeffs@, j + 1);
            }
            if h.vec[i].coeffs[j] != 0 {
                let ghost hb0 = hb;
                assert(k < OMEGA);
                proof {
                    lemma_hint_bytes_update(sig@, k as int, j as u8);
                }
                sig[SIG_H_OFF + k] = j as u8;
                proof {
                    hb = hb0.update(k as int, j as u8);
                    assert forall|a: int| 0 <= a < i implies #[trigger] hint_end(hb0, a) <= k0 by {
                        lemma_hint_weight_le(*h, a + 1, i as int);
                    }
                    lemma_hint_frame_prefix(hb0, hb, i as int, k0 as int);
                    lemma_position_set(hb0, k0 as int, k as int, j as int, h.vec@[i as int].coeffs@);
                }
                k = k + 1;
            } else {
                proof {
                    lemma_position_skip(hb, k0 as int, k as int, j as int, h.vec@[i as int].coeffs@);
                }
            }
            j = j + 1;
        }
        proof {
            lemma_hint_weight_le(*h, i + 1, K as int);
        }
        let ghost hb0 = hb;
        proof {
            lemma_hint_bytes_update(sig@, OMEGA + i, k as u8);
        }
        sig[SIG_H_OFF + OMEGA + i] = k as u8;
        proof {
            hb = hb0.update(OMEGA + i, k as u8);
            assert forall|a: int| 0 <= a < i implies #[trigger] hint_end(hb0, a) <= k0 by {
                lemma_hint_weight_le(*h, a + 1, i as int);
            }
            lemma_hint_frame_prefix(hb0, hb, i as int, k0 as int);
            lemma_close_entry(hb0, i as int, k0 as int, k as int, h.vec@[i as int].coeffs@);
        }
        i = i + 1;
    }
    assert(hint_end(hb, K - 1) == k);
}

/// Packs the signature `sig = (c, z, h)`. Where `c` is `None`, the first
/// `SEEDBYTES` bytes of `sig` are left as they are.
pub fn pack_sig(sig: &mut [u8], c: Option<&[u8]>, z: &Polyvecl, h: &Polyveck)
    requires
        old(sig)@.len() == SIGNBYTES,
        c is Some ==> c.unwrap()@.len() >= SEEDBYTES,
        forall|k: int| 0 <= k < L ==> in_range(#[trigger] z.vec@[k].coeffs@, -524287, 524289),
        forall|k: int| 0 <= k < K ==> in_range(#[trigger] h.vec@[k].coeffs@, 0, 2),
        hint_weight(*h, K as int) <= OMEGA,
    ensures
        final(sig)@.len() == SIGNBYTES,
        c is Some ==> final(sig)@.subrange(0, SEEDBYTES as int) == c.unwrap()@.subrange(0, SEEDBYTES as int),
        c is None ==> final(sig)@.subrange(0, SEEDBYTES as int) == old(sig)@.subrange(0, SEEDBYTES as int),
        forall|k: int, j: int| 0 <= k < L && 0 <= j < POLYZ_PACKEDBYTES ==>
            #[trigger] final(sig)@[SEEDBYTES + k * POLYZ_PACKEDBYTES + j] == z_byte(z.vec@[k].coeffs@, j),
        hint_valid(sig_hint_bytes(final(sig)@)),
        forall|a: int, p: int| 0 <= a < K && 0 <= p < N ==>
            (hint_bit(sig_hint_bytes(final(sig)@), a, p) <==> #[trigger] h.vec@[a].coeffs@[p] != 0),
{
    match c {
        Some(cv) => {
            copy_bytes(sig, 0, cv, 0, SEEDBYTES);
        },
        None => {},
    }
    let ghost s0 = sig@;
    pack_z_vecl(sig, SEEDBYTES, z);
    let ghost s1 = sig@;
    assert(s1.subrange(0, SEEDBYTES as int) =~= s0.subrange(0, SEEDBYTES as int));
    pack_hint(sig, h);
    assert(sig@.subrange(0, SEEDBYTES as int) =~= s1.subrange(0, SEEDBYTES as int));
    assert forall|k: int, j: int| 0 <= k < L && 0 <= j < POLYZ_PACKEDBYTES implies
        #[trigger] sig@[SEEDBYTES + k * POLYZ_PACKEDBYTES + j] == z_byte(z.vec@[k].coeffs@, j) by {
        assert(k * POLYZ_PACKEDBYTES + j < L * POLYZ_PACKEDBYTES) by (nonlinear_arith)
            requires 0 <= k < L, 0 <= j < POLYZ_PACKEDBYTES;
        assert(s1[SEEDBYTES + k * POLYZ_PACKEDBYTES + j] == z_byte(z.vec@[k].coeffs@, j));
    }
}

/// A sequence whose neighbours strictly increase strictly increases.
proof fn lemma_increasing(u: Seq<u8>)
    requires
        forall|i: int| 0 < i < u.len() ==> u[i - 1] < #[trigger] u[i],
    ensures
        forall|i: int, j: int| 0 <= i < j < u.len() ==> #[trigger] u[i] < #[trigger] u[j],
    decreases u.len(),
{
    if u.len() > 0 {
        let w = u.drop_last();
        assert forall|i: int| 0 < i < w.len() implies w[i - 1] < #[trigger] w[i] by {
            assert(u[i - 1] < u[i]);
        }
        lemma_increasing(w);
        assert forall|i: int, j: int| 0 <= i < j < u.len() implies #[trigger] u[i] < #[trigger] u[j] by {
            if j < u.len() - 1 {
                assert(w[i] < w[j]);
            } else if i < j - 1 {
                assert(w[i] < w[j - 1]);
                assert(u[j - 1] < u[j]);
            } else {
                assert(u[j - 1] < u[j]);
            }
        }
    }
}

/// Two strictly increasing sequences with the same elements are equal.
proof fn lemma_sorted_unique(u: Seq<u8>, v: Seq<u8>)
    requires
        forall|i: int, j: int| 0 <= i < j < u.len() ==> #[trigger] u[i] < #[trigger] u[j],
        forall|i: int, j: int| 0 <= i < j < v.len() ==> #[trigger] v[i] < #[trigger] v[j],
        forall|p: u8| u.contains(p) <==> #[trigger] v.contains(p),
    ensures
        u == v,
    decreases u.len() + v.len(),
{
    if u.len() == 0 {
        if v.len() > 0 {
            assert(v.contains(v[0]));
        }
        assert(u =~= v);
    } else if v.len() == 0 {
        assert(u.contains(u[0]));
        assert(v.contains(u[0]));
    } else {
        assert(u.contains(u[0]));
        assert(v.contains(u[0]));
        assert(v.contains(v[0]));
        assert(u.contains(v[0]));
        let iu = choose|i: int| 0 <= i < u.len() && u[i] == v[0];
        let iv = choose|i: int| 0 <= i < v.len() && v[i] == u[0];
        if iu > 0 {
            assert(u[0] < u[iu]);
        }
        if iv > 0 {
            assert(v[0] < v[iv]);
        }
        assert(u[0] == v[0]);
        let u1 = u.drop_first();
        let v1 = v.drop_first();
        assert forall|p: u8| u1.contains(p) <==> #[trigger] v1.contains(p) by {
            if u1.contains(p) {
                let i = choose|i: int| 0 <= i < u1.len() && u1[i] == p;
                assert(u[0] < u[i + 1]);
                assert(u.contains(p));
                assert(v.contains(p));
                let j = choose|j: int| 0 <= j < v.len() && v[j] == p;
                assert(j != 0);
                assert(v1[j - 1] == p);
            }
            if v1.contains(p) {
                let i = choose|i: int| 0 <= i < v1.len() && v1[i] == p;
                assert(v[0] < v[i + 1]);
                assert(v.contains(p));
                assert(u.contains(p));
                let j = choose|j: int| 0 <= j < u.len() && u[j] == p;
                assert(j != 0);
                assert(u1[j - 1] == p);
            }
        }
        assert forall|i: int, j: int| 0 <= i < j < u1.len() implies #[trigger] u1[i] < #[trigger] u1[j] by {
            assert(u[i + 1] < u[j + 1]);
        }
        assert forall|i: int, j: int| 0 <= i < j < v1.len() implies #[trigger] v1[i] < #[trigger] v1[j] by {
            assert(v[i + 1] < v[j + 1]);
        }
        lemma_sorted_unique(u1, v1);
        assert(u.len() == v.len());
        assert(u =~= v) by {
            assert forall|i: int| 0 <= i < u.len() implies u[i] == v[i] by {
                if i > 0 {
                    assert(u1[i - 1] == v1[i - 1]);
                }
            }
        }
    }
}

/// The positions of entry `a` as a sequence.
pub open spec fn entry_positions(hb: Seq<u8>, a: int) -> Seq<u8> {
    hb.subrange(hint_start(hb, a), hint_end(hb, a))
}

/// The positions of a well-formed entry strictly increase, and are the
/// coefficients that the entry sets.
proof fn lemma_entry_facts(hb: Seq<u8>, a: int)
    requires
        hb.len() == OMEGA + K,
        0 <= a < K,
        hint_poly_ok(hb, a),
        0 <= hint_start(hb, a),
    ensures
        forall|i: int, j: int| 0 <= i < j < entry_positions(hb, a).len() ==> #[trigger] entry_positions(hb, a)[i] < #[trigger] entry_positions(hb, a)[j],
        forall|p: u8| entry_positions(hb, a).contains(p) <==> #[trigger] hint_bit(hb, a, p as int),
{
    let u = entry_positions(hb, a);
    let s = hint_start(hb, a);
    assert forall|i: int| 0 < i < u.len() implies u[i - 1] < #[trigger] u[i] by {
        assert(hb[s + i - 1] < hb[s + i]);
    }
    lemma_increasing(u);
    assert forall|p: u8| u.contains(p) <==> #[trigger] hint_bit(hb, a, p as int) by {
        if u.contains(p) {
            let i = choose|i: int| 0 <= i < u.len() && u[i] == p;
            assert(hb[s + i] as int == p as int);
        }
        if hint_bit(hb, a, p as int) {
            let t = choose|t: int| hint_start(hb, a) <= t < hint_end(hb, a) && #[trigger] hb[t] as int == p as int;
            assert(u[t - s] == p);
        }
    }
}

/// Two valid hint byte strings that set the same coefficients agree on
/// the first `n` entries: their counts, and every position byte before.
proof fn lemma_hint_prefix_equal(x: Seq<u8>, y: Seq<u8>, n: int)
    requires
        x.len() == OMEGA + K,
        y.len() == OMEGA + K,
        hint_valid(x),
        hint_valid(y),
        forall|a: int, p: int| 0 <= a < K && 0 <= p < N ==> #[trigger] hint_bit(x, a, p) == hint_bit(y, a, p),
        0 <= n <= K,
    ensures
        forall|b: int| 0 <= b < n ==> #[trigger] hint_end(x, b) == hint_end(y, b),
        n > 0 ==> forall|t: int| 0 <= t < hint_end(x, n - 1) ==> x[t] == y[t],
    decreases n,
{
    if n > 0 {
        let a = n - 1;
        lemma_hint_prefix_equal(x, y, a);
        assert(hint_poly_ok(x, a));
        assert(hint_poly_ok(y, a));
        assert(hint_start(x, a) == hint_start(y, a)) by {
            if a > 0 {
                assert(hint_end(x, a - 1) == hint_end(y, a - 1));
            }
        }
        if a > 0 {
            assert(hint_poly_ok(x, a - 1));
        }
        lemma_entry_facts(x, a);
        lemma_entry_facts(y, a);
        let u = entry_positions(x, a);
        let v = entry_positions(y, a);
        assert forall|p: u8| u.contains(p) <==> #[trigger] v.contains(p) by {
            assert(hint_bit(x, a, p as int) == hint_bit(y, a, p as int));
        }
        lemma_sorted_unique(u, v);
        assert(hint_end(x, a) == hint_end(y, a));
        let s = hint_start(x, a);
        assert forall|t: int| 0 <= t < hint_end(x, a) implies x[t] == y[t] by {
            if t >= s {
                assert(u[t - s] == v[t - s]);
            } else {
                assert(a > 0);
            }
        }
    }
}

/// A hint has exactly one canonical encoding: two valid hint byte strings
/// that set the same coefficients are equal.
pub proof fn lemma_hint_unique(x: Seq<u8>, y: Seq<u8>)
    requires
        x.len() == OMEGA + K,
        y.len() == OMEGA + K,
        hint_valid(x),
        hint_valid(y),
        forall|a: int, p: int| 0 <= a < K && 0 <= p < N ==> #[trigger] hint_bit(x, a, p) == hint_bit(y, a, p),
    ensures
        x == y,
{
    lemma_hint_prefix_equal(x, y, K as int);
    assert forall|t: int| 0 <= t < x.len() implies x[t] == y[t] by {
        if t >= OMEGA {
            assert(hint_end(x, t - OMEGA) == hint_end(y, t - OMEGA));
        } else if t >= hint_end(x, K - 1) {
            assert(x[t] == 0);
            assert(y[t] == 0);
        }
    }
    assert(x =~= y);
}

/// Decoding a packed public key and packing the result again gives back
/// the same bytes: for `(rho, t1)` as `unpack_pk` returns them for `pk`,
/// the bytes `out` that `pack_pk` writes for them are `pk`.
pub proof fn lemma_pk_canonical(pk: Seq<u8>, rho: Seq<u8>, t1: Polyveck, out: Seq<u8>)
    requires
        pk.len() == PUBLICKEYBYTES,
        rho.len() >= SEEDBYTES,
        rho.subrange(0, SEEDBYTES as int) == pk.subrange(0, SEEDBYTES as int),
        forall|k: int, j: int| 0 <= k < K && 0 <= j < N ==>
            #[trigger] t1.vec@[k].coeffs@[j] == t1_field(pk, SEEDBYTES + k * POLYT1_PACKEDBYTES, j),
        out.len() == PUBLICKEYBYTES,
        out.subrange(0, SEEDBYTES as int) == rho.subrange(0, SEEDBYTES as int),
        forall|k: int, j: int| 0 <= k < K && 0 <= j < POLYT1_PACKEDBYTES ==>
            #[trigger] out[SEEDBYTES + k * POLYT1_PACKEDBYTES + j] == t1_byte(t1.vec@[k].coeffs@, j),
    ensures
        out == pk,
{
    assert forall|t: int| 0 <= t < PUBLICKEYBYTES implies out[t] == pk[t] by {
        if t < SEEDBYTES {
            assert(out[t] == out.subrange(0, SEEDBYTES as int)[t]);
            assert(pk[t] == pk.subrange(0, SEEDBYTES as int)[t]);
        } else {
            let k = (t - SEEDBYTES) / (POLYT1_PACKEDBYTES as int);
            let j = (t - SEEDBYTES) % (POLYT1_PACKEDBYTES as int);
            assert(t == SEEDBYTES + k * POLYT1_PACKEDBYTES + j);
            assert(0 <= k < K);
            lemma_t1_reencode(pk, SEEDBYTES + k * POLYT1_PACKEDBYTES, t1.vec@[k].coeffs@);
            assert(out[SEEDBYTES + k * POLYT1_PACKEDBYTES + j] == t1_byte(t1.vec@[k].coeffs@, j));
        }
    }
    assert(out =~= pk);
}

/// Decoding a signature with canonical hint bytes and packing the result
/// again gives back the same bytes: for `(c, z, h)` as `unpack_sig`
/// returns them for `sig`, the bytes `out` that `pack_sig` writes for them
/// are `sig`.
pub proof fn lemma_sig_canonical(sig: Seq<u8>, c: Seq<u8>, z: Polyvecl, h: Polyveck, out: Seq<u8>)
    requires
        sig.len() == SIGNBYTES,
        hint_valid(sig_hint_bytes(sig)),
        c.len() >= SEEDBYTES,
        c.subrange(0, SEEDBYTES as int) == sig.subrange(0, SEEDBYTES as int),
        forall|k: int, j: int| 0 <= k < L && 0 <= j < N ==>
            #[trigger] z.vec@[k].coeffs@[j] == GAMMA1 as int - z_field(sig, SEEDBYTES + k * POLYZ_PACKEDBYTES, j),
        forall|k: int, p: int| 0 <= k < K && 0 <= p < N ==>
            #[trigger] h.vec@[k].coeffs@[p] == (if hint_bit(sig_hint_bytes(sig), k, p) { 1int } else { 0int }),
        out.len() == SIGNBYTES,
        out.subrange(0, SEEDBYTES as int) == c.subrange(0, SEEDBYTES as int),
        forall|k: int, j: int| 0 <= k < L && 0 <= j < POLYZ_PACKEDBYTES ==>
            #[trigger] out[SEEDBYTES + k * POLYZ_PACKEDBYTES + j] == z_byte(z.vec@[k].coeffs@, j),
        hint_valid(sig_hint_bytes(out)),
        forall|a: int, p: int| 0 <= a < K && 0 <= p < N ==>
            (hint_bit(sig_hint_bytes(out), a, p) <==> #[trigger] h.vec@[a].coeffs@[p] != 0),
    ensures
        out == sig,
{
    let x = sig_hint_bytes(out);
    let y = sig_hint_bytes(sig);
    assert forall|a: int, p: int| 0 <= a < K && 0 <= p < N implies #[trigger] hint_bit(x, a, p) == hint_bit(y, a, p) by {
        assert(h.vec@[a].coeffs@[p] == (if hint_bit(y, a, p) { 1int } else { 0int }));
        assert(hint_bit(x, a, p) <==> h.vec@[a].coeffs@[p] != 0);
    }
    lemma_hint_unique(x, y);
    assert forall|t: int| 0 <= t < SIGNBYTES implies out[t] == sig[t] by {
        if t < SEEDBYTES {
            assert(out[t] == out.subrange(0, SEEDBYTES as int)[t]);
            assert(sig[t] == sig.subrange(0, SEEDBYTES as int)[t]);
        } else if t < SIG_H_OFF {
            let k = (t - SEEDBYTES) / (POLYZ_PACKEDBYTES as int);
            let j = (t - SEEDBYTES) % (POLYZ_PACKEDBYTES as int);
            assert(t == SEEDBYTES + k * POLYZ_PACKEDBYTES + j);
            assert(0 <= k < L);
            lemma_z_reencode(sig, SEEDBYTES + k * POLYZ_PACKEDBYTES, z.vec@[k].coeffs@);
            assert(out[SEEDBYTES + k * POLYZ_PACKEDBYTES + j] == z_byte(z.vec@[k].coeffs@, j));
        } else {
            assert(x[t - SIG_H_OFF] == y[t - SIG_H_OFF]);
        }
    }
    assert(out =~= sig);
}

} // verus!
