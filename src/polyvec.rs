use vstd::prelude::*;
use crate::ntt::{abs_lt, invntt_tomont_spec, ntt_spec};
use crate::symmetric::stream256;
use crate::params::{CRHBYTES, GAMMA1, GAMMA2, K, L, L_U16, N, POLYW1_PACKEDBYTES, Q, SEEDBYTES};
use crate::poly::{
    add_fits, add_seq, caddq_seq, count_nonzero, decompose_hi, decompose_lo, in_range, make_hint_seq,
    norm_exceeds, poly_add, poly_caddq, poly_chknorm, poly_decompose, poly_invntt_tomont,
    poly_make_hint, poly_ntt, poly_pointwise_montgomery, poly_power2round, poly_reduce, poly_shiftl,
    poly_sub, poly_uniform, poly_uniform_eta, uniform_poly, eta_poly, z_field, poly_uniform_gamma1, poly_use_hint, polyw1_pack,
    pointwise_seq, power2round_hi, power2round_lo, reduce_seq, shiftl_seq, sub_fits, sub_seq,
    use_hint_seq, w1_byte, Poly,
};

verus! {

/// A vector of `K` polynomials.
#[derive(Copy, Clone)]
pub struct Polyveck {
    pub vec: [Poly; K],
}

impl Default for Polyveck {
    fn default() -> (r: Polyveck)
        ensures
            forall|k: int, i: int| 0 <= k < K && 0 <= i < N ==> #[trigger] r.vec@[k].coeffs@[i] == 0,
    {
        Polyveck { vec: [Poly::default(), Poly::default(), Poly::default(), Poly::default(), Poly::default(), Poly::default()] }
    }
}

/// A vector of `L` polynomials.
#[derive(Copy, Clone)]
pub struct Polyvecl {
    pub vec: [Poly; L],
}

impl Default for Polyvecl {
    fn default() -> (r: Polyvecl)
        ensures
            forall|k: int, i: int| 0 <= k < L && 0 <= i < N ==> #[trigger] r.vec@[k].coeffs@[i] == 0,
    {
        Polyvecl { vec: [Poly::default(), Poly::default(), Poly::default(), Poly::default(), Poly::default()] }
    }
}

/// Samples `v` with coefficients in `[-ETA, ETA]`, polynomial `i` from
/// `seed` and nonce `nonce + i`.
pub fn polyvecl_uniform_eta(v: &mut Polyvecl, seed: &[u8], nonce: u16)
    requires
        CRHBYTES <= seed@.len(),
        nonce + L <= 65536,
    ensures
        forall|k: int| 0 <= k < L ==> in_range(#[trigger] final(v).vec@[k].coeffs@, -4, 5),
        forall|k: int| 0 <= k < L ==> #[trigger] final(v).vec@[k].coeffs@ == eta_poly(seed@.take(CRHBYTES as int), (nonce + k) as u16),
{
    let mut i: usize = 0;
    while i < L
        invariant
            i <= L,
            CRHBYTES <= seed@.len(),
            nonce + L <= 65536,
            forall|k: int| 0 <= k < i ==> in_range(#[trigger] v.vec@[k].coeffs@, -4, 5),
            forall|k: int| 0 <= k < i ==> #[trigger] v.vec@[k].coeffs@ == eta_poly(seed@.take(CRHBYTES as int), (nonce + k) as u16),
        decreases L - i,
    {
        poly_uniform_eta(&mut v.vec[i], seed, nonce + i as u16);
        i = i + 1;
    }
}

/// Samples `v` with coefficients in `[-ETA, ETA]`, polynomial `i` from
/// `seed` and nonce `nonce + i`.
pub fn polyveck_uniform_eta(v: &mut Polyveck, seed: &[u8], nonce: u16)
    requires
        CRHBYTES <= seed@.len(),
        nonce + K <= 65536,
    ensures
        forall|k: int| 0 <= k < K ==> in_range(#[trigger] final(v).vec@[k].coeffs@, -4, 5),
        forall|k: int| 0 <= k < K ==> #[trigger] final(v).vec@[k].coeffs@ == eta_poly(seed@.take(CRHBYTES as int), (nonce + k) as u16),
{
    let mut i: usize = 0;
    while i < K
        invariant
            i <= K,
            CRHBYTES <= seed@.len(),
            nonce + K <= 65536,
            forall|k: int| 0 <= k < i ==> in_range(#[trigger] v.vec@[k].coeffs@, -4, 5),
            forall|k: int| 0 <= k < i ==> #[trigger] v.vec@[k].coeffs@ == eta_poly(seed@.take(CRHBYTES as int), (nonce + k) as u16),
        decreases K - i,
    {
        poly_uniform_eta(&mut v.vec[i], seed, nonce + i as u16);
        i = i + 1;
    }
}

/// Samples the masking vector `v` with coefficients in `(-GAMMA1, GAMMA1]`,
/// polynomial `i` from `seed` and nonce `L * nonce + i`.
pub fn polyvecl_uniform_gamma1(v: &mut Polyvecl, seed: &[u8], nonce: u16)
    requires
        CRHBYTES <= seed@.len(),
        L * nonce + L <= 65536,
    ensures
        forall|k: int| 0 <= k < L ==> in_range(#[trigger] final(v).vec@[k].coeffs@, -GAMMA1 + 1, GAMMA1 + 1),
        forall|k: int, j: int| 0 <= k < L && 0 <= j < N ==> #[trigger] final(v).vec@[k].coeffs@[j]
            == GAMMA1 - z_field(stream256(seed@.take(CRHBYTES as int), (L * nonce + k) as u16, 680), 0, j),
{
    let mut i: usize = 0;
    while i < L
        invariant
            i <= L,
            CRHBYTES <= seed@.len(),
            L * nonce + L <= 65536,
            forall|k: int| 0 <= k < i ==> in_range(#[trigger] v.vec@[k].coeffs@, -GAMMA1 + 1, GAMMA1 + 1),
            forall|k: int, j: int| 0 <= k < i && 0 <= j < N ==> #[trigger] v.vec@[k].coeffs@[j]
                == GAMMA1 - z_field(stream256(seed@.take(CRHBYTES as int), (L * nonce + k) as u16, 680), 0, j),
        decreases L - i,
    {
        poly_uniform_gamma1(&mut v.vec[i], seed, L_U16 * nonce + i as u16);
        i = i + 1;
    }
}

/// Infinity-norm check of every polynomial of `v`: 0 if all coefficients
/// are strictly smaller than `bound` in absolute value, 1 otherwise.
pub fn polyvecl_chknorm(v: &Polyvecl, bound: i32) -> (r: u8)
    requires
        forall|k: int| 0 <= k < L ==> abs_lt(#[trigger] v.vec@[k].coeffs@, 1073741824),
    ensures
        r == (if exists|k: int| 0 <= k < L && norm_exceeds(#[trigger] v.vec@[k].coeffs@, bound as int) { 1u8 } else { 0u8 }),
{
    let mut i: usize = 0;
    while i < L
        invariant
            i <= L,
            forall|k: int| 0 <= k < L ==> abs_lt(#[trigger] v.vec@[k].coeffs@, 1073741824),
            forall|k: int| 0 <= k < i ==> !norm_exceeds(#[trigger] v.vec@[k].coeffs@, bound as int),
        decreases L - i,
    {
        if poly_chknorm(&v.vec[i], bound) > 0 {
            return 1;
        }
        i = i + 1;
    }
    0
}

/// Infinity-norm check of every polynomial of `v`: 0 if all coefficients
/// are strictly smaller than `bound` in absolute value, 1 otherwise.
pub fn polyveck_chknorm(v: &Polyveck, bound: i32) -> (r: u8)
    requires
        forall|k: int| 0 <= k < K ==> abs_lt(#[trigger] v.vec@[k].coeffs@, 1073741824),
    ensures
        r == (if exists|k: int| 0 <= k < K && norm_exceeds(#[trigger] v.vec@[k].coeffs@, bound as int) { 1u8 } else { 0u8 }),
{
    let mut i: usize = 0;
    while i < K
        invariant
            i <= K,
            forall|k: int| 0 <= k < K ==> abs_lt(#[trigger] v.vec@[k].coeffs@, 1073741824),
            forall|k: int| 0 <= k < i ==> !norm_exceeds(#[trigger] v.vec@[k].coeffs@, bound as int),
        decreases K - i,
    {
        if poly_chknorm(&v.vec[i], bound) > 0 {
            return 1;
        }
        i = i + 1;
    }
    0
}

/// Total number of nonzero coefficients in the first `n` polynomials of `h`.
pub open spec fn hint_weight(h: Polyveck, n: int) -> int
    decreases n,
{
    if n <= 0 {
        0
    } else {
        hint_weight(h, n - 1) + count_nonzero(h.vec@[n - 1].coeffs@, N as int)
    }
}

/// Sets `h` to the hint bits for low parts `v0` and high parts `v1`, and
/// returns how many are set.
pub fn polyveck_make_hint(h: &mut Polyveck, v0: &Polyveck, v1: &Polyveck) -> (r: u32)
    ensures
        forall|k: int| 0 <= k < K ==> #[trigger] final(h).vec@[k].coeffs@ == make_hint_seq(v0.vec@[k].coeffs@, v1.vec@[k].coeffs@),
        r == hint_weight(*final(h), K as int),
{
    let mut s: u32 = 0;
    let mut i: usize = 0;
    while i < K
        invariant
            i <= K,
            s <= i * N,
            forall|k: int| 0 <= k < i ==> #[trigger] h.vec@[k].coeffs@ == make_hint_seq(v0.vec@[k].coeffs@, v1.vec@[k].coeffs@),
            s == hint_weight(*h, i as int),
        decreases K - i,
    {
        let ghost prev = *h;
        let n: u32 = poly_make_hint(&mut h.vec[i], &v0.vec[i], &v1.vec[i]);
        proof {
            lemma_hint_weight_frame(prev, *h, i as int);
        }
        s = s + n;
        i = i + 1;
    }
    s
}

/// `hint_weight` of the first `n` polynomials depends on those only.
pub proof fn lemma_hint_weight_frame(a: Polyveck, b: Polyveck, n: int)
    requires
        0 <= n <= K,
        forall|k: int| 0 <= k < n ==> #[trigger] a.vec@[k] == b.vec@[k],
    ensures
        hint_weight(a, n) == hint_weight(b, n),
    decreases n,
{
    if n > 0 {
        lemma_hint_weight_frame(a, b, n - 1);
    }
}

/// Packs `w1` (coefficients in `[0, 16)`), polynomial `i` at
/// `r[i * POLYW1_PACKEDBYTES..]`.
pub fn polyveck_pack_w1(r: &mut [u8], w1: &Polyveck)
    requires
        K * POLYW1_PACKEDBYTES <= old(r)@.len(),
        forall|k: int| 0 <= k < K ==> in_range(#[trigger] w1.vec@[k].coeffs@, 0, 16),
    ensures
        final(r)@.len() == old(r)@.len(),
        forall|k: int, j: int| 0 <= k < K && 0 <= j < POLYW1_PACKEDBYTES ==>
            #[trigger] final(r)@[k * POLYW1_PACKEDBYTES + j] == w1_byte(w1.vec@[k].coeffs@, j),
        forall|j: int| K * POLYW1_PACKEDBYTES <= j < old(r)@.len() ==> #[trigger] final(r)@[j] == old(r)@[j],
{
    let mut i: usize = 0;
    while i < K
        invariant
            i <= K,
            K * POLYW1_PACKEDBYTES <= r@.len(),
            r@.len() == old(r)@.len(),
            forall|k: int| 0 <= k < K ==> in_range(#[trigger] w1.vec@[k].coeffs@, 0, 16),
            forall|k: int, j: int| 0 <= k < i && 0 <= j < POLYW1_PACKEDBYTES ==>
                #[trigger] r@[k * POLYW1_PACKEDBYTES + j] == w1_byte(w1.vec@[k].coeffs@, j),
            forall|j: int| i * POLYW1_PACKEDBYTES <= j < old(r)@.len() ==> #[trigger] r@[j] == old(r)@[j],
        decreases K - i,
    {
        let ghost prev = r@;
        polyw1_pack(r, i * POLYW1_PACKEDBYTES, &w1.vec[i]);
        proof {
            assert forall|k: int, j: int| 0 <= k < i + 1 && 0 <= j < POLYW1_PACKEDBYTES implies
                #[trigger] r@[k * POLYW1_PACKEDBYTES + j] == w1_byte(w1.vec@[k].coeffs@, j) by {
                if k < i {
                    assert(k * POLYW1_PACKEDBYTES + j < i * POLYW1_PACKEDBYTES) by (nonlinear_arith)
                        requires k < i, 0 <= j < POLYW1_PACKEDBYTES;
                    assert(prev[k * POLYW1_PACKEDBYTES + j] == r@[k * POLYW1_PACKEDBYTES + j]);
                } else {
                    assert(k * POLYW1_PACKEDBYTES + j == i * POLYW1_PACKEDBYTES + j);
                }
            }
        }
        i = i + 1;
    }
}

/// Reduces every coefficient to a representative in `[-6283009, 6283008]`.
pub fn polyveck_reduce(v: &mut Polyveck)
    requires
        forall|k: int| 0 <= k < K ==> in_range(old(v).vec@[k].coeffs@, i32::MIN as int, 2143289344),
    ensures
        forall|k: int| 0 <= k < K ==> #[trigger] final(v).vec@[k].coeffs@ == reduce_seq(old(v).vec@[k].coeffs@),
        forall|k: int| 0 <= k < K ==> in_range(final(v).vec@[k].coeffs@, -6283009, 6283009),
{
    let mut i: usize = 0;
    while i < K
        invariant
            i <= K,
            forall|k: int| 0 <= k < K ==> in_range(old(v).vec@[k].coeffs@, i32::MIN as int, 2143289344),
            forall|k: int| 0 <= k < i ==> #[trigger] v.vec@[k].coeffs@ == reduce_seq(old(v).vec@[k].coeffs@),
            forall|k: int| 0 <= k < i ==> in_range(v.vec@[k].coeffs@, -6283009, 6283009),
            forall|k: int| i <= k < K ==> #[trigger] v.vec@[k] == old(v).vec@[k],
        decreases K - i,
    {
        poly_reduce(&mut v.vec[i]);
        i = i + 1;
    }
}

/// Reduces every coefficient to a representative in `[-6283009, 6283008]`.
pub fn polyvecl_reduce(v: &mut Polyvecl)
    requires
        forall|k: int| 0 <= k < L ==> in_range(old(v).vec@[k].coeffs@, i32::MIN as int, 2143289344),
    ensures
        forall|k: int| 0 <= k < L ==> #[trigger] final(v).vec@[k].coeffs@ == reduce_seq(old(v).vec@[k].coeffs@),
        forall|k: int| 0 <= k < L ==> in_range(final(v).vec@[k].coeffs@, -6283009, 6283009),
{
    let mut i: usize = 0;
    while i < L
        invariant
            i <= L,
            forall|k: int| 0 <= k < L ==> in_range(old(v).vec@[k].coeffs@, i32::MIN as int, 2143289344),
            forall|k: int| 0 <= k < i ==> #[trigger] v.vec@[k].coeffs@ == reduce_seq(old(v).vec@[k].coeffs@),
            forall|k: int| 0 <= k < i ==> in_range(v.vec@[k].coeffs@, -6283009, 6283009),
            forall|k: int| i <= k < L ==> #[trigger] v.vec@[k] == old(v).vec@[k],
        decreases L - i,
    {
        poly_reduce(&mut v.vec[i]);
        i = i + 1;
    }
}

/// Adds `Q` to every negative coefficient.
pub fn polyveck_caddq(v: &mut Polyveck)
    requires
        forall|k: int| 0 <= k < K ==> in_range(old(v).vec@[k].coeffs@, -2139103230, 2147483648),
    ensures
        forall|k: int| 0 <= k < K ==> #[trigger] final(v).vec@[k].coeffs@ == caddq_seq(old(v).vec@[k].coeffs@),
{
    let mut i: usize = 0;
    while i < K
        invariant
            i <= K,
            forall|k: int| 0 <= k < K ==> in_range(old(v).vec@[k].coeffs@, -2139103230, 2147483648),
            forall|k: int| 0 <= k < i ==> #[trigger] v.vec@[k].coeffs@ == caddq_seq(old(v).vec@[k].coeffs@),
            forall|k: int| i <= k < K ==> #[trigger] v.vec@[k] == old(v).vec@[k],
        decreases K - i,
    {
        poly_caddq(&mut v.vec[i]);
        i = i + 1;
    }
}

/// Adds `v` to `w`, without reduction.
pub fn polyveck_add(w: &mut Polyveck, v: &Polyveck)
    requires
        forall|k: int| 0 <= k < K ==> add_fits(old(w).vec@[k].coeffs@, v.vec@[k].coeffs@),
    ensures
        forall|k: int| 0 <= k < K ==> #[trigger] final(w).vec@[k].coeffs@ == add_seq(old(w).vec@[k].coeffs@, v.vec@[k].coeffs@),
{
    let mut i: usize = 0;
    while i < K
        invariant
            i <= K,
            forall|k: int| 0 <= k < K ==> add_fits(old(w).vec@[k].coeffs@, v.vec@[k].coeffs@),
            forall|k: int| 0 <= k < i ==> #[trigger] w.vec@[k].coeffs@ == add_seq(old(w).vec@[k].coeffs@, v.vec@[k].coeffs@),
            forall|k: int| i <= k < K ==> #[trigger] w.vec@[k] == old(w).vec@[k],
        decreases K - i,
    {
        poly_add(&mut w.vec[i], &v.vec[i]);
        i = i + 1;
    }
}

/// Adds `v` to `w`, without reduction.
pub fn polyvecl_add(w: &mut Polyvecl, v: &Polyvecl)
    requires
        forall|k: int| 0 <= k < L ==> add_fits(old(w).vec@[k].coeffs@, v.vec@[k].coeffs@),
    ensures
        forall|k: int| 0 <= k < L ==> #[trigger] final(w).vec@[k].coeffs@ == add_seq(old(w).vec@[k].coeffs@, v.vec@[k].coeffs@),
{
    let mut i: usize = 0;
    while i < L
        invariant
            i <= L,
            forall|k: int| 0 <= k < L ==> add_fits(old(w).vec@[k].coeffs@, v.vec@[k].coeffs@),
            forall|k: int| 0 <= k < i ==> #[trigger] w.vec@[k].coeffs@ == add_seq(old(w).vec@[k].coeffs@, v.vec@[k].coeffs@),
            forall|k: int| i <= k < L ==> #[trigger] w.vec@[k] == old(w).vec@[k],
        decreases L - i,
    {
        poly_add(&mut w.vec[i], &v.vec[i]);
        i = i + 1;
    }
}

/// Subtracts `v` from `w`, without reduction.
pub fn polyveck_sub(w: &mut Polyveck, v: &Polyveck)
    requires
        forall|k: int| 0 <= k < K ==> sub_fits(old(w).vec@[k].coeffs@, v.vec@[k].coeffs@),
    ensures
        forall|k: int| 0 <= k < K ==> #[trigger] final(w).vec@[k].coeffs@ == sub_seq(old(w).vec@[k].coeffs@, v.vec@[k].coeffs@),
{
    let mut i: usize = 0;
    while i < K
        invariant
            i <= K,
            forall|k: int| 0 <= k < K ==> sub_fits(old(w).vec@[k].coeffs@, v.vec@[k].coeffs@),
            forall|k: int| 0 <= k < i ==> #[trigger] w.vec@[k].coeffs@ == sub_seq(old(w).vec@[k].coeffs@, v.vec@[k].coeffs@),
            forall|k: int| i <= k < K ==> #[trigger] w.vec@[k] == old(w).vec@[k],
        decreases K - i,
    {
        poly_sub(&mut w.vec[i], &v.vec[i]);
        i = i + 1;
    }
}

/// Multiplies every coefficient by `2^D`, without reduction.
pub fn polyveck_shiftl(v: &mut Polyveck)
    requires
        forall|k: int| 0 <= k < K ==> abs_lt(old(v).vec@[k].coeffs@, 262144),
    ensures
        forall|k: int| 0 <= k < K ==> #[trigger] final(v).vec@[k].coeffs@ == shiftl_seq(old(v).vec@[k].coeffs@),
{
    let mut i: usize = 0;
    while i < K
        invariant
            i <= K,
            forall|k: int| 0 <= k < K ==> abs_lt(old(v).vec@[k].coeffs@, 262144),
            forall|k: int| 0 <= k < i ==> #[trigger] v.vec@[k].coeffs@ == shiftl_seq(old(v).vec@[k].coeffs@),
            forall|k: int| i <= k < K ==> #[trigger] v.vec@[k] == old(v).vec@[k],
        decreases K - i,
    {
        poly_shiftl(&mut v.vec[i]);
        i = i + 1;
    }
}

/// Forward transform of every polynomial; coefficients grow by less than `8 * Q`.
pub fn polyveck_ntt(v: &mut Polyveck)
    requires
        forall|k: int| 0 <= k < K ==> abs_lt(old(v).vec@[k].coeffs@, Q as int),
    ensures
        forall|k: int| 0 <= k < K ==> #[trigger] final(v).vec@[k].coeffs@ == ntt_spec(old(v).vec@[k].coeffs@),
        forall|k: int| 0 <= k < K ==> abs_lt(final(v).vec@[k].coeffs@, 9 * Q as int),
{
    let mut i: usize = 0;
    while i < K
        invariant
            i <= K,
            forall|k: int| 0 <= k < K ==> abs_lt(old(v).vec@[k].coeffs@, Q as int),
            forall|k: int| 0 <= k < i ==> #[trigger] v.vec@[k].coeffs@ == ntt_spec(old(v).vec@[k].coeffs@),
            forall|k: int| 0 <= k < i ==> abs_lt(v.vec@[k].coeffs@, 9 * Q as int),
            forall|k: int| i <= k < K ==> #[trigger] v.vec@[k] == old(v).vec@[k],
        decreases K - i,
    {
        poly_ntt(&mut v.vec[i]);
        i = i + 1;
    }
}

/// Forward transform of every polynomial; coefficients grow by less than `8 * Q`.
pub fn polyvecl_ntt(v: &mut Polyvecl)
    requires
        forall|k: int| 0 <= k < L ==> abs_lt(old(v).vec@[k].coeffs@, Q as int),
    ensures
        forall|k: int| 0 <= k < L ==> #[trigger] final(v).vec@[k].coeffs@ == ntt_spec(old(v).vec@[k].coeffs@),
        forall|k: int| 0 <= k < L ==> abs_lt(final(v).vec@[k].coeffs@, 9 * Q as int),
{
    let mut i: usize = 0;
    while i < L
        invariant
            i <= L,
            forall|k: int| 0 <= k < L ==> abs_lt(old(v).vec@[k].coeffs@, Q as int),
            forall|k: int| 0 <= k < i ==> #[trigger] v.vec@[k].coeffs@ == ntt_spec(old(v).vec@[k].coeffs@),
            forall|k: int| 0 <= k < i ==> abs_lt(v.vec@[k].coeffs@, 9 * Q as int),
            forall|k: int| i <= k < L ==> #[trigger] v.vec@[k] == old(v).vec@[k],
        decreases L - i,
    {
        poly_ntt(&mut v.vec[i]);
        i = i + 1;
    }
}

/// Inverse transform and multiplication by `2^32` of every polynomial.
pub fn polyveck_invntt_tomont(v: &mut Polyveck)
    requires
        forall|k: int| 0 <= k < K ==> abs_lt(old(v).vec@[k].coeffs@, Q as int),
    ensures
        forall|k: int| 0 <= k < K ==> #[trigger] final(v).vec@[k].coeffs@ == invntt_tomont_spec(old(v).vec@[k].coeffs@),
        forall|k: int| 0 <= k < K ==> abs_lt(final(v).vec@[k].coeffs@, Q as int),
{
    let mut i: usize = 0;
    while i < K
        invariant
            i <= K,
            forall|k: int| 0 <= k < K ==> abs_lt(old(v).vec@[k].coeffs@, Q as int),
            forall|k: int| 0 <= k < i ==> #[trigger] v.vec@[k].coeffs@ == invntt_tomont_spec(old(v).vec@[k].coeffs@),
            forall|k: int| 0 <= k < i ==> abs_lt(v.vec@[k].coeffs@, Q as int),
            forall|k: int| i <= k < K ==> #[trigger] v.vec@[k] == old(v).vec@[k],
        decreases K - i,
    {
        poly_invntt_tomont(&mut v.vec[i]);
        i = i + 1;
    }
}

/// Inverse transform and multiplication by `2^32` of every polynomial.
pub fn polyvecl_invntt_tomont(v: &mut Polyvecl)
    requires
        forall|k: int| 0 <= k < L ==> abs_lt(old(v).vec@[k].coeffs@, Q as int),
    ensures
        forall|k: int| 0 <= k < L ==> #[trigger] final(v).vec@[k].coeffs@ == invntt_tomont_spec(old(v).vec@[k].coeffs@),
        forall|k: int| 0 <= k < L ==> abs_lt(final(v).vec@[k].coeffs@, Q as int),
{
    let mut i: usize = 0;
    while i < L
        invariant
            i <= L,
            forall|k: int| 0 <= k < L ==> abs_lt(old(v).vec@[k].coeffs@, Q as int),
            forall|k: int| 0 <= k < i ==> #[trigger] v.vec@[k].coeffs@ == invntt_tomont_spec(old(v).vec@[k].coeffs@),
            forall|k: int| 0 <= k < i ==> abs_lt(v.vec@[k].coeffs@, Q as int),
            forall|k: int| i <= k < L ==> #[trigger] v.vec@[k] == old(v).vec@[k],
        decreases L - i,
    {
        poly_invntt_tomont(&mut v.vec[i]);
        i = i + 1;
    }
}

/// Multiplies every polynomial of `v` by `a` in the transform domain, times `2^-32`.
pub fn polyveck_pointwise_poly_montgomery(r: &mut Polyveck, a: &Poly, v: &Polyveck)
    requires
        abs_lt(a.coeffs@, 9 * Q as int),
        forall|k: int| 0 <= k < K ==> abs_lt(v.vec@[k].coeffs@, 9 * Q as int),
    ensures
        forall|k: int| 0 <= k < K ==> #[trigger] final(r).vec@[k].coeffs@ == pointwise_seq(a.coeffs@, v.vec@[k].coeffs@),
        forall|k: int| 0 <= k < K ==> abs_lt(final(r).vec@[k].coeffs@, Q as int),
{
    let mut i: usize = 0;
    while i < K
        invariant
            i <= K,
            abs_lt(a.coeffs@, 9 * Q as int),
            forall|k: int| 0 <= k < K ==> abs_lt(v.vec@[k].coeffs@, 9 * Q as int),
            forall|k: int| 0 <= k < i ==> #[trigger] r.vec@[k].coeffs@ == pointwise_seq(a.coeffs@, v.vec@[k].coeffs@),
            forall|k: int| 0 <= k < i ==> abs_lt(r.vec@[k].coeffs@, Q as int),
            forall|k: int| i <= k < K ==> #[trigger] r.vec@[k] == old(r).vec@[k],
        decreases K - i,
    {
        poly_pointwise_montgomery(&mut r.vec[i], a, &v.vec[i]);
        i = i + 1;
    }
}

/// Multiplies every polynomial of `v` by `a` in the transform domain, times `2^-32`.
pub fn polyvecl_pointwise_poly_montgomery(r: &mut Polyvecl, a: &Poly, v: &Polyvecl)
    requires
        abs_lt(a.coeffs@, 9 * Q as int),
        forall|k: int| 0 <= k < L ==> abs_lt(v.vec@[k].coeffs@, 9 * Q as int),
    ensures
        forall|k: int| 0 <= k < L ==> #[trigger] final(r).vec@[k].coeffs@ == pointwise_seq(a.coeffs@, v.vec@[k].coeffs@),
        forall|k: int| 0 <= k < L ==> abs_lt(final(r).vec@[k].coeffs@, Q as int),
{
    let mut i: usize = 0;
    while i < L
        invariant
            i <= L,
            abs_lt(a.coeffs@, 9 * Q as int),
            forall|k: int| 0 <= k < L ==> abs_lt(v.vec@[k].coeffs@, 9 * Q as int),
            forall|k: int| 0 <= k < i ==> #[trigger] r.vec@[k].coeffs@ == pointwise_seq(a.coeffs@, v.vec@[k].coeffs@),
            forall|k: int| 0 <= k < i ==> abs_lt(r.vec@[k].coeffs@, Q as int),
            forall|k: int| i <= k < L ==> #[trigger] r.vec@[k] == old(r).vec@[k],
        decreases L - i,
    {
        poly_pointwise_montgomery(&mut r.vec[i], a, &v.vec[i]);
        i = i + 1;
    }
}

/// Power-of-two rounding of every coefficient of `v1`: `v1` keeps the high parts, `v0` receives the low parts.
pub fn polyveck_power2round(v1: &mut Polyveck, v0: &mut Polyveck)
    requires
        forall|k: int| 0 <= k < K ==> in_range(old(v1).vec@[k].coeffs@, -4095, Q + 4096),
    ensures
        forall|k: int| 0 <= k < K ==> #[trigger] final(v1).vec@[k].coeffs@ == power2round_hi(old(v1).vec@[k].coeffs@),
        forall|k: int| 0 <= k < K ==> final(v0).vec@[k].coeffs@ == power2round_lo(old(v1).vec@[k].coeffs@),
        forall|k: int| 0 <= k < K ==> in_range(final(v1).vec@[k].coeffs@, 0, 1024),
        forall|k: int| 0 <= k < K ==> in_range(final(v0).vec@[k].coeffs@, -4095, 4097),
{
    let mut i: usize = 0;
    while i < K
        invariant
            i <= K,
            forall|k: int| 0 <= k < K ==> in_range(old(v1).vec@[k].coeffs@, -4095, Q + 4096),
            forall|k: int| 0 <= k < i ==> #[trigger] v1.vec@[k].coeffs@ == power2round_hi(old(v1).vec@[k].coeffs@),
            forall|k: int| 0 <= k < i ==> v0.vec@[k].coeffs@ == power2round_lo(old(v1).vec@[k].coeffs@),
            forall|k: int| 0 <= k < i ==> in_range(v1.vec@[k].coeffs@, 0, 1024),
            forall|k: int| 0 <= k < i ==> in_range(v0.vec@[k].coeffs@, -4095, 4097),
            forall|k: int| i <= k < K ==> #[trigger] v1.vec@[k] == old(v1).vec@[k],
            forall|k: int| i <= k < K ==> #[trigger] v0.vec@[k] == old(v0).vec@[k],
        decreases K - i,
    {
        poly_power2round(&mut v1.vec[i], &mut v0.vec[i]);
        i = i + 1;
    }
}

/// Decomposes every coefficient of `v1`: `v1` keeps the high parts, `v0` receives the low parts.
pub fn polyveck_decompose(v1: &mut Polyveck, v0: &mut Polyveck)
    requires
        forall|k: int| 0 <= k < K ==> in_range(old(v1).vec@[k].coeffs@, 0, Q as int),
    ensures
        forall|k: int| 0 <= k < K ==> #[trigger] final(v1).vec@[k].coeffs@ == decompose_hi(old(v1).vec@[k].coeffs@),
        forall|k: int| 0 <= k < K ==> final(v0).vec@[k].coeffs@ == decompose_lo(old(v1).vec@[k].coeffs@),
        forall|k: int| 0 <= k < K ==> in_range(final(v1).vec@[k].coeffs@, 0, 16),
        forall|k: int| 0 <= k < K ==> in_range(final(v0).vec@[k].coeffs@, -GAMMA2 as int, GAMMA2 + 1),
{
    let mut i: usize = 0;
    while i < K
        invariant
            i <= K,
            forall|k: int| 0 <= k < K ==> in_range(old(v1).vec@[k].coeffs@, 0, Q as int),
            forall|k: int| 0 <= k < i ==> #[trigger] v1.vec@[k].coeffs@ == decompose_hi(old(v1).vec@[k].coeffs@),
            forall|k: int| 0 <= k < i ==> v0.vec@[k].coeffs@ == decompose_lo(old(v1).vec@[k].coeffs@),
            forall|k: int| 0 <= k < i ==> in_range(v1.vec@[k].coeffs@, 0, 16),
            forall|k: int| 0 <= k < i ==> in_range(v0.vec@[k].coeffs@, -GAMMA2 as int, GAMMA2 + 1),
            forall|k: int| i <= k < K ==> #[trigger] v1.vec@[k] == old(v1).vec@[k],
            forall|k: int| i <= k < K ==> #[trigger] v0.vec@[k] == old(v0).vec@[k],
        decreases K - i,
    {
        poly_decompose(&mut v1.vec[i], &mut v0.vec[i]);
        i = i + 1;
    }
}

/// Corrects the high bits of `w` with the hint vector `h`.
pub fn polyveck_use_hint(w: &mut Polyveck, h: &Polyveck)
    requires
        forall|k: int| 0 <= k < K ==> in_range(old(w).vec@[k].coeffs@, 0, Q as int),
        forall|k: int| 0 <= k < K ==> in_range(h.vec@[k].coeffs@, 0, 2),
    ensures
        forall|k: int| 0 <= k < K ==> #[trigger] final(w).vec@[k].coeffs@ == use_hint_seq(old(w).vec@[k].coeffs@, h.vec@[k].coeffs@),
        forall|k: int| 0 <= k < K ==> in_range(final(w).vec@[k].coeffs@, 0, 16),
{
    let mut i: usize = 0;
    while i < K
        invariant
            i <= K,
            forall|k: int| 0 <= k < K ==> in_range(old(w).vec@[k].coeffs@, 0, Q as int),
            forall|k: int| 0 <= k < K ==> in_range(h.vec@[k].coeffs@, 0, 2),
            forall|k: int| 0 <= k < i ==> #[trigger] w.vec@[k].coeffs@ == use_hint_seq(old(w).vec@[k].coeffs@, h.vec@[k].coeffs@),
            forall|k: int| 0 <= k < i ==> in_range(w.vec@[k].coeffs@, 0, 16),
            forall|k: int| i <= k < K ==> #[trigger] w.vec@[k] == old(w).vec@[k],
        decreases K - i,
    {
        poly_use_hint(&mut w.vec[i], &h.vec[i]);
        i = i + 1;
    }
}

/// The coefficient sequences of the polynomials of `v`.
pub open spec fn vecl_view(v: Polyvecl) -> Seq<Seq<i32>> {
    Seq::new(L as nat, |k: int| v.vec@[k].coeffs@)
}

/// `sum_{i < n} mont(u[i] * v[i])`, coefficient-wise, accumulated in order.
pub open spec fn acc_seq(u: Seq<Seq<i32>>, v: Seq<Seq<i32>>, n: int) -> Seq<i32>
    decreases n,
{
    if n <= 1 {
        pointwise_seq(u[0], v[0])
    } else {
        add_seq(acc_seq(u, v, n - 1), pointwise_seq(u[n - 1], v[n - 1]))
    }
}

/// Pointwise-multiplies `u` and `v` in the transform domain, times
/// `2^-32`, and accumulates the products into `w`.
pub fn polyvecl_pointwise_acc_montgomery(w: &mut Poly, u: &Polyvecl, v: &Polyvecl)
    requires
        forall|k: int| 0 <= k < L ==> abs_lt(#[trigger] u.vec@[k].coeffs@, 9 * Q as int),
        forall|k: int| 0 <= k < L ==> abs_lt(#[trigger] v.vec@[k].coeffs@, 9 * Q as int),
    ensures
        final(w).coeffs@ == acc_seq(vecl_view(*u), vecl_view(*v), L as int),
        abs_lt(final(w).coeffs@, L * Q as int),
{
    let mut t = Poly::default();
    poly_pointwise_montgomery(w, &u.vec[0], &v.vec[0]);
    let mut i: usize = 1;
    while i < L
        invariant
            1 <= i <= L,
            forall|k: int| 0 <= k < L ==> abs_lt(#[trigger] u.vec@[k].coeffs@, 9 * Q as int),
            forall|k: int| 0 <= k < L ==> abs_lt(#[trigger] v.vec@[k].coeffs@, 9 * Q as int),
            w.coeffs@ == acc_seq(vecl_view(*u), vecl_view(*v), i as int),
            abs_lt(w.coeffs@, i * Q as int),
        decreases L - i,
    {
        poly_pointwise_montgomery(&mut t, &u.vec[i], &v.vec[i]);
        assert(add_fits(w.coeffs@, t.coeffs@));
        poly_add(w, &t);
        assert(abs_lt(w.coeffs@, (i + 1) * Q as int));
        i = i + 1;
    }
}

/// Expands the matrix from the seed `rho`: entry `(i, j)` is
/// `poly_uniform(rho, 256 * i + j)`.
pub fn polyvec_matrix_expand(mat: &mut [Polyvecl; K], rho: &[u8])
    requires
        SEEDBYTES <= rho@.len(),
    ensures
        forall|i: int, j: int| 0 <= i < K && 0 <= j < L ==> in_range(#[trigger] final(mat)@[i].vec@[j].coeffs@, 0, Q as int),
        forall|i: int, j: int| 0 <= i < K && 0 <= j < L ==> abs_lt(#[trigger] final(mat)@[i].vec@[j].coeffs@, Q as int),
        forall|i: int, j: int| 0 <= i < K && 0 <= j < L ==>
            #[trigger] final(mat)@[i].vec@[j].coeffs@ == uniform_poly(rho@.take(SEEDBYTES as int), (256 * i + j) as u16),
{
    let mut i: usize = 0;
    while i < K
        invariant
            i <= K,
            SEEDBYTES <= rho@.len(),
            forall|a: int, b: int| 0 <= a < i && 0 <= b < L ==> in_range(#[trigger] mat@[a].vec@[b].coeffs@, 0, Q as int),
            forall|a: int, b: int| 0 <= a < i && 0 <= b < L ==>
                #[trigger] mat@[a].vec@[b].coeffs@ == uniform_poly(rho@.take(SEEDBYTES as int), (256 * a + b) as u16),
        decreases K - i,
    {
        let mut j: usize = 0;
        while j < L
            invariant
                i < K,
                j <= L,
                SEEDBYTES <= rho@.len(),
                forall|a: int, b: int| 0 <= a < i && 0 <= b < L ==> in_range(#[trigger] mat@[a].vec@[b].coeffs@, 0, Q as int),
                forall|b: int| 0 <= b < j ==> in_range(#[trigger] mat@[i as int].vec@[b].coeffs@, 0, Q as int),
                forall|a: int, b: int| 0 <= a < i && 0 <= b < L ==>
                    #[trigger] mat@[a].vec@[b].coeffs@ == uniform_poly(rho@.take(SEEDBYTES as int), (256 * a + b) as u16),
                forall|b: int| 0 <= b < j ==>
                    #[trigger] mat@[i as int].vec@[b].coeffs@ == uniform_poly(rho@.take(SEEDBYTES as int), (256 * i + b) as u16),
            decreases L - j,
        {
            poly_uniform(&mut mat[i].vec[j], rho, (256 * i + j) as u16);
            j = j + 1;
        }
        i = i + 1;
    }
    assert forall|i: int, j: int| 0 <= i < K && 0 <= j < L implies abs_lt(#[trigger] mat@[i].vec@[j].coeffs@, Q as int) by {
        assert(in_range(mat@[i].vec@[j].coeffs@, 0, Q as int));
    }
}

/// `t[i] = sum_j mat[i][j] * v[j]` in the transform domain, times `2^-32`.
pub fn polyvec_matrix_pointwise_montgomery(t: &mut Polyveck, mat: &[Polyvecl; K], v: &Polyvecl)
    requires
        forall|i: int, j: int| 0 <= i < K && 0 <= j < L ==> abs_lt(#[trigger] mat@[i].vec@[j].coeffs@, 9 * Q as int),
        forall|k: int| 0 <= k < L ==> abs_lt(#[trigger] v.vec@[k].coeffs@, 9 * Q as int),
    ensures
        forall|k: int| 0 <= k < K ==> #[trigger] final(t).vec@[k].coeffs@ == acc_seq(vecl_view(mat@[k]), vecl_view(*v), L as int),
        forall|k: int| 0 <= k < K ==> abs_lt(#[trigger] final(t).vec@[k].coeffs@, L * Q as int),
{
    let mut i: usize = 0;
    while i < K
        invariant
            i <= K,
            forall|a: int, b: int| 0 <= a < K && 0 <= b < L ==> abs_lt(#[trigger] mat@[a].vec@[b].coeffs@, 9 * Q as int),
            forall|k: int| 0 <= k < L ==> abs_lt(#[trigger] v.vec@[k].coeffs@, 9 * Q as int),
            forall|k: int| 0 <= k < i ==> #[trigger] t.vec@[k].coeffs@ == acc_seq(vecl_view(mat@[k]), vecl_view(*v), L as int),
            forall|k: int| 0 <= k < i ==> abs_lt(#[trigger] t.vec@[k].coeffs@, L * Q as int),
        decreases K - i,
    {
        assert(forall|b: int| 0 <= b < L ==> abs_lt(#[trigger] mat@[i as int].vec@[b].coeffs@, 9 * Q as int));
        polyvecl_pointwise_acc_montgomery(&mut t.vec[i], &mat[i], v);
        i = i + 1;
    }
}

/// Every coefficient of every polynomial of `v` lies in `[lo, hi)`.
pub open spec fn veck_in(v: Polyveck, lo: int, hi: int) -> bool {
    forall|k: int| 0 <= k < K ==> in_range(#[trigger] v.vec@[k].coeffs@, lo, hi)
}

/// Every coefficient of every polynomial of `v` lies in `[lo, hi)`.
pub open spec fn vecl_in(v: Polyvecl, lo: int, hi: int) -> bool {
    forall|k: int| 0 <= k < L ==> in_range(#[trigger] v.vec@[k].coeffs@, lo, hi)
}

/// Every coefficient of every polynomial of `v` is smaller than `b` in
/// absolute value.
pub open spec fn veck_abs(v: Polyveck, b: int) -> bool {
    forall|k: int| 0 <= k < K ==> abs_lt(#[trigger] v.vec@[k].coeffs@, b)
}

/// Every coefficient of every polynomial of `v` is smaller than `b` in
/// absolute value.
pub open spec fn vecl_abs(v: Polyvecl, b: int) -> bool {
    forall|k: int| 0 <= k < L ==> abs_lt(#[trigger] v.vec@[k].coeffs@, b)
}

/// Coefficients in `[lo, hi)`, inside `(-b, b)`, are smaller than `b` in
/// absolute value.
pub proof fn lemma_in_to_abs(s: Seq<i32>, lo: int, hi: int, b: int)
    requires
        in_range(s, lo, hi),
        -b < lo,
        hi <= b,
    ensures
        abs_lt(s, b),
{
    assert forall|i: int| 0 <= i < s.len() implies -b < #[trigger] s[i] < b by {
        assert(lo <= s[i] < hi);
    }
}

/// Coefficients smaller than `b` in absolute value lie in `[lo, hi)` when
/// that range contains `(-b, b)`.
pub proof fn lemma_abs_to_in(s: Seq<i32>, b: int, lo: int, hi: int)
    requires
        abs_lt(s, b),
        lo <= -b + 1,
        b <= hi,
    ensures
        in_range(s, lo, hi),
{
    assert forall|i: int| 0 <= i < s.len() implies lo <= #[trigger] s[i] < hi by {
        assert(-b < s[i] < b);
    }
}

/// `lemma_in_to_abs` for every polynomial of a vector of length `K`.
pub proof fn lemma_veck_in_to_abs(v: Polyveck, lo: int, hi: int, b: int)
    requires
        veck_in(v, lo, hi),
        -b < lo,
        hi <= b,
    ensures
        veck_abs(v, b),
{
    assert forall|k: int| 0 <= k < K implies abs_lt(#[trigger] v.vec@[k].coeffs@, b) by {
        lemma_in_to_abs(v.vec@[k].coeffs@, lo, hi, b);
    }
}

/// `lemma_in_to_abs` for every polynomial of a vector of length `L`.
pub proof fn lemma_vecl_in_to_abs(v: Polyvecl, lo: int, hi: int, b: int)
    requires
        vecl_in(v, lo, hi),
        -b < lo,
        hi <= b,
    ensures
        vecl_abs(v, b),
{
    assert forall|k: int| 0 <= k < L implies abs_lt(#[trigger] v.vec@[k].coeffs@, b) by {
        lemma_in_to_abs(v.vec@[k].coeffs@, lo, hi, b);
    }
}

/// `lemma_abs_to_in` for every polynomial of a vector of length `K`.
pub proof fn lemma_veck_abs_to_in(v: Polyveck, b: int, lo: int, hi: int)
    requires
        veck_abs(v, b),
        lo <= -b + 1,
        b <= hi,
    ensures
        veck_in(v, lo, hi),
{
    assert forall|k: int| 0 <= k < K implies in_range(#[trigger] v.vec@[k].coeffs@, lo, hi) by {
        lemma_abs_to_in(v.vec@[k].coeffs@, b, lo, hi);
    }
}

/// `lemma_abs_to_in` for every polynomial of a vector of length `L`.
pub proof fn lemma_vecl_abs_to_in(v: Polyvecl, b: int, lo: int, hi: int)
    requires
        vecl_abs(v, b),
        lo <= -b + 1,
        b <= hi,
    ensures
        vecl_in(v, lo, hi),
{
    assert forall|k: int| 0 <= k < L implies in_range(#[trigger] v.vec@[k].coeffs@, lo, hi) by {
        lemma_abs_to_in(v.vec@[k].coeffs@, b, lo, hi);
    }
}

/// After adding `Q` to the negative coefficients of a vector in `[lo, hi)`
/// (with `-2 * Q <= lo <= 0` and `Q <= hi`), the coefficients lie in
/// `[min(lo + Q, 0), hi)`.
pub proof fn lemma_veck_caddq_range(old_v: Polyveck, v: Polyveck, lo: int, hi: int)
    requires
        veck_in(old_v, lo, hi),
        forall|k: int| 0 <= k < K ==> #[trigger] v.vec@[k].coeffs@ == caddq_seq(old_v.vec@[k].coeffs@),
        -2 * Q <= lo <= 0,
        Q <= hi,
    ensures
        veck_in(v, if lo + Q < 0 { lo + Q } else { 0 }, hi),
{
    let m = if lo + Q < 0 { lo + Q } else { 0 };
    assert forall|k: int| 0 <= k < K implies in_range(#[trigger] v.vec@[k].coeffs@, m, hi) by {
        assert(in_range(old_v.vec@[k].coeffs@, lo, hi));
        assert forall|i: int| 0 <= i < v.vec@[k].coeffs@.len() implies m <= #[trigger] v.vec@[k].coeffs@[i] < hi by {
            assert(lo <= old_v.vec@[k].coeffs@[i] < hi);
        }
    }
}

/// A vector that passed the norm check with bound `b` has every
/// coefficient smaller than `b` in absolute value.
pub proof fn lemma_vecl_norm_ok(v: Polyvecl, b: int)
    requires
        !(exists|k: int| 0 <= k < L && norm_exceeds(#[trigger] v.vec@[k].coeffs@, b)),
    ensures
        vecl_abs(v, b),
{
    assert forall|k: int| 0 <= k < L implies abs_lt(#[trigger] v.vec@[k].coeffs@, b) by {
        assert(!norm_exceeds(v.vec@[k].coeffs@, b));
        assert forall|i: int| 0 <= i < v.vec@[k].coeffs@.len() implies -b < #[trigger] v.vec@[k].coeffs@[i] < b by {
            assert(crate::poly::abs(v.vec@[k].coeffs@[i] as int) < b);
        }
    }
}

/// A vector that passed the norm check with bound `b` has every
/// coefficient smaller than `b` in absolute value.
pub proof fn lemma_veck_norm_ok(v: Polyveck, b: int)
    requires
        !(exists|k: int| 0 <= k < K && norm_exceeds(#[trigger] v.vec@[k].coeffs@, b)),
    ensures
        veck_abs(v, b),
{
    assert forall|k: int| 0 <= k < K implies abs_lt(#[trigger] v.vec@[k].coeffs@, b) by {
        assert(!norm_exceeds(v.vec@[k].coeffs@, b));
        assert forall|i: int| 0 <= i < v.vec@[k].coeffs@.len() implies -b < #[trigger] v.vec@[k].coeffs@[i] < b by {
            assert(crate::poly::abs(v.vec@[k].coeffs@[i] as int) < b);
        }
    }
}

} // verus!
