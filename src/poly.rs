use vstd::prelude::*;
use crate::ntt::{abs_lt, invntt_tomont, invntt_tomont_spec, ntt, ntt_spec};
use crate::fips202::{
    lemma_squeeze_blocks_pos, lemma_squeeze_concat, lemma_squeeze_len, padded, shake256_absorb,
    shake256_finalize, shake256_spec, shake256_squeeze, squeeze, KeccakState, SHAKE128_RATE, SHAKE256_RATE,
};
use crate::params::{CRHBYTES, ETA, GAMMA1, GAMMA1_I32, GAMMA2, N, N_U32, Q, Q_I32, SEEDBYTES, TAU};
use crate::symmetric::{
    nonce_bytes, stream128, stream128_init, stream256, stream128_squeezeblocks, stream256_init, stream256_squeezeblocks, Stream128State,
    Stream256State, STREAM128_BLOCKBYTES, STREAM256_BLOCKBYTES,
};
use crate::reduce::{caddq, mont, montgomery_reduce, reduce32, reduce32_spec};
use crate::rounding::{
    decompose, decompose_spec, make_hint, make_hint_spec, power2round, power2round_spec, use_hint,
    use_hint_spec,
};

verus! {

/// An element of the ring: `N` signed coefficients.
#[derive(Copy, Clone)]
pub struct Poly {
    pub coeffs: [i32; N],
}

impl Default for Poly {
    fn default() -> (r: Poly)
        ensures
            forall|i: int| 0 <= i < N ==> #[trigger] r.coeffs@[i] == 0,
    {
        Poly { coeffs: [0i32; N] }
    }
}

/// Every coefficient of `s` lies in `[lo, hi)`.
pub open spec fn in_range(s: Seq<i32>, lo: int, hi: int) -> bool {
    forall|i: int| 0 <= i < s.len() ==> lo <= #[trigger] s[i] < hi
}

/// `reduce32` applied to every coefficient.
pub open spec fn reduce_seq(s: Seq<i32>) -> Seq<i32> {
    Seq::new(N as nat, |i: int| reduce32_spec(s[i] as int) as i32)
}

/// `Q` added to every negative coefficient.
pub open spec fn caddq_seq(s: Seq<i32>) -> Seq<i32> {
    Seq::new(N as nat, |i: int| (if s[i] < 0 { s[i] + Q } else { s[i] as int }) as i32)
}

/// Coefficient-wise sum.
pub open spec fn add_seq(a: Seq<i32>, b: Seq<i32>) -> Seq<i32> {
    Seq::new(N as nat, |i: int| (a[i] + b[i]) as i32)
}

/// Coefficient-wise difference.
pub open spec fn sub_seq(a: Seq<i32>, b: Seq<i32>) -> Seq<i32> {
    Seq::new(N as nat, |i: int| (a[i] - b[i]) as i32)
}

/// Every coefficient times `2^D`.
pub open spec fn shiftl_seq(a: Seq<i32>) -> Seq<i32> {
    Seq::new(N as nat, |i: int| (a[i] * 8192) as i32)
}

/// Coefficient-wise Montgomery product.
pub open spec fn pointwise_seq(a: Seq<i32>, b: Seq<i32>) -> Seq<i32> {
    Seq::new(N as nat, |i: int| mont(a[i] * b[i]) as i32)
}

/// Every coefficient's high part corrected by the hint in `h`.
pub open spec fn use_hint_seq(a: Seq<i32>, h: Seq<i32>) -> Seq<i32> {
    Seq::new(N as nat, |i: int| use_hint_spec(a[i] as int, h[i] != 0) as i32)
}

/// Coefficient-wise reduction to a representative in `[-6283009, 6283008]`.
pub fn poly_reduce(a: &mut Poly)
    requires
        in_range(old(a).coeffs@, i32::MIN as int, 2143289344),
    ensures
        forall|i: int| 0 <= i < N ==> #[trigger] final(a).coeffs@[i] == reduce32_spec(old(a).coeffs@[i] as int),
        in_range(final(a).coeffs@, -6283009, 6283009),
        final(a).coeffs@ == reduce_seq(old(a).coeffs@),
{
    let mut i: usize = 0;
    while i < N
        invariant
            i <= N,
            forall|j: int| 0 <= j < i ==> #[trigger] a.coeffs@[j] == reduce32_spec(old(a).coeffs@[j] as int),
            forall|j: int| 0 <= j < i ==> -6283009 <= #[trigger] a.coeffs@[j] < 6283009,
            forall|j: int| i <= j < N ==> #[trigger] a.coeffs@[j] == old(a).coeffs@[j],
            in_range(old(a).coeffs@, i32::MIN as int, 2143289344),
        decreases N - i,
    {
        a.coeffs[i] = reduce32(a.coeffs[i]);
        i = i + 1;
    }
    assert(a.coeffs@ =~= reduce_seq(old(a).coeffs@));
}

/// Adds `Q` to every negative coefficient.
pub fn poly_caddq(a: &mut Poly)
    requires
        in_range(old(a).coeffs@, -2139103230, 2147483648),
    ensures
        forall|i: int| 0 <= i < N ==> #[trigger] final(a).coeffs@[i] == (if old(a).coeffs@[i] < 0 {
            old(a).coeffs@[i] + Q
        } else {
            old(a).coeffs@[i] as int
        }),
        final(a).coeffs@ == caddq_seq(old(a).coeffs@),
{
    let mut i: usize = 0;
    while i < N
        invariant
            i <= N,
            forall|j: int| 0 <= j < i ==> #[trigger] a.coeffs@[j] == (if old(a).coeffs@[j] < 0 {
                old(a).coeffs@[j] + Q
            } else {
                old(a).coeffs@[j] as int
            }),
            forall|j: int| i <= j < N ==> #[trigger] a.coeffs@[j] == old(a).coeffs@[j],
            in_range(old(a).coeffs@, -2139103230, 2147483648),
        decreases N - i,
    {
        a.coeffs[i] = caddq(a.coeffs[i]);
        i = i + 1;
    }
    assert(a.coeffs@ =~= caddq_seq(old(a).coeffs@));
}

/// The sums of corresponding coefficients all fit in an `i32`.
pub open spec fn add_fits(a: Seq<i32>, b: Seq<i32>) -> bool {
    forall|i: int| 0 <= i < N ==> i32::MIN <= #[trigger] a[i] + b[i] <= i32::MAX
}

/// The differences of corresponding coefficients all fit in an `i32`.
pub open spec fn sub_fits(a: Seq<i32>, b: Seq<i32>) -> bool {
    forall|i: int| 0 <= i < N ==> i32::MIN <= #[trigger] a[i] - b[i] <= i32::MAX
}

/// Adds `b` to `c`, without reduction.
pub fn poly_add(c: &mut Poly, b: &Poly)
    requires
        add_fits(old(c).coeffs@, b.coeffs@),
    ensures
        forall|i: int| 0 <= i < N ==> #[trigger] final(c).coeffs@[i] == old(c).coeffs@[i] + b.coeffs@[i],
        final(c).coeffs@ == add_seq(old(c).coeffs@, b.coeffs@),
{
    let mut i: usize = 0;
    while i < N
        invariant
            i <= N,
            add_fits(old(c).coeffs@, b.coeffs@),
            forall|j: int| 0 <= j < i ==> #[trigger] c.coeffs@[j] == old(c).coeffs@[j] + b.coeffs@[j],
            forall|j: int| i <= j < N ==> #[trigger] c.coeffs@[j] == old(c).coeffs@[j],
        decreases N - i,
    {
        assert(i32::MIN <= old(c).coeffs@[i as int] + b.coeffs@[i as int] <= i32::MAX);
        c.coeffs[i] = c.coeffs[i] + b.coeffs[i];
        i = i + 1;
    }
    assert(c.coeffs@ =~= add_seq(old(c).coeffs@, b.coeffs@));
}

/// Subtracts `b` from `c`, without reduction.
pub fn poly_sub(c: &mut Poly, b: &Poly)
    requires
        sub_fits(old(c).coeffs@, b.coeffs@),
    ensures
        forall|i: int| 0 <= i < N ==> #[trigger] final(c).coeffs@[i] == old(c).coeffs@[i] - b.coeffs@[i],
        final(c).coeffs@ == sub_seq(old(c).coeffs@, b.coeffs@),
{
    let mut i: usize = 0;
    while i < N
        invariant
            i <= N,
            sub_fits(old(c).coeffs@, b.coeffs@),
            forall|j: int| 0 <= j < i ==> #[trigger] c.coeffs@[j] == old(c).coeffs@[j] - b.coeffs@[j],
            forall|j: int| i <= j < N ==> #[trigger] c.coeffs@[j] == old(c).coeffs@[j],
        decreases N - i,
    {
        assert(i32::MIN <= old(c).coeffs@[i as int] - b.coeffs@[i as int] <= i32::MAX);
        c.coeffs[i] = c.coeffs[i] - b.coeffs[i];
        i = i + 1;
    }
    assert(c.coeffs@ =~= sub_seq(old(c).coeffs@, b.coeffs@));
}

/// Multiplies every coefficient by `2^D`, without reduction.
pub fn poly_shiftl(a: &mut Poly)
    requires
        abs_lt(old(a).coeffs@, 262144),
    ensures
        forall|i: int| 0 <= i < N ==> #[trigger] final(a).coeffs@[i] == old(a).coeffs@[i] * 8192,
        final(a).coeffs@ == shiftl_seq(old(a).coeffs@),
{
    let mut i: usize = 0;
    while i < N
        invariant
            i <= N,
            abs_lt(old(a).coeffs@, 262144),
            forall|j: int| 0 <= j < i ==> #[trigger] a.coeffs@[j] == old(a).coeffs@[j] * 8192,
            forall|j: int| i <= j < N ==> #[trigger] a.coeffs@[j] == old(a).coeffs@[j],
        decreases N - i,
    {
        assert(-262144 < a.coeffs@[i as int] < 262144);
        a.coeffs[i] = a.coeffs[i] * 8192;
        i = i + 1;
    }
    assert(a.coeffs@ =~= shiftl_seq(old(a).coeffs@));
}

/// In-place forward transform. Output coefficients can be up to `8 * Q`
/// larger than input coefficients.
pub fn poly_ntt(a: &mut Poly)
    requires
        abs_lt(old(a).coeffs@, Q as int),
    ensures
        final(a).coeffs@ == ntt_spec(old(a).coeffs@),
        abs_lt(final(a).coeffs@, 9 * Q as int),
{
    ntt(&mut a.coeffs);
}

/// In-place inverse transform and multiplication by `2^32`.
pub fn poly_invntt_tomont(a: &mut Poly)
    requires
        abs_lt(old(a).coeffs@, Q as int),
    ensures
        final(a).coeffs@ == invntt_tomont_spec(old(a).coeffs@),
        abs_lt(final(a).coeffs@, Q as int),
{
    invntt_tomont(&mut a.coeffs);
}

/// Pointwise product in the transform domain, times `2^-32`.
pub fn poly_pointwise_montgomery(c: &mut Poly, a: &Poly, b: &Poly)
    requires
        abs_lt(a.coeffs@, 9 * Q as int),
        abs_lt(b.coeffs@, 9 * Q as int),
    ensures
        forall|i: int| 0 <= i < N ==> #[trigger] final(c).coeffs@[i] == mont(a.coeffs@[i] * b.coeffs@[i]),
        abs_lt(final(c).coeffs@, Q as int),
        final(c).coeffs@ == pointwise_seq(a.coeffs@, b.coeffs@),
{
    let mut i: usize = 0;
    while i < N
        invariant
            i <= N,
            abs_lt(a.coeffs@, 9 * Q as int),
            abs_lt(b.coeffs@, 9 * Q as int),
            forall|j: int| 0 <= j < i ==> #[trigger] c.coeffs@[j] == mont(a.coeffs@[j] * b.coeffs@[j]),
            forall|j: int| 0 <= j < i ==> -Q < #[trigger] c.coeffs@[j] < Q,
        decreases N - i,
    {
        let x: i32 = a.coeffs[i];
        let y: i32 = b.coeffs[i];
        assert(-(2147483648 * (Q as int)) < (x as int) * (y as int) < 2147483648 * (Q as int)) by (nonlinear_arith)
            requires
                -(9 * Q as int) < x < 9 * Q as int,
                -(9 * Q as int) < y < 9 * Q as int,
        ;
        c.coeffs[i] = montgomery_reduce((x as i64) * (y as i64));
        i = i + 1;
    }
    assert(c.coeffs@ =~= pointwise_seq(a.coeffs@, b.coeffs@));
}

/// Replaces every coefficient by its high part corrected by the hint `h`.
pub fn poly_use_hint(b: &mut Poly, h: &Poly)
    requires
        in_range(old(b).coeffs@, 0, Q as int),
        in_range(h.coeffs@, 0, 2),
    ensures
        forall|i: int| 0 <= i < N ==> #[trigger] final(b).coeffs@[i] == use_hint_spec(old(b).coeffs@[i] as int, h.coeffs@[i] != 0),
        in_range(final(b).coeffs@, 0, 16),
        final(b).coeffs@ == use_hint_seq(old(b).coeffs@, h.coeffs@),
{
    let mut i: usize = 0;
    while i < N
        invariant
            i <= N,
            in_range(old(b).coeffs@, 0, Q as int),
            in_range(h.coeffs@, 0, 2),
            forall|j: int| 0 <= j < i ==> #[trigger] b.coeffs@[j] == use_hint_spec(old(b).coeffs@[j] as int, h.coeffs@[j] != 0),
            forall|j: int| 0 <= j < i ==> 0 <= #[trigger] b.coeffs@[j] < 16,
            forall|j: int| i <= j < N ==> #[trigger] b.coeffs@[j] == old(b).coeffs@[j],
        decreases N - i,
    {
        let hv: i32 = h.coeffs[i];
        b.coeffs[i] = use_hint(b.coeffs[i], hv as u8);
        i = i + 1;
    }
    assert(b.coeffs@ =~= use_hint_seq(old(b).coeffs@, h.coeffs@));
}

/// Absolute value.
pub open spec fn abs(x: int) -> int {
    if x < 0 { -x } else { x }
}

/// Whether the infinity norm check fails: the bound exceeds `(Q - 1) / 8`,
/// or some coefficient's absolute value reaches it.
pub open spec fn norm_exceeds(s: Seq<i32>, b: int) -> bool {
    b > (Q - 1) / 8 || exists|i: int| 0 <= i < N && abs(#[trigger] s[i] as int) >= b
}

/// Checks the infinity norm of `a` against the bound `b`: 0 if every
/// coefficient is strictly smaller than `b` in absolute value, 1 otherwise.
/// A bound above `(Q - 1) / 8` always gives 1.
pub fn poly_chknorm(a: &Poly, b: i32) -> (r: u8)
    requires
        abs_lt(a.coeffs@, 1073741824),
    ensures
        r == (if norm_exceeds(a.coeffs@, b as int) { 1u8 } else { 0u8 }),
{
    if b > (Q_I32 - 1) / 8 {
        return 1;
    }
    let mut i: usize = 0;
    while i < N
        invariant
            i <= N,
            b <= (Q - 1) / 8,
            abs_lt(a.coeffs@, 1073741824),
            forall|j: int| 0 <= j < i ==> abs(#[trigger] a.coeffs@[j] as int) < b,
        decreases N - i,
    {
        let x: i32 = a.coeffs[i];
        let s: i32 = x >> 31u32;
        assert(-1073741824 < x < 1073741824);
        let x2: i32 = 2 * x;
        assert((x >= 0 ==> (s & x2) == 0i32) && (x < 0 ==> (s & x2) == x2)) by (bit_vector)
            requires
                s == x >> 31u32,
        ;
        let t: i32 = x - (s & x2);
        if t >= b {
            assert(abs(a.coeffs@[i as int] as int) >= b);
            return 1;
        }
        i = i + 1;
    }
    assert(!norm_exceeds(a.coeffs@, b as int));
    0
}

/// The 23-bit little-endian value of 3-byte chunk `c` of `buf` (top bit of
/// the third byte dropped).
pub open spec fn chunk23(buf: Seq<u8>, c: int) -> int {
    buf[3 * c] as int + 256 * (buf[3 * c + 1] as int) + 65536 * ((buf[3 * c + 2] as int) % 128)
}

/// The values below `Q` among the first `m` chunks of `buf`, in order.
pub open spec fn uniform_accept(buf: Seq<u8>, m: nat) -> Seq<i32>
    decreases m,
{
    if m == 0 {
        Seq::empty()
    } else {
        let p = uniform_accept(buf, (m - 1) as nat);
        let t = chunk23(buf, m - 1);
        if t < Q { p.push(t as i32) } else { p }
    }
}

/// Accepting over fewer chunks gives a prefix.
pub proof fn lemma_uniform_accept_prefix(buf: Seq<u8>, m: nat, m2: nat)
    requires
        m <= m2,
    ensures
        uniform_accept(buf, m).len() <= uniform_accept(buf, m2).len(),
        uniform_accept(buf, m2).take(uniform_accept(buf, m).len() as int) == uniform_accept(buf, m),
    decreases m2,
{
    if m < m2 {
        lemma_uniform_accept_prefix(buf, m, (m2 - 1) as nat);
        let p = uniform_accept(buf, (m2 - 1) as nat);
        let k = uniform_accept(buf, m).len() as int;
        if chunk23(buf, m2 - 1) < Q {
            assert(p.push(chunk23(buf, m2 - 1) as i32).take(k) =~= p.take(k));
        }
    } else {
        assert(uniform_accept(buf, m2).take(uniform_accept(buf, m).len() as int) =~= uniform_accept(buf, m));
    }
}

/// Accepting from `a + b`, with `a` a whole number of chunks, is accepting
/// from `a` and then from `b`.
pub proof fn lemma_uniform_accept_concat(a: Seq<u8>, b: Seq<u8>, m: nat)
    requires
        a.len() % 3 == 0,
        3 * m <= b.len(),
    ensures
        uniform_accept(a + b, (a.len() / 3 + m) as nat) == uniform_accept(a, (a.len() / 3) as nat) + uniform_accept(b, m),
    decreases m,
{
    let ma = (a.len() / 3) as nat;
    if m == 0 {
        lemma_uniform_accept_frame(a + b, a, ma);
        assert(uniform_accept(a, ma) + Seq::<i32>::empty() =~= uniform_accept(a, ma));
    } else {
        lemma_uniform_accept_concat(a, b, (m - 1) as nat);
        assert((ma + m - 1) as nat == (ma + (m - 1)) as nat);
        assert(chunk23(a + b, ma + m - 1) == chunk23(b, m - 1)) by {
            assert((a + b)[3 * (ma + m - 1)] == b[3 * (m - 1)]);
            assert((a + b)[3 * (ma + m - 1) + 1] == b[3 * (m - 1) + 1]);
            assert((a + b)[3 * (ma + m - 1) + 2] == b[3 * (m - 1) + 2]);
        }
        let p = uniform_accept(a, ma);
        let q = uniform_accept(b, (m - 1) as nat);
        if chunk23(b, m - 1) < Q {
            assert((p + q).push(chunk23(b, m - 1) as i32) =~= p + q.push(chunk23(b, m - 1) as i32));
        }
    }
}

/// Accepting over the first `m` chunks reads only the first `3 * m` bytes.
pub proof fn lemma_uniform_accept_frame(x: Seq<u8>, y: Seq<u8>, m: nat)
    requires
        3 * m <= x.len(),
        3 * m <= y.len(),
        forall|t: int| 0 <= t < 3 * m ==> x[t] == y[t],
    ensures
        uniform_accept(x, m) == uniform_accept(y, m),
    decreases m,
{
    if m > 0 {
        lemma_uniform_accept_frame(x, y, (m - 1) as nat);
        assert(x[3 * (m - 1)] == y[3 * (m - 1)]);
        assert(x[3 * (m - 1) + 1] == y[3 * (m - 1) + 1]);
        assert(x[3 * (m - 1) + 2] == y[3 * (m - 1) + 2]);
    }
}

/// Every accepted value lies in `[0, Q)`.
pub proof fn lemma_uniform_accept_range(buf: Seq<u8>, m: nat)
    ensures
        in_range(uniform_accept(buf, m), 0, Q as int),
    decreases m,
{
    if m > 0 {
        lemma_uniform_accept_range(buf, (m - 1) as nat);
    }
}

/// Rejection sampling of values in `[0, Q)` from the 3-byte chunks of the
/// first `buflen` bytes of `buf`, written to `a[off..]`. Returns how many
/// were written: at most `len`, fewer if the bytes run out.
pub fn rej_uniform(a: &mut [i32], off: usize, len: u32, buf: &[u8], buflen: usize) -> (ctr: u32)
    requires
        buflen <= buf@.len(),
        off + len <= old(a)@.len(),
        off + len <= usize::MAX,
    ensures
        final(a)@.len() == old(a)@.len(),
        ctr as int == vstd::math::min(len as int, uniform_accept(buf@, (buflen / 3) as nat).len() as int),
        final(a)@.subrange(off as int, off + ctr) == uniform_accept(buf@, (buflen / 3) as nat).take(ctr as int),
        forall|j: int| off <= j < off + ctr ==> 0 <= #[trigger] final(a)@[j] < Q,
        forall|j: int| 0 <= j < old(a)@.len() && !(off <= j < off + ctr) ==> #[trigger] final(a)@[j] == old(a)@[j],
{
    let mut ctr: usize = 0;
    let mut pos: usize = 0;
    let ghost mut m: nat = 0;
    while ctr < len as usize && buflen - pos >= 3
        invariant
            buflen <= buf@.len(),
            off + len <= a@.len(),
            off + len <= usize::MAX,
            a@.len() == old(a)@.len(),
            pos == 3 * m,
            pos <= buflen,
            ctr <= len,
            ctr == uniform_accept(buf@, m).len(),
            a@.subrange(off as int, off + ctr) == uniform_accept(buf@, m),
            forall|j: int| 0 <= j < old(a)@.len() && !(off <= j < off + ctr) ==> #[trigger] a@[j] == old(a)@[j],
        decreases buflen - pos,
    {
        let b0: u8 = buf[pos];
        let b1: u8 = buf[pos + 1];
        let b2: u8 = buf[pos + 2];
        let mut t: u32 = b0 as u32;
        t = t | ((b1 as u32) << 8u32);
        t = t | ((b2 as u32) << 16u32);
        t = t & 0x7FFFFFu32;
        assert(t == b0 as u32 + 256 * (b1 as u32) + 65536 * ((b2 as u32) % 128)) by (bit_vector)
            requires
                t == ((b0 as u32) | ((b1 as u32) << 8u32) | ((b2 as u32) << 16u32)) & 0x7FFFFFu32,
        ;
        assert(t == chunk23(buf@, m as int));
        pos = pos + 3;
        let ghost prev = a@;
        if t < Q as u32 {
            a[off + ctr] = t as i32;
            assert(a@.subrange(off as int, off + ctr + 1) =~= prev.subrange(off as int, off + ctr).push(t as i32));
            ctr = ctr + 1;
        }
        proof {
            m = m + 1;
        }
    }
    proof {
        lemma_uniform_accept_prefix(buf@, m, (buflen / 3) as nat);
        if ctr < len {
            assert(m == buflen / 3);
        }
        assert(uniform_accept(buf@, (buflen / 3) as nat).take(ctr as int) == uniform_accept(buf@, m));
        lemma_uniform_accept_range(buf@, m);
        assert forall|j: int| off <= j < off + ctr implies 0 <= #[trigger] a@[j] < Q by {
            assert(a@[j] == a@.subrange(off as int, off + ctr)[j - off]);
        }
    }
    ctr as u32
}

/// Number of SHAKE128 blocks squeezed first by `poly_uniform`.
pub const POLY_UNIFORM_NBLOCKS: usize = 5;

/// Largest number of further blocks `poly_uniform` and `poly_uniform_eta`
/// squeeze; each block is short of values with negligible probability.
pub const MAX_REFILLS: u32 = 1000;

/// The values that rejection sampling accepts from the first `nbytes`
/// bytes of SHAKE128(`seed` || `nonce`).
pub open spec fn uniform_stream_accept(seed: Seq<u8>, nonce: u16, nbytes: nat) -> Seq<i32> {
    uniform_accept(stream128(seed, nonce, nbytes), nbytes / 3)
}

/// Number of further blocks that uniform sampling squeezes: the fewest with
/// which `N` values are accepted, counting from `r`, and `MAX_REFILLS` where
/// even that many do not suffice.
pub open spec fn uniform_refills(seed: Seq<u8>, nonce: u16, r: nat) -> nat
    decreases MAX_REFILLS - r,
{
    if r >= MAX_REFILLS || uniform_stream_accept(seed, nonce, (840 + 168 * r) as nat).len() >= N {
        r
    } else {
        uniform_refills(seed, nonce, r + 1)
    }
}

/// The polynomial that uniform sampling gives for `seed` and `nonce`: the
/// first `N` values accepted from the stream; where even `MAX_REFILLS`
/// further blocks give fewer, those values followed by zeros.
pub open spec fn uniform_poly(seed: Seq<u8>, nonce: u16) -> Seq<i32> {
    let acc = uniform_stream_accept(seed, nonce, (840 + 168 * uniform_refills(seed, nonce, 0)) as nat);
    if acc.len() >= N {
        acc.take(N as int)
    } else {
        acc + Seq::new((N - acc.len()) as nat, |i: int| 0i32)
    }
}

/// The search for the number of refills ends at `r` when no count from
/// `r0` up to `r` suffices and `r` does.
proof fn lemma_uniform_refills(seed: Seq<u8>, nonce: u16, r0: nat, r: nat)
    requires
        r0 <= r <= MAX_REFILLS,
        forall|x: nat| r0 <= x < r ==> #[trigger] uniform_stream_accept(seed, nonce, (840 + 168 * x) as nat).len() < N,
        r == MAX_REFILLS || uniform_stream_accept(seed, nonce, (840 + 168 * r) as nat).len() >= N,
    ensures
        uniform_refills(seed, nonce, r0) == r,
    decreases r - r0,
{
    if r0 < r {
        assert(uniform_stream_accept(seed, nonce, (840 + 168 * r0) as nat).len() < N);
        lemma_uniform_refills(seed, nonce, r0 + 1, r);
    }
}

/// Samples a polynomial with coefficients in `[0, Q)` by rejection sampling
/// on SHAKE128(`seed` || `nonce`), 3 bytes per candidate; up to 2 unused
/// bytes are carried over when a block is appended. The coefficients are
/// the first `N` values accepted from the stream; should `MAX_REFILLS`
/// further blocks not suffice, the rest stay 0.
pub fn poly_uniform(a: &mut Poly, seed: &[u8], nonce: u16)
    requires
        SEEDBYTES <= seed@.len(),
    ensures
        in_range(final(a).coeffs@, 0, Q as int),
        final(a).coeffs@ == uniform_poly(seed@.take(SEEDBYTES as int), nonce),
{
    let ghost sd = seed@.take(SEEDBYTES as int);
    let ghost pd = padded(SHAKE128_RATE as int, sd + nonce_bytes(nonce));
    let mut buflen: usize = POLY_UNIFORM_NBLOCKS * STREAM128_BLOCKBYTES;
    let mut buf = [0u8; 842];
    let mut state = Stream128State::new();
    stream128_init(&mut state, seed, nonce);
    stream128_squeezeblocks(&mut buf, 0, POLY_UNIFORM_NBLOCKS as u64, &mut state);
    proof {
        lemma_squeeze_len(pd, SHAKE128_RATE as int, SHAKE128_RATE as int, 840);
        lemma_uniform_accept_frame(buf@, stream128(sd, nonce, 840), 280);
    }
    a.coeffs = [0i32; N];
    let mut ctr: u32 = rej_uniform(&mut a.coeffs, 0, N_U32, &buf, buflen);
    let mut refills: u32 = 0;
    let ghost mut r: nat = 0;
    proof {
        assert(a.coeffs@.take(ctr as int) =~= a.coeffs@.subrange(0, ctr as int));
    }
    while ctr < N_U32 && refills < MAX_REFILLS
        invariant
            sd == seed@.take(SEEDBYTES as int),
            pd == padded(SHAKE128_RATE as int, sd + nonce_bytes(nonce)),
            r == refills,
            refills <= MAX_REFILLS,
            ctr <= N,
            buflen % 3 == 0,
            buflen <= 840,
            state.pos == SHAKE128_RATE,
            state.s@ == squeeze(pd, SHAKE128_RATE as int, SHAKE128_RATE as int, (840 + 168 * r) as nat).1,
            forall|x: nat| x < r ==> #[trigger] uniform_stream_accept(sd, nonce, (840 + 168 * x) as nat).len() < N,
            ({
                let acc = uniform_stream_accept(sd, nonce, (840 + 168 * r) as nat);
                &&& ctr <= acc.len()
                &&& a.coeffs@.take(ctr as int) == acc.take(ctr as int)
                &&& ctr < N ==> ctr == acc.len()
            }),
            forall|t: int| ctr <= t < N ==> #[trigger] a.coeffs@[t] == 0,
            in_range(a.coeffs@, 0, Q as int),
        decreases MAX_REFILLS - refills,
    {
        let off: usize = buflen % 3;
        let mut i: usize = 0;
        while i < off
            invariant
                off == 0,
                i <= off,
            decreases off - i,
        {
            buf[i] = buf[buflen - off + i];
            i = i + 1;
        }
        buflen = STREAM128_BLOCKBYTES + off;
        let ghost total = (840 + 168 * r) as nat;
        let ghost acc0 = uniform_stream_accept(sd, nonce, total);
        let ghost s_before = state.s@;
        stream128_squeezeblocks(&mut buf, off, 1, &mut state);
        let ghost o = squeeze(s_before, SHAKE128_RATE as int, SHAKE128_RATE as int, 168).0;
        proof {
            lemma_squeeze_concat(pd, SHAKE128_RATE as int, SHAKE128_RATE as int, total, 168);
            lemma_squeeze_blocks_pos(pd, SHAKE128_RATE as int, (5 + r) as nat);
            assert((5 + r) * 168 == total);
            lemma_squeeze_len(pd, SHAKE128_RATE as int, SHAKE128_RATE as int, total);
            lemma_squeeze_len(s_before, SHAKE128_RATE as int, SHAKE128_RATE as int, 168);
            lemma_uniform_accept_frame(buf@, o, 56);
            assert(total == 3 * (280 + 56 * r));
            assert(total % 3 == 0);
            assert(stream128(sd, nonce, total) == squeeze(pd, SHAKE128_RATE as int, SHAKE128_RATE as int, total).0);
            assert(stream128(sd, nonce, total).len() == total);
            lemma_uniform_accept_concat(stream128(sd, nonce, total), o, 56);
            assert((total + 168) as nat == (840 + 168 * (r + 1)) as nat);
            assert((total + 168) / 3 == total / 3 + 56);
            assert(stream128(sd, nonce, (total + 168) as nat) == stream128(sd, nonce, total) + o);
        }
        let ghost a_before = a.coeffs@;
        let got: u32 = rej_uniform(&mut a.coeffs, ctr as usize, N_U32 - ctr, &buf, buflen);
        proof {
            let acc1 = uniform_stream_accept(sd, nonce, (840 + 168 * (r + 1)) as nat);
            let ob = uniform_accept(o, 56);
            assert(acc1 == acc0 + ob);
            assert(a.coeffs@.take((ctr + got) as int) =~= acc1.take((ctr + got) as int)) by {
                assert forall|t: int| 0 <= t < ctr + got implies a.coeffs@[t] == acc1[t] by {
                    if t < ctr {
                        assert(a.coeffs@[t] == a_before[t]);
                        assert(a_before.take(ctr as int)[t] == acc0.take(ctr as int)[t]);
                    } else {
                        assert(a.coeffs@[t] == a.coeffs@.subrange(ctr as int, ctr + got)[t - ctr]);
                    }
                }
            }
            assert(acc0.len() < N);
            r = r + 1;
        }
        ctr = ctr + got;
        refills = refills + 1;
    }
    proof {
        let acc = uniform_stream_accept(sd, nonce, (840 + 168 * r) as nat);
        if acc.len() >= N {
            assert(ctr == N);
            assert(a.coeffs@ =~= a.coeffs@.take(N as int));
        }
        if acc.len() < N {
            assert(ctr as int == acc.len());
            assert(acc.take(ctr as int) =~= acc);
        }
        lemma_uniform_refills(sd, nonce, 0, r);
        if acc.len() < N {
            assert(a.coeffs@ =~= acc + Seq::new((N - acc.len()) as nat, |i: int| 0i32));
        }
    }
}

/// Number of SHAKE256 blocks squeezed first by `poly_uniform_eta`.
pub const POLY_UNIFORM_ETA_NBLOCKS: usize = 2;

/// The values in `[-ETA, ETA]` accepted from the first `m` bytes of `buf`:
/// each byte gives its low half, then its high half; a half `t < 9` gives
/// `ETA - t`, a larger one is rejected.
pub open spec fn eta_accept(buf: Seq<u8>, m: nat) -> Seq<i32>
    decreases m,
{
    if m == 0 {
        Seq::empty()
    } else {
        let p = eta_accept(buf, (m - 1) as nat);
        let t0 = (buf[m - 1] % 16) as int;
        let t1 = (buf[m - 1] / 16) as int;
        let p0 = if t0 < 9 { p.push((ETA - t0) as i32) } else { p };
        if t1 < 9 { p0.push((ETA - t1) as i32) } else { p0 }
    }
}

/// Accepting over fewer bytes gives a prefix.
pub proof fn lemma_eta_accept_prefix(buf: Seq<u8>, m: nat, m2: nat)
    requires
        m <= m2,
    ensures
        eta_accept(buf, m).len() <= eta_accept(buf, m2).len(),
        eta_accept(buf, m2).take(eta_accept(buf, m).len() as int) == eta_accept(buf, m),
    decreases m2,
{
    if m < m2 {
        lemma_eta_accept_prefix(buf, m, (m2 - 1) as nat);
        let p = eta_accept(buf, (m2 - 1) as nat);
        let k = eta_accept(buf, m).len() as int;
        let t0 = (buf[m2 - 1] % 16) as int;
        let t1 = (buf[m2 - 1] / 16) as int;
        let p0 = if t0 < 9 { p.push((ETA - t0) as i32) } else { p };
        assert(p0.take(k) =~= p.take(k));
        if t1 < 9 {
            assert(p0.push((ETA - t1) as i32).take(k) =~= p0.take(k));
        }
    } else {
        assert(eta_accept(buf, m2).take(eta_accept(buf, m).len() as int) =~= eta_accept(buf, m));
    }
}

/// Every accepted value lies in `[-ETA, ETA]`.
pub proof fn lemma_eta_accept_range(buf: Seq<u8>, m: nat)
    ensures
        in_range(eta_accept(buf, m), -ETA as int, ETA + 1),
    decreases m,
{
    if m > 0 {
        lemma_eta_accept_range(buf, (m - 1) as nat);
    }
}

/// Rejection sampling of values in `[-ETA, ETA]` from the half-bytes of the
/// first `buflen` bytes of `buf`, written to `a[off..]`. Returns how many
/// were written: at most `len`, fewer if the bytes run out.
pub fn rej_eta(a: &mut [i32], off: usize, len: u32, buf: &[u8], buflen: usize) -> (ctr: u32)
    requires
        buflen <= buf@.len(),
        off + len <= old(a)@.len(),
        off + len <= usize::MAX,
    ensures
        final(a)@.len() == old(a)@.len(),
        ctr as int == vstd::math::min(len as int, eta_accept(buf@, buflen as nat).len() as int),
        final(a)@.subrange(off as int, off + ctr) == eta_accept(buf@, buflen as nat).take(ctr as int),
        forall|j: int| off <= j < off + ctr ==> -ETA <= #[trigger] final(a)@[j] <= ETA,
        forall|j: int| 0 <= j < old(a)@.len() && !(off <= j < off + ctr) ==> #[trigger] final(a)@[j] == old(a)@[j],
{
    let mut ctr: usize = 0;
    let mut pos: usize = 0;
    while ctr < len as usize && pos < buflen
        invariant
            buflen <= buf@.len(),
            off + len <= a@.len(),
            off + len <= usize::MAX,
            a@.len() == old(a)@.len(),
            ctr <= len,
            pos <= buflen,
            ctr <= eta_accept(buf@, pos as nat).len(),
            ctr < len ==> ctr == eta_accept(buf@, pos as nat).len(),
            a@.subrange(off as int, off + ctr) == eta_accept(buf@, pos as nat).take(ctr as int),
            forall|j: int| 0 <= j < old(a)@.len() && !(off <= j < off + ctr) ==> #[trigger] a@[j] == old(a)@[j],
        decreases buflen - pos,
    {
        let byte: u8 = buf[pos];
        let t0: u32 = (byte & 0x0F) as u32;
        let t1: u32 = (byte >> 4u8) as u32;
        assert(t0 == byte % 16 && t1 == byte / 16) by (bit_vector)
            requires
                t0 == (byte & 0x0Fu8) as u32,
                t1 == (byte >> 4u8) as u32,
        ;
        let ghost p = eta_accept(buf@, pos as nat);
        let ghost p0 = if t0 < 9 { p.push((ETA - t0) as i32) } else { p };
        pos = pos + 1;
        assert(buf@[pos - 1] == byte);
        if t0 < 9 {
            let ghost prev = a@;
            a[off + ctr] = 4 - t0 as i32;
            assert(a@.subrange(off as int, off + ctr + 1) =~= prev.subrange(off as int, off + ctr).push((4 - t0) as i32));
            assert(p.take(ctr as int).push((4 - t0) as i32) =~= p0.take(ctr + 1));
            ctr = ctr + 1;
        } else {
            assert(p.take(ctr as int) =~= p0.take(ctr as int));
        }
        if t1 < 9 && ctr < len as usize {
            let ghost prev = a@;
            a[off + ctr] = 4 - t1 as i32;
            assert(a@.subrange(off as int, off + ctr + 1) =~= prev.subrange(off as int, off + ctr).push((4 - t1) as i32));
            assert(p0.take(ctr as int).push((4 - t1) as i32) =~= p0.push((4 - t1) as i32).take(ctr + 1));
            ctr = ctr + 1;
        } else if t1 < 9 {
            assert(p0.take(ctr as int) =~= p0.push((4 - t1) as i32).take(ctr as int));
        }
    }
    proof {
        lemma_eta_accept_prefix(buf@, pos as nat, buflen as nat);
        if ctr < len {
            assert(pos == buflen);
        }
        let full = eta_accept(buf@, buflen as nat);
        let part = eta_accept(buf@, pos as nat);
        assert(full.take(ctr as int) =~= part.take(ctr as int));
        lemma_eta_accept_range(buf@, pos as nat);
        assert forall|j: int| off <= j < off + ctr implies -ETA <= #[trigger] a@[j] <= ETA by {
            assert(a@[j] == a@.subrange(off as int, off + ctr)[j - off]);
            assert(part.take(ctr as int)[j - off] == part[j - off]);
        }
    }
    ctr as u32
}

/// Accepting from `a + b` is accepting from `a` and then from `b`.
pub proof fn lemma_eta_accept_concat(a: Seq<u8>, b: Seq<u8>, m: nat)
    requires
        m <= b.len(),
    ensures
        eta_accept(a + b, (a.len() + m) as nat) == eta_accept(a, a.len() as nat) + eta_accept(b, m),
    decreases m,
{
    if m == 0 {
        lemma_eta_accept_frame(a + b, a, a.len() as nat);
        assert(eta_accept(a, a.len() as nat) + Seq::<i32>::empty() =~= eta_accept(a, a.len() as nat));
    } else {
        lemma_eta_accept_concat(a, b, (m - 1) as nat);
        assert((a.len() + m - 1) as nat == (a.len() + (m - 1)) as nat);
        assert((a + b)[a.len() + m - 1] == b[m - 1]);
        let p = eta_accept(a, a.len() as nat);
        let q = eta_accept(b, (m - 1) as nat);
        let t0 = (b[m - 1] % 16) as int;
        let t1 = (b[m - 1] / 16) as int;
        let q0 = if t0 < 9 { q.push((ETA - t0) as i32) } else { q };
        assert((if t0 < 9 { (p + q).push((ETA - t0) as i32) } else { p + q }) =~= p + q0);
        if t1 < 9 {
            assert((p + q0).push((ETA - t1) as i32) =~= p + q0.push((ETA - t1) as i32));
        }
    }
}

/// Accepting over the first `m` bytes reads only those bytes.
pub proof fn lemma_eta_accept_frame(x: Seq<u8>, y: Seq<u8>, m: nat)
    requires
        m <= x.len(),
        m <= y.len(),
        forall|t: int| 0 <= t < m ==> x[t] == y[t],
    ensures
        eta_accept(x, m) == eta_accept(y, m),
    decreases m,
{
    if m > 0 {
        lemma_eta_accept_frame(x, y, (m - 1) as nat);
        assert(x[m - 1] == y[m - 1]);
    }
}

/// The values that `rej_eta` accepts from the first `nbytes` bytes of
/// SHAKE256(`seed` || `nonce`).
pub open spec fn eta_stream_accept(seed: Seq<u8>, nonce: u16, nbytes: nat) -> Seq<i32> {
    eta_accept(stream256(seed, nonce, nbytes), nbytes)
}

/// Number of further blocks that eta sampling squeezes: the fewest with
/// which `N` values are accepted, counting from `r`, and `MAX_REFILLS` where
/// even that many do not suffice.
pub open spec fn eta_refills(seed: Seq<u8>, nonce: u16, r: nat) -> nat
    decreases MAX_REFILLS - r,
{
    if r >= MAX_REFILLS || eta_stream_accept(seed, nonce, (272 + 136 * r) as nat).len() >= N {
        r
    } else {
        eta_refills(seed, nonce, r + 1)
    }
}

/// The polynomial that eta sampling gives for `seed` and `nonce`: the
/// first `N` values accepted from the stream; where even `MAX_REFILLS`
/// further blocks give fewer, those values followed by zeros.
pub open spec fn eta_poly(seed: Seq<u8>, nonce: u16) -> Seq<i32> {
    let acc = eta_stream_accept(seed, nonce, (272 + 136 * eta_refills(seed, nonce, 0)) as nat);
    if acc.len() >= N {
        acc.take(N as int)
    } else {
        acc + Seq::new((N - acc.len()) as nat, |i: int| 0i32)
    }
}

/// The search for the number of refills ends at `r` when no count from
/// `r0` up to `r` suffices and `r` does.
proof fn lemma_eta_refills(seed: Seq<u8>, nonce: u16, r0: nat, r: nat)
    requires
        r0 <= r <= MAX_REFILLS,
        forall|x: nat| r0 <= x < r ==> #[trigger] eta_stream_accept(seed, nonce, (272 + 136 * x) as nat).len() < N,
        r == MAX_REFILLS || eta_stream_accept(seed, nonce, (272 + 136 * r) as nat).len() >= N,
    ensures
        eta_refills(seed, nonce, r0) == r,
    decreases r - r0,
{
    if r0 < r {
        assert(eta_stream_accept(seed, nonce, (272 + 136 * r0) as nat).len() < N);
        lemma_eta_refills(seed, nonce, r0 + 1, r);
    }
}

/// Samples a polynomial with coefficients in `[-ETA, ETA]` by rejection
/// sampling on SHAKE256(`seed` || `nonce`): the first `N` values that
/// `rej_eta` accepts from the stream.
pub fn poly_uniform_eta(a: &mut Poly, seed: &[u8], nonce: u16)
    requires
        CRHBYTES <= seed@.len(),
    ensures
        in_range(final(a).coeffs@, -ETA as int, ETA + 1),
        final(a).coeffs@ == eta_poly(seed@.take(CRHBYTES as int), nonce),
{
    let ghost sd = seed@.take(CRHBYTES as int);
    let ghost pd = padded(SHAKE256_RATE as int, sd + nonce_bytes(nonce));
    let buflen: usize = POLY_UNIFORM_ETA_NBLOCKS * STREAM256_BLOCKBYTES;
    let mut buf = [0u8; 272];
    let mut state = Stream256State::new();
    stream256_init(&mut state, seed, nonce);
    stream256_squeezeblocks(&mut buf, 0, POLY_UNIFORM_ETA_NBLOCKS as u64, &mut state);
    proof {
        lemma_squeeze_len(pd, SHAKE256_RATE as int, SHAKE256_RATE as int, 272);
        assert(buf@ =~= buf@.subrange(0, 272));
    }
    a.coeffs = [0i32; N];
    let mut ctr: u32 = rej_eta(&mut a.coeffs, 0, N_U32, &buf, buflen);
    let mut refills: u32 = 0;
    let ghost mut r: nat = 0;
    proof {
        assert(a.coeffs@.take(ctr as int) =~= a.coeffs@.subrange(0, ctr as int));
    }
    while ctr < N_U32 && refills < MAX_REFILLS
        invariant
            sd == seed@.take(CRHBYTES as int),
            pd == padded(SHAKE256_RATE as int, sd + nonce_bytes(nonce)),
            r == refills,
            refills <= MAX_REFILLS,
            ctr <= N,
            state.pos == SHAKE256_RATE,
            state.s@ == squeeze(pd, SHAKE256_RATE as int, SHAKE256_RATE as int, (272 + 136 * r) as nat).1,
            forall|x: nat| x < r ==> #[trigger] eta_stream_accept(sd, nonce, (272 + 136 * x) as nat).len() < N,
            ({
                let acc = eta_stream_accept(sd, nonce, (272 + 136 * r) as nat);
                &&& ctr <= acc.len()
                &&& a.coeffs@.take(ctr as int) == acc.take(ctr as int)
                &&& ctr < N ==> ctr == acc.len()
            }),
            forall|t: int| ctr <= t < N ==> #[trigger] a.coeffs@[t] == 0,
            in_range(a.coeffs@, -ETA as int, ETA + 1),
        decreases MAX_REFILLS - refills,
    {
        let ghost total = (272 + 136 * r) as nat;
        let ghost acc0 = eta_stream_accept(sd, nonce, total);
        let ghost s_before = state.s@;
        stream256_squeezeblocks(&mut buf, 0, 1, &mut state);
        let ghost o = squeeze(s_before, SHAKE256_RATE as int, SHAKE256_RATE as int, 136).0;
        proof {
            lemma_squeeze_concat(pd, SHAKE256_RATE as int, SHAKE256_RATE as int, total, 136);
            lemma_squeeze_blocks_pos(pd, SHAKE256_RATE as int, (2 + r) as nat);
            assert((2 + r) * 136 == total);
            lemma_squeeze_len(pd, SHAKE256_RATE as int, SHAKE256_RATE as int, total);
            lemma_squeeze_len(s_before, SHAKE256_RATE as int, SHAKE256_RATE as int, 136);
            lemma_eta_accept_frame(buf@, o, 136);
            assert(stream256(sd, nonce, total) == squeeze(pd, SHAKE256_RATE as int, SHAKE256_RATE as int, total).0);
            lemma_eta_accept_concat(stream256(sd, nonce, total), o, 136);
            assert((total + 136) as nat == (272 + 136 * (r + 1)) as nat);
            assert(stream256(sd, nonce, (total + 136) as nat) == stream256(sd, nonce, total) + o);
        }
        let ghost a_before = a.coeffs@;
        let got: u32 = rej_eta(&mut a.coeffs, ctr as usize, N_U32 - ctr, &buf, STREAM256_BLOCKBYTES);
        proof {
            let acc1 = eta_stream_accept(sd, nonce, (272 + 136 * (r + 1)) as nat);
            let ob = eta_accept(o, 136);
            assert(acc1 == acc0 + ob);
            assert(a.coeffs@.take((ctr + got) as int) =~= acc1.take((ctr + got) as int)) by {
                assert forall|t: int| 0 <= t < ctr + got implies a.coeffs@[t] == acc1[t] by {
                    if t < ctr {
                        assert(a.coeffs@[t] == a_before[t]);
                        assert(a_before.take(ctr as int)[t] == acc0.take(ctr as int)[t]);
                    } else {
                        assert(a.coeffs@[t] == a.coeffs@.subrange(ctr as int, ctr + got)[t - ctr]);
                    }
                }
            }
            assert(acc0.len() < N);
            r = r + 1;
        }
        ctr = ctr + got;
        refills = refills + 1;
    }
    proof {
        let acc = eta_stream_accept(sd, nonce, (272 + 136 * r) as nat);
        if acc.len() >= N {
            assert(ctr == N);
            assert(a.coeffs@ =~= a.coeffs@.take(N as int));
        }
        if acc.len() < N {
            assert(ctr as int == acc.len());
            assert(acc.take(ctr as int) =~= acc);
        }
        lemma_eta_refills(sd, nonce, 0, r);
        if acc.len() < N {
            assert(a.coeffs@ =~= acc + Seq::new((N - acc.len()) as nat, |i: int| 0i32));
        }
    }
}

/// Number of SHAKE256 blocks squeezed by `poly_uniform_gamma1`.
pub const POLY_UNIFORM_GAMMA1_NBLOCKS: usize = 5;

/// Samples a polynomial with coefficients in `(-GAMMA1, GAMMA1]`: the
/// unpacking of the first `POLYZ_PACKEDBYTES` bytes of
/// SHAKE256(`seed` || `nonce`).
pub fn poly_uniform_gamma1(a: &mut Poly, seed: &[u8], nonce: u16)
    requires
        CRHBYTES <= seed@.len(),
    ensures
        in_range(final(a).coeffs@, -GAMMA1 + 1, GAMMA1 + 1),
        forall|j: int| 0 <= j < N ==>
            #[trigger] final(a).coeffs@[j] == GAMMA1 - z_field(stream256(seed@.take(CRHBYTES as int), nonce, 680), 0, j),
{
    let mut buf = [0u8; 680];
    let mut state = Stream256State::new();
    stream256_init(&mut state, seed, nonce);
    stream256_squeezeblocks(&mut buf, 0, POLY_UNIFORM_GAMMA1_NBLOCKS as u64, &mut state);
    assert(buf@ =~= buf@.subrange(0, 680));
    polyz_unpack(a, &buf, 0);
}

/// Largest number of bytes `poly_challenge` reads while looking for one
/// position; running out has negligible probability, and then the position
/// itself is taken.
pub const MAX_CHALLENGE_TRIES: u32 = 100000;

/// Changing one entry below `n` changes the count by the difference.
pub proof fn lemma_count_nonzero_update(s: Seq<i32>, t: int, v: i32, n: int)
    requires
        0 <= t < n <= s.len(),
    ensures
        count_nonzero(s.update(t, v), n) == count_nonzero(s, n) - (if s[t] != 0 { 1int } else { 0int }) + (if v != 0 { 1int } else { 0int }),
    decreases n,
{
    if n - 1 > t {
        lemma_count_nonzero_update(s, t, v, n - 1);
    } else {
        lemma_count_nonzero_frame(s.update(t, v), s, t);
    }
}

/// Byte `p` of the SHAKE256 stream over `seed`.
pub open spec fn shake256_byte(seed: Seq<u8>, p: int) -> u8 {
    shake256_spec(seed, (p + 1) as nat)[p]
}

/// Sign bit `k` of the challenge: bit `k` of the first 8 stream bytes,
/// read as a little-endian integer.
pub open spec fn challenge_sign_bit(seed: Seq<u8>, k: int) -> u8 {
    (shake256_byte(seed, k / 8) >> ((k % 8) as u8)) & 1u8
}

/// The position chosen for index `i`, reading the stream from byte `p`
/// after `t` tries, with the next byte to read: the first byte not larger
/// than `i`, or `i` itself once `MAX_CHALLENGE_TRIES` bytes were rejected.
pub open spec fn challenge_find(seed: Seq<u8>, i: int, p: int, t: nat) -> (int, int)
    decreases MAX_CHALLENGE_TRIES - t,
{
    if t >= MAX_CHALLENGE_TRIES {
        (i, p)
    } else if shake256_byte(seed, p) as int <= i {
        (shake256_byte(seed, p) as int, p + 1)
    } else {
        challenge_find(seed, i, p + 1, t + 1)
    }
}

/// The challenge after its first `n` placements, with the next stream byte
/// to read: placement `k` fills index `N - TAU + k`, moving the coefficient
/// at the chosen position there and putting `1 - 2 * sign` at the position.
pub open spec fn challenge_steps(seed: Seq<u8>, n: nat) -> (Seq<i32>, int)
    decreases n,
{
    if n == 0 {
        (Seq::new(N as nat, |j: int| 0i32), 8)
    } else {
        let (c, p) = challenge_steps(seed, (n - 1) as nat);
        let i = N - TAU + n - 1;
        let (b, p2) = challenge_find(seed, i, p, 0);
        let sign = (1 - 2 * challenge_sign_bit(seed, n - 1)) as i32;
        (c.update(i, c[b]).update(b, sign), p2)
    }
}

/// The challenge polynomial of `seed`.
pub open spec fn challenge_spec(seed: Seq<u8>) -> Seq<i32> {
    challenge_steps(seed, TAU as nat).0
}

/// Byte `x` of any long enough squeeze of the padded sponge over `seed` is
/// byte `x` of its SHAKE256 stream.
pub proof fn lemma_shake_byte(seed: Seq<u8>, x: int, n: nat)
    requires
        0 <= x < n,
    ensures
        squeeze(padded(SHAKE256_RATE as int, seed), SHAKE256_RATE as int, SHAKE256_RATE as int, n).0[x]
            == shake256_byte(seed, x),
{
    let pd = padded(SHAKE256_RATE as int, seed);
    lemma_squeeze_concat(pd, SHAKE256_RATE as int, SHAKE256_RATE as int, (x + 1) as nat, (n - x - 1) as nat);
    lemma_squeeze_len(pd, SHAKE256_RATE as int, SHAKE256_RATE as int, (x + 1) as nat);
    assert((x + 1) as nat + (n - x - 1) as nat == n);
}

/// Samples the challenge `challenge_spec` of the first `SEEDBYTES` bytes of
/// `seed`: exactly `TAU` coefficients in `{-1, 1}`, the others 0. The first
/// 8 bytes of SHAKE256 give the signs; each later byte is a candidate
/// position, rejected while larger than the current index.
pub fn poly_challenge(c: &mut Poly, seed: &[u8])
    requires
        SEEDBYTES <= seed@.len(),
    ensures
        final(c).coeffs@ == challenge_spec(seed@.take(SEEDBYTES as int)),
        in_range(final(c).coeffs@, -1, 2),
        count_nonzero(final(c).coeffs@, N as int) == TAU,
{
    let ghost sd = seed@.take(SEEDBYTES as int);
    let ghost pd = padded(SHAKE256_RATE as int, sd);
    let mut buf = [0u8; SHAKE256_RATE];
    let mut state = KeccakState::new();
    shake256_absorb(&mut state, seed, SEEDBYTES);
    shake256_finalize(&mut state);
    shake256_squeeze(&mut buf, 0, SHAKE256_RATE, &mut state);
    let ghost mut g: int = 0;
    proof {
        assert(buf@ =~= buf@.subrange(0, 136));
        lemma_squeeze_blocks_pos(pd, SHAKE256_RATE as int, 1);
        assert forall|q: int| 0 <= q < 136 implies #[trigger] buf@[q] == shake256_byte(sd, g + q) by {
            lemma_shake_byte(sd, q, 136);
        }
    }
    let mut signbytes = [0u8; 8];
    let mut k: usize = 0;
    while k < 8
        invariant
            k <= 8,
            forall|q: int| 0 <= q < 136 ==> #[trigger] buf@[q] == shake256_byte(sd, q),
            forall|q: int| 0 <= q < k ==> #[trigger] signbytes@[q] == shake256_byte(sd, q),
        decreases 8 - k,
    {
        signbytes[k] = buf[k];
        k = k + 1;
    }
    let mut pos: usize = 8;
    c.coeffs = [0i32; N];
    proof {
        lemma_count_nonzero_zero(c.coeffs@, N as int);
        assert(c.coeffs@ =~= challenge_steps(sd, 0).0);
    }
    let mut i: usize = N - TAU;
    while i < N
        invariant
            N - TAU <= i <= N,
            pos <= SHAKE256_RATE,
            sd == seed@.take(SEEDBYTES as int),
            pd == padded(SHAKE256_RATE as int, sd),
            g >= 0,
            g % 136 == 0,
            state.pos == SHAKE256_RATE,
            state.s@ == squeeze(pd, SHAKE256_RATE as int, SHAKE256_RATE as int, (g + 136) as nat).1,
            forall|q: int| 0 <= q < 136 ==> #[trigger] buf@[q] == shake256_byte(sd, g + q),
            forall|q: int| 0 <= q < 8 ==> #[trigger] signbytes@[q] == shake256_byte(sd, q),
            (c.coeffs@, g + pos) == challenge_steps(sd, (i - (N - TAU)) as nat),
            in_range(c.coeffs@, -1, 2),
            count_nonzero(c.coeffs@, N as int) == i - (N - TAU),
            forall|t: int| i <= t < N ==> #[trigger] c.coeffs@[t] == 0,
        decreases N - i,
    {
        let ghost p0 = g + pos;
        let mut b: usize = i;
        let mut found: bool = false;
        let mut tries: u32 = 0;
        while !found && tries < MAX_CHALLENGE_TRIES
            invariant
                pos <= SHAKE256_RATE,
                N - TAU <= i < N,
                g >= 0,
                g % 136 == 0,
                sd == seed@.take(SEEDBYTES as int),
                pd == padded(SHAKE256_RATE as int, sd),
                state.pos == SHAKE256_RATE,
                state.s@ == squeeze(pd, SHAKE256_RATE as int, SHAKE256_RATE as int, (g + 136) as nat).1,
                forall|q: int| 0 <= q < 136 ==> #[trigger] buf@[q] == shake256_byte(sd, g + q),
                b <= i,
                !found ==> challenge_find(sd, i as int, g + pos, tries as nat) == challenge_find(sd, i as int, p0, 0),
                found ==> (b as int, g + pos) == challenge_find(sd, i as int, p0, 0),
                !found ==> b == i,
            decreases MAX_CHALLENGE_TRIES - tries,
        {
            if pos >= SHAKE256_RATE {
                let ghost s_before = state.s@;
                shake256_squeeze(&mut buf, 0, SHAKE256_RATE, &mut state);
                proof {
                    let n0 = (g + 136) as nat;
                    lemma_squeeze_concat(pd, SHAKE256_RATE as int, SHAKE256_RATE as int, n0, 136);
                    lemma_squeeze_len(pd, SHAKE256_RATE as int, SHAKE256_RATE as int, n0);
                    assert(n0 == (g / 136 + 1) * 136) by {
                        assert(g % 136 == 0);
                    }
                    lemma_squeeze_blocks_pos(pd, SHAKE256_RATE as int, (g / 136 + 1) as nat);
                    lemma_squeeze_blocks_pos(pd, SHAKE256_RATE as int, (g / 136 + 2) as nat);
                    assert((g / 136 + 2) * 136 == n0 + 136);
                    assert(buf@ =~= buf@.subrange(0, 136));
                    assert forall|q: int| 0 <= q < 136 implies #[trigger] buf@[q] == shake256_byte(sd, g + 136 + q) by {
                        lemma_shake_byte(sd, g + 136 + q, (n0 + 136) as nat);
                    }
                    g = g + 136;
                }
                pos = 0;
            }
            let cand: usize = buf[pos] as usize;
            pos = pos + 1;
            if cand <= i {
                b = cand;
                found = true;
            }
            tries = tries + 1;
        }
        let ghost c0 = c.coeffs@;
        c.coeffs[i] = c.coeffs[b];
        let ghost c1 = c.coeffs@;
        let kk: usize = i - (N - TAU);
        let sbyte: u8 = signbytes[kk / 8];
        let sh: u8 = (kk % 8) as u8;
        let bit: u8 = (sbyte >> sh) & 1u8;
        assert(bit <= 1) by (bit_vector)
            requires
                bit == (sbyte >> sh) & 1u8,
        ;
        c.coeffs[b] = 1i32 - 2 * (bit as i32);
        proof {
            lemma_count_nonzero_update(c0, i as int, c0[b as int], N as int);
            lemma_count_nonzero_update(c1, b as int, (1i32 - 2 * (bit as i32)) as i32, N as int);
            assert(bit == challenge_sign_bit(sd, kk as int));
            assert(((i + 1 - (N - TAU)) as nat - 1) as nat == (i - (N - TAU)) as nat);
        }
        i = i + 1;
    }
}

/// The raw field `j` of a packed t1 polynomial starting at `a[off]`:
/// 10 bits each, 4 coefficients in 5 bytes, little-endian.
pub open spec fn t1_field(a: Seq<u8>, off: int, j: int) -> int {
    let b = off + 5 * (j / 4);
    let y0 = a[b] as int;
    let y1 = a[b + 1] as int;
    let y2 = a[b + 2] as int;
    let y3 = a[b + 3] as int;
    let y4 = a[b + 4] as int;
    if j % 4 == 0 {
        y0 + 256 * (y1 % 4)
    } else if j % 4 == 1 {
        y1 / 4 + 64 * (y2 % 16)
    } else if j % 4 == 2 {
        y2 / 16 + 16 * (y3 % 64)
    } else {
        y3 / 64 + 4 * y4
    }
}

/// Unpacks a t1 polynomial (10 bits each, 4 coefficients in 5 bytes) from `a[off..off + 320]`.
pub fn polyt1_unpack(r: &mut Poly, a: &[u8], off: usize)
    requires
        off + 320 <= a@.len(),
        off + 320 <= usize::MAX,
    ensures
        forall|j: int| 0 <= j < N ==> #[trigger] final(r).coeffs@[j] == t1_field(a@, off as int, j),
        in_range(final(r).coeffs@, 0, 1024),
{
    let mut i: usize = 0;
    while i < 64
        invariant
            i <= 64,
            off + 320 <= a@.len(),
            off + 320 <= usize::MAX,
            forall|j: int| 0 <= j < 4 * i ==> #[trigger] r.coeffs@[j] == t1_field(a@, off as int, j),
            forall|j: int| 0 <= j < 4 * i ==> 0 <= #[trigger] r.coeffs@[j] < 1024,
        decreases 64 - i,
    {
        let b: usize = off + 5 * i;
        let y0: i32 = a[b] as i32;
        let y1: i32 = a[b + 1] as i32;
        let y2: i32 = a[b + 2] as i32;
        let y3: i32 = a[b + 3] as i32;
        let y4: i32 = a[b + 4] as i32;
        let v0: i32 = y0 + 256 * (y1 % 4);
        let v1: i32 = y1 / 4 + 64 * (y2 % 16);
        let v2: i32 = y2 / 16 + 16 * (y3 % 64);
        let v3: i32 = y3 / 64 + 4 * y4;
        r.coeffs[4 * i] = v0;
        r.coeffs[4 * i + 1] = v1;
        r.coeffs[4 * i + 2] = v2;
        r.coeffs[4 * i + 3] = v3;
        proof {
            assert forall|j: int| 4 * i <= j < 4 * i + 4 implies #[trigger] r.coeffs@[j] == t1_field(a@, off as int, j) && 0 <= r.coeffs@[j] < 1024 by {
                assert(j / 4 == i as int && j % 4 == j - 4 * i);
            }
        }
        i = i + 1;
    }
}

/// Byte `k` of the packed form of `c` (10 bits each, 4 coefficients in 5 bytes).
pub open spec fn t1_byte(c: Seq<i32>, k: int) -> int {
    let i = k / 5;
    let x0 = c[4 * i] as int;
    let x1 = c[4 * i + 1] as int;
    let x2 = c[4 * i + 2] as int;
    let x3 = c[4 * i + 3] as int;
    if k % 5 == 0 {
        x0 % 256
    } else if k % 5 == 1 {
        x0 / 256 + 4 * (x1 % 64)
    } else if k % 5 == 2 {
        x1 / 64 + 16 * (x2 % 16)
    } else if k % 5 == 3 {
        x2 / 16 + 64 * (x3 % 4)
    } else {
        x3 / 4
    }
}

/// Packs `a` (coefficients in `[0, 1024)`) into `r[off..off + 320]`.
pub fn polyt1_pack(r: &mut [u8], off: usize, a: &Poly)
    requires
        off + 320 <= old(r)@.len(),
        off + 320 <= usize::MAX,
        in_range(a.coeffs@, 0, 1024),
    ensures
        final(r)@.len() == old(r)@.len(),
        forall|k: int| 0 <= k < 320 ==> #[trigger] final(r)@[off + k] == t1_byte(a.coeffs@, k),
        forall|k: int| 0 <= k < old(r)@.len() && !(off <= k < off + 320) ==> #[trigger] final(r)@[k] == old(r)@[k],
{
    let mut i: usize = 0;
    while i < 64
        invariant
            i <= 64,
            off + 320 <= r@.len(),
            off + 320 <= usize::MAX,
            r@.len() == old(r)@.len(),
            in_range(a.coeffs@, 0, 1024),
            forall|k: int| 0 <= k < 5 * i ==> #[trigger] r@[off + k] == t1_byte(a.coeffs@, k),
            forall|k: int| 0 <= k < old(r)@.len() && !(off <= k < off + 5 * i) ==> #[trigger] r@[k] == old(r)@[k],
        decreases 64 - i,
    {
        let x0: i32 = a.coeffs[4 * i];
        let x1: i32 = a.coeffs[4 * i + 1];
        let x2: i32 = a.coeffs[4 * i + 2];
        let x3: i32 = a.coeffs[4 * i + 3];
        let b: usize = off + 5 * i;
        r[b] = (x0 % 256) as u8;
        r[b + 1] = (x0 / 256 + 4 * (x1 % 64)) as u8;
        r[b + 2] = (x1 / 64 + 16 * (x2 % 16)) as u8;
        r[b + 3] = (x2 / 16 + 64 * (x3 % 4)) as u8;
        r[b + 4] = (x3 / 4) as u8;
        proof {
            assert forall|k: int| 5 * i <= k < 5 * i + 5 implies #[trigger] r@[off + k] == t1_byte(a.coeffs@, k) by {
                assert(k / 5 == i as int && k % 5 == k - 5 * i);
            }
        }
        i = i + 1;
    }
}

/// The raw field `j` of a packed z polynomial starting at `a[off]`:
/// `GAMMA1 - c` in 20 bits each, 2 coefficients in 5 bytes, little-endian.
pub open spec fn z_field(a: Seq<u8>, off: int, j: int) -> int {
    let b = off + 5 * (j / 2);
    let y0 = a[b] as int;
    let y1 = a[b + 1] as int;
    let y2 = a[b + 2] as int;
    let y3 = a[b + 3] as int;
    let y4 = a[b + 4] as int;
    if j % 2 == 0 {
        y0 + 256 * y1 + 65536 * (y2 % 16)
    } else {
        y2 / 16 + 16 * y3 + 4096 * y4
    }
}

/// Unpacks a z polynomial (`GAMMA1 - c` in 20 bits each, 2 coefficients in 5 bytes) from `a[off..off + 640]`.
pub fn polyz_unpack(r: &mut Poly, a: &[u8], off: usize)
    requires
        off + 640 <= a@.len(),
        off + 640 <= usize::MAX,
    ensures
        forall|j: int| 0 <= j < N ==> #[trigger] final(r).coeffs@[j] == GAMMA1 as int - z_field(a@, off as int, j),
        in_range(final(r).coeffs@, -524287, 524289),
{
    let mut i: usize = 0;
    while i < 128
        invariant
            i <= 128,
            off + 640 <= a@.len(),
            off + 640 <= usize::MAX,
            forall|j: int| 0 <= j < 2 * i ==> #[trigger] r.coeffs@[j] == GAMMA1 as int - z_field(a@, off as int, j),
            forall|j: int| 0 <= j < 2 * i ==> -524287 <= #[trigger] r.coeffs@[j] < 524289,
        decreases 128 - i,
    {
        let b: usize = off + 5 * i;
        let y0: i32 = a[b] as i32;
        let y1: i32 = a[b + 1] as i32;
        let y2: i32 = a[b + 2] as i32;
        let y3: i32 = a[b + 3] as i32;
        let y4: i32 = a[b + 4] as i32;
        let v0: i32 = y0 + 256 * y1 + 65536 * (y2 % 16);
        let v1: i32 = y2 / 16 + 16 * y3 + 4096 * y4;
        r.coeffs[2 * i] = GAMMA1_I32 - v0;
        r.coeffs[2 * i + 1] = GAMMA1_I32 - v1;
        proof {
            assert forall|j: int| 2 * i <= j < 2 * i + 2 implies #[trigger] r.coeffs@[j] == GAMMA1 as int - z_field(a@, off as int, j) && -524287 <= r.coeffs@[j] < 524289 by {
                assert(j / 2 == i as int && j % 2 == j - 2 * i);
            }
        }
        i = i + 1;
    }
}

/// Byte `k` of the packed form of `c` (`GAMMA1 - c` in 20 bits each, 2 coefficients in 5 bytes).
pub open spec fn z_byte(c: Seq<i32>, k: int) -> int {
    let i = k / 5;
    let x0 = GAMMA1 as int - c[2 * i] as int;
    let x1 = GAMMA1 as int - c[2 * i + 1] as int;
    if k % 5 == 0 {
        x0 % 256
    } else if k % 5 == 1 {
        (x0 / 256) % 256
    } else if k % 5 == 2 {
        x0 / 65536 + 16 * (x1 % 16)
    } else if k % 5 == 3 {
        (x1 / 16) % 256
    } else {
        x1 / 4096
    }
}

/// Packs `a` (coefficients in `(-GAMMA1, GAMMA1]`) into `r[off..off + 640]`.
pub fn polyz_pack(r: &mut [u8], off: usize, a: &Poly)
    requires
        off + 640 <= old(r)@.len(),
        off + 640 <= usize::MAX,
        in_range(a.coeffs@, -524287, 524289),
    ensures
        final(r)@.len() == old(r)@.len(),
        forall|k: int| 0 <= k < 640 ==> #[trigger] final(r)@[off + k] == z_byte(a.coeffs@, k),
        forall|k: int| 0 <= k < old(r)@.len() && !(off <= k < off + 640) ==> #[trigger] final(r)@[k] == old(r)@[k],
{
    let mut i: usize = 0;
    while i < 128
        invariant
            i <= 128,
            off + 640 <= r@.len(),
            off + 640 <= usize::MAX,
            r@.len() == old(r)@.len(),
            in_range(a.coeffs@, -524287, 524289),
            forall|k: int| 0 <= k < 5 * i ==> #[trigger] r@[off + k] == z_byte(a.coeffs@, k),
            forall|k: int| 0 <= k < old(r)@.len() && !(off <= k < off + 5 * i) ==> #[trigger] r@[k] == old(r)@[k],
        decreases 128 - i,
    {
        let x0: i32 = GAMMA1_I32 - a.coeffs[2 * i];
        let x1: i32 = GAMMA1_I32 - a.coeffs[2 * i + 1];
        let b: usize = off + 5 * i;
        r[b] = (x0 % 256) as u8;
        r[b + 1] = ((x0 / 256) % 256) as u8;
        r[b + 2] = (x0 / 65536 + 16 * (x1 % 16)) as u8;
        r[b + 3] = ((x1 / 16) % 256) as u8;
        r[b + 4] = (x1 / 4096) as u8;
        proof {
            assert forall|k: int| 5 * i <= k < 5 * i + 5 implies #[trigger] r@[off + k] == z_byte(a.coeffs@, k) by {
                assert(k / 5 == i as int && k % 5 == k - 5 * i);
            }
        }
        i = i + 1;
    }
}

/// The raw field `j` of a packed t0 polynomial starting at `a[off]`:
/// `2^(D-1) - c` in 13 bits each, 8 coefficients in 13 bytes, little-endian.
pub open spec fn t0_field(a: Seq<u8>, off: int, j: int) -> int {
    let b = off + 13 * (j / 8);
    let y0 = a[b] as int;
    let y1 = a[b + 1] as int;
    let y2 = a[b + 2] as int;
    let y3 = a[b + 3] as int;
    let y4 = a[b + 4] as int;
    let y5 = a[b + 5] as int;
    let y6 = a[b + 6] as int;
    let y7 = a[b + 7] as int;
    let y8 = a[b + 8] as int;
    let y9 = a[b + 9] as int;
    let y10 = a[b + 10] as int;
    let y11 = a[b + 11] as int;
    let y12 = a[b + 12] as int;
    if j % 8 == 0 {
        y0 + 256 * (y1 % 32)
    } else if j % 8 == 1 {
        y1 / 32 + 8 * y2 + 2048 * (y3 % 4)
    } else if j % 8 == 2 {
        y3 / 4 + 64 * (y4 % 128)
    } else if j % 8 == 3 {
        y4 / 128 + 2 * y5 + 512 * (y6 % 16)
    } else if j % 8 == 4 {
        y6 / 16 + 16 * y7 + 4096 * (y8 % 2)
    } else if j % 8 == 5 {
        y8 / 2 + 128 * (y9 % 64)
    } else if j % 8 == 6 {
        y9 / 64 + 4 * y10 + 1024 * (y11 % 8)
    } else {
        y11 / 8 + 32 * y12
    }
}

/// Unpacks a t0 polynomial (`2^(D-1) - c` in 13 bits each, 8 coefficients in 13 bytes) from `a[off..off + 416]`.
pub fn polyt0_unpack(r: &mut Poly, a: &[u8], off: usize)
    requires
        off + 416 <= a@.len(),
        off + 416 <= usize::MAX,
    ensures
        forall|j: int| 0 <= j < N ==> #[trigger] final(r).coeffs@[j] == 4096 - t0_field(a@, off as int, j),
        in_range(final(r).coeffs@, -4095, 4097),
{
    let mut i: usize = 0;
    while i < 32
        invariant
            i <= 32,
            off + 416 <= a@.len(),
            off + 416 <= usize::MAX,
            forall|j: int| 0 <= j < 8 * i ==> #[trigger] r.coeffs@[j] == 4096 - t0_field(a@, off as int, j),
            forall|j: int| 0 <= j < 8 * i ==> -4095 <= #[trigger] r.coeffs@[j] < 4097,
        decreases 32 - i,
    {
        let b: usize = off + 13 * i;
        let y0: i32 = a[b] as i32;
        let y1: i32 = a[b + 1] as i32;
        let y2: i32 = a[b + 2] as i32;
        let y3: i32 = a[b + 3] as i32;
        let y4: i32 = a[b + 4] as i32;
        let y5: i32 = a[b + 5] as i32;
        let y6: i32 = a[b + 6] as i32;
        let y7: i32 = a[b + 7] as i32;
        let y8: i32 = a[b + 8] as i32;
        let y9: i32 = a[b + 9] as i32;
        let y10: i32 = a[b + 10] as i32;
        let y11: i32 = a[b + 11] as i32;
        let y12: i32 = a[b + 12] as i32;
        let v0: i32 = y0 + 256 * (y1 % 32);
        let v1: i32 = y1 / 32 + 8 * y2 + 2048 * (y3 % 4);
        let v2: i32 = y3 / 4 + 64 * (y4 % 128);
        let v3: i32 = y4 / 128 + 2 * y5 + 512 * (y6 % 16);
        let v4: i32 = y6 / 16 + 16 * y7 + 4096 * (y8 % 2);
        let v5: i32 = y8 / 2 + 128 * (y9 % 64);
        let v6: i32 = y9 / 64 + 4 * y10 + 1024 * (y11 % 8);
        let v7: i32 = y11 / 8 + 32 * y12;
        r.coeffs[8 * i] = 4096 - v0;
        r.coeffs[8 * i + 1] = 4096 - v1;
        r.coeffs[8 * i + 2] = 4096 - v2;
        r.coeffs[8 * i + 3] = 4096 - v3;
        r.coeffs[8 * i + 4] = 4096 - v4;
        r.coeffs[8 * i + 5] = 4096 - v5;
        r.coeffs[8 * i + 6] = 4096 - v6;
        r.coeffs[8 * i + 7] = 4096 - v7;
        proof {
            assert forall|j: int| 8 * i <= j < 8 * i + 8 implies #[trigger] r.coeffs@[j] == 4096 - t0_field(a@, off as int, j) && -4095 <= r.coeffs@[j] < 4097 by {
                assert(j / 8 == i as int && j % 8 == j - 8 * i);
            }
        }
        i = i + 1;
    }
}

/// Byte `k` of the packed form of `c` (`2^(D-1) - c` in 13 bits each, 8 coefficients in 13 bytes).
pub open spec fn t0_byte(c: Seq<i32>, k: int) -> int {
    let i = k / 13;
    let x0 = 4096 - c[8 * i] as int;
    let x1 = 4096 - c[8 * i + 1] as int;
    let x2 = 4096 - c[8 * i + 2] as int;
    let x3 = 4096 - c[8 * i + 3] as int;
    let x4 = 4096 - c[8 * i + 4] as int;
    let x5 = 4096 - c[8 * i + 5] as int;
    let x6 = 4096 - c[8 * i + 6] as int;
    let x7 = 4096 - c[8 * i + 7] as int;
    if k % 13 == 0 {
        x0 % 256
    } else if k % 13 == 1 {
        x0 / 256 + 32 * (x1 % 8)
    } else if k % 13 == 2 {
        (x1 / 8) % 256
    } else if k % 13 == 3 {
        x1 / 2048 + 4 * (x2 % 64)
    } else if k % 13 == 4 {
        x2 / 64 + 128 * (x3 % 2)
    } else if k % 13 == 5 {
        (x3 / 2) % 256
    } else if k % 13 == 6 {
        x3 / 512 + 16 * (x4 % 16)
    } else if k % 13 == 7 {
        (x4 / 16) % 256
    } else if k % 13 == 8 {
        x4 / 4096 + 2 * (x5 % 128)
    } else if k % 13 == 9 {
        x5 / 128 + 64 * (x6 % 4)
    } else if k % 13 == 10 {
        (x6 / 4) % 256
    } else if k % 13 == 11 {
        x6 / 1024 + 8 * (x7 % 32)
    } else {
        x7 / 32
    }
}

/// Packs `a` (coefficients in `(-2^(D-1), 2^(D-1)]`) into `r[off..off + 416]`.
pub fn polyt0_pack(r: &mut [u8], off: usize, a: &Poly)
    requires
        off + 416 <= old(r)@.len(),
        off + 416 <= usize::MAX,
        in_range(a.coeffs@, -4095, 4097),
    ensures
        final(r)@.len() == old(r)@.len(),
        forall|k: int| 0 <= k < 416 ==> #[trigger] final(r)@[off + k] == t0_byte(a.coeffs@, k),
        forall|k: int| 0 <= k < old(r)@.len() && !(off <= k < off + 416) ==> #[trigger] final(r)@[k] == old(r)@[k],
{
    let mut i: usize = 0;
    while i < 32
        invariant
            i <= 32,
            off + 416 <= r@.len(),
            off + 416 <= usize::MAX,
            r@.len() == old(r)@.len(),
            in_range(a.coeffs@, -4095, 4097),
            forall|k: int| 0 <= k < 13 * i ==> #[trigger] r@[off + k] == t0_byte(a.coeffs@, k),
            forall|k: int| 0 <= k < old(r)@.len() && !(off <= k < off + 13 * i) ==> #[trigger] r@[k] == old(r)@[k],
        decreases 32 - i,
    {
        let x0: i32 = 4096 - a.coeffs[8 * i];
        let x1: i32 = 4096 - a.coeffs[8 * i + 1];
        let x2: i32 = 4096 - a.coeffs[8 * i + 2];
        let x3: i32 = 4096 - a.coeffs[8 * i + 3];
        let x4: i32 = 4096 - a.coeffs[8 * i + 4];
        let x5: i32 = 4096 - a.coeffs[8 * i + 5];
        let x6: i32 = 4096 - a.coeffs[8 * i + 6];
        let x7: i32 = 4096 - a.coeffs[8 * i + 7];
        let b: usize = off + 13 * i;
        r[b] = (x0 % 256) as u8;
        r[b + 1] = (x0 / 256 + 32 * (x1 % 8)) as u8;
        r[b + 2] = ((x1 / 8) % 256) as u8;
        r[b + 3] = (x1 / 2048 + 4 * (x2 % 64)) as u8;
        r[b + 4] = (x2 / 64 + 128 * (x3 % 2)) as u8;
        r[b + 5] = ((x3 / 2) % 256) as u8;
        r[b + 6] = (x3 / 512 + 16 * (x4 % 16)) as u8;
        r[b + 7] = ((x4 / 16) % 256) as u8;
        r[b + 8] = (x4 / 4096 + 2 * (x5 % 128)) as u8;
        r[b + 9] = (x5 / 128 + 64 * (x6 % 4)) as u8;
        r[b + 10] = ((x6 / 4) % 256) as u8;
        r[b + 11] = (x6 / 1024 + 8 * (x7 % 32)) as u8;
        r[b + 12] = (x7 / 32) as u8;
        proof {
            assert forall|k: int| 13 * i <= k < 13 * i + 13 implies #[trigger] r@[off + k] == t0_byte(a.coeffs@, k) by {
                assert(k / 13 == i as int && k % 13 == k - 13 * i);
            }
        }
        i = i + 1;
    }
}

/// The raw field `j` of a packed eta polynomial starting at `a[off]`:
/// `ETA - c` in 4 bits each, 2 coefficients per byte, little-endian.
pub open spec fn eta_field(a: Seq<u8>, off: int, j: int) -> int {
    let b = off + j / 2;
    let y0 = a[b] as int;
    if j % 2 == 0 {
        y0 % 16
    } else {
        y0 / 16
    }
}

/// Unpacks an eta polynomial (`ETA - c` in 4 bits each, 2 coefficients per byte) from `a[off..off + 128]`.
pub fn polyeta_unpack(r: &mut Poly, a: &[u8], off: usize)
    requires
        off + 128 <= a@.len(),
        off + 128 <= usize::MAX,
    ensures
        forall|j: int| 0 <= j < N ==> #[trigger] final(r).coeffs@[j] == ETA as int - eta_field(a@, off as int, j),
        in_range(final(r).coeffs@, -11, 5),
{
    let mut i: usize = 0;
    while i < 128
        invariant
            i <= 128,
            off + 128 <= a@.len(),
            off + 128 <= usize::MAX,
            forall|j: int| 0 <= j < 2 * i ==> #[trigger] r.coeffs@[j] == ETA as int - eta_field(a@, off as int, j),
            forall|j: int| 0 <= j < 2 * i ==> -11 <= #[trigger] r.coeffs@[j] < 5,
        decreases 128 - i,
    {
        let b: usize = off + i;
        let y0: i32 = a[b] as i32;
        let v0: i32 = y0 % 16;
        let v1: i32 = y0 / 16;
        r.coeffs[2 * i] = ETA - v0;
        r.coeffs[2 * i + 1] = ETA - v1;
        proof {
            assert forall|j: int| 2 * i <= j < 2 * i + 2 implies #[trigger] r.coeffs@[j] == ETA as int - eta_field(a@, off as int, j) && -11 <= r.coeffs@[j] < 5 by {
                assert(j / 2 == i as int && j % 2 == j - 2 * i);
            }
        }
        i = i + 1;
    }
}

/// Byte `k` of the packed form of `c` (`ETA - c` in 4 bits each, 2 coefficients per byte).
pub open spec fn eta_byte(c: Seq<i32>, k: int) -> int {
    let i = k;
    let x0 = ETA as int - c[2 * i] as int;
    let x1 = ETA as int - c[2 * i + 1] as int;
    x0 + 16 * x1
}

/// Packs `a` (coefficients in `[-ETA, ETA]`) into `r[off..off + 128]`.
pub fn polyeta_pack(r: &mut [u8], off: usize, a: &Poly)
    requires
        off + 128 <= old(r)@.len(),
        off + 128 <= usize::MAX,
        in_range(a.coeffs@, -4, 5),
    ensures
        final(r)@.len() == old(r)@.len(),
        forall|k: int| 0 <= k < 128 ==> #[trigger] final(r)@[off + k] == eta_byte(a.coeffs@, k),
        forall|k: int| 0 <= k < old(r)@.len() && !(off <= k < off + 128) ==> #[trigger] final(r)@[k] == old(r)@[k],
{
    let mut i: usize = 0;
    while i < 128
        invariant
            i <= 128,
            off + 128 <= r@.len(),
            off + 128 <= usize::MAX,
            r@.len() == old(r)@.len(),
            in_range(a.coeffs@, -4, 5),
            forall|k: int| 0 <= k < 1 * i ==> #[trigger] r@[off + k] == eta_byte(a.coeffs@, k),
            forall|k: int| 0 <= k < old(r)@.len() && !(off <= k < off + i) ==> #[trigger] r@[k] == old(r)@[k],
        decreases 128 - i,
    {
        let x0: i32 = ETA - a.coeffs[2 * i];
        let x1: i32 = ETA - a.coeffs[2 * i + 1];
        let b: usize = off + i;
        r[b] = (x0 + 16 * x1) as u8;
        proof {
            assert forall|k: int| 1 * i <= k < 1 * i + 1 implies #[trigger] r@[off + k] == eta_byte(a.coeffs@, k) by {
                assert(k / 1 == i as int && k % 1 == k - 1 * i);
            }
        }
        i = i + 1;
    }
}

/// Byte `k` of the packed form of `c` (4 bits each, 2 coefficients per byte).
pub open spec fn w1_byte(c: Seq<i32>, k: int) -> int {
    let i = k;
    let x0 = c[2 * i] as int;
    let x1 = c[2 * i + 1] as int;
    x0 + 16 * x1
}

/// Packs `a` (coefficients in `[0, 16)`) into `r[off..off + 128]`.
pub fn polyw1_pack(r: &mut [u8], off: usize, a: &Poly)
    requires
        off + 128 <= old(r)@.len(),
        off + 128 <= usize::MAX,
        in_range(a.coeffs@, 0, 16),
    ensures
        final(r)@.len() == old(r)@.len(),
        forall|k: int| 0 <= k < 128 ==> #[trigger] final(r)@[off + k] == w1_byte(a.coeffs@, k),
        forall|k: int| 0 <= k < old(r)@.len() && !(off <= k < off + 128) ==> #[trigger] final(r)@[k] == old(r)@[k],
{
    let mut i: usize = 0;
    while i < 128
        invariant
            i <= 128,
            off + 128 <= r@.len(),
            off + 128 <= usize::MAX,
            r@.len() == old(r)@.len(),
            in_range(a.coeffs@, 0, 16),
            forall|k: int| 0 <= k < 1 * i ==> #[trigger] r@[off + k] == w1_byte(a.coeffs@, k),
            forall|k: int| 0 <= k < old(r)@.len() && !(off <= k < off + i) ==> #[trigger] r@[k] == old(r)@[k],
        decreases 128 - i,
    {
        let x0: i32 = a.coeffs[2 * i];
        let x1: i32 = a.coeffs[2 * i + 1];
        let b: usize = off + i;
        r[b] = (x0 + 16 * x1) as u8;
        proof {
            assert forall|k: int| 1 * i <= k < 1 * i + 1 implies #[trigger] r@[off + k] == w1_byte(a.coeffs@, k) by {
                assert(k / 1 == i as int && k % 1 == k - 1 * i);
            }
        }
        i = i + 1;
    }
}

/// High parts of power-of-two rounding of every coefficient.
pub open spec fn power2round_hi(s: Seq<i32>) -> Seq<i32> {
    Seq::new(N as nat, |i: int| power2round_spec(s[i] as int).0 as i32)
}

/// Low parts of power-of-two rounding of every coefficient.
pub open spec fn power2round_lo(s: Seq<i32>) -> Seq<i32> {
    Seq::new(N as nat, |i: int| power2round_spec(s[i] as int).1 as i32)
}

/// Splits every coefficient of `a1` (in `[-4095, Q + 4096)`) by
/// power-of-two rounding: `a1` keeps the high parts and `a0` receives the
/// low parts.
pub fn poly_power2round(a1: &mut Poly, a0: &mut Poly)
    requires
        in_range(old(a1).coeffs@, -4095, Q + 4096),
    ensures
        final(a1).coeffs@ == power2round_hi(old(a1).coeffs@),
        final(a0).coeffs@ == power2round_lo(old(a1).coeffs@),
        in_range(final(a1).coeffs@, 0, 1024),
        in_range(final(a0).coeffs@, -4095, 4097),
{
    let mut i: usize = 0;
    while i < N
        invariant
            i <= N,
            in_range(old(a1).coeffs@, -4095, Q + 4096),
            forall|j: int| 0 <= j < i ==> #[trigger] a1.coeffs@[j] == power2round_spec(old(a1).coeffs@[j] as int).0,
            forall|j: int| 0 <= j < i ==> #[trigger] a0.coeffs@[j] == power2round_spec(old(a1).coeffs@[j] as int).1,
            forall|j: int| 0 <= j < i ==> 0 <= #[trigger] a1.coeffs@[j] < 1024,
            forall|j: int| 0 <= j < i ==> -4095 <= #[trigger] a0.coeffs@[j] < 4097,
            forall|j: int| i <= j < N ==> #[trigger] a1.coeffs@[j] == old(a1).coeffs@[j],
        decreases N - i,
    {
        let (hi, lo) = power2round(a1.coeffs[i]);
        a1.coeffs[i] = hi;
        a0.coeffs[i] = lo;
        i = i + 1;
    }
    assert(a1.coeffs@ =~= power2round_hi(old(a1).coeffs@));
    assert(a0.coeffs@ =~= power2round_lo(old(a1).coeffs@));
}

/// High parts of `decompose` of every coefficient.
pub open spec fn decompose_hi(s: Seq<i32>) -> Seq<i32> {
    Seq::new(N as nat, |i: int| decompose_spec(s[i] as int).0 as i32)
}

/// Low parts of `decompose` of every coefficient.
pub open spec fn decompose_lo(s: Seq<i32>) -> Seq<i32> {
    Seq::new(N as nat, |i: int| decompose_spec(s[i] as int).1 as i32)
}

/// Decomposes every coefficient of `a1` (in `[0, Q)`): `a1` keeps the high
/// parts and `a0` receives the low parts.
pub fn poly_decompose(a1: &mut Poly, a0: &mut Poly)
    requires
        in_range(old(a1).coeffs@, 0, Q as int),
    ensures
        final(a1).coeffs@ == decompose_hi(old(a1).coeffs@),
        final(a0).coeffs@ == decompose_lo(old(a1).coeffs@),
        in_range(final(a1).coeffs@, 0, 16),
        in_range(final(a0).coeffs@, -GAMMA2 as int, GAMMA2 + 1),
{
    let mut i: usize = 0;
    while i < N
        invariant
            i <= N,
            in_range(old(a1).coeffs@, 0, Q as int),
            forall|j: int| 0 <= j < i ==> #[trigger] a1.coeffs@[j] == decompose_spec(old(a1).coeffs@[j] as int).0,
            forall|j: int| 0 <= j < i ==> #[trigger] a0.coeffs@[j] == decompose_spec(old(a1).coeffs@[j] as int).1,
            forall|j: int| 0 <= j < i ==> 0 <= #[trigger] a1.coeffs@[j] < 16,
            forall|j: int| 0 <= j < i ==> -GAMMA2 <= #[trigger] a0.coeffs@[j] <= GAMMA2,
            forall|j: int| i <= j < N ==> #[trigger] a1.coeffs@[j] == old(a1).coeffs@[j],
        decreases N - i,
    {
        let (hi, lo) = decompose(a1.coeffs[i]);
        a1.coeffs[i] = hi;
        a0.coeffs[i] = lo;
        i = i + 1;
    }
    assert(a1.coeffs@ =~= decompose_hi(old(a1).coeffs@));
    assert(a0.coeffs@ =~= decompose_lo(old(a1).coeffs@));
}

/// The hint bits for low parts `a0` and high parts `a1`.
pub open spec fn make_hint_seq(a0: Seq<i32>, a1: Seq<i32>) -> Seq<i32> {
    Seq::new(N as nat, |i: int| if make_hint_spec(a0[i] as int, a1[i] as int) { 1i32 } else { 0i32 })
}

/// Number of nonzero entries among the first `n` of `s`.
pub open spec fn count_nonzero(s: Seq<i32>, n: int) -> int
    decreases n,
{
    if n <= 0 {
        0
    } else {
        count_nonzero(s, n - 1) + if s[n - 1] != 0 { 1int } else { 0int }
    }
}

/// Sets `h` to the hint bits for `a0` and `a1` and returns how many are set.
pub fn poly_make_hint(h: &mut Poly, a0: &Poly, a1: &Poly) -> (r: u32)
    ensures
        final(h).coeffs@ == make_hint_seq(a0.coeffs@, a1.coeffs@),
        r == count_nonzero(final(h).coeffs@, N as int),
        r <= N,
{
    let mut s: u32 = 0;
    let mut i: usize = 0;
    while i < N
        invariant
            i <= N,
            s <= i,
            forall|j: int| 0 <= j < i ==> #[trigger] h.coeffs@[j] == (if make_hint_spec(a0.coeffs@[j] as int, a1.coeffs@[j] as int) { 1i32 } else { 0i32 }),
            s == count_nonzero(h.coeffs@, i as int),
        decreases N - i,
    {
        let bit: u8 = make_hint(a0.coeffs[i], a1.coeffs[i]);
        let ghost prev = h.coeffs@;
        h.coeffs[i] = bit as i32;
        proof {
            lemma_count_nonzero_frame(prev, h.coeffs@, i as int);
        }
        s = s + bit as u32;
        i = i + 1;
    }
    assert(h.coeffs@ =~= make_hint_seq(a0.coeffs@, a1.coeffs@));
    s
}

/// `count_nonzero` of a prefix depends on that prefix only.
pub proof fn lemma_count_nonzero_frame(a: Seq<i32>, b: Seq<i32>, n: int)
    requires
        0 <= n <= a.len(),
        n <= b.len(),
        forall|j: int| 0 <= j < n ==> a[j] == b[j],
    ensures
        count_nonzero(a, n) == count_nonzero(b, n),
    decreases n,
{
    if n > 0 {
        lemma_count_nonzero_frame(a, b, n - 1);
    }
}

/// One 5-byte group of 10-bit fields, decoded and encoded again.
proof fn lemma_t1_group(y0: int, y1: int, y2: int, y3: int, y4: int)
    requires
        0 <= y0 < 256,
        0 <= y1 < 256,
        0 <= y2 < 256,
        0 <= y3 < 256,
        0 <= y4 < 256,
    ensures
        ({
            let x0 = y0 + 256 * (y1 % 4);
            let x1 = y1 / 4 + 64 * (y2 % 16);
            let x2 = y2 / 16 + 16 * (y3 % 64);
            let x3 = y3 / 64 + 4 * y4;
            &&& x0 % 256 == y0
            &&& x0 / 256 + 4 * (x1 % 64) == y1
            &&& x1 / 64 + 16 * (x2 % 16) == y2
            &&& x2 / 16 + 64 * (x3 % 4) == y3
            &&& x3 / 4 == y4
        }),
{
}

/// One 5-byte group of 20-bit fields, decoded and encoded again.
proof fn lemma_z_group(y0: int, y1: int, y2: int, y3: int, y4: int)
    requires
        0 <= y0 < 256,
        0 <= y1 < 256,
        0 <= y2 < 256,
        0 <= y3 < 256,
        0 <= y4 < 256,
    ensures
        ({
            let x0 = y0 + 256 * y1 + 65536 * (y2 % 16);
            let x1 = y2 / 16 + 16 * y3 + 4096 * y4;
            &&& x0 % 256 == y0
            &&& (x0 / 256) % 256 == y1
            &&& x0 / 65536 + 16 * (x1 % 16) == y2
            &&& (x1 / 16) % 256 == y3
            &&& x1 / 4096 == y4
        }),
{
}

/// Decoding 10-bit fields and encoding them again gives back the bytes.
pub proof fn lemma_t1_reencode(a: Seq<u8>, off: int, c: Seq<i32>)
    requires
        0 <= off,
        off + 320 <= a.len(),
        c.len() == N,
        forall|j: int| 0 <= j < N ==> #[trigger] c[j] == t1_field(a, off, j),
    ensures
        forall|k: int| 0 <= k < 320 ==> #[trigger] t1_byte(c, k) == a[off + k],
{
    assert forall|k: int| 0 <= k < 320 implies #[trigger] t1_byte(c, k) == a[off + k] by {
        let i = k / 5;
        let b = off + 5 * i;
        lemma_t1_group(a[b] as int, a[b + 1] as int, a[b + 2] as int, a[b + 3] as int, a[b + 4] as int);
        assert(c[4 * i] == t1_field(a, off, 4 * i));
        assert(c[4 * i + 1] == t1_field(a, off, 4 * i + 1));
        assert(c[4 * i + 2] == t1_field(a, off, 4 * i + 2));
        assert(c[4 * i + 3] == t1_field(a, off, 4 * i + 3));
        assert(k == 5 * i + k % 5);
    }
}

/// Decoding 20-bit fields, `z = GAMMA1 - field`, and encoding again gives
/// back the bytes.
pub proof fn lemma_z_reencode(a: Seq<u8>, off: int, c: Seq<i32>)
    requires
        0 <= off,
        off + 640 <= a.len(),
        c.len() == N,
        forall|j: int| 0 <= j < N ==> #[trigger] c[j] == GAMMA1 - z_field(a, off, j),
    ensures
        forall|k: int| 0 <= k < 640 ==> #[trigger] z_byte(c, k) == a[off + k],
{
    assert forall|k: int| 0 <= k < 640 implies #[trigger] z_byte(c, k) == a[off + k] by {
        let i = k / 5;
        let b = off + 5 * i;
        lemma_z_group(a[b] as int, a[b + 1] as int, a[b + 2] as int, a[b + 3] as int, a[b + 4] as int);
        assert(c[2 * i] == GAMMA1 - z_field(a, off, 2 * i));
        assert(c[2 * i + 1] == GAMMA1 - z_field(a, off, 2 * i + 1));
        assert(k == 5 * i + k % 5);
    }
}

/// Packing two 20-bit values and reading the fields back gives them again.
proof fn lemma_z_field_group(x0: int, x1: int)
    requires
        0 <= x0 < 1048576,
        0 <= x1 < 1048576,
    ensures
        ({
            let y0 = x0 % 256;
            let y1 = (x0 / 256) % 256;
            let y2 = x0 / 65536 + 16 * (x1 % 16);
            let y3 = (x1 / 16) % 256;
            let y4 = x1 / 4096;
            &&& 0 <= y0 < 256 && 0 <= y1 < 256 && 0 <= y2 < 256 && 0 <= y3 < 256 && 0 <= y4 < 256
            &&& y0 + 256 * y1 + 65536 * (y2 % 16) == x0
            &&& y2 / 16 + 16 * y3 + 4096 * y4 == x1
        }),
{
    let q0 = x0 / 256;
    let q1 = x1 / 16;
    vstd::arithmetic::div_mod::lemma_fundamental_div_mod(x0, 256);
    vstd::arithmetic::div_mod::lemma_fundamental_div_mod(q0, 256);
    vstd::arithmetic::div_mod::lemma_div_denominator(x0, 256, 256);
    vstd::arithmetic::div_mod::lemma_fundamental_div_mod(x1, 16);
    vstd::arithmetic::div_mod::lemma_fundamental_div_mod(q1, 256);
    vstd::arithmetic::div_mod::lemma_div_denominator(x1, 16, 256);
    let h = x0 / 65536;
    let m = x1 % 16;
    assert(0 <= h < 16);
    assert(0 <= m < 16);
    let y2 = h + 16 * m;
    vstd::arithmetic::div_mod::lemma_fundamental_div_mod_converse(y2, 16, m, h);
}

/// Bytes written by `polyz_pack` decode to the packed coefficients.
pub proof fn lemma_z_pack_decode(a: Seq<u8>, off: int, c: Seq<i32>)
    requires
        0 <= off,
        off + 640 <= a.len(),
        c.len() == N,
        in_range(c, -524287, 524289),
        forall|k: int| 0 <= k < 640 ==> #[trigger] a[off + k] == z_byte(c, k),
    ensures
        forall|j: int| 0 <= j < N ==> #[trigger] z_field(a, off, j) == GAMMA1 - c[j],
{
    assert forall|j: int| 0 <= j < N implies #[trigger] z_field(a, off, j) == GAMMA1 - c[j] by {
        let i = j / 2;
        let x0 = GAMMA1 - c[2 * i];
        let x1 = GAMMA1 - c[2 * i + 1];
        lemma_z_field_group(x0, x1);
        assert(a[off + 5 * i] == z_byte(c, 5 * i));
        assert(a[off + (5 * i + 1)] == z_byte(c, 5 * i + 1));
        assert(a[off + (5 * i + 2)] == z_byte(c, 5 * i + 2));
        assert(a[off + (5 * i + 3)] == z_byte(c, 5 * i + 3));
        assert(a[off + (5 * i + 4)] == z_byte(c, 5 * i + 4));
        assert((5 * i) / 5 == i && (5 * i + 1) / 5 == i && (5 * i + 2) / 5 == i && (5 * i + 3) / 5 == i && (5 * i + 4) / 5 == i);
        assert(j == 2 * i + j % 2);
    }
}

/// An all-zero prefix counts zero.
pub proof fn lemma_count_nonzero_zero(s: Seq<i32>, n: int)
    requires
        n <= s.len(),
        forall|t: int| 0 <= t < n ==> s[t] == 0,
    ensures
        count_nonzero(s, n) == 0,
    decreases n,
{
    if n > 0 {
        lemma_count_nonzero_zero(s, n - 1);
    }
}

} // verus!
