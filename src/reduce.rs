use vstd::prelude::*;
use crate::params::Q;

verus! {

/// `2^32`, the Montgomery radix.
pub open spec fn mont_r() -> int {
    4294967296
}

/// `Q^-1 mod 2^32`.
pub const QINV: i64 = 58728449;

/// `a` and `b` are congruent modulo `Q`.
pub open spec fn congruent(a: int, b: int) -> bool {
    (a - b) % (Q as int) == 0
}

/// The value that `montgomery_reduce` returns on `a`: `(a - t * Q) / 2^32`
/// where `t` is the signed low word of `a * Q^-1`.
pub open spec fn mont(a: int) -> int {
    let t = ((a as i32) as int * 58728449) as i32;
    (a - t as int * Q as int) / 4294967296
}

/// Montgomery reduction: for `|a| < 2^31 * Q`, returns `r` with `|r| < Q` and
/// `r * 2^32 == a (mod Q)`.
pub fn montgomery_reduce(a: i64) -> (r: i32)
    requires
        -2147483648 * (Q as int) < a < 2147483648 * (Q as int),
    ensures
        -(Q as int) < r < Q as int,
        congruent(r as int * mont_r(), a as int),
        r as int == mont(a as int),
{
    let t: i32 = ((a as i32) as i64 * QINV) as i32;
    assert(((t as i64) * 8380417i64) as u32 == a as u32) by (bit_vector)
        requires
            t == ((a as i32) as i64 * 58728449i64) as i32,
    ;
    let d: i64 = a - (t as i64) * (Q as i64);
    assert(d as u32 == 0) by (bit_vector)
        requires
            d == a - (t as i64) * 8380417i64,
            ((t as i64) * 8380417i64) as u32 == a as u32,
    ;
    let r: i64 = d >> 32u64;
    assert(r * 4294967296i64 == d && -2147483648i64 <= r < 2147483648i64) by (bit_vector)
        requires
            d as u32 == 0,
            r == d >> 32u64,
    ;
    assert(r * 4294967296 - a == -(t as int) * (Q as int));
    assert(-(Q as int) < r < Q as int) by (nonlinear_arith)
        requires
            r * 4294967296 == a - (t as int) * 8380417,
            -2147483648 <= t < 2147483648,
            -2147483648 * 8380417 < a < 2147483648 * 8380417,
    ;
    assert(((-(t as int)) * (Q as int)) % (Q as int) == 0) by {
        vstd::arithmetic::div_mod::lemma_mod_multiples_basic(-(t as int), Q as int);
    }
    assert((d as int) / 4294967296 == r as int) by {
        vstd::arithmetic::div_mod::lemma_div_multiples_vanish(r as int, 4294967296);
    }
    r as i32
}

/// `a - floor((a + 2^22) / 2^23) * Q`.
pub open spec fn reduce32_spec(a: int) -> int {
    a - ((a + 4194304) / 8388608) * (Q as int)
}

/// For `a <= 2^31 - 2^22 - 1`, returns `r` congruent to `a` with
/// `-6283009 <= r <= 6283008`.
pub fn reduce32(a: i32) -> (r: i32)
    requires
        a <= 2147483647 - 4194304,
    ensures
        -6283009 <= r <= 6283008,
        congruent(r as int, a as int),
        r == reduce32_spec(a as int),
{
    let s: i32 = a + 4194304i32;
    let t: i32 = s >> 23u32;
    assert(t * 8388608 <= s < t * 8388608 + 8388608 && -256 <= t <= 255) by (bit_vector)
        requires
            t == s >> 23u32,
    ;
    assert(-6283009 <= a - t * 8380417 <= 6283008) by (nonlinear_arith)
        requires
            t * 8388608 <= a + 4194304 < t * 8388608 + 8388608,
            -256 <= t <= 255,
            -2147483648 <= a,
    ;
    proof {
        vstd::arithmetic::div_mod::lemma_fundamental_div_mod_converse(s as int, 8388608, t as int, s - t * 8388608);
    }
    let r: i32 = a - t * Q;
    assert(r - a == -(t as int) * (Q as int));
    assert(((-(t as int)) * (Q as int)) % (Q as int) == 0) by {
        vstd::arithmetic::div_mod::lemma_mod_multiples_basic(-(t as int), Q as int);
    }
    r
}

/// Adds `Q` to `a` if `a` is negative.
pub fn caddq(a: i32) -> (r: i32)
    requires
        a > -2147483648 + 8380417,
    ensures
        r == if a < 0 { a + Q } else { a as int },
{
    let m: i32 = (a >> 31u32) & Q;
    assert(m == if a < 0 { 8380417i32 } else { 0i32 }) by (bit_vector)
        requires
            m == (a >> 31u32) & 8380417i32,
    ;
    a + m
}

} // verus!
