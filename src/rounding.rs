use vstd::prelude::*;
use crate::params::{GAMMA2, Q};

verus! {

/// Split of `a` into `a1 * 2^D + a0` with `a0` in `(-2^(D-1), 2^(D-1)]`.
pub open spec fn power2round_spec(a: int) -> (int, int) {
    let a1 = (a + 4095) / 8192;
    (a1, a - a1 * 8192)
}

/// High and low parts of `a` (in `[0, Q)`) for the split at `2 * GAMMA2`:
/// `a0` is the centered remainder of `a` modulo `2 * GAMMA2`, and
/// `a1 = (a - a0) / (2 * GAMMA2)`, except that where `a - a0 == Q - 1` the
/// high part wraps to 0 and the low part becomes `a0 - 1`.
pub open spec fn decompose_spec(a: int) -> (int, int) {
    let m = 2 * GAMMA2 as int;
    let r = a % m;
    let a0 = if r > GAMMA2 { r - m } else { r };
    if a - a0 == Q - 1 {
        (0, a0 - 1)
    } else {
        ((a - a0) / m, a0)
    }
}

/// The hint bit: whether the low part `a0` moves the high part `a1` away.
pub open spec fn make_hint_spec(a0: int, a1: int) -> bool {
    a0 > GAMMA2 || a0 < -GAMMA2 || (a0 == -GAMMA2 && a1 != 0)
}

/// The high part of `a` corrected by the hint bit `hint`.
pub open spec fn use_hint_spec(a: int, hint: bool) -> int {
    let (a1, a0) = decompose_spec(a);
    if !hint {
        a1
    } else if a0 > 0 {
        if a1 == 15 { 0 } else { a1 + 1 }
    } else {
        if a1 == 0 { 15 } else { a1 - 1 }
    }
}

/// Splits `a` into `a1 * 2^D + a0`; `a` may lie slightly outside `[0, Q)`.
pub fn power2round(a: i32) -> (r: (i32, i32))
    requires
        -4095 <= a < Q + 4096,
    ensures
        (r.0 as int, r.1 as int) == power2round_spec(a as int),
        a == r.0 * 8192 + r.1,
        -4096 < r.1 <= 4096,
        0 <= r.0 < 1024,
{
    let a1: i32 = (a + 4095) / 8192;
    let a0: i32 = a - a1 * 8192;
    (a1, a0)
}

/// High and low parts of `a` in `[0, Q)`.
pub fn decompose(a: i32) -> (r: (i32, i32))
    requires
        0 <= a < Q,
    ensures
        (r.0 as int, r.1 as int) == decompose_spec(a as int),
        0 <= r.0 < 16,
        -GAMMA2 <= r.1 <= GAMMA2,
{
    let m: i32 = 2 * GAMMA2;
    let rem: i32 = a % m;
    let a0: i32 = if rem > GAMMA2 { rem - m } else { rem };
    if a - a0 == Q - 1 {
        (0, a0 - 1)
    } else {
        assert((a - a0) % (m as int) == 0) by {
            vstd::arithmetic::div_mod::lemma_fundamental_div_mod(a as int, m as int);
        }
        assert(0 <= (a - a0) / (m as int) < 16) by {
            vstd::arithmetic::div_mod::lemma_fundamental_div_mod(a as int, m as int);
        }
        ((a - a0) / m, a0)
    }
}

/// Whether the low part `a0` carries into the high part `a1`.
pub fn make_hint(a0: i32, a1: i32) -> (r: u8)
    ensures
        r == (if make_hint_spec(a0 as int, a1 as int) { 1u8 } else { 0u8 }),
{
    if a0 > GAMMA2 || a0 < -GAMMA2 || (a0 == -GAMMA2 && a1 != 0) {
        1
    } else {
        0
    }
}

/// The high part of `a` in `[0, Q)`, corrected by the hint bit.
pub fn use_hint(a: i32, hint: u8) -> (r: i32)
    requires
        0 <= a < Q,
    ensures
        r as int == use_hint_spec(a as int, hint != 0),
        0 <= r < 16,
{
    let (a1, a0) = decompose(a);
    if hint == 0 {
        a1
    } else if a0 > 0 {
        if a1 == 15 { 0 } else { a1 + 1 }
    } else {
        if a1 == 0 { 15 } else { a1 - 1 }
    }
}

} // verus!
