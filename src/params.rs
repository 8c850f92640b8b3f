use vstd::prelude::*;

verus! {

/// Ring dimension: every polynomial has this many coefficients.
pub const N: usize = 256;

pub const N_U32: u32 = 256;

/// The prime modulus.
pub const Q: i32 = 8380417;

pub const Q_I32: i32 = 8380417;

/// Number of low-order bits dropped from `t` by power-of-two rounding.
pub const D: u32 = 13;

/// Length of the tall vectors (rows of the matrix).
pub const K: usize = 6;

/// Length of the short vectors (columns of the matrix).
pub const L: usize = 5;

pub const L_U16: u16 = 5;

/// Range of the secret coefficients.
pub const ETA: i32 = 4;

/// Number of nonzero coefficients of a challenge.
pub const TAU: usize = 49;

/// `TAU * ETA`.
pub const BETA: i32 = 196;

/// Range of the masking vector `y`.
pub const GAMMA1: i32 = 524288;

pub const GAMMA1_I32: i32 = 524288;

/// Low-order rounding range of `decompose`: `(Q - 1) / 32`.
pub const GAMMA2: i32 = 261888;

pub const GAMMA2_I32: i32 = 261888;

/// Largest number of set hint bits in a signature.
pub const OMEGA: usize = 55;

pub const OMEGA_U8: u8 = 55;

pub const SEEDBYTES: usize = 32;

pub const CRHBYTES: usize = 64;

pub const POLYT1_PACKEDBYTES: usize = 320;

pub const POLYT0_PACKEDBYTES: usize = 416;

pub const POLYETA_PACKEDBYTES: usize = 128;

pub const POLYZ_PACKEDBYTES: usize = 640;

pub const POLYW1_PACKEDBYTES: usize = 128;

pub const POLYVECH_PACKEDBYTES: usize = 61;

/// `SEEDBYTES + K * POLYT1_PACKEDBYTES`.
pub const PUBLICKEYBYTES: usize = 1952;

/// `3 * SEEDBYTES + L * POLYETA_PACKEDBYTES + K * POLYETA_PACKEDBYTES + K * POLYT0_PACKEDBYTES`.
pub const SECRETKEYBYTES: usize = 4000;

/// `SEEDBYTES + L * POLYZ_PACKEDBYTES + POLYVECH_PACKEDBYTES`.
pub const SIGNBYTES: usize = 3293;

} // verus!
