use crystals::fips202::{shake128_absorb, shake128_finalize, shake128_squeezeblocks, shake256, KeccakState};
use crystals::ntt::{invntt_tomont, ntt};
use crystals::poly::{
    poly_challenge, poly_chknorm, poly_uniform, poly_uniform_eta, poly_uniform_gamma1, polyt1_pack, polyt1_unpack,
    polyz_pack, polyz_unpack, rej_eta, rej_uniform, Poly,
};
use crystals::reduce::{caddq, montgomery_reduce, reduce32};
use crystals::rounding::{decompose, make_hint, power2round, use_hint};
use crystals::symmetric::{stream128_init, stream128_squeezeblocks, stream256_init, stream256_squeezeblocks};

const Q: i32 = 8380417;

fn hex(b: &[u8]) -> String {
    b.iter().map(|x| format!("{:02x}", x)).collect()
}

#[test]
fn shake256_known_answers() {
    let mut out = [0u8; 32];
    shake256(&mut out, 0, 32, &[], 0);
    assert_eq!(hex(&out), "46b9dd2b0ba88d13233b3feb743eeb243fcd52ea62b81b82b50c27646ed5762f");
    let mut out2 = [0u8; 64];
    shake256(&mut out2, 0, 64, b"abc", 3);
    assert_eq!(
        hex(&out2),
        "483366601360a8771c6863080cc4114d8db44530f8f1e1ee4f94ea37e78b5739d5a15bef186a5386c75744c0527e1faa9f8726e462a12a4feb06bd8801e751e4"
    );
}

#[test]
fn shake128_known_answer() {
    let mut st = KeccakState::new();
    shake128_absorb(&mut st, &[], 0);
    shake128_finalize(&mut st);
    let mut out = [0u8; 168];
    shake128_squeezeblocks(&mut out, 0, 1, &mut st);
    assert_eq!(hex(&out[..32]), "7f9c2ba4e88f827d616045507605853ed73b8093f6efbc88eb1a6eacfa66ef26");
}

#[test]
fn montgomery_reduce_exact_values() {
    // 2^32 * 2^-32 == 1 (mod Q)
    let r = montgomery_reduce(1i64 << 32);
    assert_eq!(((r as i64) - 1).rem_euclid(Q as i64), 0);
    assert_eq!(montgomery_reduce(0), 0);
    let a: i64 = 123456789012;
    let r = montgomery_reduce(a);
    assert!(r > -Q && r < Q);
    assert_eq!(((r as i128) * (1i128 << 32) - a as i128).rem_euclid(Q as i128), 0);
}

#[test]
fn reduce32_and_caddq_exact_values() {
    assert_eq!(reduce32(Q), 0);
    assert_eq!(reduce32(Q + 5), 5);
    assert_eq!(reduce32(-1), -1);
    assert_eq!(reduce32(2 * Q + 3), 3);
    assert_eq!(caddq(-1), Q - 1);
    assert_eq!(caddq(0), 0);
    assert_eq!(caddq(17), 17);
}

#[test]
fn power2round_exact_values() {
    assert_eq!(power2round(0), (0, 0));
    assert_eq!(power2round(4096), (0, 4096));
    assert_eq!(power2round(4097), (1, -4095));
    assert_eq!(power2round(Q - 1), (1023, 0));
}

#[test]
fn decompose_exact_values() {
    let g2 = (Q - 1) / 32;
    assert_eq!(decompose(0), (0, 0));
    assert_eq!(decompose(g2), (0, g2));
    assert_eq!(decompose(g2 + 1), (1, -g2 + 1));
    // the top value wraps to high part 0
    assert_eq!(decompose(Q - 1), (0, -1));
    for a in [1, 1000, 261888 * 2, 4000000, Q - 2] {
        let (a1, a0) = decompose(a);
        assert!(a1 >= 0 && a1 < 16);
        assert_eq!((a1 * 2 * g2 + a0 - a).rem_euclid(Q), 0);
    }
}

#[test]
fn make_hint_and_use_hint_exact_values() {
    let g2 = (Q - 1) / 32;
    assert_eq!(make_hint(g2, 0), 0);
    assert_eq!(make_hint(g2 + 1, 0), 1);
    assert_eq!(make_hint(-g2, 0), 0);
    assert_eq!(make_hint(-g2, 3), 1);
    assert_eq!(make_hint(-g2 - 1, 0), 1);
    assert_eq!(use_hint(g2 + 5, 0), 1);
    assert_eq!(use_hint(g2 + 5, 1), 0);
    assert_eq!(use_hint(3 * g2 - 5, 1), 2);
    assert_eq!(use_hint(10, 1), 1);
    assert_eq!(use_hint(Q - 1, 1), 15);
    assert_eq!(use_hint(2 * g2 * 15 + 7, 1), 0);
}

#[test]
fn chknorm_boundary() {
    let mut p = Poly::default();
    let b = 1000;
    p.coeffs[17] = b - 1;
    assert_eq!(poly_chknorm(&p, b), 0);
    p.coeffs[17] = b;
    assert_eq!(poly_chknorm(&p, b), 1);
    p.coeffs[17] = -(b - 1);
    assert_eq!(poly_chknorm(&p, b), 0);
    p.coeffs[17] = -b;
    assert_eq!(poly_chknorm(&p, b), 1);
    p.coeffs[17] = b + 1;
    assert_eq!(poly_chknorm(&p, b), 1);
    let zero = Poly::default();
    assert_eq!(poly_chknorm(&zero, (Q - 1) / 8), 0);
    assert_eq!(poly_chknorm(&zero, (Q - 1) / 8 + 1), 1);
    assert_eq!(poly_chknorm(&zero, 0), 1);
}

#[test]
fn ntt_then_inverse_scales_by_montgomery_factor() {
    let mut a = [0i32; 256];
    for i in 0..256 {
        a[i] = ((i as i32) * 7919 - 1000000) % Q;
    }
    let orig = a;
    ntt(&mut a);
    invntt_tomont(&mut a);
    let r: i64 = (1i64 << 32) % Q as i64;
    for i in 0..256 {
        assert!(a[i] > -Q && a[i] < Q);
        assert_eq!((a[i] as i64 - orig[i] as i64 * r).rem_euclid(Q as i64), 0);
    }
}

#[test]
fn rej_uniform_accepts_in_order() {
    // chunks: 1, Q (rejected), 0x7FFFFF (rejected), Q - 1, 2^23 + 5 -> 5
    let mut buf = vec![];
    for v in [1u32, Q as u32, 0x7FFFFF, (Q - 1) as u32, (1 << 23) + 5] {
        buf.extend_from_slice(&[(v & 0xFF) as u8, ((v >> 8) & 0xFF) as u8, ((v >> 16) & 0xFF) as u8]);
    }
    buf.push(0xAA);
    let mut a = [9i32; 8];
    let n = rej_uniform(&mut a, 1, 5, &buf, buf.len());
    assert_eq!(n, 3);
    assert_eq!(a, [9, 1, Q - 1, 5, 9, 9, 9, 9]);
    let mut b = [0i32; 4];
    assert_eq!(rej_uniform(&mut b, 0, 1, &buf, buf.len()), 1);
    assert_eq!(b, [1, 0, 0, 0]);
}

#[test]
fn uniform_sampling_matches_stream_and_range() {
    let seed = [42u8; 32];
    let mut p = Poly::default();
    poly_uniform(&mut p, &seed, 3);
    let mut st = KeccakState::new();
    stream128_init(&mut st, &seed, 3);
    let mut buf = vec![0u8; 168 * 5];
    stream128_squeezeblocks(&mut buf, 0, 5, &mut st);
    let mut expect = [0i32; 256];
    let n = rej_uniform(&mut expect, 0, 256, &buf, buf.len());
    for i in 0..(n as usize) {
        assert_eq!(p.coeffs[i], expect[i]);
    }
    assert!(p.coeffs.iter().all(|&c| c >= 0 && c < Q));
}

#[test]
fn uniform_sampling_is_fair() {
    // chi-square over 16 equal buckets of [0, Q)
    let mut counts = [0u64; 16];
    let mut total = 0u64;
    for s in 0..40u8 {
        let mut p = Poly::default();
        poly_uniform(&mut p, &[s; 32], s as u16);
        for &c in p.coeffs.iter() {
            let bucket = ((c as i64) * 16 / (Q as i64)) as usize;
            counts[bucket] += 1;
            total += 1;
        }
    }
    let expected = total as f64 / 16.0;
    let chi: f64 = counts.iter().map(|&c| (c as f64 - expected).powi(2) / expected).sum();
    // 15 degrees of freedom: 37.7 is the 0.1% critical value
    assert!(chi < 37.7, "chi-square {}", chi);
}

#[test]
fn challenge_has_tau_signed_ones() {
    for s in 0..5u8 {
        let mut c = Poly::default();
        poly_challenge(&mut c, &[s; 32]);
        let nonzero = c.coeffs.iter().filter(|&&x| x != 0).count();
        assert_eq!(nonzero, 49);
        assert!(c.coeffs.iter().all(|&x| x == -1 || x == 0 || x == 1));
    }
}

#[test]
fn t1_pack_unpack_round_trip() {
    let mut p = Poly::default();
    for i in 0..256 {
        p.coeffs[i] = ((i * 37 + 11) % 1024) as i32;
    }
    let mut bytes = vec![0u8; 320];
    polyt1_pack(&mut bytes, 0, &p);
    let mut q = Poly::default();
    polyt1_unpack(&mut q, &bytes, 0);
    assert_eq!(p.coeffs, q.coeffs);
    // first group: 11 | 48 << 10 ...
    assert_eq!(bytes[0], 11);
    assert_eq!(bytes[1], (48u32 << 2) as u8);
}

#[test]
fn eta_sampling_matches_stream() {
    let seed = [9u8; 64];
    let mut p = Poly::default();
    poly_uniform_eta(&mut p, &seed, 4);
    let mut st = KeccakState::new();
    stream256_init(&mut st, &seed, 4);
    let mut buf = vec![0u8; 136 * 2];
    stream256_squeezeblocks(&mut buf, 0, 2, &mut st);
    let mut expect = [0i32; 256];
    let n = rej_eta(&mut expect, 0, 256, &buf, buf.len());
    assert!(n > 200);
    for i in 0..(n as usize) {
        assert_eq!(p.coeffs[i], expect[i]);
    }
    assert!(p.coeffs.iter().all(|&c| c >= -4 && c <= 4));
}

#[test]
fn rej_eta_reads_low_half_first() {
    // 0x93: low 3 -> 1, high 9 rejected; 0x08: low 8 -> -4, high 0 -> 4
    let buf = [0x93u8, 0x08, 0xFF];
    let mut a = [7i32; 5];
    let n = rej_eta(&mut a, 1, 4, &buf, 3);
    assert_eq!(n, 3);
    assert_eq!(a, [7, 1, -4, 4, 7]);
}

#[test]
fn gamma1_sampling_unpacks_stream() {
    let seed = [5u8; 64];
    let mut p = Poly::default();
    poly_uniform_gamma1(&mut p, &seed, 11);
    let mut st = KeccakState::new();
    stream256_init(&mut st, &seed, 11);
    let mut buf = vec![0u8; 680];
    stream256_squeezeblocks(&mut buf, 0, 5, &mut st);
    let mut q = Poly::default();
    polyz_unpack(&mut q, &buf, 0);
    assert_eq!(p.coeffs, q.coeffs);
    assert!(p.coeffs.iter().all(|&c| c > -(1 << 19) && c <= (1 << 19)));
}

#[test]
fn z_pack_unpack_round_trip() {
    let mut p = Poly::default();
    for i in 0..256 {
        p.coeffs[i] = ((i as i32) * 4099) % (1 << 19) - 200000;
    }
    let mut bytes = vec![0u8; 640];
    polyz_pack(&mut bytes, 0, &p);
    let mut q = Poly::default();
    polyz_unpack(&mut q, &bytes, 0);
    assert_eq!(p.coeffs, q.coeffs);
}
