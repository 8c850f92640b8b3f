use crystals::packing::{pack_pk, pack_sig, unpack_pk, unpack_sig, SIG_H_OFF};
use crystals::params::{OMEGA, SEEDBYTES};
use crystals::polyvec::{Polyveck, Polyvecl};
use crystals::sign::{crypto_sign_keypair, crypto_sign_open, crypto_sign_signature, crypto_sign_verify};
use crystals::{open, verify, Keypair, KeypairError, SignError, PUBLICKEYBYTES, SECRETKEYBYTES, SIGNBYTES};

fn keypair_from(seed: u8) -> Keypair {
    Keypair::from_seed(&[seed; SEEDBYTES])
}

fn pk_array(kp: &Keypair) -> [u8; PUBLICKEYBYTES] {
    let mut pk = [0u8; PUBLICKEYBYTES];
    pk.copy_from_slice(kp.public_key());
    pk
}

#[test]
fn zero_seed_keypair_is_deterministic() {
    let a = keypair_from(0);
    let b = keypair_from(0);
    assert!(a == b);
    assert_eq!(a.public_key().len(), PUBLICKEYBYTES);
    assert_eq!(a.expose_secret().len(), SECRETKEYBYTES);
    // rho is shared by both keys
    assert_eq!(&a.public_key()[..SEEDBYTES], &a.expose_secret()[..SEEDBYTES]);
    let c = keypair_from(1);
    assert!(a != c);
    let prefix: [u8; 16] = [
        0xf5, 0x97, 0x7c, 0x82, 0x83, 0x54, 0x6a, 0x63, 0x72, 0x3b, 0xc3, 0x1d, 0x26, 0x19, 0x12, 0x4f,
    ];
    assert_eq!(&a.public_key()[..16], &prefix[..]);
}

#[test]
fn keypair_function_matches_from_seed() {
    let mut pk = vec![0u8; PUBLICKEYBYTES];
    let mut sk = vec![0u8; SECRETKEYBYTES];
    let seed = [0u8; SEEDBYTES];
    assert_eq!(crypto_sign_keypair(&mut pk, &mut sk, Some(&seed)), 0);
    let kp = keypair_from(0);
    assert_eq!(kp.public_key(), &pk[..]);
    assert_eq!(kp.expose_secret(), &sk[..]);
}

#[test]
fn zero_seed_sign_twice_identical_and_corrupted_t1_rejected() {
    let kp = keypair_from(0);
    let msg = b"fixed message for the all-zero seed";
    let s1 = kp.sign(msg).unwrap();
    let s2 = kp.sign(msg).unwrap();
    assert!(s1[..] == s2[..]);
    let seed_prefix: [u8; 8] = [0xe3, 0x55, 0x1d, 0x78, 0x53, 0x56, 0x9a, 0x3a];
    assert_eq!(&s1[..8], &seed_prefix[..]);
    let pk = pk_array(&kp);
    assert!(verify(&s1, msg, &pk).is_ok());
    let mut bad = pk;
    bad[SEEDBYTES + 5] ^= 0x01;
    assert_eq!(verify(&s1, msg, &bad), Err(SignError::Verify));
}

#[test]
fn sign_then_verify_round_trip() {
    let messages: [&[u8]; 4] = [b"", b"a", b"hello world", &[0xABu8; 300]];
    for seed in 0..3u8 {
        let kp = keypair_from(seed);
        let pk = pk_array(&kp);
        for m in messages.iter() {
            let sig = kp.sign(m).unwrap();
            assert_eq!(verify(&sig, m, &pk), Ok(()));
            assert_eq!(open(&sig, m, &pk), Ok(()));
        }
    }
}

#[test]
fn generated_keypair_round_trip() {
    let kp = Keypair::generate();
    let pk = pk_array(&kp);
    let sig = kp.sign(b"random key").unwrap();
    assert_eq!(verify(&sig, b"random key", &pk), Ok(()));
}

#[test]
fn signing_is_deterministic() {
    let kp = keypair_from(7);
    let mut a = vec![0u8; SIGNBYTES];
    let mut b = vec![0u8; SIGNBYTES];
    assert!(crypto_sign_signature(&mut a, b"determinism", kp.expose_secret()));
    assert!(crypto_sign_signature(&mut b, b"determinism", kp.expose_secret()));
    assert_eq!(a, b);
    let c = kp.sign(b"determinism!").unwrap();
    assert!(a[..] != c[..]);
}

#[test]
fn flipped_signature_bits_fail() {
    let kp = keypair_from(3);
    let pk = pk_array(&kp);
    let msg = b"tamper";
    let sig = kp.sign(msg).unwrap();
    let mut accepted = 0;
    let mut pos = 0usize;
    let mut trials = 0;
    while pos < SIGNBYTES * 8 {
        let mut bad = sig;
        bad[pos / 8] ^= 1u8 << (pos % 8);
        if verify(&bad, msg, &pk).is_ok() {
            accepted += 1;
        }
        trials += 1;
        pos += 997;
    }
    assert!(trials >= 20);
    assert_eq!(accepted, 0);
}

#[test]
fn flipped_message_and_key_bits_fail() {
    let kp = keypair_from(4);
    let pk = pk_array(&kp);
    let msg = b"tamper with the message".to_vec();
    let sig = kp.sign(&msg).unwrap();
    for pos in [0usize, 9, 77, 150] {
        let mut bad = msg.clone();
        bad[pos / 8] ^= 1u8 << (pos % 8);
        assert_eq!(verify(&sig, &bad, &pk), Err(SignError::Verify));
    }
    for pos in [0usize, 255, 1000, 5000, 15615] {
        let mut bad = pk;
        bad[pos / 8] ^= 1u8 << (pos % 8);
        assert_eq!(verify(&sig, &msg, &bad), Err(SignError::Verify));
    }
}

#[test]
fn signature_and_key_reencode_identically() {
    let kp = keypair_from(5);
    let msg = b"canonical";
    let sig = kp.sign(msg).unwrap();
    let mut c = [0u8; SEEDBYTES];
    let mut z = Polyvecl::default();
    let mut h = Polyveck::default();
    assert!(unpack_sig(&mut c, &mut z, &mut h, &sig).is_ok());
    let mut again = vec![0u8; SIGNBYTES];
    pack_sig(&mut again, Some(&c), &z, &h);
    assert_eq!(&again[..], &sig[..]);

    let mut rho = [0u8; SEEDBYTES];
    let mut t1 = Polyveck::default();
    unpack_pk(&mut rho, &mut t1, kp.public_key());
    let mut pk = vec![0u8; PUBLICKEYBYTES];
    pack_pk(&mut pk, &rho, &t1);
    assert_eq!(&pk[..], kp.public_key());
}

fn signed(seed: u8) -> ([u8; SIGNBYTES], [u8; PUBLICKEYBYTES], Vec<u8>) {
    let kp = keypair_from(seed);
    let msg = b"hint encodings".to_vec();
    let sig = kp.sign(&msg).unwrap();
    (sig, pk_array(&kp), msg)
}

#[test]
fn hint_with_decreasing_positions_is_input_error() {
    let (sig, pk, msg) = signed(6);
    let counts = &sig[SIG_H_OFF + OMEGA..];
    // find a polynomial with at least two positions
    let mut start = 0usize;
    let mut found = None;
    for i in 0..counts.len() {
        let end = counts[i] as usize;
        if end >= start + 2 {
            found = Some(start);
            break;
        }
        start = end;
    }
    let s = found.expect("a polynomial with two hint positions");
    let mut bad = sig;
    bad.swap(SIG_H_OFF + s, SIG_H_OFF + s + 1);
    assert_eq!(verify(&bad, &msg, &pk), Err(SignError::Input));
    let mut dup = sig;
    dup[SIG_H_OFF + s + 1] = dup[SIG_H_OFF + s];
    assert_eq!(verify(&dup, &msg, &pk), Err(SignError::Input));
}

#[test]
fn hint_count_above_omega_is_input_error() {
    let (sig, pk, msg) = signed(8);
    let mut bad = sig;
    bad[SIG_H_OFF + OMEGA + 5] = (OMEGA + 1) as u8;
    assert_eq!(verify(&bad, &msg, &pk), Err(SignError::Input));
    let mut shrinking = sig;
    shrinking[SIG_H_OFF + OMEGA] = shrinking[SIG_H_OFF + OMEGA + 1].wrapping_add(1);
    assert_eq!(verify(&shrinking, &msg, &pk), Err(SignError::Input));
}

#[test]
fn hint_nonzero_trailing_byte_is_input_error() {
    let (sig, pk, msg) = signed(9);
    let total = sig[SIG_H_OFF + OMEGA + 5] as usize;
    assert!(total < OMEGA);
    let mut bad = sig;
    bad[SIG_H_OFF + OMEGA - 1] = 1;
    assert_eq!(verify(&bad, &msg, &pk), Err(SignError::Input));
}

#[test]
fn verify_rejects_wrong_lengths() {
    let (sig, pk, msg) = signed(10);
    assert_eq!(crypto_sign_verify(&sig[..SIGNBYTES - 1], &msg, &pk), Err(SignError::Input));
    assert_eq!(crypto_sign_verify(&sig, &msg, &pk[..PUBLICKEYBYTES - 1]), Err(SignError::Input));
    assert_eq!(crypto_sign_verify(&sig, &msg, &pk), Ok(()));
}

#[test]
fn open_returns_message_or_zeroes() {
    let (sig, pk, msg) = signed(11);
    let mut sm = sig.to_vec();
    sm.extend_from_slice(&msg);
    let mut out = Vec::new();
    let mut mlen = 0usize;
    assert_eq!(crypto_sign_open(&mut out, &mut mlen, &sm, &pk), Ok(()));
    assert_eq!(mlen, msg.len());
    assert_eq!(out, msg);
    let mut bad = sm.clone();
    let last = bad.len() - 1;
    bad[last] ^= 0x80;
    let mut out2 = vec![7u8; 4];
    let mut mlen2 = 9usize;
    assert_eq!(crypto_sign_open(&mut out2, &mut mlen2, &bad, &pk), Err(SignError::Verify));
    assert_eq!(mlen2, 0);
    assert_eq!(out2, vec![0u8; 4]);
    let mut out3 = Vec::new();
    let mut mlen3 = 3usize;
    assert_eq!(crypto_sign_open(&mut out3, &mut mlen3, &sm[..10], &pk), Err(SignError::Verify));
    assert_eq!(mlen3, 0);
}

#[test]
fn open_fails_on_other_message() {
    let (sig, pk, _msg) = signed(12);
    assert_eq!(open(&sig, b"another message", &pk), Err(SignError::Verify));
}

#[test]
fn restore_checks_lengths() {
    let kp = keypair_from(2);
    let r = Keypair::restore(kp.public_key().to_vec(), kp.expose_secret().to_vec()).unwrap();
    assert!(r == kp);
    assert!(matches!(Keypair::restore(vec![0u8; 3], kp.expose_secret().to_vec()), Err(KeypairError::InvalidPublicKey)));
    assert!(matches!(Keypair::restore(kp.public_key().to_vec(), vec![0u8; 3]), Err(KeypairError::InvalidSecretKey)));
}
