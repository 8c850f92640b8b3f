use vstd::prelude::*;
use crate::fips202::shake256_spec;
use crate::packing::{hint_valid, sig_hint_bytes};
use crate::params::K;
use crate::polyvec::{Polyveck, Polyvecl};
use crate::params::{PUBLICKEYBYTES, SECRETKEYBYTES, SEEDBYTES, SIGNBYTES};
use crate::sign::{
    attempt_accepts, attempt_signature, keygen_relation, crypto_sign_keypair, MAX_SIGN_ATTEMPTS, crypto_sign_open, crypto_sign_signature, crypto_sign_verify,
    verify_commits, verify_ok, z_too_large,
};

verus! {

/// A public key and its secret key, both packed. The secret key is only
/// handed out by `expose_secret`.
#[derive(Clone, PartialEq, Eq, Hash)]
pub struct Keypair {
    public: Vec<u8>,
    secret: Vec<u8>,
}

/// Why a signature was refused: structurally malformed input, or a
/// signature that does not verify.
#[derive(Debug, Clone, Copy, PartialEq, Eq, Structural)]
pub enum SignError {
    Input,
    Verify,
}

/// Why packed key material was refused.
#[derive(Debug, Clone, Copy, PartialEq, Eq, Structural)]
pub enum KeypairError {
    InvalidPublicKey,
    InvalidSecretKey,
}

impl Keypair {
    /// The packed public key.
    pub closed spec fn public_view(&self) -> Seq<u8> {
        self.public@
    }

    /// The packed secret key.
    pub closed spec fn secret_view(&self) -> Seq<u8> {
        self.secret@
    }

    /// Both keys have their packed lengths.
    pub open spec fn wf(&self) -> bool {
        self.public_view().len() == PUBLICKEYBYTES && self.secret_view().len() == SECRETKEYBYTES
    }

    /// Explicitly exposes the packed secret key.
    pub fn expose_secret(&self) -> (r: &[u8])
        ensures
            r@ == self.secret_view(),
    {
        self.secret.as_slice()
    }

    /// The packed public key.
    pub fn public_key(&self) -> (r: &[u8])
        ensures
            r@ == self.public_view(),
    {
        self.public.as_slice()
    }

    /// Generates a key pair from fresh random bytes.
    pub fn generate() -> (r: Keypair)
        ensures
            r.wf(),
            r.secret_view().subrange(32, 64) == shake256_spec(r.public_view(), 32),
            exists|sb: Seq<u8>, mat: [Polyvecl; K], s1: Polyvecl, s1hat: Polyvecl, s2: Polyveck|
                #[trigger] keygen_relation(r.public_view(), r.secret_view(), sb, mat, s1, s1hat, s2),
    {
        let mut public = vec![0u8; PUBLICKEYBYTES];
        let mut secret = vec![0u8; SECRETKEYBYTES];
        crypto_sign_keypair(public.as_mut_slice(), secret.as_mut_slice(), None);
        Keypair { public, secret }
    }

    /// Generates the key pair determined by `seed`.
    pub fn from_seed(seed: &[u8; SEEDBYTES]) -> (r: Keypair)
        ensures
            r.wf(),
            r.secret_view().subrange(0, 32) == r.public_view().subrange(0, 32),
            r.secret_view().subrange(32, 64) == shake256_spec(r.public_view(), 32),
            exists|mat: [Polyvecl; K], s1: Polyvecl, s1hat: Polyvecl, s2: Polyveck|
                #[trigger] keygen_relation(r.public_view(), r.secret_view(), shake256_spec(seed@, 128), mat, s1, s1hat, s2),
    {
        let mut public = vec![0u8; PUBLICKEYBYTES];
        let mut secret = vec![0u8; SECRETKEYBYTES];
        crypto_sign_keypair(public.as_mut_slice(), secret.as_mut_slice(), Some(seed.as_slice()));
        assert(seed@.take(32) =~= seed@);
        Keypair { public, secret }
    }

    /// Restores a key pair from its packed keys. Fails when either has the
    /// wrong length, the public key first.
    pub fn restore(pub_bytes: Vec<u8>, sec_bytes: Vec<u8>) -> (r: Result<Self, KeypairError>)
        ensures
            pub_bytes@.len() != PUBLICKEYBYTES ==> r == Err::<Self, KeypairError>(KeypairError::InvalidPublicKey),
            pub_bytes@.len() == PUBLICKEYBYTES && sec_bytes@.len() != SECRETKEYBYTES ==> r == Err::<Self, KeypairError>(KeypairError::InvalidSecretKey),
            r is Ok <==> pub_bytes@.len() == PUBLICKEYBYTES && sec_bytes@.len() == SECRETKEYBYTES,
            r is Ok ==> r.unwrap().public_view() == pub_bytes@ && r.unwrap().secret_view() == sec_bytes@,
    {
        if pub_bytes.len() != PUBLICKEYBYTES {
            return Err(KeypairError::InvalidPublicKey);
        }
        if sec_bytes.len() != SECRETKEYBYTES {
            return Err(KeypairError::InvalidSecretKey);
        }
        Ok(Keypair { public: pub_bytes, secret: sec_bytes })
    }

    /// Signs `msg`. `None` only where every signing attempt was rejected,
    /// which does not happen in practice.
    #[verifier::spinoff_prover]
    #[verifier::rlimit(100)]
    pub fn sign(&self, msg: &[u8]) -> (r: Option<[u8; SIGNBYTES]>)
        requires
            self.wf(),
        ensures
            r is Some ==> exists|n: int| 0 <= n < MAX_SIGN_ATTEMPTS && #[trigger] attempt_accepts(self.secret_view(), msg@, n)
                && attempt_signature(r.unwrap()@, self.secret_view(), msg@, n)
                && forall|x: int| 0 <= x < n ==> !#[trigger] attempt_accepts(self.secret_view(), msg@, x),
            r is None ==> forall|n: int| 0 <= n < MAX_SIGN_ATTEMPTS ==> !#[trigger] attempt_accepts(self.secret_view(), msg@, n),
            r is Some ==> hint_valid(sig_hint_bytes(r.unwrap()@)) && !z_too_large(r.unwrap()@),
    {
        let mut sig = [0u8; SIGNBYTES];
        if crypto_sign_signature(&mut sig, msg, self.secret.as_slice()) {
            Some(sig)
        } else {
            None
        }
    }
}

/// Verifies the detached signature `sig` of `msg` under `public_key`.
/// Fails with `Input` exactly when the hint bytes of `sig` are malformed,
/// and otherwise with `Verify` when the signature does not verify.
pub fn verify(sig: &[u8; SIGNBYTES], msg: &[u8], public_key: &[u8; PUBLICKEYBYTES]) -> (r: Result<(), SignError>)
    ensures
        r is Ok <==> verify_ok(sig@, msg@, public_key@),
        r == Err::<(), SignError>(SignError::Input) <==> !hint_valid(sig_hint_bytes(sig@)),
        r is Err && r != Err::<(), SignError>(SignError::Input) ==> r == Err::<(), SignError>(SignError::Verify),
{
    crypto_sign_verify(sig.as_slice(), msg, public_key.as_slice())
}

/// Opens the signed message `sig || msg` under `public_key`: succeeds
/// exactly where the signature verifies; every failure is `Verify`.
pub fn open(sig: &[u8; SIGNBYTES], msg: &[u8], public_key: &[u8; PUBLICKEYBYTES]) -> (r: Result<(), SignError>)
    ensures
        r is Ok <==> verify_ok(sig@, msg@, public_key@),
        r is Err ==> r == Err::<(), SignError>(SignError::Verify),
{
    let mut sm: Vec<u8> = Vec::new();
    let mut i: usize = 0;
    while i < SIGNBYTES
        invariant
            i <= SIGNBYTES,
            sm@ == sig@.take(i as int),
        decreases SIGNBYTES - i,
    {
        sm.push(sig[i]);
        assert(sm@ =~= sig@.take(i + 1));
        i = i + 1;
    }
    let mut j: usize = 0;
    while j < msg.len()
        invariant
            j <= msg@.len(),
            sm@ == sig@ + msg@.take(j as int),
        decreases msg@.len() - j,
    {
        sm.push(msg[j]);
        assert(sm@ =~= sig@ + msg@.take(j + 1));
        j = j + 1;
    }
    assert(sm@.subrange(0, SIGNBYTES as int) =~= sig@);
    assert(sm@.subrange(SIGNBYTES as int, sm@.len() as int) =~= msg@);
    let mut out: Vec<u8> = Vec::new();
    let mut mlen: usize = 0;
    crypto_sign_open(&mut out, &mut mlen, sm.as_slice(), public_key.as_slice())
}

} // verus!
