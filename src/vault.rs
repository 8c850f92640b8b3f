use vstd::prelude::*;
use crate::api::verify;
use crate::packing::{hint_valid, sig_hint_bytes};
use crate::params::{PUBLICKEYBYTES, SIGNBYTES};
use crate::sign::verify_ok;

verus! {

/// Why a vault account was not set up.
#[derive(Debug, Clone, Copy, PartialEq, Eq, Structural)]
pub enum VaultError {
    AlreadyInitialized,
    NotInitialized,
    SignatureRejected,
}

/// The stored state of a vault account: its owner's 32-byte account key,
/// whether it was set up, and the lattice public key it was set up with.
pub struct Vault {
    owner_pubkey: [u8; 32],
    is_initialized: bool,
    crystal_pubkey: [u8; PUBLICKEYBYTES],
}

/// What setting up a vault takes: a detached signature of `msg` under
/// `public_key`.
pub struct VerifyArgs {
    pub sig: [u8; SIGNBYTES],
    pub msg: Vec<u8>,
    pub public_key: [u8; PUBLICKEYBYTES],
}

impl Vault {
    /// Whether the vault was set up.
    pub closed spec fn initialized(&self) -> bool {
        self.is_initialized
    }

    /// The owner's account key.
    pub closed spec fn owner(&self) -> Seq<u8> {
        self.owner_pubkey@
    }

    /// The stored lattice public key.
    pub closed spec fn crystal_key(&self) -> Seq<u8> {
        self.crystal_pubkey@
    }

    /// A fresh account, not yet set up, with all bytes zero.
    pub fn new() -> (r: Vault)
        ensures
            !r.initialized(),
    {
        Vault { owner_pubkey: [0u8; 32], is_initialized: false, crystal_pubkey: [0u8; PUBLICKEYBYTES] }
    }

    /// Whether the vault was set up.
    pub fn is_initialized(&self) -> (r: bool)
        ensures
            r == self.initialized(),
    {
        self.is_initialized
    }

    /// The owner's account key.
    pub fn owner_pubkey(&self) -> (r: [u8; 32])
        ensures
            r@ == self.owner(),
    {
        self.owner_pubkey
    }

    /// The stored lattice public key.
    pub fn crystal_pubkey(&self) -> (r: [u8; PUBLICKEYBYTES])
        ensures
            r@ == self.crystal_key(),
    {
        self.crystal_pubkey
    }

    /// Sets the vault up once: stores the owner and the lattice public key.
    /// A vault that was already set up is left as it is.
    pub fn init(&mut self, owner_pubkey: [u8; 32], crystal_pubkey: [u8; PUBLICKEYBYTES]) -> (r: Result<(), VaultError>)
        ensures
            old(self).initialized() ==> r == Err::<(), VaultError>(VaultError::AlreadyInitialized)
                && final(self).initialized() && final(self).owner() == old(self).owner()
                && final(self).crystal_key() == old(self).crystal_key(),
            !old(self).initialized() ==> r is Ok && final(self).initialized()
                && final(self).owner() == owner_pubkey@ && final(self).crystal_key() == crystal_pubkey@,
    {
        if self.is_initialized {
            return Err(VaultError::AlreadyInitialized);
        }
        self.owner_pubkey = owner_pubkey;
        self.crystal_pubkey = crystal_pubkey;
        self.is_initialized = true;
        Ok(())
    }
}

/// Sets up `vault` for `owner` with the public key of `args`, provided the
/// signature of `args` verifies; otherwise the vault is left as it is.
pub fn init_vault_accounts(vault: &mut Vault, owner: [u8; 32], args: &VerifyArgs) -> (r: Result<(), VaultError>)
    ensures
        r == Err::<(), VaultError>(VaultError::SignatureRejected) ==> final(vault).initialized() == old(vault).initialized()
            && final(vault).owner() == old(vault).owner() && final(vault).crystal_key() == old(vault).crystal_key(),
        !hint_valid(sig_hint_bytes(args.sig@)) ==> r == Err::<(), VaultError>(VaultError::SignatureRejected),
        r is Ok <==> verify_ok(args.sig@, args.msg@, args.public_key@) && !old(vault).initialized(),
        !verify_ok(args.sig@, args.msg@, args.public_key@) ==> r == Err::<(), VaultError>(VaultError::SignatureRejected),
        r is Ok ==> !old(vault).initialized() && final(vault).initialized() && final(vault).owner() == owner@
            && final(vault).crystal_key() == args.public_key@,
        old(vault).initialized() ==> r is Err,
{
    if verify(&args.sig, args.msg.as_slice(), &args.public_key).is_err() {
        return Err(VaultError::SignatureRejected);
    }
    vault.init(owner, args.public_key)
}

} // verus!
