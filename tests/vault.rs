use crystals::params::SEEDBYTES;
use crystals::vault::{init_vault_accounts, Vault, VaultError, VerifyArgs};
use crystals::{Keypair, PUBLICKEYBYTES};

fn args_for(seed: u8, msg: &[u8]) -> VerifyArgs {
    let kp = Keypair::from_seed(&[seed; SEEDBYTES]);
    let sig = kp.sign(msg).unwrap();
    let mut public_key = [0u8; PUBLICKEYBYTES];
    public_key.copy_from_slice(kp.public_key());
    VerifyArgs { sig, msg: msg.to_vec(), public_key }
}

#[test]
fn vault_init_once() {
    let mut v = Vault::new();
    assert!(!v.is_initialized());
    let key = [3u8; PUBLICKEYBYTES];
    assert_eq!(v.init([1u8; 32], key), Ok(()));
    assert!(v.is_initialized());
    assert_eq!(v.owner_pubkey(), [1u8; 32]);
    assert_eq!(v.init([2u8; 32], [4u8; PUBLICKEYBYTES]), Err(VaultError::AlreadyInitialized));
    assert_eq!(v.owner_pubkey(), [1u8; 32]);
    assert!(v.crystal_pubkey()[..] == key[..]);
}

#[test]
fn vault_setup_with_valid_signature() {
    let args = args_for(21, b"open the vault");
    let mut v = Vault::new();
    assert_eq!(init_vault_accounts(&mut v, [9u8; 32], &args), Ok(()));
    assert!(v.is_initialized());
    assert!(v.crystal_pubkey()[..] == args.public_key[..]);
    assert_eq!(init_vault_accounts(&mut v, [9u8; 32], &args), Err(VaultError::AlreadyInitialized));
}

#[test]
fn vault_setup_refuses_bad_signature() {
    let mut args = args_for(22, b"open the vault");
    args.msg[0] ^= 1;
    let mut v = Vault::new();
    assert_eq!(init_vault_accounts(&mut v, [9u8; 32], &args), Err(VaultError::SignatureRejected));
    assert!(!v.is_initialized());
}
