use vstd::prelude::*;
use crate::deploy::{Account, DeployError};

verus! {

/// The 512-bit seed of a BIP-39 English mnemonic phrase with an empty passphrase, if the
/// phrase is valid.
pub uninterp spec fn bip39_seed_of(phrase: Seq<char>) -> Option<Seq<u8>>;

/// The private key that hierarchical derivation along `path` gives below the master key
/// of `seed`, if the path parses and every derived key is in range.
pub uninterp spec fn hd_secret_of(seed: Seq<u8>, path: Seq<char>) -> Option<Seq<u8>>;

/// The compressed secp256k1 public key of `secret`, if `secret` is a valid private key.
pub uninterp spec fn public_key_of(secret: Seq<u8>) -> Option<Seq<u8>>;

/// Relies on tiny-bip39's (crate `bip39`) `Mnemonic::from_phrase` with the English word
/// list to check the phrase, and on `Seed::new` with an empty passphrase for its 64-byte
/// seed.
#[verifier::external_body]
fn seed_from_mnemonic(phrase: &String) -> (r: Option<Vec<u8>>)
    ensures
        r matches Some(s) ==> bip39_seed_of(phrase@) == Some(s@) && s@.len() == 64,
        r is None ==> bip39_seed_of(phrase@) is None,
{
    match bip39::Mnemonic::from_phrase(phrase.as_str(), bip39::Language::English) {
        Ok(m) => Some(bip39::Seed::new(&m, "").as_bytes().to_vec()),
        Err(_) => None,
    }
}

/// Relies on tiny_hderive's `ExtendedPrivKey::derive` for the key at `path` below the
/// master key of `seed`, and on its `secret` for the 32 bytes of that key.
#[verifier::external_body]
fn derive_secret(seed: &Vec<u8>, path: &String) -> (r: Option<Vec<u8>>)
    ensures
        r matches Some(k) ==> hd_secret_of(seed@, path@) == Some(k@) && k@.len() == 32,
        r is None ==> hd_secret_of(seed@, path@) is None,
{
    match tiny_hderive::bip32::ExtendedPrivKey::derive(seed.as_slice(), path.as_str()) {
        Ok(key) => Some(key.secret().to_vec()),
        Err(_) => None,
    }
}

/// Relies on libsecp256k1's (crate `secp256k1`) `SecretKey::parse_slice` to read the private key,
/// `PublicKey::from_secret_key` for its public key, and `serialize_compressed` for the
/// 33 bytes of that key.
#[verifier::external_body]
fn compressed_public_key(secret: &Vec<u8>) -> (r: Option<Vec<u8>>)
    ensures
        r matches Some(p) ==> public_key_of(secret@) == Some(p@) && p@.len() == 33,
        r is None ==> public_key_of(secret@) is None,
{
    match secp256k1::SecretKey::parse_slice(secret.as_slice()) {
        Ok(key) => Some(secp256k1::PublicKey::from_secret_key(&key).serialize_compressed().to_vec()),
        Err(_) => None,
    }
}

/// A signing key pair: the private key and its compressed public key.
#[derive(Debug)]
pub struct Keypair {
    pub secret: Vec<u8>,
    pub public: Vec<u8>,
}

/// The key pair of `account`, derived from the seed of its mnemonic along its derivation
/// path.
pub fn derive_keypair(account: &Account) -> (r: Result<Keypair, DeployError>)
    ensures
        match bip39_seed_of(account.mnemonic@) {
            None => r == Err::<Keypair, DeployError>(DeployError::InvalidMnemonic { account: account.name }),
            Some(seed) => keypair_matches(account, seed, r),
        },
{
    match seed_from_mnemonic(&account.mnemonic) {
        Some(seed) => keypair_from_seed(account, &seed),
        None => Err(DeployError::InvalidMnemonic { account: account.name.clone() }),
    }
}

/// What deriving the key pair of `account` from `seed` gives.
pub open spec fn keypair_matches(account: &Account, seed: Seq<u8>, r: Result<Keypair, DeployError>) -> bool {
    match hd_secret_of(seed, account.derivation@) {
        None => r == Err::<Keypair, DeployError>(DeployError::InvalidDerivationPath { account: account.name }),
        Some(s) => match public_key_of(s) {
            None => r == Err::<Keypair, DeployError>(DeployError::InvalidSecretKey { account: account.name }),
            Some(p) => r matches Ok(kp) && kp.secret@ == s && kp.public@ == p,
        },
    }
}

/// The key pair of `account`, derived from `seed` along its derivation path.
pub fn keypair_from_seed(account: &Account, seed: &Vec<u8>) -> (r: Result<Keypair, DeployError>)
    ensures
        keypair_matches(account, seed@, r),
{
    let secret = match derive_secret(seed, &account.derivation) {
        Some(secret) => secret,
        None => return Err(DeployError::InvalidDerivationPath { account: account.name.clone() }),
    };
    match compressed_public_key(&secret) {
        Some(public) => Ok(Keypair { secret, public }),
        None => Err(DeployError::InvalidSecretKey { account: account.name.clone() }),
    }
}

} // verus!
