//! The encrypted seed: PBKDF2-HMAC-SHA-256 turns the password and a salt
//! into an AES-256-GCM key that seals the 32-byte seed.

use vstd::prelude::*;
use crate::hash::{hex_of, hex_string};

verus! {

/// PBKDF2 rounds for keystores this library writes.
pub const PBKDF2_ITERATIONS: u32 = 600_000;

/// The PBKDF2-HMAC-SHA-256 key of a password (as text) and salt.
pub uninterp spec fn pbkdf2_key(password: Seq<char>, salt: Seq<u8>, rounds: u32) -> [u8; 32];

/// The AES-256-GCM ciphertext and tag of `plaintext` under `key` and `nonce`.
pub uninterp spec fn aes_gcm_sealed(key: Seq<u8>, nonce: Seq<u8>, plaintext: Seq<u8>) -> Seq<u8>;

/// Relies on pbkdf2::pbkdf2_hmac_array with sha2::Sha256: a 32-byte key
/// that depends on the password's UTF-8 bytes, the salt and the rounds alone.
#[verifier::external_body]
fn pbkdf2_sha256(password: &str, salt: &[u8], rounds: u32) -> (r: [u8; 32])
    ensures
        r == pbkdf2_key(password@, salt@, rounds),
{
    pbkdf2::pbkdf2_hmac_array::<sha2::Sha256, 32>(password.as_bytes(), salt, rounds)
}

/// Relies on aes_gcm::Aes256Gcm's `Aead::encrypt`: ciphertext followed by the
/// tag; it fails only for a plaintext over 2^36 bytes.
#[verifier::external_body]
fn aes_gcm_seal(key: &[u8; 32], nonce: &[u8], plaintext: &[u8]) -> (r: Option<Vec<u8>>)
    requires
        nonce@.len() == 12,
    ensures
        r matches Some(c) ==> c@ == aes_gcm_sealed(key@, nonce@, plaintext@),
        r is Some <== plaintext@.len() <= 68719476736,
{
    let cipher = <aes_gcm::Aes256Gcm as aes_gcm::KeyInit>::new(&(*key).into());
    <aes_gcm::Aes256Gcm as aes_gcm::aead::Aead>::encrypt(&cipher, aes_gcm::Nonce::from_slice(nonce), plaintext).ok()
}

/// Relies on aes_gcm::Aes256Gcm's `Aead::decrypt`: it succeeds on a
/// ciphertext that sealing some plaintext of at most 2^36 bytes under the key
/// and nonce gives, and returns that plaintext; whatever it returns seals to
/// the ciphertext and is at most 2^36 + 16 bytes, as ciphertexts whose part
/// before the tag is longer are refused.
#[verifier::external_body]
fn aes_gcm_open(key: &[u8; 32], nonce: &[u8], ciphertext: &[u8]) -> (r: Option<Vec<u8>>)
    requires
        nonce@.len() == 12,
    ensures
        r matches Some(p) ==> ciphertext@ == aes_gcm_sealed(key@, nonce@, p@) && p@.len() <= 68719476752,
        r matches Some(p) ==> forall|q: Seq<u8>|
            q.len() <= 68719476736 && ciphertext@ == #[trigger] aes_gcm_sealed(key@, nonce@, q) ==> p@ == q,
        r is Some <== exists|q: Seq<u8>|
            q.len() <= 68719476736 && ciphertext@ == #[trigger] aes_gcm_sealed(key@, nonce@, q),
{
    let cipher = <aes_gcm::Aes256Gcm as aes_gcm::KeyInit>::new(&(*key).into());
    <aes_gcm::Aes256Gcm as aes_gcm::aead::Aead>::decrypt(&cipher, aes_gcm::Nonce::from_slice(nonce), ciphertext).ok()
}

/// Relies on hex::decode: the lowercase hexadecimal text of some bytes
/// decodes to those bytes.
#[verifier::external_body]
fn hex_decode(text: &str) -> (r: Option<Vec<u8>>)
    ensures
        r is Some <== exists|b: Seq<u8>| text@ == #[trigger] hex_of(b),
        r matches Some(v) ==> forall|b: Seq<u8>| text@ == #[trigger] hex_of(b) ==> v@ == b,
{
    hex::decode(text).ok()
}

/// Relies on rand's `thread_rng` and `RngCore::fill_bytes`: `n` random bytes.
#[verifier::external_body]
fn random_bytes(n: usize) -> (r: Vec<u8>)
    ensures
        r@.len() == n,
{
    let mut v = vec![0u8; n];
    rand::RngCore::fill_bytes(&mut rand::thread_rng(), &mut v);
    v
}

/// Why a keystore cannot be written or opened.
#[derive(Debug, Clone, Copy, PartialEq, Eq)]
pub enum KeystoreError {
    InvalidFormat,
    InvalidCredentials,
    EncryptionFailed,
}

/// The encrypted seed, each field as lowercase hexadecimal text.
#[derive(Debug, Clone)]
pub struct Keystore {
    pub salt: String,
    pub nonce: String,
    pub ciphertext: String,
}

/// The keystore that sealing `seed` with `password`, `salt` and `nonce` gives.
pub open spec fn sealed_keystore(
    password: Seq<char>,
    seed: Seq<u8>,
    salt: Seq<u8>,
    nonce: Seq<u8>,
    rounds: u32,
) -> (Seq<char>, Seq<char>, Seq<char>) {
    (hex_of(salt), hex_of(nonce), hex_of(aes_gcm_sealed(pbkdf2_key(password, salt, rounds)@, nonce, seed)))
}

/// `k` is what sealing `seed` with `password` under some salt and nonce gives.
pub open spec fn seals(k: Keystore, password: Seq<char>, seed: Seq<u8>, rounds: u32) -> bool {
    exists|salt: Seq<u8>, nonce: Seq<u8>|
        salt.len() == 16 && nonce.len() == 12 && (k.salt@, k.nonce@, k.ciphertext@) == #[trigger] sealed_keystore(
            password,
            seed,
            salt,
            nonce,
            rounds,
        )
}

impl Keystore {
    /// Seals a 32-byte seed under a key derived from `password` and a 16-byte salt.
    pub fn seal(password: &str, seed: &[u8], salt: &[u8], nonce: &[u8], rounds: u32) -> (r: Result<Keystore, KeystoreError>)
        requires
            seed@.len() == 32,
            salt@.len() == 16,
            nonce@.len() == 12,
        ensures
            r matches Ok(k) ==> (k.salt@, k.nonce@, k.ciphertext@) == sealed_keystore(password@, seed@, salt@, nonce@, rounds),
            r is Ok,
    {
        let key = pbkdf2_sha256(password, salt, rounds);
        let ciphertext = match aes_gcm_seal(&key, nonce, seed) {
            Some(c) => c,
            None => {
                return Err(KeystoreError::EncryptionFailed);
            },
        };
        Ok(Keystore { salt: hex_string(salt), nonce: hex_string(nonce), ciphertext: hex_string(ciphertext.as_slice()) })
    }

    /// A fresh random seed, sealed with `password` under a random salt and
    /// nonce; returns the seed and its keystore.
    pub fn new_seed(password: &str, rounds: u32) -> (r: Result<([u8; 32], Keystore), KeystoreError>)
        ensures
            r is Ok,
            r matches Ok(pair) ==> seals(pair.1, password@, pair.0@, rounds),
    {
        let seed_bytes = random_bytes(32);
        let salt = random_bytes(16);
        let nonce = random_bytes(12);
        let k = match Keystore::seal(password, seed_bytes.as_slice(), salt.as_slice(), nonce.as_slice(), rounds) {
            Ok(k) => k,
            Err(e) => {
                return Err(e);
            },
        };
        let mut seed: [u8; 32] = [0u8; 32];
        let mut i: usize = 0;
        while i < 32
            invariant
                i <= 32,
                seed_bytes@.len() == 32,
                salt@.len() == 16,
                nonce@.len() == 12,
                (k.salt@, k.nonce@, k.ciphertext@) == sealed_keystore(password@, seed_bytes@, salt@, nonce@, rounds),
                forall|m: int| 0 <= m < i ==> seed@[m] == seed_bytes@[m],
            decreases 32 - i,
        {
            seed[i] = seed_bytes[i];
            i += 1;
        }
        assert(seed@ =~= seed_bytes@);
        assert(sealed_keystore(password@, seed@, salt@, nonce@, rounds) == (k.salt@, k.nonce@, k.ciphertext@));
        let pair = (seed, k);
        assert(seals(pair.1, password@, pair.0@, rounds));
        Ok(pair)
    }

    /// Opens the keystore with `password`: malformed fields are
    /// `InvalidFormat`, a wrong password is `InvalidCredentials`. Opening what
    /// sealing a seed gave returns that seed.
    pub fn unlock(&self, password: &str, rounds: u32) -> (r: Result<[u8; 32], KeystoreError>)
        ensures
            forall|seed: Seq<u8>, salt: Seq<u8>, nonce: Seq<u8>|
                seed.len() == 32 && nonce.len() == 12 && (self.salt@, self.nonce@, self.ciphertext@)
                    == #[trigger] sealed_keystore(password@, seed, salt, nonce, rounds) ==> (r matches Ok(s) && s@ == seed),
            forall|salt: Seq<u8>, nonce: Seq<u8>, c: Seq<u8>|
                #![trigger hex_of(salt), hex_of(nonce), hex_of(c)]
                self.salt@ == hex_of(salt) && self.nonce@ == hex_of(nonce) && self.ciphertext@ == hex_of(c)
                    && nonce.len() == 12 && !(exists|q: Seq<u8>| q.len() <= 68719476752 && c == #[trigger] aes_gcm_sealed(
                    pbkdf2_key(password@, salt, rounds)@,
                    nonce,
                    q,
                )) ==> r == Err::<[u8; 32], KeystoreError>(KeystoreError::InvalidCredentials),
    {
        let salt = match hex_decode(self.salt.as_str()) {
            Some(v) => v,
            None => {
                return Err(KeystoreError::InvalidFormat);
            },
        };
        let nonce = match hex_decode(self.nonce.as_str()) {
            Some(v) => v,
            None => {
                return Err(KeystoreError::InvalidFormat);
            },
        };
        let ciphertext = match hex_decode(self.ciphertext.as_str()) {
            Some(v) => v,
            None => {
                return Err(KeystoreError::InvalidFormat);
            },
        };
        if nonce.len() != 12 {
            return Err(KeystoreError::InvalidFormat);
        }
        let key = pbkdf2_sha256(password, salt.as_slice(), rounds);
        let plain = match aes_gcm_open(&key, nonce.as_slice(), ciphertext.as_slice()) {
            Some(p) => p,
            None => {
                return Err(KeystoreError::InvalidCredentials);
            },
        };
        if plain.len() != 32 {
            return Err(KeystoreError::InvalidFormat);
        }
        let mut seed: [u8; 32] = [0u8; 32];
        let mut i: usize = 0;
        while i < 32
            invariant
                i <= 32,
                plain@.len() == 32,
                forall|m: int| 0 <= m < i ==> seed@[m] == plain@[m],
            decreases 32 - i,
        {
            seed[i] = plain[i];
            i += 1;
        }
        assert(seed@ =~= plain@);
        Ok(seed)
    }
}

} // verus!
