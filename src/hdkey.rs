//! Hierarchical keys: a master key from a seed, children mixing the parent's
//! key, the index and the parent's chain code through SHA-512.

use vstd::prelude::*;
use crate::address::{address_of, encode_address};
use crate::bytes::{append_be_u32, append_bytes, be_u32};
use crate::hash::{generate_sk_chain_code_from_data, sha256_of, sha512_of};
use crate::signatures::{ed25519_public_of, ed25519_signature_of, public_key_of, sign_hash};

verus! {

#[derive(Debug, Clone, Copy)]
pub struct HDKey {
    pub private_key: [u8; 32],
    pub chain_code: [u8; 32],
}

pub struct KeyV {
    pub private_key: Seq<u8>,
    pub chain_code: Seq<u8>,
}

impl View for HDKey {
    type V = KeyV;

    open spec fn view(&self) -> KeyV {
        KeyV { private_key: self.private_key@, chain_code: self.chain_code@ }
    }
}

/// The key whose secret and chain code are the two halves of SHA-512(data).
pub open spec fn key_from_data(data: Seq<u8>) -> KeyV {
    KeyV {
        private_key: sha512_of(data).subrange(0, 32),
        chain_code: sha512_of(data).subrange(32, 64),
    }
}

/// The child at `index`: from `0x00 || secret || be32(index) || chain code`.
pub open spec fn child_key(k: KeyV, index: u32) -> KeyV {
    key_from_data(seq![0u8] + k.private_key + be_u32(index) + k.chain_code)
}

/// The key reached from `k` by deriving each index of `path` in turn.
pub open spec fn derive_path_key(k: KeyV, path: Seq<u32>) -> KeyV
    decreases path.len(),
{
    if path.len() == 0 {
        k
    } else {
        child_key(derive_path_key(k, path.drop_last()), path.last())
    }
}

/// The address of a key's public key.
pub open spec fn key_address(k: KeyV) -> Seq<u8> {
    address_of(ed25519_public_of(k.private_key))
}

impl HDKey {
    /// The master key of a seed.
    pub fn new(data: &[u8]) -> (r: HDKey)
        ensures
            r@ == key_from_data(data@),
    {
        let (private_key, chain_code) = generate_sk_chain_code_from_data(data);
        HDKey { private_key, chain_code }
    }

    /// The child key at `index`.
    pub fn derive_child(&self, index: u32) -> (r: HDKey)
        ensures
            r@ == child_key(self@, index),
    {
        let mut data: Vec<u8> = Vec::with_capacity(69);
        data.push(0u8);
        append_bytes(&mut data, &self.private_key);
        append_be_u32(&mut data, index);
        append_bytes(&mut data, &self.chain_code);
        assert(data@ =~= seq![0u8] + self@.private_key + be_u32(index) + self@.chain_code);
        HDKey::new(data.as_slice())
    }

    /// The Ed25519 public key.
    pub fn get_public_key(&self) -> (r: [u8; 32])
        ensures
            r@ == ed25519_public_of(self@.private_key),
    {
        public_key_of(&self.private_key)
    }

    /// The Base58Check address of the public key.
    pub fn get_address(&self) -> (r: Vec<u8>)
        ensures
            r@ == key_address(self@),
    {
        let pk = self.get_public_key();
        encode_address(&pk)
    }

    /// Ed25519 signature of SHA-256(msg).
    pub fn sign(&self, msg: &[u8]) -> (r: [u8; 64])
        ensures
            r@ == ed25519_signature_of(self@.private_key, sha256_of(msg@)),
    {
        sign_hash(&self.private_key, msg)
    }

    /// The key reached by deriving each index of `path` in turn.
    pub fn derive_path(&self, path: &[u32]) -> (r: HDKey)
        ensures
            r@ == derive_path_key(self@, path@),
    {
        let mut node = *self;
        let mut i: usize = 0;
        while i < path.len()
            invariant
                i <= path@.len(),
                node@ == derive_path_key(self@, path@.subrange(0, i as int)),
            decreases path@.len() - i,
        {
            assert(path@.subrange(0, i + 1 as int).drop_last() =~= path@.subrange(0, i as int));
            node = node.derive_child(path[i]);
            i += 1;
        }
        assert(path@.subrange(0, path@.len() as int) =~= path@);
        node
    }
}

} // verus!
