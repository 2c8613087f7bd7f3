use utxo_chain::address::{decode_address, encode_address, encode_payload, validate_address, AddressError};
use utxo_chain::hash::{digest_to_hex_string, generate_sk_chain_code_from_data, hash_starts_with_zero_bits, sha256, sha512};
use utxo_chain::merkle::{MerkleTree, ProofNode};
use utxo_chain::transaction::TxInput;

fn concat_hash(a: &[u8; 32], b: &[u8; 32]) -> [u8; 32] {
    let mut v = a.to_vec();
    v.extend_from_slice(b);
    sha256(&v)
}

#[test]
fn leading_zero_bits_full_and_partial_bytes() {
    let mut h = [0xFFu8; 32];
    assert!(hash_starts_with_zero_bits(&h, 0));
    assert!(!hash_starts_with_zero_bits(&h, 1));
    h[0] = 0;
    assert!(hash_starts_with_zero_bits(&h, 8));
    assert!(!hash_starts_with_zero_bits(&h, 9));
    h[1] = 0x01;
    assert!(hash_starts_with_zero_bits(&h, 15));
    assert!(!hash_starts_with_zero_bits(&h, 16));
    h[1] = 0x7F;
    assert!(hash_starts_with_zero_bits(&h, 9));
    assert!(!hash_starts_with_zero_bits(&h, 10));
    assert!(hash_starts_with_zero_bits(&[0u8; 32], 256));
}

#[test]
fn hex_rendering_of_digest() {
    let mut d = [0u8; 32];
    d[0] = 0xAB;
    d[31] = 0x0F;
    let s = digest_to_hex_string(&d);
    assert_eq!(s.len(), 64);
    assert!(s.starts_with("ab00"));
    assert!(s.ends_with("000f"));
}

#[test]
fn secret_and_chain_code_are_sha512_halves() {
    let (sk, cc) = generate_sk_chain_code_from_data(b"seed");
    let full = sha512(b"seed");
    assert_eq!(&sk[..], &full[..32]);
    assert_eq!(&cc[..], &full[32..]);
}

#[test]
fn merkle_root_of_empty_single_pair_and_odd() {
    let empty = MerkleTree::from_leaves(vec![]);
    assert_eq!(empty.root(), sha256(b""));

    let a = sha256(b"a");
    let b = sha256(b"b");
    let c = sha256(b"c");
    assert_eq!(MerkleTree::from_leaves(vec![a]).root(), a);
    assert_eq!(MerkleTree::from_leaves(vec![a, b]).root(), concat_hash(&a, &b));
    let ab = concat_hash(&a, &b);
    let cc = concat_hash(&c, &c);
    assert_eq!(MerkleTree::from_leaves(vec![a, b, c]).root(), concat_hash(&ab, &cc));
}

#[test]
fn merkle_proofs_replay_to_root() {
    let leaves: Vec<[u8; 32]> = (0u8..5).map(|i| sha256(&[i])).collect();
    let tree = MerkleTree::from_leaves(leaves.clone());
    let root = tree.root();
    for (i, leaf) in leaves.iter().enumerate() {
        let proof = tree.get_proof(i).unwrap();
        assert_eq!(proof.len(), 3);
        assert!(MerkleTree::verify_proof(leaf, &proof, &root));
    }
    assert!(tree.get_proof(5).is_none());
    let mut bad = tree.get_proof(2).unwrap();
    bad[0] = ProofNode { hash: [7u8; 32], is_left: bad[0].is_left };
    assert!(!MerkleTree::verify_proof(&leaves[2], &bad, &root));
}

#[test]
fn address_round_trip_and_errors() {
    let pk = [3u8; 32];
    let addr = encode_address(&pk);
    let payload = decode_address(&addr).unwrap();
    assert_eq!(payload.len(), 20);
    assert_eq!(encode_payload(&payload), addr);
    assert!(validate_address(&addr));

    let other = encode_address(&[4u8; 32]);
    assert_ne!(addr, other);

    assert_eq!(decode_address(b"0OIl"), Err(AddressError::NotBase58));
    assert_eq!(decode_address(b"2g"), Err(AddressError::InvalidLength));

    let mut raw = vec![0u8, 0u8];
    raw.extend_from_slice(&payload);
    let sum = sha256(&raw);
    let mut wrong_version = raw.clone();
    wrong_version[1] = 1;
    let sum2 = sha256(&wrong_version);
    wrong_version.extend_from_slice(&sum2[..4]);
    let text = bs58::encode(&wrong_version).into_vec();
    assert_eq!(decode_address(&text), Err(AddressError::InvalidVersion));

    let mut bad_sum = raw.clone();
    bad_sum.extend_from_slice(&sum[..4]);
    bad_sum[25] ^= 1;
    let text = bs58::encode(&bad_sum).into_vec();
    assert_eq!(decode_address(&text), Err(AddressError::InvalidChecksum));
}

#[test]
fn input_bytes_and_partial_form() {
    let input = TxInput { prev_tx_id: [9u8; 32], output_index: 258, signature: vec![1, 2], public_key: vec![3] };
    let bytes = input.as_bytes();
    assert_eq!(bytes.len(), 32 + 8 + 2 + 1);
    assert_eq!(&bytes[32..40], &[0, 0, 0, 0, 0, 0, 1, 2]);
    assert_eq!(&bytes[40..], &[1, 2, 3]);
    let partial = input.get_partial();
    assert!(partial.signature.is_empty());
    assert!(partial.public_key.is_empty());
    assert_eq!(partial.output_index, 258);
    assert_eq!(partial.as_bytes().len(), 40);
}

use utxo_chain::keystore::{Keystore, KeystoreError};

#[test]
fn keystore_round_trip_and_wrong_password() {
    let seed = [42u8; 32];
    let k = Keystore::seal("secret", &seed, &[1u8; 16], &[2u8; 12], 1000).unwrap();
    assert_eq!(k.salt, "01".repeat(16));
    assert_eq!(k.nonce, "02".repeat(12));
    assert_eq!(k.ciphertext.len(), 2 * (32 + 16));
    assert_eq!(k.unlock("secret", 1000), Ok(seed));
    assert_eq!(k.unlock("wrong", 1000), Err(KeystoreError::InvalidCredentials));
    let broken = Keystore { salt: "zz".to_string(), nonce: k.nonce.clone(), ciphertext: k.ciphertext.clone() };
    assert_eq!(broken.unlock("secret", 1000), Err(KeystoreError::InvalidFormat));
    let short_nonce = Keystore { salt: k.salt.clone(), nonce: "0202".to_string(), ciphertext: k.ciphertext.clone() };
    assert_eq!(short_nonce.unlock("secret", 1000), Err(KeystoreError::InvalidFormat));
}

#[test]
fn keystore_fresh_seed_opens() {
    let (seed, k) = Keystore::new_seed("pw", 1000).unwrap();
    assert_eq!(k.unlock("pw", 1000), Ok(seed));
    let (other, _) = Keystore::new_seed("pw", 1000).unwrap();
    assert_ne!(seed, other);
}
