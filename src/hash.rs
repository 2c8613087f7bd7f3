//! Digests and the proof-of-work predicate on them.

use vstd::prelude::*;
use vstd::arithmetic::power2::{pow2, lemma2_to64};

verus! {

/// A 32-byte digest; identifies blocks and transactions.
pub type Hash32 = [u8; 32];

/// The SHA-256 digest of a byte sequence.
pub uninterp spec fn sha256_digest(data: Seq<u8>) -> [u8; 32];

/// The SHA-512 digest of a byte sequence.
pub uninterp spec fn sha512_digest(data: Seq<u8>) -> [u8; 64];

/// The bytes of the SHA-256 digest.
pub open spec fn sha256_of(data: Seq<u8>) -> Seq<u8> {
    sha256_digest(data)@
}

/// The bytes of the SHA-512 digest.
pub open spec fn sha512_of(data: Seq<u8>) -> Seq<u8> {
    sha512_digest(data)@
}

/// Relies on sha2::Sha256: the 32-byte digest depends on the input bytes alone.
#[verifier::external_body]
pub fn sha256(data: &[u8]) -> (r: [u8; 32])
    ensures
        r == sha256_digest(data@),
{
    <sha2::Sha256 as sha2::Digest>::digest(data).into()
}

/// Relies on sha2::Sha512: the 64-byte digest depends on the input bytes alone.
#[verifier::external_body]
pub fn sha512(data: &[u8]) -> (r: [u8; 64])
    ensures
        r == sha512_digest(data@),
{
    <sha2::Sha512 as sha2::Digest>::digest(data).into()
}

/// The first `n` most significant bits of `h` are zero.
pub open spec fn has_leading_zero_bits(h: Seq<u8>, n: nat) -> bool {
    &&& forall|i: int| 0 <= i < n / 8 ==> #[trigger] h[i] == 0
    &&& n % 8 != 0 ==> (h[(n / 8) as int] as nat) < pow2((8 - n % 8) as nat)
}

/// Two digests are equal byte for byte.
pub fn hash_eq(a: &Hash32, b: &Hash32) -> (r: bool)
    ensures
        r == (a@ == b@),
{
    let mut i: usize = 0;
    while i < 32
        invariant
            i <= 32,
            forall|k: int| 0 <= k < i ==> a@[k] == b@[k],
        decreases 32 - i,
    {
        if a[i] != b[i] {
            return false;
        }
        i += 1;
    }
    assert(a@ =~= b@);
    true
}

proof fn lemma_mask_bound(b: u8, s: u8)
    requires
        1 <= s <= 7,
    ensures
        ((b & (0xFFu8 << s)) == 0) == ((b as nat) < pow2(s as nat)),
{
    assert(((b & (0xFFu8 << s)) == 0) == (b < (1u8 << s))) by (bit_vector)
        requires
            1 <= s <= 7,
    ;
    lemma2_to64();
    if s == 1 {
        assert((1u8 << 1u8) == 2) by (bit_vector);
    } else if s == 2 {
        assert((1u8 << 2u8) == 4) by (bit_vector);
    } else if s == 3 {
        assert((1u8 << 3u8) == 8) by (bit_vector);
    } else if s == 4 {
        assert((1u8 << 4u8) == 16) by (bit_vector);
    } else if s == 5 {
        assert((1u8 << 5u8) == 32) by (bit_vector);
    } else if s == 6 {
        assert((1u8 << 6u8) == 64) by (bit_vector);
    } else {
        assert((1u8 << 7u8) == 128) by (bit_vector);
    }
}

/// Proof-of-work test: whole zero bytes first, then a mask on the partial byte.
pub fn hash_starts_with_zero_bits(hash: &Hash32, n: usize) -> (r: bool)
    requires
        n <= 256,
    ensures
        r == has_leading_zero_bits(hash@, n as nat),
{
    let full_bytes: usize = n / 8;
    let remaining_bits: usize = n % 8;
    let mut i: usize = 0;
    while i < full_bytes
        invariant
            full_bytes == n / 8,
            full_bytes <= 32,
            i <= full_bytes,
            forall|k: int| 0 <= k < i ==> hash@[k] == 0,
        decreases full_bytes - i,
    {
        if hash[i] != 0 {
            return false;
        }
        i += 1;
    }
    if remaining_bits > 0 {
        let s: u8 = (8 - remaining_bits) as u8;
        let mask: u8 = 0xFFu8 << s;
        proof {
            lemma_mask_bound(hash@[full_bytes as int], s);
        }
        if hash[full_bytes] & mask != 0 {
            return false;
        }
    }
    true
}

/// Splits the SHA-512 digest of `data` into a 32-byte secret key (low half)
/// and a 32-byte chain code (high half).
pub fn generate_sk_chain_code_from_data(data: &[u8]) -> (r: ([u8; 32], [u8; 32]))
    ensures
        r.0@ == sha512_of(data@).subrange(0, 32),
        r.1@ == sha512_of(data@).subrange(32, 64),
{
    let digest = sha512(data);
    let mut sk: [u8; 32] = [0u8; 32];
    let mut cc: [u8; 32] = [0u8; 32];
    let mut i: usize = 0;
    while i < 32
        invariant
            i <= 32,
            digest@ == sha512_of(data@),
            digest@.len() == 64,
            forall|k: int| 0 <= k < i ==> sk@[k] == digest@[k],
            forall|k: int| 0 <= k < i ==> cc@[k] == digest@[k + 32],
        decreases 32 - i,
    {
        sk[i] = digest[i];
        cc[i] = digest[i + 32];
        i += 1;
    }
    assert(sk@ =~= digest@.subrange(0, 32));
    assert(cc@ =~= digest@.subrange(32, 64));
    (sk, cc)
}


/// The lowercase hexadecimal digit of `n < 16`.
pub open spec fn hex_digit(n: u8) -> char {
    if n < 10 {
        ((n + 48) as u8) as char
    } else {
        ((n + 87) as u8) as char
    }
}

/// Two lowercase hexadecimal digits per byte, high nibble first.
pub open spec fn hex_of(b: Seq<u8>) -> Seq<char>
    decreases b.len(),
{
    if b.len() == 0 {
        Seq::empty()
    } else {
        hex_of(b.drop_last()) + seq![hex_digit(b.last() / 16), hex_digit(b.last() % 16)]
    }
}

/// Relies on hex::encode: two lowercase hexadecimal digits per byte, in order.
#[verifier::external_body]
fn hex_encode(data: &[u8]) -> (r: String)
    ensures
        r@ == hex_of(data@),
{
    hex::encode(data)
}

/// The digest as 64 lowercase hexadecimal digits.
pub fn digest_to_hex_string(digest: &Hash32) -> (r: String)
    ensures
        r@ == hex_of(digest@),
{
    hex_encode(digest)
}


/// Any byte string as lowercase hexadecimal digits.
pub fn hex_string(data: &[u8]) -> (r: String)
    ensures
        r@ == hex_of(data@),
{
    hex_encode(data)
}

} // verus!
