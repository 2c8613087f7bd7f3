//! Base58Check addresses: two version bytes, the RIPEMD-160 of the SHA-256
//! of a public key, and a four-byte checksum.

use vstd::prelude::*;
use crate::bytes::append_bytes;
use crate::hash::{sha256, sha256_of};

verus! {

/// The RIPEMD-160 digest of a byte sequence.
pub uninterp spec fn ripemd160_digest(data: Seq<u8>) -> [u8; 20];

/// The bytes of the RIPEMD-160 digest.
pub open spec fn ripemd160_of(data: Seq<u8>) -> Seq<u8> {
    ripemd160_digest(data)@
}

/// The Base58 text (as ASCII bytes) of a byte sequence.
pub uninterp spec fn base58_of(data: Seq<u8>) -> Seq<u8>;

/// The bytes that a Base58 text decodes to, if it is Base58.
pub uninterp spec fn base58_decoded(text: Seq<u8>) -> Option<Seq<u8>>;

/// Relies on ripemd::Ripemd160: the 20-byte digest depends on the input alone.
#[verifier::external_body]
fn ripemd160(data: &[u8]) -> (r: [u8; 20])
    ensures
        r == ripemd160_digest(data@),
{
    <ripemd::Ripemd160 as ripemd::Digest>::digest(data).into()
}

/// Relies on bs58::encode (Bitcoin alphabet): the text depends on the bytes alone.
#[verifier::external_body]
fn base58_encode(data: &[u8]) -> (r: Vec<u8>)
    ensures
        r@ == base58_of(data@),
{
    bs58::encode(data).into_vec()
}

/// Relies on bs58::decode (Bitcoin alphabet): decoding the text that
/// `bs58::encode` made of some bytes gives those bytes back.
#[verifier::external_body]
fn base58_decode(text: &[u8]) -> (r: Option<Vec<u8>>)
    ensures
        r is None <==> base58_decoded(text@) is None,
        r matches Some(v) ==> base58_decoded(text@) == Some(v@),
        r is Some <== exists|b: Seq<u8>| text@ == #[trigger] base58_of(b),
        r matches Some(v) ==> forall|b: Seq<u8>| text@ == #[trigger] base58_of(b) ==> v@ == b,
{
    bs58::decode(text).into_vec().ok()
}

/// The version prefix of every address.
pub open spec fn version_prefix() -> Seq<u8> {
    seq![0u8, 0u8]
}

/// The 20-byte payload that an address of public key `pk` carries.
pub open spec fn payload_of(pk: Seq<u8>) -> Seq<u8> {
    ripemd160_of(sha256_of(pk))
}

/// Version bytes, payload, and the first four bytes of the SHA-256 of both.
pub open spec fn checked_bytes(payload: Seq<u8>) -> Seq<u8> {
    let versioned = version_prefix() + payload;
    versioned + sha256_of(versioned).subrange(0, 4)
}

/// The address text of a 20-byte payload.
pub open spec fn address_of_payload(payload: Seq<u8>) -> Seq<u8> {
    base58_of(checked_bytes(payload))
}

/// The address text of a public key.
pub open spec fn address_of(pk: Seq<u8>) -> Seq<u8> {
    address_of_payload(payload_of(pk))
}

/// Why an address text is refused.
#[derive(Debug, Clone, Copy, PartialEq, Eq)]
pub enum AddressError {
    NotBase58,
    InvalidLength,
    InvalidVersion,
    InvalidChecksum,
}

/// What decoding gives on raw decoded bytes.
pub open spec fn check_raw(raw: Seq<u8>) -> Result<Seq<u8>, AddressError> {
    if raw.len() != 26 {
        Err(AddressError::InvalidLength)
    } else if raw.subrange(0, 2) != version_prefix() {
        Err(AddressError::InvalidVersion)
    } else if sha256_of(raw.subrange(0, 22)).subrange(0, 4) != raw.subrange(22, 26) {
        Err(AddressError::InvalidChecksum)
    } else {
        Ok(raw.subrange(2, 22))
    }
}

/// What decoding gives on an address text.
pub open spec fn decode_spec(text: Seq<u8>) -> Result<Seq<u8>, AddressError> {
    match base58_decoded(text) {
        None => Err(AddressError::NotBase58),
        Some(raw) => check_raw(raw),
    }
}

/// The address of a 20-byte payload.
pub fn encode_payload(payload: &[u8]) -> (r: Vec<u8>)
    ensures
        r@ == address_of_payload(payload@),
{
    let mut versioned: Vec<u8> = Vec::new();
    versioned.push(0u8);
    versioned.push(0u8);
    append_bytes(&mut versioned, payload);
    assert(versioned@ =~= version_prefix() + payload@);
    let digest = sha256(versioned.as_slice());
    let mut raw: Vec<u8> = Vec::new();
    append_bytes(&mut raw, versioned.as_slice());
    let mut i: usize = 0;
    while i < 4
        invariant
            i <= 4,
            digest@.len() == 32,
            raw@ == versioned@ + digest@.subrange(0, i as int),
        decreases 4 - i,
    {
        raw.push(digest[i]);
        i += 1;
        assert(raw@ =~= versioned@ + digest@.subrange(0, i as int));
    }
    assert(raw@ =~= checked_bytes(payload@));
    base58_encode(raw.as_slice())
}

/// The address of a public key.
pub fn encode_address(public_key: &[u8]) -> (r: Vec<u8>)
    ensures
        r@ == address_of(public_key@),
{
    let digest = sha256(public_key);
    let payload = ripemd160(&digest);
    encode_payload(&payload)
}

/// The payload of an address text: refused when it is not Base58, does not
/// decode to 26 bytes, has the wrong version, or a wrong checksum. Decoding
/// the address of a payload gives that payload back.
pub fn decode_address(text: &[u8]) -> (r: Result<Vec<u8>, AddressError>)
    ensures
        match r {
            Ok(p) => decode_spec(text@) == Ok::<Seq<u8>, AddressError>(p@),
            Err(e) => decode_spec(text@) == Err::<Seq<u8>, AddressError>(e),
        },
        forall|p: Seq<u8>|
            p.len() == 20 && text@ == #[trigger] address_of_payload(p) ==> (r matches Ok(q) && q@ == p),
        forall|p1: Seq<u8>, p2: Seq<u8>|
            #![trigger address_of_payload(p1), address_of_payload(p2)]
            p1.len() == 20 && p2.len() == 20 && text@ == address_of_payload(p1) && text@ == address_of_payload(p2)
                ==> p1 == p2,
{
    let raw = match base58_decode(text) {
        Some(v) => v,
        None => {
            return Err(AddressError::NotBase58);
        },
    };
    proof {
        assert forall|p: Seq<u8>| p.len() == 20 && text@ == #[trigger] address_of_payload(p) implies check_raw(
            checked_bytes(p),
        ) == Ok::<Seq<u8>, AddressError>(p) by {
            let c = checked_bytes(p);
            assert(sha256_of(version_prefix() + p).len() == 32);
            assert(c.len() == 26);
            assert(c.subrange(0, 2) =~= version_prefix());
            assert(c.subrange(22, 26) =~= sha256_of(version_prefix() + p).subrange(0, 4));
            assert(c.subrange(0, 22) =~= version_prefix() + p);
            assert(c.subrange(2, 22) =~= p);
        }
    }
    if raw.len() != 26 {
        return Err(AddressError::InvalidLength);
    }
    if raw[0] != 0 || raw[1] != 0 {
        assert(raw@.subrange(0, 2) != version_prefix()) by {
            if raw@.subrange(0, 2) == version_prefix() {
                assert(raw@.subrange(0, 2)[0] == raw@[0]);
                assert(raw@.subrange(0, 2)[1] == raw@[1]);
            }
        }
        return Err(AddressError::InvalidVersion);
    }
    assert(raw@.subrange(0, 2) =~= version_prefix());
    let mut head: Vec<u8> = Vec::new();
    let mut i: usize = 0;
    while i < 22
        invariant
            i <= 22,
            raw@.len() == 26,
            head@ == raw@.subrange(0, i as int),
        decreases 22 - i,
    {
        head.push(raw[i]);
        i += 1;
        assert(head@ =~= raw@.subrange(0, i as int));
    }
    let digest = sha256(head.as_slice());
    assert(head@ == raw@.subrange(0, 22));
    let mut k: usize = 0;
    while k < 4
        invariant
            k <= 4,
            raw@.len() == 26,
            digest@.len() == 32,
            base58_decoded(text@) == Some(raw@),
            raw@.subrange(0, 2) == version_prefix(),
            digest@ == sha256_of(raw@.subrange(0, 22)),
            forall|p: Seq<u8>|
                p.len() == 20 && text@ == #[trigger] address_of_payload(p) ==> raw@ == checked_bytes(p)
                    && check_raw(checked_bytes(p)) == Ok::<Seq<u8>, AddressError>(p),
            forall|m: int| 0 <= m < k ==> digest@[m] == raw@[22 + m],
        decreases 4 - k,
    {
        if digest[k] != raw[22 + k] {
            assert(digest@.subrange(0, 4)[k as int] != raw@.subrange(22, 26)[k as int]);
            return Err(AddressError::InvalidChecksum);
        }
        k += 1;
    }
    assert(digest@.subrange(0, 4) =~= raw@.subrange(22, 26));
    let mut payload: Vec<u8> = Vec::new();
    let mut j: usize = 2;
    while j < 22
        invariant
            2 <= j <= 22,
            raw@.len() == 26,
            payload@ == raw@.subrange(2, j as int),
        decreases 22 - j,
    {
        payload.push(raw[j]);
        j += 1;
        assert(payload@ =~= raw@.subrange(2, j as int));
    }
    Ok(payload)
}

/// Whether a text is a well-formed address.
pub fn validate_address(text: &[u8]) -> (r: bool)
    ensures
        r == decode_spec(text@) is Ok,
{
    decode_address(text).is_ok()
}

} // verus!
