//! Digests and BLS signatures.
//!
//! Signatures are BLS12-381 in the variant with 48-byte public keys and
//! 96-byte signatures.

use vstd::prelude::*;

use crate::bytes::Hash32;

verus! {

/// Length of a compressed public key.
pub const BLS_PUBLIC_KEY_BYTES: usize = 48;

/// Length of a compressed signature.
pub const BLS_SIGNATURE_BYTES: usize = 96;

/// The domain that all signatures are made and verified in.
pub const SIGNATURE_DOMAIN: &'static str = "BLS_SIG_BLS12381G2_XMD:SHA-256_SSWU_RO_POP_";

/// The SHA-256 digest of a byte string.
pub uninterp spec fn sha256(data: Seq<u8>) -> Hash32;

/// The public key that belongs to a secret seed.
pub uninterp spec fn bls_public_key(seed: Seq<u8>) -> Seq<u8>;

/// The signature that the key of a secret seed makes on a message in a domain.
pub uninterp spec fn bls_signature_in(domain: Seq<char>, seed: Seq<u8>, message: Seq<u8>) -> Seq<u8>;

/// The signature that the key of a secret seed makes on a message.
pub open spec fn bls_signature(seed: Seq<u8>, message: Seq<u8>) -> Seq<u8> {
    bls_signature_in(SIGNATURE_DOMAIN@, seed, message)
}

/// Whether a byte string decodes to a public key.
pub uninterp spec fn bls_key_decodes(key: Seq<u8>) -> bool;

/// Whether a byte string decodes to a signature.
pub uninterp spec fn bls_signature_decodes(signature: Seq<u8>) -> bool;

/// Whether a signature on a message in a domain verifies under a public key.
pub uninterp spec fn bls_verifies_in(
    domain: Seq<char>,
    key: Seq<u8>,
    message: Seq<u8>,
    signature: Seq<u8>,
) -> bool;

/// Whether a signature on a message verifies under a public key.
pub open spec fn bls_verifies(key: Seq<u8>, message: Seq<u8>, signature: Seq<u8>) -> bool {
    bls_verifies_in(SIGNATURE_DOMAIN@, key, message, signature)
}

/// The aggregate of a list of signatures, if they can be aggregated.
pub uninterp spec fn bls_aggregate(signatures: Seq<Seq<u8>>) -> Option<Seq<u8>>;

/// Whether an aggregate signature on one message in a domain verifies under a
/// list of public keys.
pub uninterp spec fn bls_aggregate_verifies_in(
    domain: Seq<char>,
    message: Seq<u8>,
    signature: Seq<u8>,
    keys: Seq<Seq<u8>>,
) -> bool;

/// Whether an aggregate signature on one message verifies under a list of
/// public keys.
pub open spec fn bls_aggregate_verifies(
    message: Seq<u8>,
    signature: Seq<u8>,
    keys: Seq<Seq<u8>>,
) -> bool {
    bls_aggregate_verifies_in(SIGNATURE_DOMAIN@, message, signature, keys)
}

/// `sha2::Sha256::digest`: the result depends on the input bytes alone and
/// is named `sha256`.
#[verifier::external_body]
pub(crate) fn sha256_digest(data: &Vec<u8>) -> (r: Hash32)
    ensures
        r == sha256(data@),
{
    <sha2::Sha256 as sha2::Digest>::digest(data).into()
}

/// `blst::min_pk::SecretKey::key_gen` on a 32-byte seed, then `sk_to_pk`: the
/// compressed key depends on the seed alone and is named `bls_public_key`; it
/// is 48 bytes long and decodes to a valid key. `key_gen` fails only on fewer
/// than 32 bytes.
#[verifier::external_body]
fn key_of_seed(seed: &Hash32) -> (r: Vec<u8>)
    ensures
        r@ == bls_public_key(seed@),
        r@.len() == 48,
        bls_key_decodes(r@),
{
    let secret = blst::min_pk::SecretKey::key_gen(seed, &[]).expect("seed has 32 bytes");
    secret.sk_to_pk().to_bytes().to_vec()
}

/// `blst::min_pk::SecretKey::sign` with the key of a 32-byte seed: the
/// compressed signature depends on the domain, the seed and the message alone
/// and is named `bls_signature_in`; it is 96 bytes long, decodes, and verifies
/// in the same domain on the message under the public key of the seed.
#[verifier::external_body]
fn sign_with_seed(seed: &Hash32, message: &Vec<u8>, domain: &str) -> (r: Vec<u8>)
    ensures
        r@ == bls_signature_in(domain@, seed@, message@),
        r@.len() == 96,
        bls_signature_decodes(r@),
        bls_verifies_in(domain@, bls_public_key(seed@), message@, r@),
{
    let secret = blst::min_pk::SecretKey::key_gen(seed, &[]).expect("seed has 32 bytes");
    secret.sign(message, domain.as_bytes(), &[]).to_bytes().to_vec()
}

/// `blst::min_pk::PublicKey::key_validate` succeeds: whether it does depends
/// on the bytes alone and is named `bls_key_decodes`.
#[verifier::external_body]
pub(crate) fn key_decodes(key: &Vec<u8>) -> (r: bool)
    ensures
        r == bls_key_decodes(key@),
{
    blst::min_pk::PublicKey::key_validate(key).is_ok()
}

/// `blst::min_pk::Signature::from_bytes` succeeds: whether it does depends on
/// the bytes alone and is named `bls_signature_decodes`.
#[verifier::external_body]
pub(crate) fn signature_decodes(signature: &Vec<u8>) -> (r: bool)
    ensures
        r == bls_signature_decodes(signature@),
{
    blst::min_pk::Signature::from_bytes(signature).is_ok()
}

/// `blst::min_pk::Signature::verify`, on a key and a signature that are
/// decoded first; bytes that do not decode verify nothing. The outcome
/// depends on the domain and the three byte strings alone and is named
/// `bls_verifies_in`.
#[verifier::external_body]
fn verifies_in(key: &Vec<u8>, message: &Vec<u8>, signature: &Vec<u8>, domain: &str) -> (r: bool)
    ensures
        r == bls_verifies_in(domain@, key@, message@, signature@),
{
    let tag = domain.as_bytes();
    match (blst::min_pk::PublicKey::from_bytes(key), blst::min_pk::Signature::from_bytes(signature)) {
        (Ok(k), Ok(s)) => s.verify(true, message, tag, &[], &k, true) == blst::BLST_ERROR::BLST_SUCCESS,
        _ => false,
    }
}

/// `blst::min_pk::AggregateSignature::aggregate_serialized` with group checks:
/// the compressed aggregate, or the failure, depends on the signatures alone
/// and is named `bls_aggregate`; an aggregate is 96 bytes long.
#[verifier::external_body]
pub(crate) fn aggregate_signatures(signatures: &Vec<Vec<u8>>) -> (r: Option<Vec<u8>>)
    ensures
        crate::bytes::option_bytes(r) == bls_aggregate(crate::bytes::byte_rows(signatures@)),
        r matches Some(s) ==> s@.len() == 96,
{
    let rows: Vec<&[u8]> = signatures.iter().map(|s| s.as_slice()).collect();
    match blst::min_pk::AggregateSignature::aggregate_serialized(&rows, true) {
        Ok(aggregate) => Some(aggregate.to_signature().to_bytes().to_vec()),
        Err(_) => None,
    }
}

/// `blst::min_pk::Signature::fast_aggregate_verify`, on keys and a signature
/// that are decoded first; bytes that do not decode verify nothing. The
/// outcome depends on the domain, the message, the signature and the keys alone
/// and is named `bls_aggregate_verifies_in`.
#[verifier::external_body]
fn aggregate_verifies_in(message: &Vec<u8>, signature: &Vec<u8>, keys: &Vec<Vec<u8>>, domain: &str) -> (r:
    bool)
    ensures
        r == bls_aggregate_verifies_in(
            domain@,
            message@,
            signature@,
            crate::bytes::byte_rows(keys@),
        ),
{
    let tag = domain.as_bytes();
    let decoded: Result<Vec<_>, _> = keys.iter().map(|k| blst::min_pk::PublicKey::from_bytes(k)).collect();
    match (decoded, blst::min_pk::Signature::from_bytes(signature)) {
        (Ok(list), Ok(s)) => s.fast_aggregate_verify(true, message, tag, &list.iter().collect::<Vec<_>>())
            == blst::BLST_ERROR::BLST_SUCCESS,
        _ => false,
    }
}

/// Whether a signature on a message verifies under a public key.
pub(crate) fn signature_verifies(key: &Vec<u8>, message: &Vec<u8>, signature: &Vec<u8>) -> (r: bool)
    ensures
        r == bls_verifies(key@, message@, signature@),
{
    verifies_in(key, message, signature, SIGNATURE_DOMAIN)
}

/// Whether an aggregate signature on one message verifies under a list of
/// public keys.
pub(crate) fn aggregate_verifies(message: &Vec<u8>, signature: &Vec<u8>, keys: &Vec<Vec<u8>>) -> (r:
    bool)
    ensures
        r == bls_aggregate_verifies(message@, signature@, crate::bytes::byte_rows(keys@)),
{
    aggregate_verifies_in(message, signature, keys, SIGNATURE_DOMAIN)
}

/// Whether a signature on a message verifies under a public key.
pub fn verify_signature(key: &Vec<u8>, message: &Vec<u8>, signature: &Vec<u8>) -> (r: bool)
    ensures
        r == bls_verifies(key@, message@, signature@),
{
    signature_verifies(key, message, signature)
}

/// The aggregate of signatures, if they can be aggregated.
pub fn aggregate(signatures: &Vec<Vec<u8>>) -> (r: Option<Vec<u8>>)
    ensures
        crate::bytes::option_bytes(r) == bls_aggregate(crate::bytes::byte_rows(signatures@)),
{
    aggregate_signatures(signatures)
}

/// A BLS signing key, held as the seed it is generated from.
#[derive(Clone, Copy)]
pub struct BlsSecretKey {
    seed: Hash32,
}

impl BlsSecretKey {
    /// The seed of the key.
    pub closed spec fn seed(self) -> Hash32 {
        self.seed
    }

    /// The key generated from a seed.
    pub fn from_seed(seed: &Hash32) -> (r: Self)
        ensures
            r.seed() == *seed,
    {
        BlsSecretKey { seed: *seed }
    }

    /// The seed the key was generated from.
    pub fn to_bytes(&self) -> (r: Hash32)
        ensures
            r == self.seed(),
    {
        self.seed
    }

    /// The compressed public key.
    pub fn public_key(&self) -> (r: Vec<u8>)
        ensures
            r@ == bls_public_key(self.seed()@),
            r@.len() == 48,
            bls_key_decodes(r@),
    {
        key_of_seed(&self.seed)
    }

    /// The compressed signature on a message.
    pub fn sign(&self, message: &Vec<u8>) -> (r: Vec<u8>)
        ensures
            r@ == bls_signature(self.seed()@, message@),
            r@.len() == 96,
            bls_signature_decodes(r@),
            bls_verifies(bls_public_key(self.seed()@), message@, r@),
    {
        sign_with_seed(&self.seed, message, SIGNATURE_DOMAIN)
    }
}

} // verus!
