//! The cryptographic primitives the library relies on, each behind one
//! trusted function.
//!
//! Keys and signatures travel as plain bytes: a BLS public key (or public
//! key share) in its 48-byte compressed form, a signature (or signature
//! share) in its 96-byte compressed form, a secret key and a public key set
//! in their bincode serialisation. The outcome of each primitive depends on
//! its arguments alone, so it is given a name here.
use threshold_crypto::{PublicKey, PublicKeySet, PublicKeyShare, SecretKey, Signature, SignatureShare};
use crate::wire::enc_u64;
use vstd::prelude::*;

verus! {

/// Whether `sig` is a valid BLS signature of `msg` under the public key `key`.
pub uninterp spec fn bls_verifies(key: Seq<u8>, sig: Seq<u8>, msg: Seq<u8>) -> bool;

/// Whether `sig` is a valid BLS signature share of `msg` under the public key share `key`.
pub uninterp spec fn bls_share_verifies(key: Seq<u8>, sig: Seq<u8>, msg: Seq<u8>) -> bool;

/// The signature combined from `shares` (share index, signature share) under the
/// serialised public key set `key_set`, if the combination succeeds.
pub uninterp spec fn bls_combined(key_set: Seq<u8>, shares: Seq<(u64, Seq<u8>)>) -> Option<Seq<u8>>;

/// The signature of `msg` under the serialised secret key `secret`, if it is a valid key.
pub uninterp spec fn bls_signature(secret: Seq<u8>, msg: Seq<u8>) -> Option<Seq<u8>>;

/// The public key matching the serialised secret key `secret`, if it is a valid key.
pub uninterp spec fn bls_public_key(secret: Seq<u8>) -> Option<Seq<u8>>;

/// The content digest of a byte string.
pub uninterp spec fn content_hash(bytes: Seq<u8>) -> Seq<u8>;

/// The serialised key set starts with a coefficient count of zero, on which
/// threshold_crypto's `Commitment::degree` underflows.
pub open spec fn no_coefficients(key_set: Seq<u8>) -> bool {
    key_set.len() >= 8 && key_set.subrange(0, 8) == enc_u64(0)
}

/// The view of a list of indexed signature shares.
pub open spec fn shares_view(shares: Seq<(u64, Vec<u8>)>) -> Seq<(u64, Seq<u8>)> {
    shares.map_values(|p: (u64, Vec<u8>)| (p.0, p.1@))
}

/// Relies on threshold_crypto's `PublicKey::verify`; bytes that do not decode
/// (`PublicKey::from_bytes`, `Signature::from_bytes`) verify nothing.
#[verifier::external_body]
pub(crate) fn verify_signature(key: &Vec<u8>, sig: &Vec<u8>, msg: &Vec<u8>) -> (r: bool)
    ensures
        r == bls_verifies(key@, sig@, msg@),
{
    match (<[u8; 48]>::try_from(key.as_slice()), <[u8; 96]>::try_from(sig.as_slice())) {
        (Ok(k), Ok(s)) => match (PublicKey::from_bytes(k), Signature::from_bytes(s)) {
            (Ok(k), Ok(s)) => k.verify(&s, msg),
            _ => false,
        },
        _ => false,
    }
}

/// Relies on threshold_crypto's `PublicKeyShare::verify`; bytes that do not
/// decode (`PublicKeyShare::from_bytes`, `SignatureShare::from_bytes`) verify nothing.
#[verifier::external_body]
pub(crate) fn verify_share(key: &Vec<u8>, sig: &Vec<u8>, msg: &Vec<u8>) -> (r: bool)
    ensures
        r == bls_share_verifies(key@, sig@, msg@),
{
    match (<[u8; 48]>::try_from(key.as_slice()), <[u8; 96]>::try_from(sig.as_slice())) {
        (Ok(k), Ok(s)) => match (PublicKeyShare::from_bytes(k), SignatureShare::from_bytes(s)) {
            (Ok(k), Ok(s)) => k.verify(&s, msg),
            _ => false,
        },
        _ => false,
    }
}

/// Relies on threshold_crypto's `PublicKeySet::combine_signatures`, the key set
/// read with `bincode::deserialize` and the shares with `SignatureShare::from_bytes`.
#[verifier::external_body]
pub(crate) fn combine_signatures(key_set: &Vec<u8>, shares: &Vec<(u64, Vec<u8>)>) -> (r: Option<Vec<u8>>)
    requires
        !no_coefficients(key_set@),
    ensures
        match r {
            Some(s) => bls_combined(key_set@, shares_view(shares@)) == Some(s@),
            None => bls_combined(key_set@, shares_view(shares@)) is None,
        },
{
    let set: PublicKeySet = bincode::deserialize(key_set).ok()?;
    let mut parsed = Vec::new();
    for (i, s) in shares {
        parsed.push((*i, SignatureShare::from_bytes(<[u8; 96]>::try_from(s.as_slice()).ok()?).ok()?));
    }
    let sig = set.combine_signatures(parsed.iter().map(|(i, s)| (*i, s))).ok()?;
    Some(sig.to_bytes().to_vec())
}

/// Relies on threshold_crypto's `SecretKey::sign`, the key read with `bincode::deserialize`.
#[verifier::external_body]
pub(crate) fn sign(secret: &Vec<u8>, msg: &Vec<u8>) -> (r: Option<Vec<u8>>)
    ensures
        match r {
            Some(s) => bls_signature(secret@, msg@) == Some(s@),
            None => bls_signature(secret@, msg@) is None,
        },
{
    let key: SecretKey = bincode::deserialize(secret).ok()?;
    Some(key.sign(msg).to_bytes().to_vec())
}

/// Relies on threshold_crypto's `SecretKey::public_key`, the key read with `bincode::deserialize`.
#[verifier::external_body]
pub(crate) fn public_key(secret: &Vec<u8>) -> (r: Option<Vec<u8>>)
    ensures
        match r {
            Some(k) => bls_public_key(secret@) == Some(k@),
            None => bls_public_key(secret@) is None,
        },
{
    let key: SecretKey = bincode::deserialize(secret).ok()?;
    Some(key.public_key().to_bytes().to_vec())
}

/// Relies on xor_name's `XorName::from_content`: the SHA3-256 digest of the bytes,
/// 32 bytes long.
#[verifier::external_body]
pub(crate) fn hash_content(bytes: &Vec<u8>) -> (r: Vec<u8>)
    ensures
        r@ == content_hash(bytes@),
        r@.len() == 32,
{
    xor_name::XorName::from_content(&[bytes.as_slice()]).0.to_vec()
}

} // verus!
