use vstd::prelude::*;
use crate::errors::RepoError;
use crate::order::{bytes_has_prefix, bytes_skip, is_prefix};

verus! {

/// The key algorithms a self-certifying identity can name.
#[derive(Clone, Copy, PartialEq, Eq, Structural, Debug)]
pub enum KeyAlg {
    P256,
    Secp256k1,
}

/// Numeric tag of an algorithm, as the names below speak of it.
pub open spec fn alg_tag(a: KeyAlg) -> nat {
    match a {
        KeyAlg::P256 => 0,
        KeyAlg::Secp256k1 => 1,
    }
}

/// The eight bytes of the `did:key:` prefix.
pub open spec fn did_key_prefix() -> Seq<u8> {
    seq![100u8, 105u8, 100u8, 58u8, 107u8, 101u8, 121u8, 58u8]
}

/// What decoding a multibase string gives: its payload bytes, or nothing
/// when the input is not UTF-8 or not a well-formed multibase string. The
/// trusted wrapper below ties this name to the outside decoder.
pub uninterp spec fn multibase_payload_of(s: Seq<u8>) -> Option<Seq<u8>>;

/// Relies on multibase::decode: decoding a multibase string to its payload,
/// a function of the input bytes alone, returning an error — never a crash —
/// on every ill-formed input.
#[verifier::external_body]
fn multibase_decode_raw(s: &Vec<u8>) -> (r: Result<Vec<u8>, RepoError>)
    ensures
        r is Ok <==> multibase_payload_of(s@) is Some,
        r is Ok ==> r.unwrap()@ == multibase_payload_of(s@).unwrap(),
        r is Err ==> r.unwrap_err() == RepoError::Malformed,
{
    let text = match core::str::from_utf8(s) {
        Ok(t) => t,
        Err(_) => return Err(RepoError::Malformed),
    };
    match multibase::decode(text) {
        Ok((_, payload)) => Ok(payload),
        Err(_) => Err(RepoError::Malformed),
    }
}

/// What parsing a self-certifying key identifier gives: the algorithm tag
/// (0 or 1, as in `alg_tag`) and the decompressed public key bytes, or
/// nothing when the identifier is not a well-formed, supported key. The
/// trusted wrapper below ties this name to the outside parser, on the
/// inputs that wrapper admits.
pub uninterp spec fn did_key_of(did: Seq<u8>) -> Option<(nat, Seq<u8>)>;

/// Relies on atrium_crypto::did::parse_did_key: decoding a `did:key:`
/// identifier into its algorithm and decompressed public key, a function of
/// the input bytes alone. Input that is not UTF-8 or not a well-formed
/// `did:key:` string is `Malformed`; a well-formed key of an algorithm the
/// crate does not know is `UnsupportedAlgorithm`. The outside parser indexes
/// the first two bytes of the decoded multibase payload without a length
/// check, so the `requires` keeps inputs whose payload is shorter than two
/// bytes away from it; on every admitted input it returns normally.
#[verifier::external_body]
fn parse_did_key_raw(did: &Vec<u8>) -> (r: Result<(u8, Vec<u8>), RepoError>)
    requires
        is_prefix(did_key_prefix(), did@) && multibase_payload_of(did@.skip(8)) is Some
            ==> multibase_payload_of(did@.skip(8)).unwrap().len() >= 2,
    ensures
        r is Ok <==> did_key_of(did@) is Some,
        r is Ok ==> ((r.unwrap().0 as nat, r.unwrap().1@) == did_key_of(did@).unwrap()
            && r.unwrap().0 <= 1),
        r is Err ==> (r.unwrap_err() == RepoError::Malformed || r.unwrap_err()
            == RepoError::UnsupportedAlgorithm),
{
    let s = match core::str::from_utf8(did) {
        Ok(s) => s,
        Err(_) => return Err(RepoError::Malformed),
    };
    match atrium_crypto::did::parse_did_key(s) {
        Ok((atrium_crypto::Algorithm::P256, key)) => Ok((0, key)),
        Ok((atrium_crypto::Algorithm::Secp256k1, key)) => Ok((1, key)),
        Err(atrium_crypto::Error::UnsupportedMultikeyType) => Err(
            RepoError::UnsupportedAlgorithm,
        ),
        Err(_) => Err(RepoError::Malformed),
    }
}

/// The key of an identity: what the outside parser returns, except that a
/// `did:key:` string whose multibase payload is shorter than the two-byte
/// algorithm prefix is simply no key — the parser cannot process it, and
/// this library rejects it as malformed.
pub open spec fn identity_key_of(did: Seq<u8>) -> Option<(nat, Seq<u8>)> {
    if is_prefix(did_key_prefix(), did) && multibase_payload_of(did.skip(8)) is Some
        && multibase_payload_of(did.skip(8)).unwrap().len() < 2 {
        None
    } else {
        did_key_of(did)
    }
}

/// Parse a self-certifying key identifier into its algorithm and public
/// key. `Malformed` and `UnsupportedAlgorithm` are distinct failures; every
/// input returns, none panics.
pub fn parse_identity(did: &Vec<u8>) -> (r: Result<(KeyAlg, Vec<u8>), RepoError>)
    ensures
        r is Ok <==> identity_key_of(did@) is Some,
        r is Ok ==> ((alg_tag(r.unwrap().0), r.unwrap().1@) == identity_key_of(did@).unwrap()),
        r is Err ==> (r.unwrap_err() == RepoError::Malformed || r.unwrap_err()
            == RepoError::UnsupportedAlgorithm),
{
    let mut prefix: Vec<u8> = Vec::new();
    prefix.push(100);
    prefix.push(105);
    prefix.push(100);
    prefix.push(58);
    prefix.push(107);
    prefix.push(101);
    prefix.push(121);
    prefix.push(58);
    proof {
        assert(prefix@ =~= did_key_prefix());
    }
    if bytes_has_prefix(did, &prefix) {
        let suffix = bytes_skip(did, 8);
        match multibase_decode_raw(&suffix) {
            Ok(payload) => {
                if payload.len() < 2 {
                    return Err(RepoError::Malformed);
                }
            },
            Err(_) => {},
        }
    }
    match parse_did_key_raw(did) {
        Ok((tag, key)) => {
            let alg = if tag == 0 {
                KeyAlg::P256
            } else {
                KeyAlg::Secp256k1
            };
            Ok((alg, key))
        },
        Err(e) => Err(e),
    }
}

/// Whether a signature verifies for a message under a public key of the
/// given algorithm (tagged as in `alg_tag`). Verification is deterministic
/// and side-effect-free; the trusted wrapper below ties this name to the
/// outside verifier.
pub uninterp spec fn sig_valid(alg: nat, key: Seq<u8>, msg: Seq<u8>, sig: Seq<u8>) -> bool;

/// Relies on atrium_crypto::verify::Verifier::verify in its default, strict
/// (low-S only) configuration: a pure check of the four arguments that
/// returns an error — never a crash — for any malformed key or signature.
#[verifier::external_body]
fn verify_sig_raw(alg: u8, key: &Vec<u8>, msg: &Vec<u8>, sig: &Vec<u8>) -> (r: bool)
    requires
        alg <= 1,
    ensures
        r == sig_valid(alg as nat, key@, msg@, sig@),
{
    let a = if alg == 0 {
        atrium_crypto::Algorithm::P256
    } else {
        atrium_crypto::Algorithm::Secp256k1
    };
    atrium_crypto::verify::Verifier::default().verify(a, key, msg, sig).is_ok()
}

/// Verify a detached signature over a message, under an algorithm and
/// public key as `parse_identity` returns them.
pub fn verify_signature(alg: KeyAlg, key: &Vec<u8>, msg: &Vec<u8>, sig: &Vec<u8>) -> (r: bool)
    ensures
        r == sig_valid(alg_tag(alg), key@, msg@, sig@),
{
    let tag: u8 = match alg {
        KeyAlg::P256 => 0,
        KeyAlg::Secp256k1 => 1,
    };
    verify_sig_raw(tag, key, msg, sig)
}

} // verus!
