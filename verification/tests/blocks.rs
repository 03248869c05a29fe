use polka_repo::cid::{cid_eq, cid_for, RECORD_CODEC};
use polka_repo::errors::RepoError;
use polka_repo::store::MemoryBlockStore;

#[test]
fn put_is_idempotent() {
    let mut store = MemoryBlockStore::new();
    let data = b"hello".to_vec();
    let c1 = store.put(RECORD_CODEC, &data).unwrap();
    let n1 = store.num_blocks();
    let c2 = store.put(RECORD_CODEC, &data).unwrap();
    let n2 = store.num_blocks();
    assert!(cid_eq(&c1, &c2));
    assert_eq!(n1, n2);
    assert_eq!(n1, 1);
}

#[test]
fn get_returns_what_was_put() {
    let mut store = MemoryBlockStore::new();
    let data = b"some record bytes".to_vec();
    let c = store.put(RECORD_CODEC, &data).unwrap();
    let back = store.get(&c).unwrap();
    assert_eq!(back, data);
}

#[test]
fn get_unknown_cid_is_not_found() {
    let store = MemoryBlockStore::new();
    let c = cid_for(RECORD_CODEC, &b"never stored".to_vec());
    assert_eq!(store.get(&c).unwrap_err(), RepoError::NotFound);
}

#[test]
fn distinct_payloads_get_distinct_cids() {
    let mut store = MemoryBlockStore::new();
    let c1 = store.put(RECORD_CODEC, &b"a".to_vec()).unwrap();
    let c2 = store.put(RECORD_CODEC, &b"b".to_vec()).unwrap();
    assert!(!cid_eq(&c1, &c2));
    assert_eq!(store.num_blocks(), 2);
}

#[test]
fn cid_digest_is_the_payload_hash() {
    // SHA-256 of "hello": a wrapper that handed its input back unchanged
    // would fail this.
    let c = cid_for(RECORD_CODEC, &b"hello".to_vec());
    let expected =
        hex::decode("2cf24dba5fb0a30e26e83b2ac5b9e29e1b161e5c1fa7425e73043362938b9824").unwrap();
    assert_eq!(c.digest, expected);
    assert_eq!(c.codec, RECORD_CODEC);
}

#[test]
fn parse_identity_known_key() {
    // W3C did:key secp256k1 test vector.
    let did = b"did:key:zQ3shokFTS3brHcDQrn82RUDfCZESWL1ZdCEJwekUDPQiYBme".to_vec();
    let (alg, key) = polka_repo::identity::parse_identity(&did).unwrap();
    assert_eq!(alg, polka_repo::identity::KeyAlg::Secp256k1);
    assert_eq!(key.len(), 65);
}

#[test]
fn parse_identity_malformed() {
    let did = b"did:key:not-multibase!".to_vec();
    assert_eq!(
        polka_repo::identity::parse_identity(&did).unwrap_err(),
        RepoError::Malformed
    );
    let did2 = b"did:web:example.com".to_vec();
    assert_eq!(
        polka_repo::identity::parse_identity(&did2).unwrap_err(),
        RepoError::Malformed
    );
}

#[test]
fn parse_identity_truncated_multibase_payload() {
    // Payloads shorter than the two-byte algorithm prefix are rejected as
    // malformed, with a normal return.
    for did in [&b"did:key:z"[..], &b"did:key:z1"[..], &b"did:key:z2"[..], &b"did:key:f00"[..]] {
        assert_eq!(
            polka_repo::identity::parse_identity(&did.to_vec()).unwrap_err(),
            RepoError::Malformed
        );
    }
    assert!(matches!(
        polka_repo::repo::create(b"did:key:z".to_vec()),
        Err(RepoError::Malformed)
    ));
}

#[test]
fn parse_identity_unsupported_algorithm() {
    // A well-formed ed25519 did:key; the verifier supports only P-256 and
    // secp256k1.
    let did = b"did:key:z6MkhaXgBZDvotDkL5257faiztiGiC2QtKLGpbnnEGta2doK".to_vec();
    assert_eq!(
        polka_repo::identity::parse_identity(&did).unwrap_err(),
        RepoError::UnsupportedAlgorithm
    );
}

#[test]
fn verify_signature_known_vector() {
    let did = b"did:key:zQ3shtNTBUUCARYFEkRPZQ9NCaM5i5hVHPeEsEKXpmVkR2Upq".to_vec();
    let (alg, key) = polka_repo::identity::parse_identity(&did).unwrap();
    let sig = hex::decode(
        "fdaa28ab03d6767c11d71fa39627c770ff62f91ca9661401ca0e2c475ae96a8c27064fbde3c355fa8121d2e8bbcf87a2de308e1d72b9bf4270f1e7cd8a1575ab",
    )
    .unwrap();
    let good = b"Hello, world!".to_vec();
    let bad = b"Hello, world?".to_vec();
    assert!(polka_repo::identity::verify_signature(alg, &key, &good, &sig));
    assert!(!polka_repo::identity::verify_signature(alg, &key, &bad, &sig));
}
