use atrium_crypto::keypair::{Did, Secp256k1Keypair};
use polka_repo::cid::{cid_eq, COMMIT_CODEC};
use polka_repo::errors::RepoError;
use polka_repo::repo::{create, open, Builder, Repository};
use polka_repo::store::MemoryBlockStore;
use sha2::Digest;

fn test_keypair() -> Secp256k1Keypair {
    let sk = hex::decode("9085d2bef69286a6cbb51623c8fa258629945cd55ca705cc4e66700396894e0c")
        .unwrap();
    Secp256k1Keypair::import(&sk).unwrap()
}

fn test_did() -> Vec<u8> {
    test_keypair().did().into_bytes()
}

fn sign_bytes(msg: &[u8]) -> Vec<u8> {
    test_keypair().sign(msg).unwrap()
}

fn finalize_signed(b: Builder) -> Repository {
    let unsigned = b.get_unsigned_bytes();
    b.finalize(sign_bytes(&unsigned)).unwrap()
}

fn genesis() -> Repository {
    finalize_signed(create(test_did()).unwrap())
}

fn commit_write(repo: &Repository, path: &[u8], value: &[u8]) -> Repository {
    finalize_signed(repo.stage_write(path.to_vec(), value.to_vec()).unwrap())
}

fn commit_delete(repo: &Repository, path: &[u8]) -> Repository {
    finalize_signed(repo.stage_delete(&path.to_vec()).unwrap())
}

#[test]
fn genesis_is_empty() {
    let repo = genesis();
    assert_eq!(
        repo.get_record(&b"a/1".to_vec()).unwrap_err(),
        RepoError::NotFound
    );
    assert!(repo.list_records(&Vec::new()).is_empty());
}

#[test]
fn create_rejects_malformed_identity() {
    assert!(matches!(
        create(b"not a did at all".to_vec()),
        Err(RepoError::Malformed)
    ));
}

#[test]
fn insertion_order_does_not_change_the_tree_root() {
    let entries: [(&[u8], &[u8]); 4] = [
        (b"b/2", b"v2"),
        (b"a/1", b"v1"),
        (b"c/3", b"v3"),
        (b"a/9", b"v9"),
    ];
    let mut orders: Vec<Vec<usize>> = vec![
        vec![0, 1, 2, 3],
        vec![3, 2, 1, 0],
        vec![2, 0, 3, 1],
        vec![1, 3, 0, 2],
    ];
    let mut roots: Vec<polka_repo::cid::Cid> = Vec::new();
    for order in orders.drain(..) {
        let mut repo = genesis();
        for i in order {
            let (p, v) = entries[i];
            repo = commit_write(&repo, p, v);
        }
        roots.push(polka_repo::cid::cid_dup(&repo.commit.root));
    }
    for r in &roots[1..] {
        assert!(cid_eq(&roots[0], r));
    }
}

#[test]
fn prefix_scan_returns_exactly_the_prefixed_paths_in_order() {
    let mut repo = genesis();
    repo = commit_write(&repo, b"b/1", b"vb1");
    repo = commit_write(&repo, b"a/2", b"va2");
    repo = commit_write(&repo, b"a/1", b"va1");
    let under_a = repo.list_records(&b"a/".to_vec());
    assert_eq!(under_a.len(), 2);
    assert_eq!(under_a[0].0, b"a/1".to_vec());
    assert_eq!(under_a[0].1, b"va1".to_vec());
    assert_eq!(under_a[1].0, b"a/2".to_vec());
    assert_eq!(under_a[1].1, b"va2".to_vec());
    let all = repo.list_records(&Vec::new());
    assert_eq!(all.len(), 3);
    assert_eq!(all[0].0, b"a/1".to_vec());
    assert_eq!(all[1].0, b"a/2".to_vec());
    assert_eq!(all[2].0, b"b/1".to_vec());
}

#[test]
fn finalize_then_open_reproduces_the_records() {
    let mut repo = genesis();
    repo = commit_write(&repo, b"a/1", b"one");
    repo = commit_write(&repo, b"b/2", b"two");
    let before = repo.list_records(&Vec::new());
    let root = repo.current_root();
    let reopened = open(test_did(), repo.store, &root).unwrap();
    let after = reopened.list_records(&Vec::new());
    assert_eq!(before, after);
    assert!(cid_eq(&reopened.current_root(), &root));
}

#[test]
fn open_rejects_a_mismatched_identity() {
    let repo = commit_write(&genesis(), b"a/1", b"one");
    let root = repo.current_root();
    let other = b"did:key:zQ3shtxV1FrJfhqE1dvxYRcCknWNjHc3c5X1y3ZSoPDi2aur2".to_vec();
    assert!(matches!(
        open(other, repo.store.dup(), &root),
        Err(RepoError::Malformed)
    ));
}

#[test]
fn open_without_the_commit_block_is_not_found() {
    let repo = commit_write(&genesis(), b"a/1", b"one");
    let root = repo.current_root();
    assert!(matches!(
        open(test_did(), MemoryBlockStore::new(), &root),
        Err(RepoError::NotFound)
    ));
}

#[test]
fn tampering_with_unsigned_bytes_or_signature_fails_verification() {
    let repo = genesis();
    let probe = repo.stage_write(b"a/1".to_vec(), b"payload".to_vec()).unwrap();
    let unsigned = probe.get_unsigned_bytes();
    drop(probe);
    let positions = [0usize, unsigned.len() / 2, unsigned.len() - 1];
    for &pos in &positions {
        for bit in [0u8, 3, 7] {
            let mut tampered = unsigned.clone();
            tampered[pos] ^= 1 << bit;
            let b = repo.stage_write(b"a/1".to_vec(), b"payload".to_vec()).unwrap();
            let r = b.finalize(sign_bytes(&tampered));
            assert!(matches!(r, Err(RepoError::VerificationFailed)));
        }
    }
    let good_sig = sign_bytes(&unsigned);
    let positions = [0usize, good_sig.len() / 2, good_sig.len() - 1];
    for &pos in &positions {
        for bit in [0u8, 4] {
            let mut bad_sig = good_sig.clone();
            bad_sig[pos] ^= 1 << bit;
            let b = repo.stage_write(b"a/1".to_vec(), b"payload".to_vec()).unwrap();
            let r = b.finalize(bad_sig);
            assert!(matches!(r, Err(RepoError::VerificationFailed)));
        }
    }
}

#[test]
fn a_foreign_signature_fails_verification() {
    let other_sk =
        hex::decode("f0f4df55a2b3ff13051ea814a8f24ad00f2e469af73c363ac7e9fb999a9072ed").unwrap();
    let other = Secp256k1Keypair::import(&other_sk).unwrap();
    let b = create(test_did()).unwrap();
    let unsigned = b.get_unsigned_bytes();
    let sig = other.sign(&unsigned).unwrap();
    assert!(matches!(b.finalize(sig), Err(RepoError::VerificationFailed)));
}

#[test]
fn delete_then_lookup_and_root_evolution() {
    let mut repo = genesis();
    repo = commit_write(&repo, b"a/1", b"va1");
    repo = commit_write(&repo, b"b/1", b"vb1");
    let full_tree_root = polka_repo::cid::cid_dup(&repo.commit.root);
    let deleted = commit_delete(&repo, b"a/1");
    assert_eq!(
        deleted.get_record(&b"a/1".to_vec()).unwrap_err(),
        RepoError::NotFound
    );
    assert!(deleted.get_record(&b"b/1".to_vec()).is_ok());
    assert!(!cid_eq(&deleted.commit.root, &full_tree_root));
    // Re-adding the same record gives back the tree of the same entry set —
    // the tree is a function of the contents alone — while the commit chain
    // still differs.
    let readded = commit_write(&deleted, b"a/1", b"va1");
    assert!(cid_eq(&readded.commit.root, &full_tree_root));
    assert!(!cid_eq(&readded.current_root(), &repo.current_root()));
}

#[test]
fn get_cid_names_the_record_block() {
    let repo = commit_write(&genesis(), b"a/1", b"va1");
    let c = repo.get_cid(&b"a/1".to_vec()).unwrap();
    let expected = polka_repo::cid::cid_for(polka_repo::cid::RECORD_CODEC, &b"va1".to_vec());
    assert!(cid_eq(&c, &expected));
    assert!(matches!(
        repo.get_cid(&b"a/2".to_vec()),
        Err(RepoError::NotFound)
    ));
}

#[test]
fn deleting_an_absent_path_keeps_the_tree_root() {
    let repo = commit_write(&genesis(), b"a/1", b"va1");
    let before = polka_repo::cid::cid_dup(&repo.commit.root);
    let after = commit_delete(&repo, b"zzz/nope");
    assert!(cid_eq(&after.commit.root, &before));
    assert!(after.get_record(&b"a/1".to_vec()).is_ok());
}

#[test]
fn writing_an_existing_path_replaces_its_value() {
    let mut repo = genesis();
    repo = commit_write(&repo, b"a/1", b"first");
    repo = commit_write(&repo, b"a/1", b"second");
    assert_eq!(repo.get_record(&b"a/1".to_vec()).unwrap(), b"second".to_vec());
    assert_eq!(repo.list_records(&Vec::new()).len(), 1);
}

#[test]
fn empty_path_and_empty_value_are_records_too() {
    let repo = commit_write(&genesis(), b"", b"");
    assert_eq!(repo.get_record(&Vec::new()).unwrap(), Vec::<u8>::new());
    let all = repo.list_records(&Vec::new());
    assert_eq!(all.len(), 1);
    assert!(all[0].0.is_empty() && all[0].1.is_empty());
}

#[test]
fn unsigned_bytes_are_stable_and_deterministic() {
    let repo = genesis();
    let b1 = repo.stage_write(b"app.test/1".to_vec(), b"hello".to_vec()).unwrap();
    assert_eq!(b1.get_unsigned_bytes(), b1.get_unsigned_bytes());
    let b2 = repo.stage_write(b"app.test/1".to_vec(), b"hello".to_vec()).unwrap();
    assert_eq!(b1.get_unsigned_bytes(), b2.get_unsigned_bytes());
}

#[test]
fn end_to_end_scenario() {
    let repo = genesis();
    let builder = repo.stage_write(b"app.test/1".to_vec(), b"hello".to_vec()).unwrap();
    let unsigned = builder.get_unsigned_bytes();
    let sig = sign_bytes(&unsigned);
    let committed = builder.finalize(sig.clone()).unwrap();
    assert_eq!(
        committed.get_record(&b"app.test/1".to_vec()).unwrap(),
        b"hello".to_vec()
    );
    // The commit identifier is computable independently: the signed block
    // is the unsigned bytes, the signature length, and the signature; its
    // identifier's digest is the SHA-256 of those bytes.
    let mut signed = unsigned.clone();
    signed.extend_from_slice(&(sig.len() as u64).to_be_bytes());
    signed.extend_from_slice(&sig);
    let digest = sha2::Sha256::digest(&signed).to_vec();
    let root = committed.current_root();
    assert_eq!(root.codec, COMMIT_CODEC);
    assert_eq!(root.digest, digest);
}
