use vstd::prelude::*;
use crate::cid::{COMMIT_CODEC, Cid, CidV, NODE_CODEC, RECORD_CODEC, cid_dup, cid_of};
use crate::commit::{
    CommitData, CommitV, commit_wf, decode_commit, encode_signed, encode_unsigned,
    lemma_parse_commit_complete, lemma_parse_commit_roundtrip, parse_commit, signed_bytes_of,
    unsigned_bytes_of,
};
use crate::load::load_range;
use crate::errors::RepoError;
use crate::identity::{KeyAlg, alg_tag, identity_key_of, parse_identity, sig_valid, verify_signature};
use crate::keys::{
    KeyEntry, KeyRef, keys_check_sorted, keys_delete, keys_dup, keys_insert, keys_lookup,
    keys_map, keys_prefixed, keys_sorted, keys_wf, krefs, lemma_keys_map_index,
    lemma_sorted_distinct, filter_prefixed,
};
use crate::order::{bytes_dup, bytes_eq};
use crate::store::{MemoryBlockStore, lemma_insert_extends, store_extends};
use crate::tree::{build_tree, contains_tree, lemma_contains_tree_extends, node_cid};

verus! {

/// The view of an optional identifier.
pub open spec fn opt_view(o: Option<Cid>) -> Option<CidV> {
    match o {
        Some(c) => Some(c@),
        None => None,
    }
}

/// Every entry's record block is in the store.
pub open spec fn records_present(keys: Seq<KeyRef>, m: Map<CidV, Seq<u8>>) -> bool {
    forall|i: int| 0 <= i < keys.len() ==> m.contains_key((#[trigger] keys[i]).cid)
}

/// The record mapping a key sequence and a store together represent: each
/// path bound to the bytes of the block its entry names.
pub open spec fn records_of(keys: Seq<KeyRef>, m: Map<CidV, Seq<u8>>) -> Map<Seq<u8>, Seq<u8>> {
    Map::new(
        |p: Seq<u8>| keys_map(keys).contains_key(p),
        |p: Seq<u8>| m[keys_map(keys)[p]],
    )
}

/// A store that keeps every old block unchanged represents the same records.
pub proof fn lemma_records_of_extends(
    keys: Seq<KeyRef>,
    m1: Map<CidV, Seq<u8>>,
    m2: Map<CidV, Seq<u8>>,
)
    requires
        store_extends(m2, m1),
        records_present(keys, m1),
        forall|i: int, j: int|
            0 <= i < keys.len() && 0 <= j < keys.len() && i != j ==> (#[trigger] keys[i]).path != (
            #[trigger] keys[j]).path,
    ensures
        records_of(keys, m2) == records_of(keys, m1),
{
    lemma_keys_map_index(keys);
    assert(records_of(keys, m2) =~= records_of(keys, m1)) by {
        assert forall|p: Seq<u8>| #[trigger]
            records_of(keys, m1).contains_key(p) implies records_of(keys, m2)[p] == records_of(
            keys,
            m1,
        )[p] by {
            let i = choose|i: int| 0 <= i < keys.len() && (#[trigger] keys[i]).path == p;
            assert(keys_map(keys)[p] == keys[i].cid);
            assert(m1.contains_key(keys[i].cid));
        }
    }
}

/// The commit a builder stages, once a signature is attached to it.
pub open spec fn staged_commit_of(b: Builder, sig: Seq<u8>) -> CommitV {
    CommitV { identity: b.identity@, root: b.root@, rev: b.rev, prev: opt_view(b.prev), sig }
}

/// A staged, unsigned mutation: the pending tree and store state, together
/// with the canonical unsigned commit bytes awaiting a detached signature.
/// A builder is consumed by its one `finalize` call; reuse is impossible by
/// construction.
pub struct Builder {
    pub store: MemoryBlockStore,
    pub keys: Vec<KeyEntry>,
    pub identity: Vec<u8>,
    pub alg: KeyAlg,
    pub public_key: Vec<u8>,
    pub root: Cid,
    pub rev: u64,
    pub prev: Option<Cid>,
    pub unsigned: Vec<u8>,
}

impl View for Builder {
    type V = Map<Seq<u8>, Seq<u8>>;

    open spec fn view(&self) -> Map<Seq<u8>, Seq<u8>> {
        records_of(krefs(self.keys@), self.store@)
    }
}

impl Builder {
    /// The staged state is consistent: the tree is in the store, every
    /// record block is in the store, the root names the tree, the identity
    /// parses to the held key, and the unsigned bytes are the canonical
    /// encoding of the pending commit.
    pub open spec fn wf(self) -> bool {
        &&& self.store.wf()
        &&& keys_sorted(krefs(self.keys@))
        &&& keys_wf(krefs(self.keys@))
        &&& contains_tree(self.store@, krefs(self.keys@))
        &&& records_present(krefs(self.keys@), self.store@)
        &&& self.root@ == node_cid(krefs(self.keys@))
        &&& self.root.wf()
        &&& self.identity@.len() <= 0xffff_ffff_ffff_ffff
        &&& (self.prev is Some ==> self.prev.unwrap()@.digest.len() == 32)
        &&& identity_key_of(self.identity@) == Some((alg_tag(self.alg), self.public_key@))
        &&& self.unsigned@ == unsigned_bytes_of(
            self.identity@,
            self.root@,
            self.rev,
            opt_view(self.prev),
        )
    }

    /// The canonical unsigned commit bytes to be signed out of process.
    /// Stable: calling this any number of times returns the same bytes and
    /// changes nothing.
    pub fn get_unsigned_bytes(&self) -> (r: Vec<u8>)
        ensures
            r@ == self.unsigned@,
    {
        bytes_dup(&self.unsigned)
    }

    /// Finalize the staged mutation with a detached signature. The
    /// signature is verified against the canonical unsigned bytes under the
    /// identity's own key; only on success is the signed commit block
    /// written and the new repository state returned. With a valid
    /// signature, success is owed unless the commit block's identifier
    /// already names different bytes — a digest collision. The builder is
    /// consumed either way: there is no second finalize.
    pub fn finalize(self, sig: Vec<u8>) -> (r: Result<Repository, RepoError>)
        requires
            self.wf(),
        ensures
            (r is Err && (r->Err_0) == RepoError::VerificationFailed) <==> !sig_valid(
                alg_tag(self.alg),
                self.public_key@,
                self.unsigned@,
                sig@,
            ),
            (r is Err && (r->Err_0) == RepoError::StoreError) <==> (sig_valid(
                alg_tag(self.alg),
                self.public_key@,
                self.unsigned@,
                sig@,
            ) && self.store@.contains_key(
                cid_of(COMMIT_CODEC, signed_bytes_of(staged_commit_of(self, sig@))),
            ) && self.store@[cid_of(COMMIT_CODEC, signed_bytes_of(staged_commit_of(self, sig@)))]
                != signed_bytes_of(staged_commit_of(self, sig@))),
            r is Err ==> ((r->Err_0) == RepoError::VerificationFailed || (r->Err_0)
                == RepoError::StoreError),
            r is Err && (r->Err_0) == RepoError::StoreError
                ==> crate::digest::digest_collision(),
            r is Ok ==> {
                let repo = r.unwrap();
                &&& repo.wf()
                &&& repo@ == self@
                &&& repo.commit@ == staged_commit_of(self, sig@)
                &&& repo.ccid@ == cid_of(COMMIT_CODEC, signed_bytes_of(repo.commit@))
                &&& repo.alg == self.alg
                &&& repo.public_key@ == self.public_key@
                &&& krefs(repo.keys@) == krefs(self.keys@)
                &&& store_extends(repo.store@, self.store@)
            },
    {
        let ok = verify_signature(self.alg, &self.public_key, &self.unsigned, &sig);
        if !ok {
            return Err(RepoError::VerificationFailed);
        }
        let _sig_len = sig.len();
        let ghost me = self;
        let commit = CommitData {
            identity: self.identity,
            root: self.root,
            rev: self.rev,
            prev: self.prev,
            sig,
        };
        let signed = encode_signed(&commit);
        proof {
            assert(commit@ =~= staged_commit_of(me, commit.sig@));
        }
        let mut store = self.store;
        let ghost store0 = store@;
        let ccid = match store.put(COMMIT_CODEC, &signed) {
            Ok(c) => c,
            Err(e) => {
                proof {
                    crate::store::lemma_put_refusal_is_collision(store, COMMIT_CODEC, signed@);
                }
                return Err(e);
            },
        };
        let repo = Repository {
            store,
            keys: self.keys,
            commit,
            ccid,
            alg: self.alg,
            public_key: self.public_key,
        };
        proof {
            lemma_insert_extends(store0, ccid@, signed@);
            lemma_contains_tree_extends(store0, repo.store@, krefs(repo.keys@));
            lemma_sorted_distinct(krefs(repo.keys@));
            lemma_records_of_extends(krefs(repo.keys@), store0, repo.store@);
        }
        Ok(repo)
    }
}

/// A repository: the block store, the current committed tree, and the
/// owning identity's parsed key. Its current commit is always one whose
/// signature verified under that identity.
pub struct Repository {
    pub store: MemoryBlockStore,
    pub keys: Vec<KeyEntry>,
    pub commit: CommitData,
    pub ccid: Cid,
    pub alg: KeyAlg,
    pub public_key: Vec<u8>,
}

impl View for Repository {
    type V = Map<Seq<u8>, Seq<u8>>;

    open spec fn view(&self) -> Map<Seq<u8>, Seq<u8>> {
        records_of(krefs(self.keys@), self.store@)
    }
}

impl Repository {
    /// The committed state is consistent: the tree and every record block
    /// are in the store; the commit names the tree's root; the signed
    /// commit block is in the store under the commit identifier; the
    /// identity parses to the held key; and the commit's signature verifies
    /// over its canonical unsigned bytes.
    pub open spec fn wf(self) -> bool {
        &&& self.store.wf()
        &&& keys_sorted(krefs(self.keys@))
        &&& keys_wf(krefs(self.keys@))
        &&& contains_tree(self.store@, krefs(self.keys@))
        &&& records_present(krefs(self.keys@), self.store@)
        &&& self.commit.root@ == node_cid(krefs(self.keys@))
        &&& commit_wf(self.commit@)
        &&& self.ccid@ == cid_of(COMMIT_CODEC, signed_bytes_of(self.commit@))
        &&& self.ccid.wf()
        &&& self.store@.contains_key(self.ccid@)
        &&& self.store@[self.ccid@] == signed_bytes_of(self.commit@)
        &&& identity_key_of(self.commit.identity@) == Some((alg_tag(self.alg), self.public_key@))
        &&& sig_valid(
            alg_tag(self.alg),
            self.public_key@,
            unsigned_bytes_of(
                self.commit.identity@,
                self.commit.root@,
                self.commit.rev,
                self.commit@.prev,
            ),
            self.commit.sig@,
        )
    }

    /// The identifier of the current signed commit block: the one durable
    /// pointer a caller must retain to reopen the repository.
    pub fn current_root(&self) -> (r: Cid)
        ensures
            r@ == self.ccid@,
            r.wf() == self.ccid.wf(),
    {
        cid_dup(&self.ccid)
    }

    /// Look up the content identifier the current committed tree holds at a
    /// path.
    pub fn get_cid(&self, path: &Vec<u8>) -> (r: Result<Cid, RepoError>)
        requires
            self.wf(),
        ensures
            match r {
                Ok(c) => keys_map(krefs(self.keys@)).contains_key(path@) && c@ == keys_map(
                    krefs(self.keys@),
                )[path@] && c.wf(),
                Err(e) => e == RepoError::NotFound && !keys_map(krefs(self.keys@)).contains_key(
                    path@,
                ),
            },
    {
        proof {
            lemma_sorted_distinct(krefs(self.keys@));
            lemma_keys_map_index(krefs(self.keys@));
        }
        match keys_lookup(&self.keys, path) {
            Some(i) => {
                proof {
                    assert(keys_map(krefs(self.keys@))[path@] == krefs(self.keys@)[i as int].cid);
                    assert(krefs(self.keys@)[i as int].cid.digest.len() == 32);
                }
                Ok(cid_dup(&self.keys[i].cid))
            },
            None => {
                proof {
                    if keys_map(krefs(self.keys@)).contains_key(path@) {
                        let j = choose|j: int|
                            0 <= j < krefs(self.keys@).len() && (#[trigger] krefs(
                                self.keys@,
                            )[j]).path == path@;
                        assert(false);
                    }
                }
                Err(RepoError::NotFound)
            },
        }
    }

    /// Read the record at a path from the current committed tree.
    pub fn get_record(&self, path: &Vec<u8>) -> (r: Result<Vec<u8>, RepoError>)
        requires
            self.wf(),
        ensures
            match r {
                Ok(d) => self@.contains_key(path@) && d@ == self@[path@],
                Err(e) => e == RepoError::NotFound && !self@.contains_key(path@),
            },
    {
        proof {
            lemma_sorted_distinct(krefs(self.keys@));
            lemma_keys_map_index(krefs(self.keys@));
        }
        match keys_lookup(&self.keys, path) {
            Some(i) => {
                let d = match self.store.get(&self.keys[i].cid) {
                    Ok(d) => d,
                    Err(_) => {
                        proof {
                            assert(false);
                        }
                        return Err(RepoError::NotFound);
                    },
                };
                proof {
                    assert(keys_map(krefs(self.keys@))[path@] == krefs(self.keys@)[i as int].cid);
                }
                Ok(d)
            },
            None => {
                proof {
                    if self@.contains_key(path@) {
                        let j = choose|j: int|
                            0 <= j < krefs(self.keys@).len() && (#[trigger] krefs(
                                self.keys@,
                            )[j]).path == path@;
                        assert(false);
                    }
                }
                Err(RepoError::NotFound)
            },
        }
    }

    /// List the records whose paths begin with a prefix, in ascending path
    /// order; an empty prefix lists every record.
    pub fn list_records(&self, prefix: &Vec<u8>) -> (r: Vec<(Vec<u8>, Vec<u8>)>)
        requires
            self.wf(),
        ensures
            r@.len() == filter_prefixed(krefs(self.keys@), prefix@).len(),
            forall|i: int|
                0 <= i < r@.len() ==> {
                    let f = filter_prefixed(krefs(self.keys@), prefix@)[i];
                    (#[trigger] r@[i]).0@ == f.path && r@[i].1@ == self.store@[f.cid]
                        && self@.contains_key(f.path) && r@[i].1@ == self@[f.path]
                },
    {
        proof {
            lemma_sorted_distinct(krefs(self.keys@));
            lemma_keys_map_index(krefs(self.keys@));
            lemma_filter_prefixed_sub(krefs(self.keys@), prefix@);
        }
        let matches = keys_prefixed(&self.keys, prefix);
        let ghost f = filter_prefixed(krefs(self.keys@), prefix@);
        let mut out: Vec<(Vec<u8>, Vec<u8>)> = Vec::new();
        let mut i: usize = 0;
        while i < matches.len()
            invariant
                self.wf(),
                i <= matches.len(),
                krefs(matches@) == f,
                f == filter_prefixed(krefs(self.keys@), prefix@),
                forall|j: int|
                    0 <= j < f.len() ==> (exists|k: int|
                        0 <= k < krefs(self.keys@).len() && krefs(self.keys@)[k] == #[trigger] f[j]),
                out@.len() == i,
                forall|j: int|
                    0 <= j < i ==> (#[trigger] out@[j]).0@ == f[j].path && out@[j].1@
                        == self.store@[f[j].cid] && self@.contains_key(f[j].path) && out@[j].1@
                        == self@[f[j].path],
            decreases matches.len() - i,
        {
            proof {
                lemma_sorted_distinct(krefs(self.keys@));
                lemma_keys_map_index(krefs(self.keys@));
                assert(krefs(matches@)[i as int] == f[i as int]);
                let ks = krefs(self.keys@);
                let k = choose|k: int| 0 <= k < ks.len() && ks[k] == f[i as int];
                assert(records_present(ks, self.store@));
                assert(self.store@.contains_key(ks[k].cid));
                assert(keys_map(ks).contains_key(ks[k].path));
                assert(keys_map(ks)[ks[k].path] == ks[k].cid);
                assert(f[i as int].path == ks[k].path && f[i as int].cid == ks[k].cid);
                assert(self@.contains_key(f[i as int].path));
                assert(self@[f[i as int].path] == self.store@[f[i as int].cid]);
            }
            let d = match self.store.get(&matches[i].cid) {
                Ok(d) => d,
                Err(_) => {
                    proof {
                        assert(false);
                    }
                    return out;
                },
            };
            out.push((bytes_dup(&matches[i].path), d));
            i = i + 1;
        }
        out
    }

    /// Stage a write: the record's bytes go into the store, the tree gains
    /// the path, and the returned builder carries the unsigned bytes of a
    /// commit whose revision follows the current one. The repository itself
    /// is unchanged; only a successful finalize adopts the new state.
    pub fn stage_write(&self, path: Vec<u8>, value: Vec<u8>) -> (r: Result<Builder, RepoError>)
        requires
            self.wf(),
            self.commit.rev < u64::MAX,
        ensures
            r is Ok ==> {
                let b = r.unwrap();
                &&& b.wf()
                &&& b@ == self@.insert(path@, value@)
                &&& b.identity@ == self.commit.identity@
                &&& b.alg == self.alg
                &&& b.public_key@ == self.public_key@
                &&& b.rev == self.commit.rev + 1
                &&& opt_view(b.prev) == Some(self.ccid@)
                &&& b.unsigned@ == unsigned_bytes_of(
                    self.commit.identity@,
                    node_cid(krefs(b.keys@)),
                    (self.commit.rev + 1) as u64,
                    Some(self.ccid@),
                )
                &&& keys_map(krefs(b.keys@)) == keys_map(krefs(self.keys@)).insert(
                    path@,
                    cid_of(RECORD_CODEC, value@),
                )
                &&& store_extends(b.store@, self.store@)
            },
            r is Err ==> (r->Err_0) == RepoError::StoreError && crate::digest::digest_collision(),
    {
        let _path_len = path.len();
        let mut store = self.store.dup();
        let mut keys = keys_dup(&self.keys);
        let ghost m1 = self.store@;
        let vcid = match store.put(RECORD_CODEC, &value) {
            Ok(c) => c,
            Err(e) => {
                proof {
                    crate::store::lemma_put_refusal_is_collision(store, RECORD_CODEC, value@);
                }
                return Err(e);
            },
        };
        let ghost m2 = store@;
        proof {
            lemma_insert_extends(m1, vcid@, value@);
        }
        keys_insert(&mut keys, path, vcid);
        let root = match build_tree(&mut store, &keys) {
            Ok(c) => c,
            Err(e) => {
                return Err(e);
            },
        };
        let rev = self.commit.rev + 1;
        let prev = Some(cid_dup(&self.ccid));
        let identity = bytes_dup(&self.commit.identity);
        let unsigned = encode_unsigned(&identity, &root, rev, &prev);
        let b = Builder {
            store,
            keys,
            identity,
            alg: self.alg,
            public_key: bytes_dup(&self.public_key),
            root,
            rev,
            prev,
            unsigned,
        };
        proof {
            let k1 = krefs(self.keys@);
            let k2 = krefs(b.keys@);
            let m3 = b.store@;
            crate::store::lemma_extends_trans(m1, m2, m3);
            lemma_sorted_distinct(k1);
            lemma_keys_map_index(k1);
            lemma_sorted_distinct(k2);
            lemma_keys_map_index(k2);
            assert(records_present(k2, m3)) by {
                assert forall|i: int| 0 <= i < k2.len() implies m3.contains_key(
                    (#[trigger] k2[i]).cid,
                ) by {
                    assert(keys_map(k2)[k2[i].path] == k2[i].cid);
                    if k2[i].path == path@ {
                        assert(k2[i].cid == vcid@);
                        assert(m2.contains_key(vcid@));
                    } else {
                        assert(keys_map(k2)[k2[i].path] == keys_map(k1)[k2[i].path]);
                        assert(keys_map(k1).contains_key(k2[i].path));
                        let j = choose|j: int|
                            0 <= j < k1.len() && (#[trigger] k1[j]).path == k2[i].path;
                        assert(keys_map(k1)[k2[i].path] == k1[j].cid);
                        assert(m1.contains_key(k1[j].cid));
                    }
                }
            }
            assert(b@ == self@.insert(path@, value@)) by {
                assert(b@ =~= self@.insert(path@, value@)) by {
                    assert(keys_map(k2) == keys_map(k1).insert(path@, vcid@));
                    assert forall|q: Seq<u8>| #[trigger]
                        b@.contains_key(q) implies self@.insert(path@, value@).contains_key(q)
                        && b@[q] == self@.insert(path@, value@)[q] by {
                        assert(keys_map(k2).contains_key(q));
                        if q == path@ {
                            assert(keys_map(k2)[q] == vcid@);
                            assert(b@[q] == m3[vcid@]);
                            assert(m2[vcid@] == value@);
                            assert(m2.contains_key(vcid@));
                            assert(m3[vcid@] == m2[vcid@]);
                            assert(self@.insert(path@, value@)[q] == value@);
                        } else {
                            assert(keys_map(k1).contains_key(q));
                            let j = choose|j: int|
                                0 <= j < k1.len() && (#[trigger] k1[j]).path == q;
                            assert(keys_map(k1)[q] == k1[j].cid);
                            assert(keys_map(k2)[q] == k1[j].cid);
                            assert(m1.contains_key(k1[j].cid));
                            assert(m3[k1[j].cid] == m1[k1[j].cid]);
                            assert(b@[q] == m3[k1[j].cid]);
                            assert(self@[q] == m1[k1[j].cid]);
                        }
                    }
                    assert forall|q: Seq<u8>| #[trigger]
                        self@.insert(path@, value@).contains_key(q) implies b@.contains_key(q) by {
                        if q != path@ {
                            assert(keys_map(k1).contains_key(q));
                        }
                    }
                }
            }
        }
        Ok(b)
    }

    /// Stage a delete: the tree loses the path — deleting an absent path
    /// stages a commit over an unchanged record set — and the returned
    /// builder carries the unsigned bytes of the follow-up commit. The
    /// repository itself is unchanged.
    pub fn stage_delete(&self, path: &Vec<u8>) -> (r: Result<Builder, RepoError>)
        requires
            self.wf(),
            self.commit.rev < u64::MAX,
        ensures
            r is Ok ==> {
                let b = r.unwrap();
                &&& b.wf()
                &&& b@ == self@.remove(path@)
                &&& b.identity@ == self.commit.identity@
                &&& b.alg == self.alg
                &&& b.public_key@ == self.public_key@
                &&& b.rev == self.commit.rev + 1
                &&& opt_view(b.prev) == Some(self.ccid@)
                &&& keys_map(krefs(b.keys@)) == keys_map(krefs(self.keys@)).remove(path@)
                &&& b.unsigned@ == unsigned_bytes_of(
                    self.commit.identity@,
                    node_cid(krefs(b.keys@)),
                    (self.commit.rev + 1) as u64,
                    Some(self.ccid@),
                )
                &&& store_extends(b.store@, self.store@)
            },
            r is Err ==> (r->Err_0) == RepoError::StoreError && crate::digest::digest_collision(),
    {
        let mut store = self.store.dup();
        let mut keys = keys_dup(&self.keys);
        let ghost m1 = self.store@;
        keys_delete(&mut keys, path);
        let root = match build_tree(&mut store, &keys) {
            Ok(c) => c,
            Err(e) => {
                return Err(e);
            },
        };
        let rev = self.commit.rev + 1;
        let prev = Some(cid_dup(&self.ccid));
        let identity = bytes_dup(&self.commit.identity);
        let unsigned = encode_unsigned(&identity, &root, rev, &prev);
        let b = Builder {
            store,
            keys,
            identity,
            alg: self.alg,
            public_key: bytes_dup(&self.public_key),
            root,
            rev,
            prev,
            unsigned,
        };
        proof {
            let k1 = krefs(self.keys@);
            let k2 = krefs(b.keys@);
            let m3 = b.store@;
            lemma_sorted_distinct(k1);
            lemma_keys_map_index(k1);
            lemma_sorted_distinct(k2);
            lemma_keys_map_index(k2);
            assert(records_present(k2, m3)) by {
                assert forall|i: int| 0 <= i < k2.len() implies m3.contains_key(
                    (#[trigger] k2[i]).cid,
                ) by {
                    assert(keys_map(k2)[k2[i].path] == k2[i].cid);
                    assert(keys_map(k2)[k2[i].path] == keys_map(k1)[k2[i].path]);
                    assert(keys_map(k1).contains_key(k2[i].path));
                    let j = choose|j: int|
                        0 <= j < k1.len() && (#[trigger] k1[j]).path == k2[i].path;
                    assert(keys_map(k1)[k2[i].path] == k1[j].cid);
                    assert(m1.contains_key(k1[j].cid));
                }
            }
            assert(b@ == self@.remove(path@)) by {
                assert(b@ =~= self@.remove(path@)) by {
                    assert(keys_map(k2) == keys_map(k1).remove(path@));
                    assert forall|q: Seq<u8>| #[trigger]
                        b@.contains_key(q) implies self@.remove(path@).contains_key(q) && b@[q]
                        == self@.remove(path@)[q] by {
                        assert(keys_map(k2).contains_key(q));
                        assert(q != path@);
                        assert(keys_map(k1).contains_key(q));
                        let j = choose|j: int| 0 <= j < k1.len() && (#[trigger] k1[j]).path == q;
                        assert(keys_map(k1)[q] == k1[j].cid);
                        assert(m1.contains_key(k1[j].cid));
                        assert(m3[k1[j].cid] == m1[k1[j].cid]);
                        assert(b@[q] == m3[keys_map(k2)[q]]);
                        assert(self@[q] == m1[keys_map(k1)[q]]);
                    }
                    assert forall|q: Seq<u8>| #[trigger]
                        self@.remove(path@).contains_key(q) implies b@.contains_key(q) by {
                        assert(keys_map(k1).contains_key(q) && q != path@);
                    }
                }
            }
        }
        Ok(b)
    }
}

/// Every entry a prefix filter keeps comes from the filtered sequence.
proof fn lemma_filter_prefixed_sub(s: Seq<KeyRef>, p: Seq<u8>)
    ensures
        forall|j: int|
            0 <= j < filter_prefixed(s, p).len() ==> (exists|k: int|
                0 <= k < s.len() && s[k] == #[trigger] filter_prefixed(s, p)[j]),
    decreases s.len(),
{
    if s.len() > 0 {
        lemma_filter_prefixed_sub(s.drop_last(), p);
        let f = filter_prefixed(s, p);
        let f0 = filter_prefixed(s.drop_last(), p);
        assert forall|j: int| 0 <= j < f.len() implies (exists|k: int|
            0 <= k < s.len() && s[k] == #[trigger] f[j]) by {
            if j < f0.len() {
                assert(f[j] == f0[j]);
                let k = choose|k: int| 0 <= k < s.drop_last().len() && s.drop_last()[k] == f0[j];
                assert(s[k] == f[j]);
            } else {
                assert(f[j] == s.last());
                assert(s[s.len() - 1] == f[j]);
            }
        }
    }
}

/// Create a new repository owner-side staging object: an empty tree in a
/// fresh store, staged as the genesis commit of the given identity. Fails
/// exactly when the identity does not parse as a supported key.
pub fn create(identity: Vec<u8>) -> (r: Result<Builder, RepoError>)
    ensures
        r is Ok <==> identity_key_of(identity@) is Some,
        r is Ok ==> {
            let b = r.unwrap();
            &&& b.wf()
            &&& b@ == Map::<Seq<u8>, Seq<u8>>::empty()
            &&& b.identity@ == identity@
            &&& b.rev == 0
            &&& b.prev is None
            &&& b.keys@.len() == 0
        },
        r is Err ==> ((r->Err_0) == RepoError::Malformed || (r->Err_0)
            == RepoError::UnsupportedAlgorithm),
{
    let _identity_len = identity.len();
    let (alg, public_key) = match parse_identity(&identity) {
        Ok(x) => x,
        Err(e) => {
            return Err(e);
        },
    };
    let mut store = MemoryBlockStore::new();
    let keys: Vec<KeyEntry> = Vec::new();
    let mut nb: Vec<u8> = Vec::new();
    nb.push(0u8);
    proof {
        assert(krefs(keys@) =~= Seq::<KeyRef>::empty());
        assert(nb@ =~= crate::tree::node_bytes(krefs(keys@)));
    }
    let root = match store.put(NODE_CODEC, &nb) {
        Ok(c) => c,
        Err(_) => {
            proof {
                assert(false);
            }
            return Err(RepoError::StoreError);
        },
    };
    proof {
        assert(contains_tree(store@, krefs(keys@)));
    }
    let unsigned = encode_unsigned(&identity, &root, 0, &None);
    let b = Builder {
        store,
        keys,
        identity,
        alg,
        public_key,
        root,
        rev: 0,
        prev: None,
        unsigned,
    };
    proof {
        assert(krefs(b.keys@) =~= Seq::<KeyRef>::empty());
        assert(b@ =~= Map::<Seq<u8>, Seq<u8>>::empty());
    }
    Ok(b)
}

/// Check that every entry's record block is in the store.
fn check_records_present(store: &MemoryBlockStore, keys: &Vec<KeyEntry>) -> (r: bool)
    requires
        store.wf(),
    ensures
        r == records_present(krefs(keys@), store@),
{
    let mut i: usize = 0;
    while i < keys.len()
        invariant
            store.wf(),
            i <= keys.len(),
            forall|j: int| 0 <= j < i ==> store@.contains_key((#[trigger] krefs(keys@)[j]).cid),
        decreases keys.len() - i,
    {
        match store.get(&keys[i].cid) {
            Ok(_) => {},
            Err(_) => {
                proof {
                    assert(!store@.contains_key(krefs(keys@)[i as int].cid));
                }
                return false;
            },
        }
        i = i + 1;
    }
    true
}

/// A store state from which `open` must succeed: it holds, under `ccid`,
/// the signed block of a commit `c` owned by `identity` with a valid
/// signature, and the well-formed sorted tree `s` the commit's root names,
/// with every record block present.
pub open spec fn openable(
    m: Map<CidV, Seq<u8>>,
    ccid: CidV,
    identity: Seq<u8>,
    c: CommitV,
    s: Seq<KeyRef>,
) -> bool {
    &&& m.contains_key(ccid)
    &&& m[ccid] == signed_bytes_of(c)
    &&& ccid == cid_of(COMMIT_CODEC, signed_bytes_of(c))
    &&& commit_wf(c)
    &&& c.identity == identity
    &&& identity_key_of(identity) is Some
    &&& sig_valid(
        identity_key_of(identity).unwrap().0,
        identity_key_of(identity).unwrap().1,
        unsigned_bytes_of(c.identity, c.root, c.rev, c.prev),
        c.sig,
    )
    &&& keys_sorted(s)
    &&& keys_wf(s)
    &&& contains_tree(m, s)
    &&& node_cid(s) == c.root
    &&& records_present(s, m)
    &&& s.len() <= 0xffff_ffff_ffff_ffff
}

/// Open a repository from a store and the identifier of its current signed
/// commit block. The commit must decode, declare the given identity, and
/// carry a signature that verifies under that identity's key — an unverified
/// root is never accepted. The open is eager and strict: the whole tree
/// under the commit's root and every record block must load back in
/// canonical form before the repository is usable. Whenever the store holds
/// such a state under this identifier, `open` succeeds and returns exactly
/// it; a missing commit block is `NotFound`, an undecodable block, a wrong
/// block kind, an identity mismatch or an unusable identity is `Malformed`
/// (or `UnsupportedAlgorithm`), and a signature that does not verify is
/// `VerificationFailed`.
#[verifier::rlimit(100)]
pub fn open(identity: Vec<u8>, store: MemoryBlockStore, root_cid: &Cid) -> (r: Result<
    Repository,
    RepoError,
>)
    requires
        store.wf(),
    ensures
        forall|c: CommitV, s: Seq<KeyRef>|
            #[trigger] openable(store@, root_cid@, identity@, c, s) ==> r is Ok && krefs(
                r.unwrap().keys@,
            ) == s && r.unwrap().commit@ == c && r.unwrap()@ == records_of(s, store@),
        r is Ok ==> {
            let repo = r.unwrap();
            &&& repo.wf()
            &&& repo.ccid@ == root_cid@
            &&& repo.commit.identity@ == identity@
            &&& store_extends(repo.store@, store@)
        },
        !store@.contains_key(root_cid@) ==> r is Err && (r->Err_0) == RepoError::NotFound,
        store@.contains_key(root_cid@) && parse_commit(store@[root_cid@]) is None ==> r is Err && (
        r->Err_0) == RepoError::Malformed,
        store@.contains_key(root_cid@) && parse_commit(store@[root_cid@]) is Some
            && root_cid@.codec != COMMIT_CODEC ==> r is Err && (r->Err_0) == RepoError::Malformed,
        store@.contains_key(root_cid@) && parse_commit(store@[root_cid@]) is Some && parse_commit(
            store@[root_cid@],
        ).unwrap().identity != identity@ ==> r is Err && (r->Err_0) == RepoError::Malformed,
        store@.contains_key(root_cid@) && parse_commit(store@[root_cid@]) is Some
            && identity_key_of(identity@) is None ==> r is Err && ((r->Err_0)
            == RepoError::Malformed || (r->Err_0) == RepoError::UnsupportedAlgorithm),
        store@.contains_key(root_cid@) && parse_commit(store@[root_cid@]) is Some && root_cid@.codec
            == COMMIT_CODEC && parse_commit(store@[root_cid@]).unwrap().identity == identity@
            && identity_key_of(identity@) is Some && !({
            let c = parse_commit(store@[root_cid@]).unwrap();
            sig_valid(
                identity_key_of(identity@).unwrap().0,
                identity_key_of(identity@).unwrap().1,
                unsigned_bytes_of(c.identity, c.root, c.rev, c.prev),
                c.sig,
            )
        }) ==> r is Err && (r->Err_0) == RepoError::VerificationFailed,
{
    let ghost m0 = store@;
    let b = match store.get(root_cid) {
        Ok(b) => b,
        Err(e) => {
            proof {
                assert forall|c: CommitV, s: Seq<KeyRef>|
                    !(#[trigger] openable(m0, root_cid@, identity@, c, s)) by {}
            }
            return Err(e);
        },
    };
    let commit = match decode_commit(&b) {
        Some(c) => c,
        None => {
            proof {
                assert forall|c: CommitV, s: Seq<KeyRef>|
                    !(#[trigger] openable(m0, root_cid@, identity@, c, s)) by {
                    if openable(m0, root_cid@, identity@, c, s) {
                        lemma_parse_commit_roundtrip(c);
                    }
                }
            }
            return Err(RepoError::Malformed);
        },
    };
    proof {
        lemma_parse_commit_complete(b@);
        assert forall|c: CommitV, s: Seq<KeyRef>| #[trigger]
            openable(m0, root_cid@, identity@, c, s) implies commit@ == c by {
            lemma_parse_commit_roundtrip(c);
        }
    }
    if root_cid.codec != COMMIT_CODEC {
        return Err(RepoError::Malformed);
    }
    if !bytes_eq(&commit.identity, &identity) {
        return Err(RepoError::Malformed);
    }
    let (alg, public_key) = match parse_identity(&identity) {
        Ok(x) => x,
        Err(e) => {
            return Err(e);
        },
    };
    let unsigned = encode_unsigned(&commit.identity, &commit.root, commit.rev, &commit.prev);
    if !verify_signature(alg, &public_key, &unsigned, &commit.sig) {
        return Err(RepoError::VerificationFailed);
    }
    let keys = match load_range(&store, &commit.root, 0xffff_ffff_ffff_ffff) {
        Ok(ks) => ks,
        Err(e) => {
            proof {
                assert forall|c: CommitV, s: Seq<KeyRef>|
                    !(#[trigger] openable(m0, root_cid@, identity@, c, s)) by {
                    if openable(m0, root_cid@, identity@, c, s) {
                        assert(contains_tree(m0, s) && node_cid(s) == commit.root@ && keys_wf(s)
                            && s.len() <= 0xffff_ffff_ffff_ffff);
                    }
                }
            }
            return Err(e);
        },
    };
    if !keys_check_sorted(&keys) {
        proof {
            assert forall|c: CommitV, s: Seq<KeyRef>|
                !(#[trigger] openable(m0, root_cid@, identity@, c, s)) by {
                if openable(m0, root_cid@, identity@, c, s) {
                    assert(krefs(keys@) == s);
                }
            }
        }
        return Err(RepoError::Malformed);
    }
    let mut store = store;
    let root2 = match build_tree(&mut store, &keys) {
        Ok(c) => c,
        Err(e) => {
            proof {
                assert forall|c: CommitV, s: Seq<KeyRef>|
                    !(#[trigger] openable(m0, root_cid@, identity@, c, s)) by {
                    if openable(m0, root_cid@, identity@, c, s) {
                        assert(krefs(keys@) == s);
                        assert(contains_tree(m0, krefs(keys@)));
                    }
                }
            }
            return Err(e);
        },
    };
    if !crate::cid::cid_eq(&root2, &commit.root) {
        proof {
            assert forall|c: CommitV, s: Seq<KeyRef>|
                !(#[trigger] openable(m0, root_cid@, identity@, c, s)) by {
                if openable(m0, root_cid@, identity@, c, s) {
                    assert(krefs(keys@) == s);
                    assert(root2@ == node_cid(s));
                }
            }
        }
        return Err(RepoError::Malformed);
    }
    if !check_records_present(&store, &keys) {
        proof {
            assert forall|c: CommitV, s: Seq<KeyRef>|
                !(#[trigger] openable(m0, root_cid@, identity@, c, s)) by {
                if openable(m0, root_cid@, identity@, c, s) {
                    assert(krefs(keys@) == s);
                    assert forall|j: int| 0 <= j < s.len() implies store@.contains_key(
                        (#[trigger] s[j]).cid,
                    ) by {
                        assert(m0.contains_key(s[j].cid));
                    }
                }
            }
        }
        return Err(RepoError::NotFound);
    }
    let ccid = cid_dup(root_cid);
    let repo = Repository { store, keys, commit, ccid, alg, public_key };
    proof {
        lemma_sorted_distinct(krefs(repo.keys@));
        assert(repo.wf());
        assert forall|c: CommitV, s: Seq<KeyRef>| #[trigger]
            openable(m0, root_cid@, identity@, c, s) implies krefs(repo.keys@) == s && repo.commit@
            == c && repo@ == records_of(s, m0) by {
            assert(krefs(keys@) == s);
            lemma_records_of_extends(s, m0, repo.store@);
        }
    }
    Ok(repo)
}

} // verus!
