use vstd::prelude::*;
use crate::cid::{
    Cid, CidV, NODE_CODEC, cid_bytes, cid_of, push_cid, push_u64_be, u64_be,
};
use crate::digest::rank_of;
use crate::errors::RepoError;
use crate::keys::{KeyEntry, KeyRef, keys_wf, krefs};
use crate::order::bytes_extend;
use crate::store::{MemoryBlockStore, lemma_extends_trans, store_extends};

verus! {

/// The greatest rank among the entries' paths; 0 for no entries.
pub open spec fn max_rank(s: Seq<KeyRef>) -> nat
    decreases s.len(),
{
    if s.len() == 0 {
        0
    } else {
        let r0 = rank_of(s[0].path);
        let m = max_rank(s.drop_first());
        if r0 >= m {
            r0
        } else {
            m
        }
    }
}

/// The pivot of a non-empty entry sequence: the first entry of greatest
/// rank. The pivot alone stands in the root node of the subtree over the
/// sequence; what is left and right of it forms the child subtrees.
pub open spec fn pivot_index(s: Seq<KeyRef>) -> int
    decreases s.len(),
{
    if s.len() <= 1 {
        0
    } else if rank_of(s[0].path) >= max_rank(s.drop_first()) {
        0
    } else {
        1 + pivot_index(s.drop_first())
    }
}

/// The pivot is in range, has the greatest rank, and every entry before it
/// has a strictly smaller rank.
pub proof fn lemma_pivot(s: Seq<KeyRef>)
    requires
        s.len() > 0,
    ensures
        0 <= pivot_index(s) < s.len(),
        rank_of(s[pivot_index(s)].path) == max_rank(s),
        forall|i: int| 0 <= i < pivot_index(s) ==> rank_of((#[trigger] s[i]).path) < max_rank(s),
        forall|i: int| 0 <= i < s.len() ==> rank_of((#[trigger] s[i]).path) <= max_rank(s),
    decreases s.len(),
{
    if s.len() == 1 {
        assert(s.drop_first().len() == 0);
    } else {
        lemma_pivot(s.drop_first());
        let p = pivot_index(s);
        if rank_of(s[0].path) >= max_rank(s.drop_first()) {
            assert(p == 0);
            assert forall|i: int| 0 <= i < s.len() implies rank_of((#[trigger] s[i]).path)
                <= max_rank(s) by {
                if i > 0 {
                    assert(s.drop_first()[i - 1] == s[i]);
                    assert(rank_of(s.drop_first()[i - 1].path) <= max_rank(s.drop_first()));
                }
            }
        } else {
            assert(p == 1 + pivot_index(s.drop_first()));
            assert(s.drop_first()[p - 1] == s[p]);
            assert forall|i: int| 0 <= i < p implies rank_of((#[trigger] s[i]).path) < max_rank(
                s,
            ) by {
                if i > 0 {
                    assert(s.drop_first()[i - 1] == s[i]);
                }
            }
            assert forall|i: int| 0 <= i < s.len() implies rank_of((#[trigger] s[i]).path)
                <= max_rank(s) by {
                if i > 0 {
                    assert(s.drop_first()[i - 1] == s[i]);
                }
            }
        }
    }
}

/// The properties of `lemma_pivot` characterize the pivot: an entry of
/// greatest rank that strictly out-ranks everything before it is the pivot.
pub proof fn lemma_pivot_unique(s: Seq<KeyRef>, j: int)
    requires
        0 <= j < s.len(),
        forall|i: int|
            0 <= i < s.len() ==> rank_of((#[trigger] s[i]).path) <= rank_of(s[j].path),
        forall|i: int| 0 <= i < j ==> rank_of((#[trigger] s[i]).path) < rank_of(s[j].path),
    ensures
        pivot_index(s) == j,
{
    lemma_pivot(s);
    let p = pivot_index(s);
    assert(rank_of(s[j].path) <= max_rank(s));
    assert(rank_of(s[j].path) >= rank_of(s[p].path));
    if j < p {
        assert(rank_of(s[j].path) < max_rank(s));
    } else if j > p {
        assert(rank_of(s[p].path) < rank_of(s[j].path));
    }
}

/// Byte encoding of one node entry: the path, length-prefixed, then the
/// identifier of the record block the path names.
pub open spec fn entry_bytes(k: KeyRef) -> Seq<u8> {
    u64_be(k.path.len() as u64) + k.path + cid_bytes(k.cid)
}

/// Byte encoding of a node over a sorted run of entries. An empty run is the
/// single byte 0. Otherwise the node holds a marker byte 1, the optional
/// left subtree, the pivot entry, and the optional right subtree. Children
/// stand in a node as the single byte 0 (no child), or the byte 1 followed
/// by the child node's content identifier.
pub open spec fn node_bytes(s: Seq<KeyRef>) -> Seq<u8>
    decreases s.len(), 0int,
    via node_bytes_dec
{
    if s.len() == 0 {
        seq![0u8]
    } else {
        let p = pivot_index(s);
        seq![1u8] + opt_child_bytes(s.subrange(0, p)) + entry_bytes(s[p]) + opt_child_bytes(
            s.subrange(p + 1, s.len() as int),
        )
    }
}

/// Byte encoding of an optional child subtree inside its parent node.
pub open spec fn opt_child_bytes(s: Seq<KeyRef>) -> Seq<u8>
    decreases s.len(), 1int,
{
    if s.len() == 0 {
        seq![0u8]
    } else {
        seq![1u8] + cid_bytes(cid_of(NODE_CODEC, node_bytes(s)))
    }
}

#[via_fn]
proof fn node_bytes_dec(s: Seq<KeyRef>) {
    if s.len() > 0 {
        lemma_pivot(s);
    }
}

/// The content identifier of the node block over a run of entries; for the
/// whole entry sequence, the tree's root identifier. It is a function of the
/// entries alone: the tree is deterministic.
pub open spec fn node_cid(s: Seq<KeyRef>) -> CidV {
    cid_of(NODE_CODEC, node_bytes(s))
}

/// The store holds the node block of this entry run and, recursively, the
/// node blocks of all its subtrees.
pub open spec fn contains_tree(m: Map<CidV, Seq<u8>>, s: Seq<KeyRef>) -> bool
    decreases s.len(),
    via contains_tree_dec
{
    m.contains_key(node_cid(s)) && m[node_cid(s)] == node_bytes(s) && (s.len() > 0 ==> {
        let p = pivot_index(s);
        (p > 0 ==> contains_tree(m, s.subrange(0, p))) && (p + 1 < s.len() ==> contains_tree(
            m,
            s.subrange(p + 1, s.len() as int),
        ))
    })
}

#[via_fn]
proof fn contains_tree_dec(m: Map<CidV, Seq<u8>>, s: Seq<KeyRef>) {
    if s.len() > 0 {
        lemma_pivot(s);
    }
}

/// A store that keeps every old block also keeps every contained tree.
pub proof fn lemma_contains_tree_extends(
    m1: Map<CidV, Seq<u8>>,
    m2: Map<CidV, Seq<u8>>,
    s: Seq<KeyRef>,
)
    requires
        contains_tree(m1, s),
        store_extends(m2, m1),
    ensures
        contains_tree(m2, s),
    decreases s.len(),
{
    if s.len() > 0 {
        lemma_pivot(s);
        let p = pivot_index(s);
        if p > 0 {
            lemma_contains_tree_extends(m1, m2, s.subrange(0, p));
        }
        if p + 1 < s.len() {
            lemma_contains_tree_extends(m1, m2, s.subrange(p + 1, s.len() as int));
        }
    }
}

/// Compute the rank of each entry's path.
fn compute_ranks(keys: &Vec<KeyEntry>) -> (r: Vec<u64>)
    ensures
        r@.len() == keys@.len(),
        forall|i: int|
            0 <= i < keys@.len() ==> (#[trigger] r@[i]) as nat == rank_of(krefs(keys@)[i].path),
{
    let mut r: Vec<u64> = Vec::new();
    let mut i: usize = 0;
    while i < keys.len()
        invariant
            i <= keys.len(),
            r@.len() == i,
            forall|j: int|
                0 <= j < i ==> (#[trigger] r@[j]) as nat == rank_of(krefs(keys@)[j].path),
        decreases keys.len() - i,
    {
        let rk = crate::digest::path_rank(&keys[i].path);
        r.push(rk);
        i = i + 1;
    }
    r
}

/// Write the node blocks of the subtree over `keys[start..end]` and return
/// the subtree's root identifier. Every block already in the store is kept
/// unchanged; the write fails only when the store refuses a block, which
/// can only happen under a real digest collision.
#[verifier::rlimit(100)]
fn build_range(
    store: &mut MemoryBlockStore,
    keys: &Vec<KeyEntry>,
    ranks: &Vec<u64>,
    start: usize,
    end: usize,
) -> (r: Result<Cid, RepoError>)
    requires
        old(store).wf(),
        start <= end <= keys@.len(),
        ranks@.len() == keys@.len(),
        forall|i: int|
            0 <= i < keys@.len() ==> (#[trigger] ranks@[i]) as nat == rank_of(
                krefs(keys@)[i].path,
            ),
        keys_wf(krefs(keys@)),
    ensures
        final(store).wf(),
        store_extends(final(store)@, old(store)@),
        match r {
            Ok(c) => c@ == node_cid(krefs(keys@).subrange(start as int, end as int)) && c.wf()
                && contains_tree(
                final(store)@,
                krefs(keys@).subrange(start as int, end as int),
            ),
            Err(e) => e == RepoError::StoreError,
        },
        contains_tree(old(store)@, krefs(keys@).subrange(start as int, end as int)) ==> r is Ok,
        r is Err ==> crate::digest::digest_collision(),
    decreases end - start,
{
    let ghost whole = krefs(keys@);
    let ghost sub = whole.subrange(start as int, end as int);
    if start == end {
        let mut bytes: Vec<u8> = Vec::new();
        bytes.push(0u8);
        proof {
            assert(bytes@ =~= node_bytes(sub));
        }
        match store.put(NODE_CODEC, &bytes) {
            Ok(c) => {
                proof {
                    crate::store::lemma_insert_extends(old(store)@, c@, bytes@);
                }
                Ok(c)
            },
            Err(e) => {
                proof {
                    if contains_tree(old(store)@, sub) {
                        assert(old(store)@[node_cid(sub)] == node_bytes(sub));
                        assert(false);
                    }
                    crate::store::lemma_put_refusal_is_collision(*store, NODE_CODEC, bytes@);
                }
                Err(e)
            },
        }
    } else {
        let mut best: usize = start;
        let mut i: usize = start + 1;
        while i < end
            invariant
                start <= best < i <= end,
                end <= keys@.len(),
                ranks@.len() == keys@.len(),
                forall|j: int| start <= j < i ==> (#[trigger] ranks@[j]) <= ranks@[best as int],
                forall|j: int| start <= j < best ==> (#[trigger] ranks@[j]) < ranks@[best as int],
            decreases end - i,
        {
            if ranks[i] > ranks[best] {
                best = i;
            }
            i = i + 1;
        }
        let ghost p = best - start;
        proof {
            assert forall|k: int| 0 <= k < sub.len() implies rank_of((#[trigger] sub[k]).path)
                <= rank_of(sub[p].path) by {
                assert(sub[k] == whole[start + k]);
                assert(ranks@[start + k] <= ranks@[best as int]);
            }
            assert forall|k: int| 0 <= k < p implies rank_of((#[trigger] sub[k]).path) < rank_of(
                sub[p].path,
            ) by {
                assert(sub[k] == whole[start + k]);
                assert(ranks@[start + k] < ranks@[best as int]);
            }
            lemma_pivot_unique(sub, p);
        }
        let ghost sub_l = sub.subrange(0, p);
        let ghost sub_r = sub.subrange(p + 1, sub.len() as int);
        proof {
            assert(sub_l =~= whole.subrange(start as int, best as int));
            assert(sub_r =~= whole.subrange(best as int + 1, end as int));
        }
        let ghost store0 = store@;
        let left = if best > start {
            match build_range(store, keys, ranks, start, best) {
                Ok(c) => Some(c),
                Err(e) => {
                    proof {
                        if contains_tree(store0, sub) {
                            assert(contains_tree(store0, sub_l));
                        }
                    }
                    return Err(e);
                },
            }
        } else {
            None
        };
        let ghost store1 = store@;
        let right = if best + 1 < end {
            match build_range(store, keys, ranks, best + 1, end) {
                Ok(c) => Some(c),
                Err(e) => {
                    proof {
                        lemma_extends_trans(store0, store1, store@);
                        if contains_tree(store0, sub) {
                            assert(contains_tree(store0, sub_r));
                            lemma_contains_tree_extends(store0, store1, sub_r);
                        }
                    }
                    return Err(e);
                },
            }
        } else {
            None
        };
        let ghost store2 = store@;
        proof {
            lemma_extends_trans(store0, store1, store2);
            if best > start {
                lemma_contains_tree_extends(store1, store2, sub_l);
            }
        }
        let mut bytes: Vec<u8> = Vec::new();
        bytes.push(1u8);
        match &left {
            Some(c) => {
                bytes.push(1u8);
                push_cid(&mut bytes, c);
                proof {
                    assert(bytes@ =~= seq![1u8] + opt_child_bytes(sub_l));
                }
            },
            None => {
                bytes.push(0u8);
                proof {
                    assert(bytes@ =~= seq![1u8] + opt_child_bytes(sub_l));
                }
            },
        }
        let ghost mid0 = bytes@;
        push_u64_be(&mut bytes, keys[best].path.len() as u64);
        bytes_extend(&mut bytes, &keys[best].path);
        push_cid(&mut bytes, &keys[best].cid);
        proof {
            assert(whole[best as int] == sub[p]);
            assert(sub[p].path.len() <= 0xffff_ffff_ffff_ffff);
            assert(bytes@ =~= mid0 + entry_bytes(sub[p]));
        }
        let ghost mid1 = bytes@;
        match &right {
            Some(c) => {
                bytes.push(1u8);
                push_cid(&mut bytes, c);
                proof {
                    assert(bytes@ =~= mid1 + opt_child_bytes(sub_r));
                }
            },
            None => {
                bytes.push(0u8);
                proof {
                    assert(bytes@ =~= mid1 + opt_child_bytes(sub_r));
                }
            },
        }
        proof {
            assert(bytes@ =~= node_bytes(sub));
        }
        match store.put(NODE_CODEC, &bytes) {
            Ok(c) => {
                proof {
                    crate::store::lemma_insert_extends(store2, c@, bytes@);
                    lemma_extends_trans(store0, store2, store@);
                    if best > start {
                        lemma_contains_tree_extends(store2, store@, sub_l);
                    }
                    if best + 1 < end {
                        lemma_contains_tree_extends(store2, store@, sub_r);
                    }
                    assert(contains_tree(store@, sub));
                }
                Ok(c)
            },
            Err(e) => {
                proof {
                    lemma_extends_trans(store0, store2, store@);
                    if contains_tree(store0, sub) {
                        assert(store0[node_cid(sub)] == node_bytes(sub));
                        assert(store2[node_cid(sub)] == node_bytes(sub));
                        assert(false);
                    }
                    crate::store::lemma_put_refusal_is_collision(*store, NODE_CODEC, bytes@);
                }
                Err(e)
            },
        }
    }
}

/// Write the tree over all entries and return the root identifier.
pub fn build_tree(store: &mut MemoryBlockStore, keys: &Vec<KeyEntry>) -> (r: Result<
    Cid,
    RepoError,
>)
    requires
        old(store).wf(),
        keys_wf(krefs(keys@)),
    ensures
        final(store).wf(),
        store_extends(final(store)@, old(store)@),
        match r {
            Ok(c) => c@ == node_cid(krefs(keys@)) && c.wf() && contains_tree(
                final(store)@,
                krefs(keys@),
            ),
            Err(e) => e == RepoError::StoreError,
        },
        contains_tree(old(store)@, krefs(keys@)) ==> r is Ok,
        r is Err ==> crate::digest::digest_collision(),
{
    let ranks = compute_ranks(keys);
    let r = build_range(store, keys, &ranks, 0, keys.len());
    proof {
        assert(krefs(keys@).subrange(0, keys@.len() as int) =~= krefs(keys@));
    }
    r
}

} // verus!
