use vstd::prelude::*;
use crate::cid::{CidV, cid_of};
use crate::keys::{
    KeyRef, filter_prefixed, keys_map, keys_sorted, keys_wf, krefs, lemma_keys_map_index,
    lemma_sorted_keys_canonical,
};
use crate::load::lemma_tree_unique;
use crate::order::{is_prefix, lex_lt};
use crate::repo::{Builder, Repository, openable};
use crate::store::store_extends;
use crate::tree::{contains_tree, lemma_contains_tree_extends, node_cid};

verus! {

/// Determinism of the tree: two sorted key sequences that represent the
/// same path-to-identifier mapping are the same sequence and have the same
/// root identifier. Since every mutation keeps the sequence sorted and is
/// specified by its effect on the mapping alone, inserting any set of
/// entries in any order yields the same root identifier.
pub proof fn lemma_tree_determinism(s1: Seq<KeyRef>, s2: Seq<KeyRef>)
    requires
        keys_sorted(s1),
        keys_sorted(s2),
        keys_map(s1) == keys_map(s2),
    ensures
        s1 == s2,
        node_cid(s1) == node_cid(s2),
{
    lemma_sorted_keys_canonical(s1, s2);
}

/// Two writes to different paths reach the same mapping in either order,
/// so — with `lemma_tree_determinism` — they reach the same root
/// identifier in either order.
pub proof fn lemma_insert_order_irrelevant(
    m: Map<Seq<u8>, CidV>,
    p1: Seq<u8>,
    c1: CidV,
    p2: Seq<u8>,
    c2: CidV,
)
    requires
        p1 != p2,
    ensures
        m.insert(p1, c1).insert(p2, c2) == m.insert(p2, c2).insert(p1, c1),
{
    assert(m.insert(p1, c1).insert(p2, c2) =~= m.insert(p2, c2).insert(p1, c1));
}

/// Idempotent put: storing bytes that the store already holds leaves the
/// store unchanged — and the identifier, being a function of codec and
/// bytes alone, is the same both times.
pub proof fn lemma_put_idempotent(m: Map<CidV, Seq<u8>>, codec: u64, data: Seq<u8>)
    ensures
        m.insert(cid_of(codec, data), data).insert(cid_of(codec, data), data) == m.insert(
            cid_of(codec, data),
            data,
        ),
{
    assert(m.insert(cid_of(codec, data), data).insert(cid_of(codec, data), data) =~= m.insert(
        cid_of(codec, data),
        data,
    ));
}

/// Round trip: a repository that a successful finalize returned is in an
/// `openable` state under its own store, commit identifier, identity,
/// commit and key sequence — so by `open`'s contract, opening that store at
/// `current_root()` succeeds and returns exactly the same records.
pub proof fn lemma_finalize_then_open(repo: Repository)
    requires
        repo.wf(),
    ensures
        openable(
            repo.store@,
            repo.ccid@,
            repo.commit.identity@,
            repo.commit@,
            krefs(repo.keys@),
        ),
{
    vstd::std_specs::vec::axiom_spec_len(&repo.keys);
    assert(repo.keys@.len() <= usize::MAX);
}

/// Deleted means gone: after a delete of a path, the record mapping no
/// longer holds the path, so a lookup of it reports nothing found.
pub proof fn lemma_delete_then_lookup(m: Map<Seq<u8>, Seq<u8>>, p: Seq<u8>)
    ensures
        !m.remove(p).contains_key(p),
{
}

/// Distinct contents give distinct roots, within one store: two trees held
/// by the same store that represent different mappings have different root
/// identifiers. A delete of a present path changes the mapping, so the
/// finalized root differs from the previous one; re-adding the path later
/// gives the root determined by the then-current mapping alone.
pub proof fn lemma_root_change(m: Map<CidV, Seq<u8>>, s1: Seq<KeyRef>, s2: Seq<KeyRef>)
    requires
        contains_tree(m, s1),
        contains_tree(m, s2),
        keys_sorted(s1),
        keys_sorted(s2),
        keys_wf(s1),
        keys_wf(s2),
        keys_map(s1) != keys_map(s2),
    ensures
        node_cid(s1) != node_cid(s2),
{
    if node_cid(s1) == node_cid(s2) {
        lemma_tree_unique(m, s1, s2);
    }
}

/// A staged mutation that changes the record-to-identifier mapping changes
/// the tree root: the builder's store keeps every block of the repository's
/// store, so both trees are held by one store, where distinct contents have
/// distinct roots. With `stage_delete` of a present path, or `stage_write`
/// of a fresh path or a new value, the mapping changes, so the staged root
/// differs from the committed one.
pub proof fn lemma_staged_root_differs(repo: Repository, b: Builder)
    requires
        repo.wf(),
        b.wf(),
        store_extends(b.store@, repo.store@),
        keys_map(krefs(b.keys@)) != keys_map(krefs(repo.keys@)),
    ensures
        b.root@ != repo.commit.root@,
{
    lemma_contains_tree_extends(repo.store@, b.store@, krefs(repo.keys@));
    lemma_root_change(b.store@, krefs(b.keys@), krefs(repo.keys@));
}

/// Order independence over whole histories: two sequences of writes that
/// hold the same writes — each binding its path once — build the same
/// mapping, whatever their order. With `lemma_tree_determinism`, both
/// histories therefore reach the same canonical tree and root identifier.
pub proof fn lemma_write_history_any_order(ws1: Seq<KeyRef>, ws2: Seq<KeyRef>)
    requires
        ws1.to_multiset() == ws2.to_multiset(),
        forall|i: int, j: int|
            0 <= i < ws1.len() && 0 <= j < ws1.len() && i != j ==> (#[trigger] ws1[i]).path != (
            #[trigger] ws1[j]).path,
        forall|i: int, j: int|
            0 <= i < ws2.len() && 0 <= j < ws2.len() && i != j ==> (#[trigger] ws2[i]).path != (
            #[trigger] ws2[j]).path,
    ensures
        keys_map(ws1) == keys_map(ws2),
{
    broadcast use vstd::seq_lib::group_to_multiset_ensures;

    lemma_keys_map_index(ws1);
    lemma_keys_map_index(ws2);
    assert(keys_map(ws1) =~= keys_map(ws2)) by {
        assert forall|p: Seq<u8>| #[trigger]
            keys_map(ws1).contains_key(p) implies keys_map(ws2).contains_key(p) && keys_map(
            ws2,
        )[p] == keys_map(ws1)[p] by {
            let i = choose|i: int| 0 <= i < ws1.len() && (#[trigger] ws1[i]).path == p;
            assert(ws1.contains(ws1[i]));
            assert(ws1.to_multiset().count(ws1[i]) > 0);
            assert(ws2.contains(ws1[i]));
            let j = choose|j: int| 0 <= j < ws2.len() && ws2[j] == ws1[i];
            assert(ws2[j].path == p);
            assert(keys_map(ws1)[p] == ws1[i].cid);
            assert(keys_map(ws2)[p] == ws2[j].cid);
        }
        assert forall|p: Seq<u8>| #[trigger]
            keys_map(ws2).contains_key(p) implies keys_map(ws1).contains_key(p) by {
            let i = choose|i: int| 0 <= i < ws2.len() && (#[trigger] ws2[i]).path == p;
            assert(ws2.contains(ws2[i]));
            assert(ws2.to_multiset().count(ws2[i]) > 0);
            assert(ws1.contains(ws2[i]));
            let j = choose|j: int| 0 <= j < ws1.len() && ws1[j] == ws2[i];
            assert(ws1[j].path == p);
        }
    }
}

/// Every entry the prefix filter keeps is an entry of the sequence, and
/// its path begins with the prefix.
proof fn lemma_filter_member(s: Seq<KeyRef>, p: Seq<u8>)
    ensures
        forall|j: int|
            0 <= j < filter_prefixed(s, p).len() ==> s.contains(
                #[trigger] filter_prefixed(s, p)[j],
            ) && is_prefix(p, filter_prefixed(s, p)[j].path),
    decreases s.len(),
{
    if s.len() > 0 {
        lemma_filter_member(s.drop_last(), p);
        let f = filter_prefixed(s, p);
        let f0 = filter_prefixed(s.drop_last(), p);
        assert forall|j: int| 0 <= j < f.len() implies s.contains(#[trigger] f[j]) && is_prefix(
            p,
            f[j].path,
        ) by {
            if j < f0.len() {
                assert(f[j] == f0[j]);
                assert(s.drop_last().contains(f0[j]));
                let i = choose|i: int| 0 <= i < s.drop_last().len() && s.drop_last()[i] == f0[j];
                assert(s[i] == f[j]);
            } else {
                assert(f[j] == s.last());
                assert(s[s.len() - 1] == f[j]);
            }
        }
    }
}

/// Every entry of the sequence whose path begins with the prefix is kept
/// by the prefix filter.
proof fn lemma_filter_complete(s: Seq<KeyRef>, p: Seq<u8>)
    ensures
        forall|i: int|
            0 <= i < s.len() && is_prefix(p, (#[trigger] s[i]).path) ==> filter_prefixed(
                s,
                p,
            ).contains(s[i]),
    decreases s.len(),
{
    if s.len() > 0 {
        lemma_filter_complete(s.drop_last(), p);
        let f = filter_prefixed(s, p);
        let f0 = filter_prefixed(s.drop_last(), p);
        assert forall|i: int|
            0 <= i < s.len() && is_prefix(p, (#[trigger] s[i]).path) implies f.contains(s[i]) by {
            if i < s.len() - 1 {
                assert(s.drop_last()[i] == s[i]);
                assert(f0.contains(s[i]));
                let j = choose|j: int| 0 <= j < f0.len() && f0[j] == s[i];
                assert(f[j] == s[i]);
            } else {
                assert(f[f.len() - 1] == s[i]);
            }
        }
    }
}

/// The prefix filter keeps the strictly ascending path order.
proof fn lemma_filter_sorted(s: Seq<KeyRef>, p: Seq<u8>)
    requires
        keys_sorted(s),
    ensures
        keys_sorted(filter_prefixed(s, p)),
    decreases s.len(),
{
    if s.len() > 0 {
        assert(keys_sorted(s.drop_last())) by {
            assert forall|i: int, j: int| 0 <= i < j < s.drop_last().len() implies lex_lt(
                (#[trigger] s.drop_last()[i]).path,
                (#[trigger] s.drop_last()[j]).path,
            ) by {
                assert(lex_lt(s[i].path, s[j].path));
            }
        }
        lemma_filter_sorted(s.drop_last(), p);
        lemma_filter_member(s.drop_last(), p);
        let f = filter_prefixed(s, p);
        let f0 = filter_prefixed(s.drop_last(), p);
        assert forall|x: int, y: int| 0 <= x < y < f.len() implies lex_lt(
            (#[trigger] f[x]).path,
            (#[trigger] f[y]).path,
        ) by {
            if y < f0.len() {
                assert(f[x] == f0[x] && f[y] == f0[y]);
                assert(lex_lt(f0[x].path, f0[y].path));
            } else {
                assert(f[y] == s.last());
                assert(f[x] == f0[x]);
                assert(s.drop_last().contains(f0[x]));
                let i = choose|i: int| 0 <= i < s.drop_last().len() && s.drop_last()[i] == f0[x];
                assert(s[i] == f[x]);
                assert(lex_lt(s[i].path, s[s.len() - 1].path));
            }
        }
    }
}

/// With an empty prefix the filter keeps everything.
proof fn lemma_filter_empty_prefix(s: Seq<KeyRef>, p: Seq<u8>)
    requires
        p.len() == 0,
    ensures
        filter_prefixed(s, p) == s,
    decreases s.len(),
{
    if s.len() > 0 {
        lemma_filter_empty_prefix(s.drop_last(), p);
        assert(is_prefix(p, s.last().path)) by {
            assert(s.last().path.subrange(0, 0) =~= p);
        }
        assert(filter_prefixed(s, p) =~= s);
    } else {
        assert(filter_prefixed(s, p) =~= s);
    }
}

/// Prefix scan correctness: over a sorted key sequence, the prefix filter
/// keeps exactly the entries whose paths begin with the prefix, still in
/// strictly ascending path order; with an empty prefix it keeps every
/// entry.
pub proof fn lemma_prefix_scan(s: Seq<KeyRef>, p: Seq<u8>)
    requires
        keys_sorted(s),
    ensures
        keys_sorted(filter_prefixed(s, p)),
        forall|j: int|
            0 <= j < filter_prefixed(s, p).len() ==> s.contains(
                #[trigger] filter_prefixed(s, p)[j],
            ) && is_prefix(p, filter_prefixed(s, p)[j].path),
        forall|i: int|
            0 <= i < s.len() && is_prefix(p, (#[trigger] s[i]).path) ==> filter_prefixed(
                s,
                p,
            ).contains(s[i]),
        p.len() == 0 ==> filter_prefixed(s, p) == s,
{
    lemma_filter_member(s, p);
    lemma_filter_complete(s, p);
    lemma_filter_sorted(s, p);
    if p.len() == 0 {
        lemma_filter_empty_prefix(s, p);
    }
}

} // verus!
