use vstd::prelude::*;
use crate::cid::{Cid, CidV};
use crate::order::{
    ByteCmp, bytes_cmp, bytes_dup, bytes_has_prefix, is_prefix, lex_lt, lemma_lex_asym,
    lemma_lex_irrefl, lemma_lex_total, lemma_lex_trans,
};

verus! {

/// One tree entry: a path and the content identifier of the block it names.
pub struct KeyEntry {
    pub path: Vec<u8>,
    pub cid: Cid,
}

/// Mathematical model of one tree entry.
#[verifier::ext_equal]
pub ghost struct KeyRef {
    pub path: Seq<u8>,
    pub cid: CidV,
}

impl View for KeyEntry {
    type V = KeyRef;

    open spec fn view(&self) -> KeyRef {
        KeyRef { path: self.path@, cid: self.cid@ }
    }
}

/// The models of a sequence of entries.
pub open spec fn krefs(s: Seq<KeyEntry>) -> Seq<KeyRef> {
    s.map_values(|k: KeyEntry| k@)
}

/// Paths strictly ascend: each path occurs at most once, in lexicographic
/// order. This is the canonical form of a key set.
pub open spec fn keys_sorted(s: Seq<KeyRef>) -> bool {
    forall|i: int, j: int| 0 <= i < j < s.len() ==> lex_lt(s[i].path, s[j].path)
}

/// Every entry carries a full digest and a path whose length has a byte
/// encoding.
pub open spec fn keys_wf(s: Seq<KeyRef>) -> bool {
    forall|i: int|
        0 <= i < s.len() ==> (#[trigger] s[i]).cid.digest.len() == 32 && s[i].path.len()
            <= 0xffff_ffff_ffff_ffff
}

/// The finite mapping from path to content identifier that a key sequence
/// represents.
pub open spec fn keys_map(s: Seq<KeyRef>) -> Map<Seq<u8>, CidV>
    decreases s.len(),
{
    if s.len() == 0 {
        Map::empty()
    } else {
        keys_map(s.drop_last()).insert(s.last().path, s.last().cid)
    }
}

/// In a sorted sequence all paths are distinct.
pub proof fn lemma_sorted_distinct(s: Seq<KeyRef>)
    requires
        keys_sorted(s),
    ensures
        forall|i: int, j: int|
            0 <= i < s.len() && 0 <= j < s.len() && i != j ==> (#[trigger] s[i]).path != (
            #[trigger] s[j]).path,
{
    assert forall|i: int, j: int|
        0 <= i < s.len() && 0 <= j < s.len() && i != j implies (#[trigger] s[i]).path != (
    #[trigger] s[j]).path by {
        lemma_lex_irrefl(s[i].path);
    }
}

/// What the represented map holds, index by index.
pub proof fn lemma_keys_map_index(s: Seq<KeyRef>)
    requires
        forall|i: int, j: int|
            0 <= i < s.len() && 0 <= j < s.len() && i != j ==> (#[trigger] s[i]).path != (
            #[trigger] s[j]).path,
    ensures
        forall|p: Seq<u8>| #[trigger]
            keys_map(s).contains_key(p) <==> (exists|i: int|
                0 <= i < s.len() && (#[trigger] s[i]).path == p),
        forall|i: int|
            0 <= i < s.len() ==> keys_map(s).contains_key((#[trigger] s[i]).path) && keys_map(
                s,
            )[s[i].path] == s[i].cid,
    decreases s.len(),
{
    if s.len() > 0 {
        assert forall|i: int, j: int|
            0 <= i < s.drop_last().len() && 0 <= j < s.drop_last().len() && i != j implies (
        #[trigger] s.drop_last()[i]).path != (#[trigger] s.drop_last()[j]).path by {
            assert(s[i].path != s[j].path);
        }
        lemma_keys_map_index(s.drop_last());
        assert forall|p: Seq<u8>| #[trigger] keys_map(s).contains_key(p) implies (exists|i: int|
            0 <= i < s.len() && (#[trigger] s[i]).path == p) by {
            if p == s.last().path {
                assert(s[s.len() - 1].path == p);
            } else {
                assert(keys_map(s.drop_last()).contains_key(p));
                let i = choose|i: int|
                    0 <= i < s.drop_last().len() && (#[trigger] s.drop_last()[i]).path == p;
                assert(s.drop_last()[i] == s[i]);
                assert(s[i].path == p);
            }
        }
        assert forall|p: Seq<u8>| (exists|i: int|
            0 <= i < s.len() && (#[trigger] s[i]).path == p) implies #[trigger] keys_map(
            s,
        ).contains_key(p) by {
            let i = choose|i: int| 0 <= i < s.len() && (#[trigger] s[i]).path == p;
            if i < s.len() - 1 {
                assert(s.drop_last()[i].path == p);
                assert(exists|j: int|
                    0 <= j < s.drop_last().len() && (#[trigger] s.drop_last()[j]).path == p);
                assert(keys_map(s.drop_last()).contains_key(p));
            }
        }
        assert forall|i: int| 0 <= i < s.len() implies keys_map(s).contains_key(
            (#[trigger] s[i]).path,
        ) && keys_map(s)[s[i].path] == s[i].cid by {
            if i < s.len() - 1 {
                assert(s.drop_last()[i].path == s[i].path && s.drop_last()[i].cid == s[i].cid);
                assert(keys_map(s.drop_last())[s[i].path] == s[i].cid);
                assert(s[i].path != s.last().path);
            }
        }
    }
}

/// Two sorted key sequences that represent the same mapping are the same
/// sequence: the sorted form is canonical.
pub proof fn lemma_sorted_keys_canonical(s1: Seq<KeyRef>, s2: Seq<KeyRef>)
    requires
        keys_sorted(s1),
        keys_sorted(s2),
        keys_map(s1) == keys_map(s2),
    ensures
        s1 == s2,
    decreases s1.len(),
{
    lemma_sorted_distinct(s1);
    lemma_sorted_distinct(s2);
    lemma_keys_map_index(s1);
    lemma_keys_map_index(s2);
    let m = keys_map(s1);
    if s1.len() == 0 {
        if s2.len() > 0 {
            assert(m.contains_key(s2[0].path));
            assert(false);
        }
        assert(s1 =~= s2);
    } else {
        if s2.len() == 0 {
            assert(keys_map(s2).contains_key(s1[0].path));
            assert(false);
        }
        let p1 = s1.last().path;
        let p2 = s2.last().path;
        assert(m.contains_key(p2));
        let i1 = choose|i: int| 0 <= i < s1.len() && (#[trigger] s1[i]).path == p2;
        assert(!lex_lt(p1, p2)) by {
            if i1 < s1.len() - 1 {
                assert(lex_lt(s1[i1].path, p1));
                if lex_lt(p1, p2) {
                    lemma_lex_trans(s1[i1].path, p1, p2);
                    lemma_lex_irrefl(p2);
                }
            } else {
                lemma_lex_irrefl(p1);
                if lex_lt(p1, p2) {
                    assert(p1 == p2);
                }
            }
        }
        assert(m.contains_key(p1));
        let i2 = choose|i: int| 0 <= i < s2.len() && (#[trigger] s2[i]).path == p1;
        assert(!lex_lt(p2, p1)) by {
            if i2 < s2.len() - 1 {
                assert(lex_lt(s2[i2].path, p2));
                if lex_lt(p2, p1) {
                    lemma_lex_trans(s2[i2].path, p2, p1);
                    lemma_lex_irrefl(p1);
                }
            } else {
                lemma_lex_irrefl(p2);
                if lex_lt(p2, p1) {
                    assert(p2 == p1);
                }
            }
        }
        lemma_lex_total(p1, p2);
        assert(p1 == p2);
        assert(m[p1] == s1.last().cid);
        assert(keys_map(s2)[p2] == s2.last().cid);
        assert(s1.last() =~= s2.last());
        assert(!keys_map(s1.drop_last()).contains_key(p1)) by {
            assert forall|i: int, j: int|
                0 <= i < s1.drop_last().len() && 0 <= j < s1.drop_last().len() && i != j implies (
            #[trigger] s1.drop_last()[i]).path != (#[trigger] s1.drop_last()[j]).path by {
                assert(s1[i].path != s1[j].path);
            }
            lemma_keys_map_index(s1.drop_last());
            if keys_map(s1.drop_last()).contains_key(p1) {
                let i = choose|i: int|
                    0 <= i < s1.drop_last().len() && (#[trigger] s1.drop_last()[i]).path == p1;
                assert(s1[i].path == s1[s1.len() - 1].path);
            }
        }
        assert(!keys_map(s2.drop_last()).contains_key(p2)) by {
            assert forall|i: int, j: int|
                0 <= i < s2.drop_last().len() && 0 <= j < s2.drop_last().len() && i != j implies (
            #[trigger] s2.drop_last()[i]).path != (#[trigger] s2.drop_last()[j]).path by {
                assert(s2[i].path != s2[j].path);
            }
            lemma_keys_map_index(s2.drop_last());
            if keys_map(s2.drop_last()).contains_key(p2) {
                let i = choose|i: int|
                    0 <= i < s2.drop_last().len() && (#[trigger] s2.drop_last()[i]).path == p2;
                assert(s2[i].path == s2[s2.len() - 1].path);
            }
        }
        assert(keys_map(s1.drop_last()) =~= m.remove(p1));
        assert(keys_map(s2.drop_last()) =~= m.remove(p1));
        assert(keys_sorted(s1.drop_last())) by {
            assert forall|i: int, j: int| 0 <= i < j < s1.drop_last().len() implies lex_lt(
                (#[trigger] s1.drop_last()[i]).path,
                (#[trigger] s1.drop_last()[j]).path,
            ) by {
                assert(lex_lt(s1[i].path, s1[j].path));
            }
        }
        assert(keys_sorted(s2.drop_last())) by {
            assert forall|i: int, j: int| 0 <= i < j < s2.drop_last().len() implies lex_lt(
                (#[trigger] s2.drop_last()[i]).path,
                (#[trigger] s2.drop_last()[j]).path,
            ) by {
                assert(lex_lt(s2[i].path, s2[j].path));
            }
        }
        lemma_sorted_keys_canonical(s1.drop_last(), s2.drop_last());
        assert(s1.drop_last() == s2.drop_last());
        assert(s1.len() == s2.len());
        assert(s1 =~= s2) by {
            assert forall|i: int| 0 <= i < s1.len() implies s1[i] == s2[i] by {
                if i < s1.len() - 1 {
                    assert(s1.drop_last()[i] == s1[i]);
                    assert(s2.drop_last()[i] == s2[i]);
                } else {
                    assert(s1.last() == s2.last());
                }
            }
        }
    }
}

/// Find the entry at a path.
pub fn keys_lookup(keys: &Vec<KeyEntry>, path: &Vec<u8>) -> (r: Option<usize>)
    ensures
        match r {
            Some(i) => i < keys@.len() && krefs(keys@)[i as int].path == path@,
            None => forall|i: int|
                0 <= i < keys@.len() ==> (#[trigger] krefs(keys@)[i]).path != path@,
        },
{
    let mut i: usize = 0;
    while i < keys.len()
        invariant
            i <= keys.len(),
            forall|j: int| 0 <= j < i ==> (#[trigger] krefs(keys@)[j]).path != path@,
        decreases keys.len() - i,
    {
        if crate::order::bytes_eq(&keys[i].path, path) {
            return Some(i);
        }
        i = i + 1;
    }
    None
}

/// Insert an entry, replacing the entry at the same path if there is one.
/// The sequence stays sorted and afterwards represents the old mapping with
/// this path bound to this identifier.
pub fn keys_insert(keys: &mut Vec<KeyEntry>, path: Vec<u8>, cid: Cid)
    requires
        keys_sorted(krefs(old(keys)@)),
    ensures
        keys_sorted(krefs(final(keys)@)),
        keys_map(krefs(final(keys)@)) == keys_map(krefs(old(keys)@)).insert(path@, cid@),
        final(keys)@.len() <= old(keys)@.len() + 1,
        keys_wf(krefs(old(keys)@)) && path@.len() <= 0xffff_ffff_ffff_ffff && cid@.digest.len()
            == 32 ==> keys_wf(krefs(final(keys)@)),
{
    let ghost s0 = krefs(keys@);
    let mut pos: usize = 0;
    while pos < keys.len() && matches!(bytes_cmp(&keys[pos].path, &path), ByteCmp::Less)
        invariant
            pos <= keys.len(),
            forall|j: int| 0 <= j < pos ==> lex_lt((#[trigger] krefs(keys@)[j]).path, path@),
        decreases keys.len() - pos,
    {
        pos = pos + 1;
    }
    proof {
        lemma_sorted_distinct(s0);
        lemma_keys_map_index(s0);
    }
    if pos < keys.len() && crate::order::bytes_eq(&keys[pos].path, &path) {
        let _old = keys.remove(pos);
        keys.insert(pos, KeyEntry { path, cid });
        proof {
            let s1 = krefs(keys@);
            assert(s1 =~= s0.update(pos as int, KeyRef { path: path@, cid: cid@ }));
            assert(keys_sorted(s1)) by {
                assert forall|i: int, j: int| 0 <= i < j < s1.len() implies lex_lt(
                    (#[trigger] s1[i]).path,
                    (#[trigger] s1[j]).path,
                ) by {
                    assert(lex_lt(s0[i].path, s0[j].path));
                }
            }
            lemma_sorted_distinct(s1);
            lemma_keys_map_index(s1);
            assert(keys_map(s1) =~= keys_map(s0).insert(path@, cid@)) by {
                assert forall|q: Seq<u8>| #[trigger]
                    keys_map(s1).contains_key(q) implies keys_map(s0).insert(
                    path@,
                    cid@,
                ).contains_key(q) by {
                    let i = choose|i: int| 0 <= i < s1.len() && (#[trigger] s1[i]).path == q;
                    if i != pos as int {
                        assert(s0[i].path == q);
                    }
                }
                assert forall|q: Seq<u8>| #[trigger]
                    keys_map(s0).insert(path@, cid@).contains_key(q) implies keys_map(
                    s1,
                ).contains_key(q) by {
                    if q == path@ {
                        assert(s1[pos as int].path == q);
                    } else {
                        let i = choose|i: int| 0 <= i < s0.len() && (#[trigger] s0[i]).path == q;
                        assert(s1[i].path == q);
                    }
                }
                assert forall|q: Seq<u8>| #[trigger]
                    keys_map(s1).contains_key(q) implies keys_map(s1)[q] == keys_map(s0).insert(
                    path@,
                    cid@,
                )[q] by {
                    let i = choose|i: int| 0 <= i < s1.len() && (#[trigger] s1[i]).path == q;
                    assert(keys_map(s1)[q] == s1[i].cid);
                    if i == pos as int {
                        assert(q == path@);
                    } else {
                        assert(s0[i].path == q && s0[i].cid == s1[i].cid);
                        assert(s1[i].path != s1[pos as int].path);
                        assert(q != path@);
                        assert(keys_map(s0)[q] == s0[i].cid);
                    }
                }
            }
        }
    } else {
        proof {
            assert forall|j: int| pos <= j < s0.len() implies !lex_lt(
                (#[trigger] s0[j]).path,
                path@,
            ) && s0[j].path != path@ by {
                if pos < s0.len() {
                    if j == pos as int {
                        if lex_lt(s0[j].path, path@) {
                            assert(false);
                        }
                        lemma_lex_total(s0[j].path, path@);
                    } else {
                        assert(lex_lt(s0[pos as int].path, s0[j].path));
                        lemma_lex_total(s0[pos as int].path, path@);
                        assert(lex_lt(path@, s0[pos as int].path) || path@ == s0[pos as int].path);
                        if lex_lt(s0[j].path, path@) {
                            if path@ == s0[pos as int].path {
                                lemma_lex_asym(s0[pos as int].path, s0[j].path);
                            } else {
                                lemma_lex_trans(path@, s0[pos as int].path, s0[j].path);
                                lemma_lex_asym(s0[j].path, path@);
                            }
                        }
                        lemma_lex_total(s0[j].path, path@);
                        if s0[j].path == path@ {
                            lemma_lex_asym(s0[pos as int].path, s0[j].path);
                        }
                    }
                }
            }
        }
        keys.insert(pos, KeyEntry { path, cid });
        proof {
            let s1 = krefs(keys@);
            let k = KeyRef { path: path@, cid: cid@ };
            assert(s1 =~= s0.insert(pos as int, k));
            assert(keys_sorted(s1)) by {
                assert forall|i: int, j: int| 0 <= i < j < s1.len() implies lex_lt(
                    (#[trigger] s1[i]).path,
                    (#[trigger] s1[j]).path,
                ) by {
                    if j < pos as int {
                        assert(lex_lt(s0[i].path, s0[j].path));
                    } else if i > pos as int {
                        assert(lex_lt(s0[i - 1].path, s0[j - 1].path));
                    } else if i < pos as int && j == pos as int {
                        assert(lex_lt(s0[i].path, path@));
                    } else if i == pos as int {
                        assert(!lex_lt(s0[j - 1].path, path@) && s0[j - 1].path != path@);
                        lemma_lex_total(path@, s0[j - 1].path);
                    } else {
                        assert(lex_lt(s0[i].path, path@));
                        assert(!lex_lt(s0[j - 1].path, path@) && s0[j - 1].path != path@);
                        lemma_lex_total(path@, s0[j - 1].path);
                        lemma_lex_trans(s0[i].path, path@, s0[j - 1].path);
                    }
                }
            }
            lemma_sorted_distinct(s1);
            lemma_keys_map_index(s1);
            assert(keys_map(s1) =~= keys_map(s0).insert(path@, cid@)) by {
                assert forall|q: Seq<u8>| #[trigger]
                    keys_map(s1).contains_key(q) implies keys_map(s0).insert(
                    path@,
                    cid@,
                ).contains_key(q) by {
                    let i = choose|i: int| 0 <= i < s1.len() && (#[trigger] s1[i]).path == q;
                    if i < pos as int {
                        assert(s0[i].path == q);
                    } else if i > pos as int {
                        assert(s0[i - 1].path == q);
                    }
                }
                assert forall|q: Seq<u8>| #[trigger]
                    keys_map(s0).insert(path@, cid@).contains_key(q) implies keys_map(
                    s1,
                ).contains_key(q) by {
                    if q == path@ {
                        assert(s1[pos as int].path == q);
                    } else {
                        let i = choose|i: int| 0 <= i < s0.len() && (#[trigger] s0[i]).path == q;
                        if i < pos as int {
                            assert(s1[i].path == q);
                        } else {
                            assert(s1[i + 1].path == q);
                        }
                    }
                }
                assert forall|q: Seq<u8>| #[trigger]
                    keys_map(s1).contains_key(q) implies keys_map(s1)[q] == keys_map(s0).insert(
                    path@,
                    cid@,
                )[q] by {
                    let i = choose|i: int| 0 <= i < s1.len() && (#[trigger] s1[i]).path == q;
                    assert(keys_map(s1)[q] == s1[i].cid);
                    if i == pos as int {
                        assert(q == path@);
                    } else if i < pos as int {
                        assert(s0[i].path == q && s0[i].cid == s1[i].cid);
                        assert(s1[i].path != s1[pos as int].path);
                        assert(q != path@);
                        assert(keys_map(s0)[q] == s0[i].cid);
                    } else {
                        assert(s0[i - 1].path == q && s0[i - 1].cid == s1[i].cid);
                        assert(s1[i].path != s1[pos as int].path);
                        assert(q != path@);
                        assert(keys_map(s0)[q] == s0[i - 1].cid);
                    }
                }
            }
        }
    }
}

/// Remove the entry at a path; removing an absent path changes nothing.
pub fn keys_delete(keys: &mut Vec<KeyEntry>, path: &Vec<u8>)
    requires
        keys_sorted(krefs(old(keys)@)),
    ensures
        keys_sorted(krefs(final(keys)@)),
        keys_map(krefs(final(keys)@)) == keys_map(krefs(old(keys)@)).remove(path@),
        final(keys)@.len() <= old(keys)@.len(),
        keys_wf(krefs(old(keys)@)) ==> keys_wf(krefs(final(keys)@)),
{
    let ghost s0 = krefs(keys@);
    proof {
        lemma_sorted_distinct(s0);
        lemma_keys_map_index(s0);
    }
    match keys_lookup(keys, path) {
        Some(i) => {
            let _old = keys.remove(i);
            proof {
                let s1 = krefs(keys@);
                assert(s1 =~= s0.remove(i as int));
                assert(keys_sorted(s1)) by {
                    assert forall|x: int, y: int| 0 <= x < y < s1.len() implies lex_lt(
                        (#[trigger] s1[x]).path,
                        (#[trigger] s1[y]).path,
                    ) by {
                        let x0 = if x < i as int {
                            x
                        } else {
                            x + 1
                        };
                        let y0 = if y < i as int {
                            y
                        } else {
                            y + 1
                        };
                        assert(lex_lt(s0[x0].path, s0[y0].path));
                    }
                }
                lemma_sorted_distinct(s1);
                lemma_keys_map_index(s1);
                assert(keys_map(s1) =~= keys_map(s0).remove(path@)) by {
                    assert forall|q: Seq<u8>| #[trigger]
                        keys_map(s1).contains_key(q) implies keys_map(s0).remove(
                        path@,
                    ).contains_key(q) by {
                        let x = choose|x: int| 0 <= x < s1.len() && (#[trigger] s1[x]).path == q;
                        let x0 = if x < i as int {
                            x
                        } else {
                            x + 1
                        };
                        assert(s0[x0].path == q);
                        assert(q != path@);
                    }
                    assert forall|q: Seq<u8>| #[trigger]
                        keys_map(s0).remove(path@).contains_key(q) implies keys_map(
                        s1,
                    ).contains_key(q) by {
                        let x = choose|x: int| 0 <= x < s0.len() && (#[trigger] s0[x]).path == q;
                        assert(x != i as int);
                        let x1 = if x < i as int {
                            x
                        } else {
                            x - 1
                        };
                        assert(s1[x1].path == q);
                    }
                    assert forall|q: Seq<u8>| #[trigger]
                        keys_map(s1).contains_key(q) implies keys_map(s1)[q] == keys_map(s0).remove(
                        path@,
                    )[q] by {
                        let x = choose|x: int| 0 <= x < s1.len() && (#[trigger] s1[x]).path == q;
                        let x0 = if x < i as int {
                            x
                        } else {
                            x + 1
                        };
                        assert(s0[x0].path == q && s0[x0].cid == s1[x].cid);
                        assert(q != path@);
                        assert(keys_map(s0)[q] == s0[x0].cid);
                        assert(keys_map(s1)[q] == s1[x].cid);
                    }
                }
            }
        },
        None => {
            proof {
                assert(keys_map(s0) =~= keys_map(s0).remove(path@)) by {
                    if keys_map(s0).contains_key(path@) {
                        let x = choose|x: int|
                            0 <= x < s0.len() && (#[trigger] s0[x]).path == path@;
                        assert(false);
                    }
                }
            }
        },
    }
}

/// A chain of adjacent orderings orders every pair.
proof fn lemma_lex_chain(s: Seq<KeyRef>, i: int, j: int)
    requires
        forall|k: int| 0 <= k < s.len() - 1 ==> lex_lt((#[trigger] s[k]).path, s[k + 1].path),
        0 <= i < j < s.len(),
    ensures
        lex_lt(s[i].path, s[j].path),
    decreases j - i,
{
    if j > i + 1 {
        lemma_lex_chain(s, i, j - 1);
        lemma_lex_trans(s[i].path, s[j - 1].path, s[j].path);
    }
}

/// Check that paths strictly ascend.
pub fn keys_check_sorted(keys: &Vec<KeyEntry>) -> (r: bool)
    ensures
        r == keys_sorted(krefs(keys@)),
{
    let ghost s = krefs(keys@);
    let mut i: usize = 0;
    if keys.len() == 0 {
        return true;
    }
    while i < keys.len() - 1
        invariant
            keys.len() > 0,
            i <= keys.len() - 1,
            s == krefs(keys@),
            forall|k: int| 0 <= k < i ==> lex_lt((#[trigger] s[k]).path, s[k + 1].path),
        decreases keys.len() - i,
    {
        match bytes_cmp(&keys[i].path, &keys[i + 1].path) {
            ByteCmp::Less => {},
            _ => {
                proof {
                    if keys_sorted(s) {
                        assert(lex_lt(s[i as int].path, s[i as int + 1].path));
                    }
                }
                return false;
            },
        }
        i = i + 1;
    }
    proof {
        assert forall|x: int, y: int| 0 <= x < y < s.len() implies lex_lt(
            (#[trigger] s[x]).path,
            (#[trigger] s[y]).path,
        ) by {
            lemma_lex_chain(s, x, y);
        }
    }
    true
}

/// Copy a key sequence.
pub fn keys_dup(keys: &Vec<KeyEntry>) -> (r: Vec<KeyEntry>)
    ensures
        krefs(r@) == krefs(keys@),
{
    let mut out: Vec<KeyEntry> = Vec::new();
    let mut i: usize = 0;
    while i < keys.len()
        invariant
            i <= keys.len(),
            out@.len() == i,
            forall|j: int|
                0 <= j < i ==> (#[trigger] out@[j]).path@ == keys@[j].path@ && out@[j].cid@
                    == keys@[j].cid@,
        decreases keys.len() - i,
    {
        out.push(
            KeyEntry { path: bytes_dup(&keys[i].path), cid: crate::cid::cid_dup(&keys[i].cid) },
        );
        i = i + 1;
    }
    proof {
        assert(krefs(out@) =~= krefs(keys@)) by {
            assert forall|j: int| 0 <= j < keys@.len() implies krefs(out@)[j] == krefs(
                keys@,
            )[j] by {
                assert(out@[j].path@ == keys@[j].path@ && out@[j].cid@ == keys@[j].cid@);
                assert(krefs(out@)[j] =~= krefs(keys@)[j]);
            }
        }
    }
    out
}

/// Entries whose paths share a prefix, in their original order.
pub open spec fn filter_prefixed(s: Seq<KeyRef>, p: Seq<u8>) -> Seq<KeyRef>
    decreases s.len(),
{
    if s.len() == 0 {
        Seq::empty()
    } else {
        filter_prefixed(s.drop_last(), p) + (if is_prefix(p, s.last().path) {
            seq![s.last()]
        } else {
            Seq::empty()
        })
    }
}

/// Collect the entries whose paths share a prefix, in ascending path order.
pub fn keys_prefixed(keys: &Vec<KeyEntry>, prefix: &Vec<u8>) -> (r: Vec<KeyEntry>)
    ensures
        krefs(r@) == filter_prefixed(krefs(keys@), prefix@),
{
    let ghost s0 = krefs(keys@);
    let mut out: Vec<KeyEntry> = Vec::new();
    let mut i: usize = 0;
    while i < keys.len()
        invariant
            i <= keys.len(),
            krefs(out@) =~= filter_prefixed(s0.subrange(0, i as int), prefix@),
            s0 == krefs(keys@),
        decreases keys.len() - i,
    {
        proof {
            assert(s0.subrange(0, i + 1).drop_last() =~= s0.subrange(0, i as int));
            assert(s0.subrange(0, i + 1).last() == s0[i as int]);
        }
        if bytes_has_prefix(&keys[i].path, prefix) {
            out.push(
                KeyEntry { path: bytes_dup(&keys[i].path), cid: crate::cid::cid_dup(&keys[i].cid) },
            );
            proof {
                assert(krefs(out@) =~= filter_prefixed(s0.subrange(0, i + 1), prefix@));
            }
        } else {
            proof {
                assert(krefs(out@) =~= filter_prefixed(s0.subrange(0, i + 1), prefix@));
            }
        }
        i = i + 1;
    }
    proof {
        assert(s0.subrange(0, s0.len() as int) =~= s0);
    }
    out
}

} // verus!
