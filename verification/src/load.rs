use vstd::prelude::*;
use crate::cid::{
    Cid, CidV, NODE_CODEC, cid_bytes, lemma_u64_be_roundtrip, parse_opt_cid, read_cid,
    read_u64_be, u64_be, u64_from_be,
};
use crate::errors::RepoError;
use crate::keys::{KeyEntry, KeyRef, keys_wf, krefs};
use crate::store::MemoryBlockStore;
use crate::tree::{
    contains_tree, entry_bytes, lemma_pivot, node_bytes, node_cid, opt_child_bytes, pivot_index,
};

verus! {

/// What one non-empty node block holds: an optional left child identifier,
/// the pivot entry, and an optional right child identifier.
#[verifier::ext_equal]
pub ghost struct NodeShape {
    pub left: Option<CidV>,
    pub path: Seq<u8>,
    pub vcid: CidV,
    pub right: Option<CidV>,
}

/// Parse a node block: `None` for a malformed block, `Some(None)` for the
/// empty node, `Some(Some(shape))` for a node with an entry. A well-formed
/// block is consumed exactly.
pub open spec fn parse_node(b: Seq<u8>) -> Option<Option<NodeShape>> {
    if b.len() == 0 {
        None
    } else if b[0] == 0 {
        if b.len() == 1 {
            Some(None)
        } else {
            None
        }
    } else if b[0] != 1 {
        None
    } else {
        match parse_opt_cid(b, 1) {
            None => None,
            Some((left, off1)) => {
                if off1 + 8 <= b.len() {
                    let plen = u64_from_be(b.subrange(off1, off1 + 8)) as int;
                    if off1 + 48 + plen <= b.len() {
                        let path = b.subrange(off1 + 8, off1 + 8 + plen);
                        let vcid = CidV {
                            codec: u64_from_be(b.subrange(off1 + 8 + plen, off1 + 16 + plen)),
                            digest: b.subrange(off1 + 16 + plen, off1 + 48 + plen),
                        };
                        match parse_opt_cid(b, off1 + 48 + plen) {
                            None => None,
                            Some((right, off2)) => {
                                if off2 == b.len() {
                                    Some(Some(NodeShape { left, path, vcid, right }))
                                } else {
                                    None
                                }
                            },
                        }
                    } else {
                        None
                    }
                } else {
                    None
                }
            },
        }
    }
}

/// The shape that encoding a non-empty run gives back when parsed.
pub open spec fn shape_of(s: Seq<KeyRef>) -> NodeShape {
    let p = pivot_index(s);
    NodeShape {
        left: if p > 0 {
            Some(node_cid(s.subrange(0, p)))
        } else {
            None
        },
        path: s[p].path,
        vcid: s[p].cid,
        right: if p + 1 < s.len() {
            Some(node_cid(s.subrange(p + 1, s.len() as int)))
        } else {
            None
        },
    }
}

/// Parsing the encoding of a run of entries gives back exactly its
/// structure.
pub proof fn lemma_parse_node_roundtrip(s: Seq<KeyRef>)
    requires
        keys_wf(s),
    ensures
        s.len() == 0 ==> parse_node(node_bytes(s)) == Some(Option::<NodeShape>::None),
        s.len() > 0 ==> parse_node(node_bytes(s)) == Some(Some(shape_of(s))),
{
    if s.len() == 0 {
        assert(node_bytes(s) =~= seq![0u8]);
    } else {
        lemma_pivot(s);
        let p = pivot_index(s);
        let sub_l = s.subrange(0, p);
        let sub_r = s.subrange(p + 1, s.len() as int);
        let lb = opt_child_bytes(sub_l);
        let eb = entry_bytes(s[p]);
        let rb = opt_child_bytes(sub_r);
        let b = node_bytes(s);
        assert(b == seq![1u8] + lb + eb + rb);
        let plen = s[p].path.len() as int;
        assert(s[p].cid.digest.len() == 32);
        assert(eb.len() == 48 + plen);
        let llen: int = if p > 0 {
            41
        } else {
            1
        };
        assert(lb.len() == llen);
        let rlen: int = if p + 1 < s.len() {
            41
        } else {
            1
        };
        assert(rb.len() == rlen);
        assert(b.len() == 1 + llen + 48 + plen + rlen);
        assert(b[0] == 1);
        let off1 = 1 + llen;
        // left child
        if p > 0 {
            let cl = node_cid(sub_l);
            assert(lb == seq![1u8] + cid_bytes(cl));
            assert(cl.digest.len() == 32);
            assert(b[1] == 1);
            assert(b.subrange(2, 10) =~= u64_be(cl.codec));
            assert(b.subrange(10, 42) =~= cl.digest);
            lemma_u64_be_roundtrip(cl.codec);
            assert(parse_opt_cid(b, 1) == Some((Some(cl), 42int)));
        } else {
            assert(b[1] == 0);
            assert(parse_opt_cid(b, 1) == Some((Option::<CidV>::None, 2int)));
        }
        // entry
        assert(b.subrange(off1, off1 + 8) =~= u64_be(plen as u64));
        lemma_u64_be_roundtrip(plen as u64);
        assert(u64_from_be(b.subrange(off1, off1 + 8)) as int == plen);
        assert(b.subrange(off1 + 8, off1 + 8 + plen) =~= s[p].path);
        assert(b.subrange(off1 + 8 + plen, off1 + 16 + plen) =~= u64_be(s[p].cid.codec));
        assert(b.subrange(off1 + 16 + plen, off1 + 48 + plen) =~= s[p].cid.digest);
        lemma_u64_be_roundtrip(s[p].cid.codec);
        let off2 = off1 + 48 + plen;
        // right child
        if p + 1 < s.len() {
            let cr = node_cid(sub_r);
            assert(rb == seq![1u8] + cid_bytes(cr));
            assert(cr.digest.len() == 32);
            assert(b[off2] == 1);
            assert(b.subrange(off2 + 1, off2 + 9) =~= u64_be(cr.codec));
            assert(b.subrange(off2 + 9, off2 + 41) =~= cr.digest);
            lemma_u64_be_roundtrip(cr.codec);
            assert(parse_opt_cid(b, off2) == Some((Some(cr), off2 + 41)));
            assert(off2 + 41 == b.len());
        } else {
            assert(b[off2] == 0);
            assert(parse_opt_cid(b, off2) == Some((Option::<CidV>::None, off2 + 1)));
            assert(off2 + 1 == b.len());
        }
        assert(parse_node(b) == Some(Some(shape_of(s))));
    }
}

/// A run of entries is its left part, its pivot, and its right part.
pub proof fn lemma_split_at_pivot(s: Seq<KeyRef>)
    requires
        s.len() > 0,
    ensures
        s == s.subrange(0, pivot_index(s)) + seq![s[pivot_index(s)]] + s.subrange(
            pivot_index(s) + 1,
            s.len() as int,
        ),
{
    lemma_pivot(s);
    assert(s =~= s.subrange(0, pivot_index(s)) + seq![s[pivot_index(s)]] + s.subrange(
        pivot_index(s) + 1,
        s.len() as int,
    ));
}

/// Inside one store, a node identifier names at most one tree: two contained
/// trees with the same root identifier hold the same entries.
pub proof fn lemma_tree_unique(m: Map<CidV, Seq<u8>>, s1: Seq<KeyRef>, s2: Seq<KeyRef>)
    requires
        contains_tree(m, s1),
        contains_tree(m, s2),
        node_cid(s1) == node_cid(s2),
        keys_wf(s1),
        keys_wf(s2),
    ensures
        s1 == s2,
    decreases s1.len(),
{
    assert(m[node_cid(s1)] == node_bytes(s1));
    assert(m[node_cid(s2)] == node_bytes(s2));
    assert(node_bytes(s1) == node_bytes(s2));
    lemma_parse_node_roundtrip(s1);
    lemma_parse_node_roundtrip(s2);
    if s1.len() == 0 || s2.len() == 0 {
        if s1.len() == 0 && s2.len() == 0 {
            assert(s1 =~= s2);
        } else {
            assert(false);
        }
    } else {
        lemma_pivot(s1);
        lemma_pivot(s2);
        let p1 = pivot_index(s1);
        let p2 = pivot_index(s2);
        let sh1 = shape_of(s1);
        let sh2 = shape_of(s2);
        assert(sh1 == sh2);
        let l1 = s1.subrange(0, p1);
        let l2 = s2.subrange(0, p2);
        let r1 = s1.subrange(p1 + 1, s1.len() as int);
        let r2 = s2.subrange(p2 + 1, s2.len() as int);
        assert(keys_wf(l1) && keys_wf(r1)) by {
            assert(forall|i: int| 0 <= i < l1.len() ==> #[trigger] l1[i] == s1[i]);
            assert(forall|i: int| 0 <= i < r1.len() ==> #[trigger] r1[i] == s1[p1 + 1 + i]);
        }
        assert(keys_wf(l2) && keys_wf(r2)) by {
            assert(forall|i: int| 0 <= i < l2.len() ==> #[trigger] l2[i] == s2[i]);
            assert(forall|i: int| 0 <= i < r2.len() ==> #[trigger] r2[i] == s2[p2 + 1 + i]);
        }
        if p1 > 0 {
            assert(sh2.left is Some);
            assert(p2 > 0);
            assert(node_cid(l1) == node_cid(l2));
            lemma_tree_unique(m, l1, l2);
        } else {
            assert(sh2.left is None);
            assert(p2 == 0);
            assert(l1 =~= l2);
        }
        if p1 + 1 < s1.len() {
            assert(sh2.right is Some);
            assert(p2 + 1 < s2.len());
            assert(node_cid(r1) == node_cid(r2));
            lemma_tree_unique(m, r1, r2);
        } else {
            assert(sh2.right is None);
            assert(p2 + 1 == s2.len());
            assert(r1 =~= r2);
        }
        lemma_split_at_pivot(s1);
        lemma_split_at_pivot(s2);
        assert(s1[p1] =~= s2[p2]);
        assert(s1 == s2);
    }
}

enum Parsed {
    Empty,
    Entry { left: Option<Cid>, path: Vec<u8>, vcid: Cid, right: Option<Cid> },
}

spec fn opt_cid_view(o: Option<Cid>) -> Option<CidV> {
    match o {
        Some(c) => Some(c@),
        None => None,
    }
}

fn parse_opt_cid_at(b: &Vec<u8>, off: usize) -> (r: Option<(Option<Cid>, usize)>)
    requires
        off < b@.len(),
    ensures
        match r {
            Some((oc, off2)) => parse_opt_cid(b@, off as int) == Some(
                (opt_cid_view(oc), off2 as int),
            ) && off < off2 <= b@.len() && (oc is Some ==> oc.unwrap().wf()),
            None => parse_opt_cid(b@, off as int) is None,
        },
{
    let n = b.len();
    assert(off < n);
    if b[off] == 0 {
        Some((None, off + 1))
    } else if b[off] == 1 {
        if n - off >= 41 {
            let c = read_cid(b, off + 1);
            proof {
                assert(b@.subrange(off as int + 1, off as int + 9) =~= b@.subrange(
                    off as int + 1,
                    off as int + 1 + 8,
                ));
                assert(b@.subrange(off as int + 9, off as int + 41) =~= b@.subrange(
                    off as int + 1 + 8,
                    off as int + 1 + 40,
                ));
            }
            Some((Some(c), off + 41))
        } else {
            None
        }
    } else {
        None
    }
}

fn parse_node_block(b: &Vec<u8>) -> (r: Option<Parsed>)
    ensures
        match r {
            Some(Parsed::Empty) => parse_node(b@) == Some(Option::<NodeShape>::None),
            Some(Parsed::Entry { left, path, vcid, right }) => parse_node(b@) == Some(
                Some(
                    NodeShape {
                        left: opt_cid_view(left),
                        path: path@,
                        vcid: vcid@,
                        right: opt_cid_view(right),
                    },
                ),
            ) && vcid.wf() && (left is Some ==> left.unwrap().wf()) && (right is Some
                ==> right.unwrap().wf()),
            None => parse_node(b@) is None,
        },
{
    let n = b.len();
    if n == 0 {
        return None;
    }
    if b[0] == 0 {
        if n == 1 {
            return Some(Parsed::Empty);
        } else {
            return None;
        }
    }
    if b[0] != 1 {
        return None;
    }
    if n < 2 {
        return None;
    }
    let (left, off1) = match parse_opt_cid_at(b, 1) {
        Some(x) => x,
        None => {
            return None;
        },
    };
    if n - off1 < 8 {
        return None;
    }
    let plen64 = read_u64_be(b, off1);
    if plen64 > (n - off1) as u64 {
        return None;
    }
    let plen = plen64 as usize;
    if n - off1 < 48 || n - off1 - 48 < plen {
        return None;
    }
    let mut path: Vec<u8> = Vec::new();
    let mut i: usize = 0;
    while i < plen
        invariant
            off1 + 8 + plen <= n,
            n == b@.len(),
            i <= plen,
            path@ =~= b@.subrange(off1 as int + 8, off1 as int + 8 + i as int),
        decreases plen - i,
    {
        path.push(b[off1 + 8 + i]);
        proof {
            assert(path@ =~= b@.subrange(off1 as int + 8, off1 as int + 8 + i as int + 1));
        }
        i = i + 1;
    }
    let vcid = read_cid(b, off1 + 8 + plen);
    proof {
        assert(b@.subrange(off1 as int + 8 + plen as int, off1 as int + 16 + plen as int)
            =~= b@.subrange(off1 as int + 8 + plen as int, off1 as int + 8 + plen as int + 8));
        assert(b@.subrange(off1 as int + 16 + plen as int, off1 as int + 48 + plen as int)
            =~= b@.subrange(
            off1 as int + 8 + plen as int + 8,
            off1 as int + 8 + plen as int + 40,
        ));
    }
    let off2 = off1 + 48 + plen;
    if off2 >= n {
        return None;
    }
    let (right, off3) = match parse_opt_cid_at(b, off2) {
        Some(x) => x,
        None => {
            return None;
        },
    };
    if off3 != n {
        return None;
    }
    Some(Parsed::Entry { left, path, vcid, right })
}

/// Load the entries of the subtree rooted at `cid` from the store. The
/// `fuel` bounds the depth of the walk, so that a malformed store cannot
/// make the walk run forever. Whenever the store contains a well-formed tree
/// under this identifier whose entry count is at most the fuel, the load
/// succeeds and returns exactly that tree's entries.
#[verifier::rlimit(100)]
pub fn load_range(store: &MemoryBlockStore, cid: &Cid, fuel: u64) -> (r: Result<
    Vec<KeyEntry>,
    RepoError,
>)
    requires
        store.wf(),
    ensures
        forall|s: Seq<KeyRef>|
            (#[trigger] contains_tree(store@, s)) && node_cid(s) == cid@ && keys_wf(s) && s.len()
                <= fuel ==> r is Ok && krefs(r.unwrap()@) == s,
        r is Ok ==> keys_wf(krefs(r.unwrap()@)),
    decreases fuel,
{
    let b = match store.get(cid) {
        Ok(b) => b,
        Err(_) => {
            proof {
                assert forall|s: Seq<KeyRef>|
                    (#[trigger] contains_tree(store@, s)) && node_cid(s) == cid@ && keys_wf(s)
                        && s.len() <= fuel implies false by {
                    assert(store@.contains_key(node_cid(s)));
                }
            }
            return Err(RepoError::NotFound);
        },
    };
    match parse_node_block(&b) {
        None => {
            proof {
                assert forall|s: Seq<KeyRef>|
                    (#[trigger] contains_tree(store@, s)) && node_cid(s) == cid@ && keys_wf(s)
                        && s.len() <= fuel implies false by {
                    assert(b@ == node_bytes(s));
                    lemma_parse_node_roundtrip(s);
                }
            }
            Err(RepoError::Malformed)
        },
        Some(Parsed::Empty) => {
            let keys: Vec<KeyEntry> = Vec::new();
            proof {
                assert forall|s: Seq<KeyRef>|
                    (#[trigger] contains_tree(store@, s)) && node_cid(s) == cid@ && keys_wf(s)
                        && s.len() <= fuel implies krefs(keys@) == s by {
                    assert(b@ == node_bytes(s));
                    lemma_parse_node_roundtrip(s);
                    if s.len() > 0 {
                        assert(parse_node(b@) == Some(Some(shape_of(s))));
                    }
                    assert(krefs(keys@) =~= s);
                }
                assert(keys_wf(krefs(keys@)));
            }
            Ok(keys)
        },
        Some(Parsed::Entry { left, path, vcid, right }) => {
            if fuel == 0 {
                proof {
                    assert forall|s: Seq<KeyRef>|
                        !((#[trigger] contains_tree(store@, s)) && node_cid(s) == cid@ && keys_wf(
                            s,
                        ) && s.len() <= fuel) by {
                        if contains_tree(store@, s) && node_cid(s) == cid@ && keys_wf(s)
                            && s.len() <= fuel {
                            assert(s.len() == 0);
                            assert(b@ == node_bytes(s));
                            lemma_parse_node_roundtrip(s);
                        }
                    }
                }
                return Err(RepoError::Malformed);
            }
            let ghost sh = NodeShape {
                left: opt_cid_view(left),
                path: path@,
                vcid: vcid@,
                right: opt_cid_view(right),
            };
            let mut keys: Vec<KeyEntry> = match &left {
                Some(lc) => {
                    match load_range(store, lc, fuel - 1) {
                        Ok(ks) => ks,
                        Err(e) => {
                            proof {
                                lemma_load_failure_left(store@, cid@, fuel, sh);
                            }
                            return Err(e);
                        },
                    }
                },
                None => Vec::new(),
            };
            let ghost left_keys = krefs(keys@);
            proof {
                if sh.left is None {
                    assert(left_keys =~= Seq::<KeyRef>::empty());
                }
            }
            let entry = KeyEntry { path, cid: vcid };
            let pl = entry.path.len();
            proof {
                assert(sh.path.len() == pl);
                assert(sh.path.len() <= 0xffff_ffff_ffff_ffff);
            }
            keys.push(entry);
            let mut rkeys: Vec<KeyEntry> = match &right {
                Some(rc) => {
                    match load_range(store, rc, fuel - 1) {
                        Ok(ks) => ks,
                        Err(e) => {
                            proof {
                                lemma_load_failure_right(store@, cid@, fuel, sh);
                            }
                            return Err(e);
                        },
                    }
                },
                None => Vec::new(),
            };
            let ghost right_keys = krefs(rkeys@);
            proof {
                if sh.right is None {
                    assert(right_keys =~= Seq::<KeyRef>::empty());
                }
            }
            keys.append(&mut rkeys);
            proof {
                assert(krefs(keys@) =~= left_keys + seq![KeyRef { path: sh.path, cid: sh.vcid }]
                    + right_keys);
            }
            proof {
                lemma_load_entry_identify(store@, cid@, fuel, sh, left_keys, right_keys, krefs(keys@));
                assert(keys_wf(krefs(keys@))) by {
                    let ks = krefs(keys@);
                    assert forall|i: int| 0 <= i < ks.len() implies (#[trigger] ks[i]).cid.digest.len()
                        == 32 && ks[i].path.len() <= 0xffff_ffff_ffff_ffff by {
                        if i < left_keys.len() {
                            assert(ks[i] == left_keys[i]);
                        } else if i == left_keys.len() {
                        } else {
                            assert(ks[i] == right_keys[i - left_keys.len() - 1]);
                        }
                    }
                }
            }
            Ok(keys)
        },
    }
}

#[verifier::spinoff_prover]
#[verifier::rlimit(100)]
proof fn lemma_load_entry_identify(
    m: Map<CidV, Seq<u8>>,
    c: CidV,
    fuel: u64,
    sh: NodeShape,
    left_keys: Seq<KeyRef>,
    right_keys: Seq<KeyRef>,
    all: Seq<KeyRef>,
)
    requires
        fuel > 0,
        forall|s: Seq<KeyRef>|
            (#[trigger] contains_tree(m, s)) && node_cid(s) == c && keys_wf(s) && s.len() <= fuel
                ==> m.contains_key(c) && m[c] == node_bytes(s) && parse_node(node_bytes(s))
                == Some(Some(sh)),
        sh.left is Some ==> (forall|s2: Seq<KeyRef>|
            (#[trigger] contains_tree(m, s2)) && node_cid(s2) == sh.left.unwrap() && keys_wf(s2)
                && s2.len() <= fuel - 1 ==> left_keys == s2),
        sh.left is None ==> left_keys == Seq::<KeyRef>::empty(),
        sh.right is Some ==> (forall|s2: Seq<KeyRef>|
            (#[trigger] contains_tree(m, s2)) && node_cid(s2) == sh.right.unwrap() && keys_wf(s2)
                && s2.len() <= fuel - 1 ==> right_keys == s2),
        sh.right is None ==> right_keys == Seq::<KeyRef>::empty(),
        all == left_keys + seq![KeyRef { path: sh.path, cid: sh.vcid }] + right_keys,
    ensures
        forall|s: Seq<KeyRef>|
            (#[trigger] contains_tree(m, s)) && node_cid(s) == c && keys_wf(s) && s.len() <= fuel
                ==> all == s,
{
    assert forall|s: Seq<KeyRef>|
        (#[trigger] contains_tree(m, s)) && node_cid(s) == c && keys_wf(s) && s.len()
            <= fuel implies all == s by {
        assert(m[c] == node_bytes(s));
        lemma_parse_node_roundtrip(s);
        assert(s.len() > 0);
        assert(sh == shape_of(s));
        lemma_pivot(s);
        let p = pivot_index(s);
        let sl = s.subrange(0, p);
        let sr = s.subrange(p + 1, s.len() as int);
        assert(keys_wf(sl) && keys_wf(sr)) by {
            assert(forall|i: int| 0 <= i < sl.len() ==> #[trigger] sl[i] == s[i]);
            assert(forall|i: int| 0 <= i < sr.len() ==> #[trigger] sr[i] == s[p + 1 + i]);
        }
        if p > 0 {
            assert(sh.left == Some(node_cid(sl)));
            assert(contains_tree(m, sl));
            assert(left_keys == sl);
        } else {
            assert(sh.left is None);
            assert(left_keys =~= sl);
        }
        if p + 1 < s.len() {
            assert(sh.right == Some(node_cid(sr)));
            assert(contains_tree(m, sr));
            assert(right_keys == sr);
        } else {
            assert(sh.right is None);
            assert(right_keys =~= sr);
        }
        lemma_split_at_pivot(s);
        assert(all == s);
    }
}

proof fn lemma_load_failure_left(m: Map<CidV, Seq<u8>>, c: CidV, fuel: u64, sh: NodeShape)
    requires
        fuel > 0,
        forall|s: Seq<KeyRef>|
            (#[trigger] contains_tree(m, s)) && node_cid(s) == c && keys_wf(s) && s.len() <= fuel
                ==> m.contains_key(c) && m[c] == node_bytes(s) && parse_node(node_bytes(s))
                == Some(Some(sh)),
        sh.left is Some,
        forall|s2: Seq<KeyRef>|
            !((#[trigger] contains_tree(m, s2)) && node_cid(s2) == sh.left.unwrap() && keys_wf(s2)
                && s2.len() <= fuel - 1),
    ensures
        forall|s: Seq<KeyRef>|
            !((#[trigger] contains_tree(m, s)) && node_cid(s) == c && keys_wf(s) && s.len()
                <= fuel),
{
    assert forall|s: Seq<KeyRef>|
        !((#[trigger] contains_tree(m, s)) && node_cid(s) == c && keys_wf(s) && s.len()
            <= fuel) by {
        if contains_tree(m, s) && node_cid(s) == c && keys_wf(s) && s.len() <= fuel {
            lemma_parse_node_roundtrip(s);
            assert(parse_node(node_bytes(s)) == Some(Some(sh)));
            assert(s.len() > 0);
            assert(sh == shape_of(s));
            lemma_pivot(s);
            let p = pivot_index(s);
            assert(p > 0);
            let sl = s.subrange(0, p);
            assert(keys_wf(sl)) by {
                assert(forall|i: int| 0 <= i < sl.len() ==> #[trigger] sl[i] == s[i]);
            }
            assert(contains_tree(m, sl));
            assert(node_cid(sl) == sh.left.unwrap());
            assert(sl.len() <= fuel - 1);
        }
    }
}

proof fn lemma_load_failure_right(m: Map<CidV, Seq<u8>>, c: CidV, fuel: u64, sh: NodeShape)
    requires
        fuel > 0,
        forall|s: Seq<KeyRef>|
            (#[trigger] contains_tree(m, s)) && node_cid(s) == c && keys_wf(s) && s.len() <= fuel
                ==> m.contains_key(c) && m[c] == node_bytes(s) && parse_node(node_bytes(s))
                == Some(Some(sh)),
        sh.right is Some,
        forall|s2: Seq<KeyRef>|
            !((#[trigger] contains_tree(m, s2)) && node_cid(s2) == sh.right.unwrap() && keys_wf(s2)
                && s2.len() <= fuel - 1),
    ensures
        forall|s: Seq<KeyRef>|
            !((#[trigger] contains_tree(m, s)) && node_cid(s) == c && keys_wf(s) && s.len()
                <= fuel),
{
    assert forall|s: Seq<KeyRef>|
        !((#[trigger] contains_tree(m, s)) && node_cid(s) == c && keys_wf(s) && s.len()
            <= fuel) by {
        if contains_tree(m, s) && node_cid(s) == c && keys_wf(s) && s.len() <= fuel {
            lemma_parse_node_roundtrip(s);
            assert(parse_node(node_bytes(s)) == Some(Some(sh)));
            assert(s.len() > 0);
            assert(sh == shape_of(s));
            lemma_pivot(s);
            let p = pivot_index(s);
            assert(p + 1 < s.len());
            let sr = s.subrange(p + 1, s.len() as int);
            assert(keys_wf(sr)) by {
                assert(forall|i: int| 0 <= i < sr.len() ==> #[trigger] sr[i] == s[p + 1 + i]);
            }
            assert(contains_tree(m, sr));
            assert(node_cid(sr) == sh.right.unwrap());
            assert(sr.len() <= fuel - 1);
        }
    }
}

} // verus!
