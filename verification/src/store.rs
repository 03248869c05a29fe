use vstd::prelude::*;
use crate::cid::{Cid, CidV, cid_of, cid_for, cid_dup, cid_eq};
use crate::errors::RepoError;
use crate::order::{bytes_dup, bytes_eq};

verus! {

struct BlockEntry {
    cid: Cid,
    data: Vec<u8>,
}

/// In-memory block store: byte-addressed storage keyed by a content
/// identifier. Blocks are immutable; storing the same bytes twice under the
/// same codec is a no-op that returns the same identifier.
pub struct MemoryBlockStore {
    blocks: Vec<BlockEntry>,
}

/// The new map keeps every block of the old one unchanged: the store only
/// ever grows, and a kept block's bytes never change.
pub open spec fn store_extends(new: Map<CidV, Seq<u8>>, prev: Map<CidV, Seq<u8>>) -> bool {
    forall|c: CidV| #[trigger]
        prev.contains_key(c) ==> new.contains_key(c) && new[c] == prev[c]
}

spec fn entries_map(s: Seq<BlockEntry>) -> Map<CidV, Seq<u8>>
    decreases s.len(),
{
    if s.len() == 0 {
        Map::empty()
    } else {
        entries_map(s.drop_last()).insert(s.last().cid@, s.last().data@)
    }
}

spec fn entries_wf(s: Seq<BlockEntry>) -> bool {
    (forall|i: int|
        0 <= i < s.len() ==> (#[trigger] s[i].cid)@ == cid_of(s[i].cid@.codec, s[i].data@)
            && s[i].cid.wf()) && (forall|i: int, j: int|
        0 <= i < j < s.len() ==> (#[trigger] s[i].cid)@ != (#[trigger] s[j].cid)@)
}

proof fn lemma_entries_map_domain(s: Seq<BlockEntry>)
    ensures
        forall|c: CidV| #[trigger]
            entries_map(s).contains_key(c) <==> (exists|i: int|
                0 <= i < s.len() && (#[trigger] s[i].cid)@ == c),
    decreases s.len(),
{
    if s.len() > 0 {
        lemma_entries_map_domain(s.drop_last());
        assert forall|c: CidV| #[trigger] entries_map(s).contains_key(c) implies (exists|i: int|
            0 <= i < s.len() && (#[trigger] s[i].cid)@ == c) by {
            if c == s.last().cid@ {
                assert(s[s.len() - 1].cid@ == c);
            } else {
                assert(entries_map(s.drop_last()).contains_key(c));
                let i = choose|i: int|
                    0 <= i < s.drop_last().len() && (#[trigger] s.drop_last()[i].cid)@ == c;
                assert(s[i].cid@ == c);
            }
        }
        assert forall|c: CidV| (exists|i: int|
            0 <= i < s.len() && (#[trigger] s[i].cid)@ == c) implies #[trigger] entries_map(
            s,
        ).contains_key(c) by {
            let i = choose|i: int| 0 <= i < s.len() && (#[trigger] s[i].cid)@ == c;
            if i < s.len() - 1 {
                assert(s.drop_last()[i].cid@ == c);
                assert(exists|j: int|
                    0 <= j < s.drop_last().len() && (#[trigger] s.drop_last()[j].cid)@ == c);
                assert(entries_map(s.drop_last()).contains_key(c));
            } else {
                assert(c == s.last().cid@);
            }
        }
    }
}

proof fn lemma_entries_map_value(s: Seq<BlockEntry>, i: int)
    requires
        0 <= i < s.len(),
        forall|x: int, y: int|
            0 <= x < y < s.len() ==> (#[trigger] s[x].cid)@ != (#[trigger] s[y].cid)@,
    ensures
        entries_map(s).contains_key(s[i].cid@),
        entries_map(s)[s[i].cid@] == s[i].data@,
    decreases s.len(),
{
    if i == s.len() - 1 {
    } else {
        assert(s[i].cid@ != s[s.len() - 1].cid@);
        assert(s.drop_last()[i] == s[i]);
        lemma_entries_map_value(s.drop_last(), i);
    }
}

impl View for MemoryBlockStore {
    type V = Map<CidV, Seq<u8>>;

    closed spec fn view(&self) -> Map<CidV, Seq<u8>> {
        entries_map(self.blocks@)
    }
}

impl MemoryBlockStore {
    /// Every stored block is named by the identifier of its own bytes, and
    /// no identifier names two blocks.
    pub closed spec fn wf(self) -> bool {
        entries_wf(self.blocks@)
    }

    /// Create an empty store.
    pub fn new() -> (s: Self)
        ensures
            s.wf(),
            s@ == Map::<CidV, Seq<u8>>::empty(),
    {
        MemoryBlockStore { blocks: Vec::new() }
    }

    /// Copy the store: the copy holds exactly the same blocks.
    pub fn dup(&self) -> (r: Self)
        requires
            self.wf(),
        ensures
            r.wf(),
            r@ == self@,
    {
        let mut blocks: Vec<BlockEntry> = Vec::new();
        let mut i: usize = 0;
        while i < self.blocks.len()
            invariant
                self.wf(),
                i <= self.blocks.len(),
                blocks@.len() == i,
                forall|j: int|
                    0 <= j < i ==> (#[trigger] blocks@[j]).cid@ == self.blocks@[j].cid@
                        && blocks@[j].data@ == self.blocks@[j].data@ && blocks@[j].cid.wf(),
            decreases self.blocks.len() - i,
        {
            let e = BlockEntry {
                cid: cid_dup(&self.blocks[i].cid),
                data: bytes_dup(&self.blocks[i].data),
            };
            blocks.push(e);
            i = i + 1;
        }
        let r = MemoryBlockStore { blocks };
        proof {
            lemma_entries_map_congruent(r.blocks@, self.blocks@);
        }
        r
    }

    /// Number of blocks held.
    pub fn num_blocks(&self) -> (n: usize)
        requires
            self.wf(),
        ensures
            n == self@.len(),
    {
        proof {
            lemma_entries_map_len(self.blocks@);
        }
        self.blocks.len()
    }

    /// Fetch a block by its identifier. A block comes back only under the
    /// identifier of its own bytes: that is the content-addressing invariant
    /// the store maintains.
    pub fn get(&self, cid: &Cid) -> (r: Result<Vec<u8>, RepoError>)
        requires
            self.wf(),
        ensures
            match r {
                Ok(b) => self@.contains_key(cid@) && b@ == self@[cid@] && cid@ == cid_of(
                    cid@.codec,
                    b@,
                ),
                Err(e) => e == RepoError::NotFound && !self@.contains_key(cid@),
            },
    {
        let mut i: usize = 0;
        while i < self.blocks.len()
            invariant
                self.wf(),
                i <= self.blocks.len(),
                forall|j: int| 0 <= j < i ==> (#[trigger] self.blocks@[j].cid)@ != cid@,
            decreases self.blocks.len() - i,
        {
            if cid_eq(&self.blocks[i].cid, cid) {
                proof {
                    lemma_entries_map_value(self.blocks@, i as int);
                }
                return Ok(bytes_dup(&self.blocks[i].data));
            }
            i = i + 1;
        }
        proof {
            lemma_entries_map_domain(self.blocks@);
        }
        Err(RepoError::NotFound)
    }

    /// Store a block. Returns the content identifier of the bytes. Storing
    /// identical bytes twice returns the same identifier and leaves the store
    /// unchanged. The store refuses the write — with `StoreError`, leaving
    /// itself unchanged — only when the computed identifier already names
    /// different bytes, so a kept block's bytes never change.
    pub fn put(&mut self, codec: u64, data: &Vec<u8>) -> (r: Result<Cid, RepoError>)
        requires
            old(self).wf(),
        ensures
            final(self).wf(),
            match r {
                Ok(c) => c@ == cid_of(codec, data@) && c.wf() && final(self)@ == old(self)@.insert(
                    c@,
                    data@,
                ) && (old(self)@.contains_key(c@) ==> old(self)@[c@] == data@),
                Err(e) => e == RepoError::StoreError && final(self)@ == old(self)@ && old(
                    self,
                )@.contains_key(cid_of(codec, data@)) && old(self)@[cid_of(codec, data@)] != data@,
            },
    {
        let c = cid_for(codec, data);
        let mut i: usize = 0;
        while i < self.blocks.len()
            invariant
                self.wf(),
                c@ == cid_of(codec, data@),
                c.wf(),
                i <= self.blocks.len(),
                forall|j: int| 0 <= j < i ==> (#[trigger] self.blocks@[j].cid)@ != c@,
            decreases self.blocks.len() - i,
        {
            if cid_eq(&self.blocks[i].cid, &c) {
                proof {
                    lemma_entries_map_value(self.blocks@, i as int);
                }
                if bytes_eq(&self.blocks[i].data, data) {
                    proof {
                        assert(self@.insert(c@, data@) =~= self@);
                    }
                    return Ok(c);
                } else {
                    return Err(RepoError::StoreError);
                }
            }
            i = i + 1;
        }
        proof {
            lemma_entries_map_domain(self.blocks@);
            assert(!self@.contains_key(c@));
        }
        let ghost prev = self.blocks@;
        let e = BlockEntry { cid: cid_dup(&c), data: bytes_dup(data) };
        self.blocks.push(e);
        proof {
            assert(self.blocks@.drop_last() =~= prev);
            assert(self.blocks@.last().cid@ == c@);
            assert(entries_map(self.blocks@) == entries_map(prev).insert(c@, data@));
        }
        Ok(c)
    }
}

proof fn lemma_entries_map_len(s: Seq<BlockEntry>)
    requires
        forall|i: int, j: int|
            0 <= i < j < s.len() ==> (#[trigger] s[i].cid)@ != (#[trigger] s[j].cid)@,
    ensures
        entries_map(s).dom().finite(),
        entries_map(s).len() == s.len(),
    decreases s.len(),
{
    if s.len() == 0 {
        assert(entries_map(s).dom() =~= Set::<CidV>::empty());
    } else {
        assert forall|x: int, y: int| 0 <= x < y < s.drop_last().len() implies (#[trigger] s.drop_last()[x].cid)@
            != (#[trigger] s.drop_last()[y].cid)@ by {
            assert(s[x].cid@ != s[y].cid@);
        }
        lemma_entries_map_len(s.drop_last());
        lemma_entries_map_domain(s.drop_last());
        let m0 = entries_map(s.drop_last());
        let k = s.last().cid@;
        assert(!m0.contains_key(k)) by {
            if m0.contains_key(k) {
                let i = choose|i: int|
                    0 <= i < s.drop_last().len() && (#[trigger] s.drop_last()[i].cid)@ == k;
                assert(s[i].cid@ == s[s.len() - 1].cid@);
            }
        }
        assert(entries_map(s).dom() =~= m0.dom().insert(k));
        vstd::set::axiom_set_insert_finite(m0.dom(), k);
        vstd::set::axiom_set_insert_len(m0.dom(), k);
    }
}

proof fn lemma_entries_map_congruent(a: Seq<BlockEntry>, b: Seq<BlockEntry>)
    requires
        a.len() == b.len(),
        forall|j: int|
            0 <= j < a.len() ==> (#[trigger] a[j]).cid@ == b[j].cid@ && a[j].data@ == b[j].data@,
    ensures
        entries_map(a) == entries_map(b),
        entries_wf(b) ==> entries_wf(a),
    decreases a.len(),
{
    if a.len() > 0 {
        assert forall|j: int| 0 <= j < a.drop_last().len() implies (#[trigger] a.drop_last()[j]).cid@
            == b.drop_last()[j].cid@ && a.drop_last()[j].data@ == b.drop_last()[j].data@ by {
            assert(a[j].cid@ == b[j].cid@ && a[j].data@ == b[j].data@);
        }
        lemma_entries_map_congruent(a.drop_last(), b.drop_last());
        assert(a.last().cid@ == b.last().cid@ && a.last().data@ == b.last().data@);
        if entries_wf(b) {
            assert forall|i: int| 0 <= i < a.len() implies (#[trigger] a[i].cid)@ == cid_of(
                a[i].cid@.codec,
                a[i].data@,
            ) && a[i].cid.wf() by {
                assert(b[i].cid@ == cid_of(b[i].cid@.codec, b[i].data@) && b[i].cid.wf());
                assert(a[i].cid@.digest.len() == 32);
            }
            assert forall|i: int, j: int| 0 <= i < j < a.len() implies (#[trigger] a[i].cid)@ != (
            #[trigger] a[j].cid)@ by {
                assert(b[i].cid@ != b[j].cid@);
            }
        }
    } else {
        if entries_wf(b) {
            assert(entries_wf(a));
        }
    }
}

/// Content addressing, stated over the whole store: every held block's
/// identifier carries the digest of that block's own bytes.
pub proof fn lemma_store_blocks_addressed(st: MemoryBlockStore)
    requires
        st.wf(),
    ensures
        forall|c: CidV| #[trigger]
            st@.contains_key(c) ==> c.digest == crate::digest::digest32_of(st@[c]),
{
    lemma_entries_map_domain(st.blocks@);
    assert forall|c: CidV| #[trigger] st@.contains_key(c) implies c.digest
        == crate::digest::digest32_of(st@[c]) by {
        let i = choose|i: int| 0 <= i < st.blocks@.len() && (#[trigger] st.blocks@[i].cid)@ == c;
        lemma_entries_map_value(st.blocks@, i);
        assert(st.blocks@[i].cid@ == cid_of(c.codec, st.blocks@[i].data@));
    }
}

/// A store can only refuse a write — the identifier of the new bytes
/// already naming different bytes — when two different byte strings share
/// one digest.
pub proof fn lemma_put_refusal_is_collision(st: MemoryBlockStore, codec: u64, data: Seq<u8>)
    requires
        st.wf(),
        st@.contains_key(cid_of(codec, data)),
        st@[cid_of(codec, data)] != data,
    ensures
        crate::digest::digest_collision(),
{
    lemma_store_blocks_addressed(st);
    let k = cid_of(codec, data);
    assert(k.digest == crate::digest::digest32_of(st@[k]));
    assert(crate::digest::digest32_of(st@[k]) == crate::digest::digest32_of(data));
}

/// Inserting a block whose identifier is fresh, or already names the same
/// bytes, keeps every block of the old store unchanged.
pub proof fn lemma_insert_extends(m: Map<CidV, Seq<u8>>, c: CidV, v: Seq<u8>)
    requires
        m.contains_key(c) ==> m[c] == v,
    ensures
        store_extends(m.insert(c, v), m),
{
}

/// Extension is transitive.
pub proof fn lemma_extends_trans(
    a: Map<CidV, Seq<u8>>,
    b: Map<CidV, Seq<u8>>,
    c: Map<CidV, Seq<u8>>,
)
    requires
        store_extends(c, b),
        store_extends(b, a),
    ensures
        store_extends(c, a),
{
}

} // verus!
