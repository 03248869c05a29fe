use vstd::prelude::*;
use crate::cid::{
    Cid, CidV, cid_bytes, cid_dup, lemma_u64_be_roundtrip, parse_opt_cid, push_cid, push_u64_be,
    read_cid, read_u64_be, u64_be, u64_from_be,
};
use crate::order::{bytes_dup, bytes_extend};

verus! {

/// A commit: the signed record that names a repository state. It holds the
/// owning identity, the tree root, a revision counter, the previous commit's
/// identifier when there is one, and the detached signature over the
/// unsigned encoding of the other fields.
pub struct CommitData {
    pub identity: Vec<u8>,
    pub root: Cid,
    pub rev: u64,
    pub prev: Option<Cid>,
    pub sig: Vec<u8>,
}

/// Mathematical model of a commit.
#[verifier::ext_equal]
pub ghost struct CommitV {
    pub identity: Seq<u8>,
    pub root: CidV,
    pub rev: u64,
    pub prev: Option<CidV>,
    pub sig: Seq<u8>,
}

impl View for CommitData {
    type V = CommitV;

    open spec fn view(&self) -> CommitV {
        CommitV {
            identity: self.identity@,
            root: self.root@,
            rev: self.rev,
            prev: match self.prev {
                Some(c) => Some(c@),
                None => None,
            },
            sig: self.sig@,
        }
    }
}

/// The field lengths a commit encoding can carry.
pub open spec fn commit_wf(c: CommitV) -> bool {
    c.root.digest.len() == 32 && (c.prev is Some ==> c.prev.unwrap().digest.len() == 32)
        && c.identity.len() <= 0xffff_ffff_ffff_ffff && c.sig.len() <= 0xffff_ffff_ffff_ffff
}

/// Byte encoding of an optional identifier.
pub open spec fn opt_cid_enc(o: Option<CidV>) -> Seq<u8> {
    match o {
        None => seq![0u8],
        Some(c) => seq![1u8] + cid_bytes(c),
    }
}

/// The canonical unsigned commit bytes: what the owner signs. The identity,
/// length-prefixed; the tree root; the revision; the previous commit's
/// identifier, when there is one.
pub open spec fn unsigned_bytes_of(
    identity: Seq<u8>,
    root: CidV,
    rev: u64,
    prev: Option<CidV>,
) -> Seq<u8> {
    u64_be(identity.len() as u64) + identity + cid_bytes(root) + u64_be(rev) + opt_cid_enc(prev)
}

/// The signed commit block's bytes: the unsigned bytes followed by the
/// signature, length-prefixed.
pub open spec fn signed_bytes_of(c: CommitV) -> Seq<u8> {
    unsigned_bytes_of(c.identity, c.root, c.rev, c.prev) + u64_be(c.sig.len() as u64) + c.sig
}

/// Encode the unsigned commit bytes.
pub fn encode_unsigned(identity: &Vec<u8>, root: &Cid, rev: u64, prev: &Option<Cid>) -> (r: Vec<
    u8,
>)
    ensures
        r@ == unsigned_bytes_of(
            identity@,
            root@,
            rev,
            match prev {
                Some(c) => Some(c@),
                None => None,
            },
        ),
{
    let mut out: Vec<u8> = Vec::new();
    push_u64_be(&mut out, identity.len() as u64);
    bytes_extend(&mut out, identity);
    push_cid(&mut out, root);
    push_u64_be(&mut out, rev);
    match prev {
        Some(c) => {
            out.push(1u8);
            push_cid(&mut out, c);
        },
        None => {
            out.push(0u8);
        },
    }
    proof {
        assert(out@ =~= unsigned_bytes_of(
            identity@,
            root@,
            rev,
            match prev {
                Some(c) => Some(c@),
                None => None,
            },
        ));
    }
    out
}

/// Encode the signed commit block.
pub fn encode_signed(c: &CommitData) -> (r: Vec<u8>)
    ensures
        r@ == signed_bytes_of(c@),
{
    let mut out = encode_unsigned(&c.identity, &c.root, c.rev, &c.prev);
    push_u64_be(&mut out, c.sig.len() as u64);
    bytes_extend(&mut out, &c.sig);
    proof {
        assert(out@ =~= signed_bytes_of(c@));
    }
    out
}

/// Parse a signed commit block. A well-formed block is consumed exactly.
pub open spec fn parse_commit(b: Seq<u8>) -> Option<CommitV> {
    if b.len() < 8 {
        None
    } else {
        let ilen = u64_from_be(b.subrange(0, 8)) as int;
        if 8 + ilen + 48 <= b.len() {
            let identity = b.subrange(8, 8 + ilen);
            let root = CidV {
                codec: u64_from_be(b.subrange(8 + ilen, 16 + ilen)),
                digest: b.subrange(16 + ilen, 48 + ilen),
            };
            let rev = u64_from_be(b.subrange(48 + ilen, 56 + ilen));
            match parse_opt_cid(b, 56 + ilen) {
                None => None,
                Some((prev, off1)) => {
                    if off1 + 8 <= b.len() {
                        let slen = u64_from_be(b.subrange(off1, off1 + 8)) as int;
                        if off1 + 8 + slen == b.len() {
                            let sig = b.subrange(off1 + 8, off1 + 8 + slen);
                            Some(CommitV { identity, root, rev, prev, sig })
                        } else {
                            None
                        }
                    } else {
                        None
                    }
                },
            }
        } else {
            None
        }
    }
}

/// Parsing an encoded commit gives back the commit.
pub proof fn lemma_parse_commit_roundtrip(c: CommitV)
    requires
        commit_wf(c),
    ensures
        parse_commit(signed_bytes_of(c)) == Some(c),
{
    let b = signed_bytes_of(c);
    let ilen = c.identity.len() as int;
    let plen: int = if c.prev is Some {
        41
    } else {
        1
    };
    assert(b.len() == 8 + ilen + 48 + plen + 8 + c.sig.len());
    assert(b.subrange(0, 8) =~= u64_be(ilen as u64));
    lemma_u64_be_roundtrip(ilen as u64);
    assert(b.subrange(8, 8 + ilen) =~= c.identity);
    assert(b.subrange(8 + ilen, 16 + ilen) =~= u64_be(c.root.codec));
    lemma_u64_be_roundtrip(c.root.codec);
    assert(b.subrange(16 + ilen, 48 + ilen) =~= c.root.digest);
    assert(b.subrange(48 + ilen, 56 + ilen) =~= u64_be(c.rev));
    lemma_u64_be_roundtrip(c.rev);
    match c.prev {
        Some(pc) => {
            assert(b[56 + ilen] == 1);
            assert(b.subrange(56 + ilen + 1, 56 + ilen + 9) =~= u64_be(pc.codec));
            assert(b.subrange(56 + ilen + 9, 56 + ilen + 41) =~= pc.digest);
            lemma_u64_be_roundtrip(pc.codec);
            assert(parse_opt_cid(b, 56 + ilen) == Some((Some(pc), 56 + ilen + 41)));
        },
        None => {
            assert(b[56 + ilen] == 0);
            assert(parse_opt_cid(b, 56 + ilen) == Some((Option::<CidV>::None, 56 + ilen + 1)));
        },
    }
    let off1 = 56 + ilen + plen;
    assert(b.subrange(off1, off1 + 8) =~= u64_be(c.sig.len() as u64));
    lemma_u64_be_roundtrip(c.sig.len() as u64);
    assert(b.subrange(off1 + 8, off1 + 8 + c.sig.len() as int) =~= c.sig);
    assert(parse_commit(b) == Some(
        CommitV {
            identity: c.identity,
            root: c.root,
            rev: c.rev,
            prev: c.prev,
            sig: c.sig,
        },
    ));
    assert(CommitV { identity: c.identity, root: c.root, rev: c.rev, prev: c.prev, sig: c.sig }
        =~= c);
}

/// A block that parses as a commit is exactly that commit's encoding: the
/// encoding is canonical, so verifying a signature over the re-encoded
/// unsigned bytes is verifying it over the block's own leading bytes.
pub proof fn lemma_parse_commit_complete(b: Seq<u8>)
    requires
        parse_commit(b) is Some,
    ensures
        signed_bytes_of(parse_commit(b).unwrap()) == b,
        commit_wf(parse_commit(b).unwrap()),
{
    let c = parse_commit(b).unwrap();
    let ilen = u64_from_be(b.subrange(0, 8)) as int;
    assert(c.identity.len() == ilen);
    crate::cid::lemma_u64_be_complete(b.subrange(0, 8));
    assert(u64_be(c.identity.len() as u64) =~= b.subrange(0, 8));
    crate::cid::lemma_u64_be_complete(b.subrange(8 + ilen, 16 + ilen));
    assert(u64_be(c.root.codec) =~= b.subrange(8 + ilen, 16 + ilen));
    crate::cid::lemma_u64_be_complete(b.subrange(48 + ilen, 56 + ilen));
    assert(u64_be(c.rev) =~= b.subrange(48 + ilen, 56 + ilen));
    let plen: int = if c.prev is Some {
        41
    } else {
        1
    };
    if c.prev is Some {
        assert(b[56 + ilen] == 1);
        crate::cid::lemma_u64_be_complete(b.subrange(56 + ilen + 1, 56 + ilen + 9));
        assert(u64_be(c.prev.unwrap().codec) =~= b.subrange(56 + ilen + 1, 56 + ilen + 9));
        assert(opt_cid_enc(c.prev) =~= b.subrange(56 + ilen, 56 + ilen + 41));
    } else {
        assert(b[56 + ilen] == 0);
        assert(opt_cid_enc(c.prev) =~= b.subrange(56 + ilen, 56 + ilen + 1));
    }
    let off1 = 56 + ilen + plen;
    crate::cid::lemma_u64_be_complete(b.subrange(off1, off1 + 8));
    assert(u64_be(c.sig.len() as u64) =~= b.subrange(off1, off1 + 8));
    assert(signed_bytes_of(c) =~= b);
}

/// Decode a commit block.
pub fn decode_commit(b: &Vec<u8>) -> (r: Option<CommitData>)
    ensures
        match r {
            Some(c) => parse_commit(b@) == Some(c@) && c.root.wf() && (c.prev is Some
                ==> c.prev.unwrap().wf()),
            None => parse_commit(b@) is None,
        },
{
    let n = b.len();
    if n < 8 {
        return None;
    }
    let ilen64 = read_u64_be(b, 0);
    if ilen64 > (n - 8) as u64 {
        return None;
    }
    let ilen = ilen64 as usize;
    if n - 8 < 48 || n - 8 - 48 < ilen {
        return None;
    }
    let mut identity: Vec<u8> = Vec::new();
    let mut i: usize = 0;
    while i < ilen
        invariant
            8 + ilen <= n,
            n == b@.len(),
            i <= ilen,
            identity@ =~= b@.subrange(8, 8 + i as int),
        decreases ilen - i,
    {
        identity.push(b[8 + i]);
        proof {
            assert(identity@ =~= b@.subrange(8, 8 + i as int + 1));
        }
        i = i + 1;
    }
    let root = read_cid(b, 8 + ilen);
    proof {
        assert(b@.subrange(8 + ilen as int, 16 + ilen as int) =~= b@.subrange(
            8 + ilen as int,
            8 + ilen as int + 8,
        ));
        assert(b@.subrange(16 + ilen as int, 48 + ilen as int) =~= b@.subrange(
            8 + ilen as int + 8,
            8 + ilen as int + 40,
        ));
    }
    let rev = read_u64_be(b, 48 + ilen);
    let off0 = 56 + ilen;
    if off0 >= n {
        return None;
    }
    let (prev, off1): (Option<Cid>, usize) = if b[off0] == 0 {
        (None, off0 + 1)
    } else if b[off0] == 1 {
        if n - off0 >= 41 {
            let c = read_cid(b, off0 + 1);
            proof {
                assert(b@.subrange(off0 as int + 1, off0 as int + 9) =~= b@.subrange(
                    off0 as int + 1,
                    off0 as int + 1 + 8,
                ));
                assert(b@.subrange(off0 as int + 9, off0 as int + 41) =~= b@.subrange(
                    off0 as int + 1 + 8,
                    off0 as int + 1 + 40,
                ));
            }
            (Some(c), off0 + 41)
        } else {
            return None;
        }
    } else {
        return None;
    };
    if n - off1 < 8 {
        return None;
    }
    let slen64 = read_u64_be(b, off1);
    if slen64 != (n - off1 - 8) as u64 {
        proof {
            if parse_commit(b@) is Some {
                assert(u64_from_be(b@.subrange(off1 as int, off1 as int + 8)) as int + off1 + 8
                    == n);
            }
        }
        return None;
    }
    let slen = slen64 as usize;
    let mut sig: Vec<u8> = Vec::new();
    let mut j: usize = 0;
    while j < slen
        invariant
            off1 + 8 + slen <= n,
            n == b@.len(),
            j <= slen,
            sig@ =~= b@.subrange(off1 as int + 8, off1 as int + 8 + j as int),
        decreases slen - j,
    {
        sig.push(b[off1 + 8 + j]);
        proof {
            assert(sig@ =~= b@.subrange(off1 as int + 8, off1 as int + 8 + j as int + 1));
        }
        j = j + 1;
    }
    let c = CommitData { identity, root, rev, prev, sig };
    proof {
        assert(parse_commit(b@) == Some(c@));
    }
    Some(c)
}

/// Copy a commit.
pub fn commit_dup(c: &CommitData) -> (r: CommitData)
    ensures
        r@ == c@,
{
    let prev = match &c.prev {
        Some(p) => Some(cid_dup(p)),
        None => None,
    };
    let r = CommitData {
        identity: bytes_dup(&c.identity),
        root: cid_dup(&c.root),
        rev: c.rev,
        prev,
        sig: bytes_dup(&c.sig),
    };
    proof {
        assert(r@ =~= c@);
    }
    r
}

} // verus!
