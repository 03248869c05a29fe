use vstd::prelude::*;
use crate::digest::{digest32_of, sha256_32};
use crate::order::bytes_eq;

verus! {

/// Codec of a record block: an opaque byte payload.
pub const RECORD_CODEC: u64 = 0x55;

/// Codec of a tree node block.
pub const NODE_CODEC: u64 = 0x70;

/// Codec of a commit block.
pub const COMMIT_CODEC: u64 = 0x71;

/// Mathematical model of a content identifier: the codec of the block it
/// names together with the SHA-256 digest of the block's bytes.
#[verifier::ext_equal]
pub ghost struct CidV {
    pub codec: u64,
    pub digest: Seq<u8>,
}

/// The content identifier of a block: identical payloads always yield the
/// same identifier. Its digest is always exactly 32 bytes.
pub open spec fn cid_of(codec: u64, data: Seq<u8>) -> CidV {
    CidV { codec, digest: digest32_of(data) }
}


/// A content identifier: a hash-derived address uniquely naming an immutable
/// block's codec and bytes.
pub struct Cid {
    pub codec: u64,
    pub digest: Vec<u8>,
}

impl View for Cid {
    type V = CidV;

    open spec fn view(&self) -> CidV {
        CidV { codec: self.codec, digest: self.digest@ }
    }
}

impl Cid {
    /// A well-formed identifier carries a full 32-byte digest.
    pub open spec fn wf(self) -> bool {
        self.digest@.len() == 32
    }
}

/// Compute the content identifier of a block.
pub fn cid_for(codec: u64, data: &Vec<u8>) -> (c: Cid)
    ensures
        c@ == cid_of(codec, data@),
        c.wf(),
{
    Cid { codec, digest: sha256_32(data) }
}

/// Copy a content identifier.
pub fn cid_dup(c: &Cid) -> (r: Cid)
    ensures
        r@ == c@,
        r.wf() == c.wf(),
{
    Cid { codec: c.codec, digest: crate::order::bytes_dup(&c.digest) }
}

/// Identifier equality.
pub fn cid_eq(a: &Cid, b: &Cid) -> (r: bool)
    ensures
        r == (a@ == b@),
{
    let r = a.codec == b.codec && bytes_eq(&a.digest, &b.digest);
    proof {
        if r {
            assert(a@ =~= b@);
        }
    }
    r
}

/// Big-endian encoding of a 64-bit integer as eight bytes.
pub open spec fn u64_be(v: u64) -> Seq<u8> {
    seq![
        ((v >> 56) & 0xff) as u8,
        ((v >> 48) & 0xff) as u8,
        ((v >> 40) & 0xff) as u8,
        ((v >> 32) & 0xff) as u8,
        ((v >> 24) & 0xff) as u8,
        ((v >> 16) & 0xff) as u8,
        ((v >> 8) & 0xff) as u8,
        (v & 0xff) as u8,
    ]
}

/// The 64-bit integer read back from eight big-endian bytes.
pub open spec fn u64_from_be(s: Seq<u8>) -> u64
    recommends
        s.len() == 8,
{
    (((s[0] as u64) << 56) | ((s[1] as u64) << 48) | ((s[2] as u64) << 40) | ((s[3] as u64) << 32)
        | ((s[4] as u64) << 24) | ((s[5] as u64) << 16) | ((s[6] as u64) << 8) | (s[7] as u64))
}

/// Reading back an encoded integer returns the integer.
pub proof fn lemma_u64_be_roundtrip(v: u64)
    ensures
        u64_from_be(u64_be(v)) == v,
        u64_be(v).len() == 8,
{
    assert((((((v >> 56) & 0xff) as u8) as u64) << 56) | (((((v >> 48) & 0xff) as u8) as u64)
        << 48) | (((((v >> 40) & 0xff) as u8) as u64) << 40) | (((((v >> 32) & 0xff) as u8) as u64)
        << 32) | (((((v >> 24) & 0xff) as u8) as u64) << 24) | (((((v >> 16) & 0xff) as u8) as u64)
        << 16) | (((((v >> 8) & 0xff) as u8) as u64) << 8) | (((v & 0xff) as u8) as u64) == v)
        by (bit_vector);
}

/// Re-encoding a decoded eight-byte string returns the string.
pub proof fn lemma_u64_be_complete(s: Seq<u8>)
    requires
        s.len() == 8,
    ensures
        u64_be(u64_from_be(s)) == s,
{
    let b0 = s[0];
    let b1 = s[1];
    let b2 = s[2];
    let b3 = s[3];
    let b4 = s[4];
    let b5 = s[5];
    let b6 = s[6];
    let b7 = s[7];
    let v = u64_from_be(s);
    assert(v == ((b0 as u64) << 56) | ((b1 as u64) << 48) | ((b2 as u64) << 40) | ((b3 as u64)
        << 32) | ((b4 as u64) << 24) | ((b5 as u64) << 16) | ((b6 as u64) << 8) | (b7 as u64));
    assert({
        let w = ((b0 as u64) << 56) | ((b1 as u64) << 48) | ((b2 as u64) << 40) | ((b3 as u64)
            << 32) | ((b4 as u64) << 24) | ((b5 as u64) << 16) | ((b6 as u64) << 8) | (b7 as u64);
        ((w >> 56) & 0xff) as u8 == b0 && ((w >> 48) & 0xff) as u8 == b1 && ((w >> 40) & 0xff)
            as u8 == b2 && ((w >> 32) & 0xff) as u8 == b3 && ((w >> 24) & 0xff) as u8 == b4 && ((w
            >> 16) & 0xff) as u8 == b5 && ((w >> 8) & 0xff) as u8 == b6 && (w & 0xff) as u8 == b7
    }) by (bit_vector);
    assert(u64_be(v) =~= s);
}

/// Append the big-endian encoding of an integer.
pub fn push_u64_be(out: &mut Vec<u8>, v: u64)
    ensures
        final(out)@ == old(out)@ + u64_be(v),
{
    out.push(((v >> 56) & 0xff) as u8);
    out.push(((v >> 48) & 0xff) as u8);
    out.push(((v >> 40) & 0xff) as u8);
    out.push(((v >> 32) & 0xff) as u8);
    out.push(((v >> 24) & 0xff) as u8);
    out.push(((v >> 16) & 0xff) as u8);
    out.push(((v >> 8) & 0xff) as u8);
    out.push((v & 0xff) as u8);
    proof {
        assert(out@ =~= old(out)@ + u64_be(v));
    }
}

/// Read a big-endian integer at an offset.
pub fn read_u64_be(s: &Vec<u8>, off: usize) -> (r: u64)
    requires
        off + 8 <= s@.len(),
    ensures
        r == u64_from_be(s@.subrange(off as int, off as int + 8)),
{
    let n = s.len();
    assert(off + 8 <= n);
    let r = (((s[off] as u64) << 56) | ((s[off + 1] as u64) << 48) | ((s[off + 2] as u64) << 40)
        | ((s[off + 3] as u64) << 32) | ((s[off + 4] as u64) << 24) | ((s[off + 5] as u64) << 16)
        | ((s[off + 6] as u64) << 8) | (s[off + 7] as u64));
    proof {
        let sub = s@.subrange(off as int, off as int + 8);
        assert(sub[0] == s@[off as int] && sub[1] == s@[off as int + 1] && sub[2] == s@[off as int
            + 2] && sub[3] == s@[off as int + 3] && sub[4] == s@[off as int + 4] && sub[5]
            == s@[off as int + 5] && sub[6] == s@[off as int + 6] && sub[7] == s@[off as int + 7]);
    }
    r
}

/// Byte encoding of a content identifier: the codec, then the digest.
pub open spec fn cid_bytes(c: CidV) -> Seq<u8> {
    u64_be(c.codec) + c.digest
}

/// Append the byte encoding of a content identifier.
pub fn push_cid(out: &mut Vec<u8>, c: &Cid)
    ensures
        final(out)@ == old(out)@ + cid_bytes(c@),
{
    push_u64_be(out, c.codec);
    crate::order::bytes_extend(out, &c.digest);
    proof {
        assert(out@ =~= old(out)@ + cid_bytes(c@));
    }
}

/// Parse an optional identifier at an offset: the single byte 0 for none,
/// or the byte 1 followed by a 40-byte identifier. Returns the identifier
/// and the offset just past it.
pub open spec fn parse_opt_cid(b: Seq<u8>, off: int) -> Option<(Option<CidV>, int)> {
    if 0 <= off < b.len() && b[off] == 0 {
        Some((None, off + 1))
    } else if 0 <= off < b.len() && b[off] == 1 && off + 41 <= b.len() {
        Some(
            (
                Some(
                    CidV {
                        codec: u64_from_be(b.subrange(off + 1, off + 9)),
                        digest: b.subrange(off + 9, off + 41),
                    },
                ),
                off + 41,
            ),
        )
    } else {
        None
    }
}

/// Read a content identifier at an offset.
pub fn read_cid(s: &Vec<u8>, off: usize) -> (r: Cid)
    requires
        off + 40 <= s@.len(),
    ensures
        r@.codec == u64_from_be(s@.subrange(off as int, off as int + 8)),
        r@.digest == s@.subrange(off as int + 8, off as int + 40),
        r.wf(),
        cid_bytes(r@) == s@.subrange(off as int, off as int + 40),
{
    let codec = read_u64_be(s, off);
    let n = s.len();
    assert(off + 40 <= n);
    let mut digest: Vec<u8> = Vec::new();
    let mut i: usize = 0;
    while i < 32
        invariant
            off + 40 <= s.len(),
            i <= 32,
            digest@ =~= s@.subrange(off as int + 8, off as int + 8 + i as int),
        decreases 32 - i,
    {
        digest.push(s[off + 8 + i]);
        proof {
            assert(digest@ =~= s@.subrange(off as int + 8, off as int + 8 + i as int + 1));
        }
        i = i + 1;
    }
    let r = Cid { codec, digest };
    proof {
        lemma_u64_be_complete(s@.subrange(off as int, off as int + 8));
        assert(cid_bytes(r@) =~= s@.subrange(off as int, off as int + 40));
    }
    r
}

} // verus!
