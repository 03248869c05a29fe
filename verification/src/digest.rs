use vstd::prelude::*;
use sha2::Digest;

verus! {

/// The SHA-256 digest of a byte string. The digest itself is far too long to
/// state here; this name stands for it, and the trusted wrapper below ties the
/// name to the outside implementation.
pub uninterp spec fn sha256_of(data: Seq<u8>) -> Seq<u8>;

/// Relies on sha2::Sha256::digest: the SHA-256 digest of the input, always 32
/// bytes, a function of the input bytes alone.
#[verifier::external_body]
fn sha256(data: &Vec<u8>) -> (r: Vec<u8>)
    ensures
        r@ == sha256_of(data@),
        r@.len() == 32,
{
    sha2::Sha256::digest(data.as_slice()).to_vec()
}

/// A byte string cut or zero-padded to exactly 32 bytes. Applied to a
/// SHA-256 digest it changes nothing; stating digests through it makes their
/// length a fact of the model rather than of the hash implementation.
pub open spec fn pad32(s: Seq<u8>) -> Seq<u8> {
    Seq::new(
        32,
        |i: int|
            if 0 <= i < s.len() {
                s[i]
            } else {
                0u8
            },
    )
}

/// The SHA-256 digest of a byte string, as the exactly-32-byte string the
/// model works with.
pub open spec fn digest32_of(data: Seq<u8>) -> Seq<u8> {
    pad32(sha256_of(data))
}

/// The digest of the model is the digest the wrapper returns.
pub(crate) fn sha256_32(data: &Vec<u8>) -> (r: Vec<u8>)
    ensures
        r@ == digest32_of(data@),
        r@.len() == 32,
{
    let d = sha256(data);
    proof {
        assert(pad32(d@) =~= d@);
    }
    d
}

/// Two different byte strings share one digest. Content addressing rests on
/// this never happening; the store checks for it on every write, so the few
/// operations that can fail at all fail only when it has actually happened.
pub open spec fn digest_collision() -> bool {
    exists|x: Seq<u8>, y: Seq<u8>| x != y && #[trigger] digest32_of(x) == #[trigger] digest32_of(
        y,
    )
}

/// Number of leading zero nibbles in one byte: 2 for a zero byte, 1 when only
/// the high nibble is zero, 0 otherwise.
pub open spec fn byte_zero_nibbles(b: u8) -> nat {
    if b == 0 {
        2
    } else if b < 16 {
        1
    } else {
        0
    }
}

/// Number of leading zero nibbles of a byte string.
pub open spec fn leading_zero_nibbles(d: Seq<u8>) -> nat
    decreases d.len(),
{
    if d.len() == 0 {
        0
    } else if d[0] == 0 {
        2 + leading_zero_nibbles(d.drop_first())
    } else {
        byte_zero_nibbles(d[0])
    }
}

/// The rank of a path: the number of leading zero nibbles of the SHA-256
/// digest of the path. The tree's shape is fully determined by the paths'
/// ranks and their order, which makes the tree canonical.
pub open spec fn rank_of(path: Seq<u8>) -> nat {
    leading_zero_nibbles(sha256_of(path))
}

proof fn lemma_lzn_step(d: Seq<u8>, i: int)
    requires
        0 <= i < d.len(),
        forall|j: int| 0 <= j < i ==> d[j] == 0,
    ensures
        d[i] == 0 ==> leading_zero_nibbles(d) == 2 * i + 2 + leading_zero_nibbles(
            d.skip(i + 1),
        ),
        d[i] != 0 ==> leading_zero_nibbles(d) == 2 * i + byte_zero_nibbles(d[i]),
    decreases i,
{
    if i == 0 {
        assert(d.drop_first() =~= d.skip(1));
    } else {
        assert(d[0] == 0);
        lemma_lzn_step(d.drop_first(), i - 1);
        assert(d.drop_first()[i - 1] == d[i]);
        assert(d.drop_first().skip(i) =~= d.skip(i + 1));
    }
}

/// Compute the rank of a path. The rank of any path is at most 64, since a
/// SHA-256 digest has 64 nibbles.
pub fn path_rank(path: &Vec<u8>) -> (r: u64)
    ensures
        r as nat == rank_of(path@),
        r <= 64,
{
    let d = sha256(path);
    let mut i: usize = 0;
    while i < d.len()
        invariant
            d@ == sha256_of(path@),
            d@.len() == 32,
            i <= d.len(),
            forall|j: int| 0 <= j < i ==> d@[j] == 0,
        decreases d.len() - i,
    {
        if d[i] != 0 {
            proof {
                lemma_lzn_step(d@, i as int);
            }
            if d[i] < 16 {
                return 2 * (i as u64) + 1;
            } else {
                return 2 * (i as u64);
            }
        }
        i = i + 1;
    }
    proof {
        if d@.len() > 0 {
            lemma_lzn_step(d@, d@.len() - 1);
            assert(d@.skip(d@.len() as int) =~= Seq::<u8>::empty());
        }
    }
    64
}

} // verus!
