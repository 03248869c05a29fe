use vstd::prelude::*;

verus! {

/// Strict lexicographic order on byte sequences: `a` comes before `b`
/// when `a` is a proper prefix of `b`, or when the first differing byte
/// of `a` is smaller.
pub open spec fn lex_lt(a: Seq<u8>, b: Seq<u8>) -> bool
    decreases a.len(),
{
    if b.len() == 0 {
        false
    } else if a.len() == 0 {
        true
    } else if a[0] < b[0] {
        true
    } else if a[0] > b[0] {
        false
    } else {
        lex_lt(a.drop_first(), b.drop_first())
    }
}

/// The order is irreflexive: no sequence comes before itself.
pub proof fn lemma_lex_irrefl(a: Seq<u8>)
    ensures
        !lex_lt(a, a),
    decreases a.len(),
{
    if a.len() > 0 {
        lemma_lex_irrefl(a.drop_first());
    }
}

/// The order is asymmetric: at most one of `lex_lt(a, b)` and `lex_lt(b, a)` holds.
pub proof fn lemma_lex_asym(a: Seq<u8>, b: Seq<u8>)
    ensures
        !(lex_lt(a, b) && lex_lt(b, a)),
    decreases a.len(),
{
    if a.len() > 0 && b.len() > 0 && a[0] == b[0] {
        lemma_lex_asym(a.drop_first(), b.drop_first());
    }
}

/// The order is total: two sequences are equal or one comes before the other.
pub proof fn lemma_lex_total(a: Seq<u8>, b: Seq<u8>)
    ensures
        lex_lt(a, b) || lex_lt(b, a) || a == b,
    decreases a.len(),
{
    if a.len() == 0 && b.len() == 0 {
        assert(a =~= b);
    } else if a.len() > 0 && b.len() > 0 && a[0] == b[0] {
        lemma_lex_total(a.drop_first(), b.drop_first());
        if !lex_lt(a, b) && !lex_lt(b, a) {
            assert(a.drop_first() =~= b.drop_first());
            assert(a =~= seq![a[0]].add(a.drop_first()));
            assert(b =~= seq![b[0]].add(b.drop_first()));
        }
    }
}

/// The order is transitive.
pub proof fn lemma_lex_trans(a: Seq<u8>, b: Seq<u8>, c: Seq<u8>)
    requires
        lex_lt(a, b),
        lex_lt(b, c),
    ensures
        lex_lt(a, c),
    decreases a.len(),
{
    if a.len() > 0 && b.len() > 0 && c.len() > 0 {
        if a[0] == b[0] && b[0] == c[0] {
            lemma_lex_trans(a.drop_first(), b.drop_first(), c.drop_first());
        }
    }
}

/// Three-way comparison result for byte strings.
#[derive(Clone, Copy, PartialEq, Eq, Structural, Debug)]
pub enum ByteCmp {
    Less,
    Equal,
    Greater,
}

/// Compare two byte strings in lexicographic order.
pub fn bytes_cmp(a: &Vec<u8>, b: &Vec<u8>) -> (r: ByteCmp)
    ensures
        (r == ByteCmp::Less) == lex_lt(a@, b@),
        (r == ByteCmp::Equal) == (a@ == b@),
        (r == ByteCmp::Greater) == lex_lt(b@, a@),
{
    let mut i: usize = 0;
    loop
        invariant
            i <= a.len(),
            i <= b.len(),
            a@.subrange(0, i as int) =~= b@.subrange(0, i as int),
        decreases a.len() - i,
    {
        proof {
            lemma_lex_skip(a@, b@, i as int);
            lemma_lex_skip(b@, a@, i as int);
        }
        if i >= a.len() || i >= b.len() {
            if a.len() == b.len() {
                proof {
                    assert(i == a.len() && i == b.len());
                    assert(a@ =~= a@.subrange(0, i as int));
                    assert(b@ =~= b@.subrange(0, i as int));
                    assert(a@ =~= b@);
                    lemma_lex_irrefl(a@);
                }
                return ByteCmp::Equal;
            } else if a.len() < b.len() {
                proof {
                    assert(a@.skip(i as int).len() == 0);
                    assert(b@.skip(i as int).len() > 0);
                    lemma_lex_asym(a@, b@);
                    assert(a@.len() != b@.len());
                }
                return ByteCmp::Less;
            } else {
                proof {
                    assert(b@.skip(i as int).len() == 0);
                    assert(a@.skip(i as int).len() > 0);
                    lemma_lex_asym(a@, b@);
                    assert(a@.len() != b@.len());
                }
                return ByteCmp::Greater;
            }
        }
        let x = a[i];
        let y = b[i];
        if x < y {
            proof {
                assert(a@.skip(i as int)[0] == x);
                assert(b@.skip(i as int)[0] == y);
                assert(lex_lt(a@.skip(i as int), b@.skip(i as int)));
                lemma_lex_asym(a@, b@);
                assert(a@[i as int] != b@[i as int]);
            }
            return ByteCmp::Less;
        } else if x > y {
            proof {
                assert(a@.skip(i as int)[0] == x);
                assert(b@.skip(i as int)[0] == y);
                assert(lex_lt(b@.skip(i as int), a@.skip(i as int)));
                lemma_lex_asym(a@, b@);
                assert(a@[i as int] != b@[i as int]);
            }
            return ByteCmp::Greater;
        }
        proof {
            assert(a@.subrange(0, i + 1) =~= b@.subrange(0, i + 1));
        }
        i = i + 1;
    }
}

/// Whenever two sequences agree on their first `i` bytes, their order is
/// decided by the remainders.
pub proof fn lemma_lex_skip(a: Seq<u8>, b: Seq<u8>, i: int)
    requires
        0 <= i <= a.len(),
        i <= b.len(),
        a.subrange(0, i) == b.subrange(0, i),
    ensures
        lex_lt(a, b) == lex_lt(a.skip(i), b.skip(i)),
    decreases i,
{
    if i > 0 {
        assert(a.len() > 0 && b.len() > 0);
        assert(a.subrange(0, i)[0] == a[0]);
        assert(b.subrange(0, i)[0] == b[0]);
        assert(a[0] == b[0]);
        assert(a.drop_first().subrange(0, i - 1) =~= b.drop_first().subrange(0, i - 1)) by {
            assert forall|j: int| 0 <= j < i - 1 implies #[trigger] a.drop_first().subrange(
                0,
                i - 1,
            )[j] == b.drop_first().subrange(0, i - 1)[j] by {
                assert(a.drop_first().subrange(0, i - 1)[j] == a.drop_first()[j]);
                assert(b.drop_first().subrange(0, i - 1)[j] == b.drop_first()[j]);
                assert(a.drop_first()[j] == a[j + 1]);
                assert(b.drop_first()[j] == b[j + 1]);
                assert(a.subrange(0, i)[j + 1] == a[j + 1]);
                assert(b.subrange(0, i)[j + 1] == b[j + 1]);
                assert(a.subrange(0, i)[j + 1] == b.subrange(0, i)[j + 1]);
            }
        }
        lemma_lex_skip(a.drop_first(), b.drop_first(), i - 1);
        assert(a.drop_first().skip(i - 1) =~= a.skip(i));
        assert(b.drop_first().skip(i - 1) =~= b.skip(i));
    } else {
        assert(a.skip(0) =~= a);
        assert(b.skip(0) =~= b);
    }
}

/// Equality test on byte strings.
pub fn bytes_eq(a: &Vec<u8>, b: &Vec<u8>) -> (r: bool)
    ensures
        r == (a@ == b@),
{
    match bytes_cmp(a, b) {
        ByteCmp::Equal => true,
        _ => false,
    }
}

/// `p` is a prefix of `s`.
pub open spec fn is_prefix(p: Seq<u8>, s: Seq<u8>) -> bool {
    p.len() <= s.len() && s.subrange(0, p.len() as int) == p
}

/// Prefix test on byte strings.
pub fn bytes_has_prefix(s: &Vec<u8>, p: &Vec<u8>) -> (r: bool)
    ensures
        r == is_prefix(p@, s@),
{
    if p.len() > s.len() {
        assert(!is_prefix(p@, s@));
        return false;
    }
    let mut i: usize = 0;
    while i < p.len()
        invariant
            i <= p.len(),
            p.len() <= s.len(),
            s@.subrange(0, i as int) =~= p@.subrange(0, i as int),
        decreases p.len() - i,
    {
        if s[i] != p[i] {
            proof {
                assert(s@.subrange(0, p@.len() as int)[i as int] == s@[i as int]);
                assert(p@[i as int] != s@[i as int]);
            }
            return false;
        }
        proof {
            assert(s@.subrange(0, i + 1) =~= p@.subrange(0, i + 1));
        }
        i = i + 1;
    }
    proof {
        assert(s@.subrange(0, p@.len() as int) =~= p@);
    }
    true
}

/// Copy a byte string from an offset to its end.
pub fn bytes_skip(v: &Vec<u8>, n: usize) -> (r: Vec<u8>)
    requires
        n <= v@.len(),
    ensures
        r@ == v@.skip(n as int),
{
    let mut out: Vec<u8> = Vec::new();
    let mut i: usize = n;
    while i < v.len()
        invariant
            n <= i <= v.len(),
            out@ =~= v@.subrange(n as int, i as int),
        decreases v.len() - i,
    {
        out.push(v[i]);
        proof {
            assert(out@ =~= v@.subrange(n as int, i + 1));
        }
        i = i + 1;
    }
    proof {
        assert(out@ =~= v@.skip(n as int));
    }
    out
}

/// Copy a byte string.
pub fn bytes_dup(v: &Vec<u8>) -> (r: Vec<u8>)
    ensures
        r@ == v@,
{
    let mut out: Vec<u8> = Vec::new();
    let mut i: usize = 0;
    while i < v.len()
        invariant
            i <= v.len(),
            out@ =~= v@.subrange(0, i as int),
        decreases v.len() - i,
    {
        out.push(v[i]);
        proof {
            assert(out@ =~= v@.subrange(0, i + 1));
        }
        i = i + 1;
    }
    proof {
        assert(out@ =~= v@);
    }
    out
}

/// Append one byte string to another.
pub fn bytes_extend(out: &mut Vec<u8>, src: &Vec<u8>)
    ensures
        final(out)@ == old(out)@ + src@,
{
    let ghost base = out@;
    let mut i: usize = 0;
    while i < src.len()
        invariant
            i <= src.len(),
            out@ =~= base + src@.subrange(0, i as int),
        decreases src.len() - i,
    {
        out.push(src[i]);
        proof {
            assert(out@ =~= base + src@.subrange(0, i + 1));
        }
        i = i + 1;
    }
    proof {
        assert(out@ =~= base + src@);
    }
}

} // verus!
