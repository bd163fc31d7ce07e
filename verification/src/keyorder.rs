//! Lexicographic ordering of byte-string keys.
//!
//! All three storage components keep their records sorted by key in the
//! order defined here; `lex_lt` is the single specification of that order
//! and `cmp_keys` is its executable counterpart.

use vstd::prelude::*;

verus! {

/// Three-way outcome of comparing two keys.
#[derive(Clone, Copy, PartialEq, Eq, Structural, Debug)]
pub enum KeyOrder {
    Less,
    Equal,
    Greater,
}

/// Strict lexicographic order on byte strings: `a` sorts before `b`.
///
/// A proper prefix sorts before every extension of it; otherwise the first
/// differing byte decides.
pub open spec fn lex_lt(a: Seq<u8>, b: Seq<u8>) -> bool
    decreases a.len(),
{
    if b.len() == 0 {
        false
    } else if a.len() == 0 {
        true
    } else if a[0] < b[0] {
        true
    } else if a[0] > b[0] {
        false
    } else {
        lex_lt(a.skip(1), b.skip(1))
    }
}

pub proof fn lemma_lex_lt_irreflexive(a: Seq<u8>)
    ensures
        !lex_lt(a, a),
    decreases a.len(),
{
    if a.len() > 0 {
        lemma_lex_lt_irreflexive(a.skip(1));
    }
}

pub proof fn lemma_lex_lt_asymmetric(a: Seq<u8>, b: Seq<u8>)
    ensures
        !(lex_lt(a, b) && lex_lt(b, a)),
    decreases a.len(),
{
    if a.len() > 0 && b.len() > 0 && a[0] == b[0] {
        lemma_lex_lt_asymmetric(a.skip(1), b.skip(1));
    }
}

pub proof fn lemma_lex_lt_transitive(a: Seq<u8>, b: Seq<u8>, c: Seq<u8>)
    requires
        lex_lt(a, b),
        lex_lt(b, c),
    ensures
        lex_lt(a, c),
    decreases a.len(),
{
    if a.len() > 0 && b.len() > 0 && c.len() > 0 && a[0] == b[0] && b[0] == c[0] {
        lemma_lex_lt_transitive(a.skip(1), b.skip(1), c.skip(1));
    }
}

pub proof fn lemma_lex_lt_total(a: Seq<u8>, b: Seq<u8>)
    ensures
        lex_lt(a, b) || lex_lt(b, a) || a == b,
    decreases a.len(),
{
    if a.len() == 0 {
        if b.len() == 0 {
            assert(a =~= b);
        }
    } else if b.len() > 0 && a[0] == b[0] {
        lemma_lex_lt_total(a.skip(1), b.skip(1));
        if !lex_lt(a, b) && !lex_lt(b, a) {
            assert(a.skip(1) == b.skip(1));
            assert forall|i: int| 0 <= i < a.len() implies a[i] == b[i] by {
                if i > 0 {
                    assert(a[i] == a.skip(1)[i - 1]);
                    assert(b[i] == b.skip(1)[i - 1]);
                }
            }
            assert(a =~= b);
        }
    }
}

/// Taking a fixed-length prefix respects the order: the prefixes of two
/// ordered keys are ordered or equal.
pub proof fn lemma_lex_le_take(a: Seq<u8>, b: Seq<u8>, p: int)
    requires
        lex_lt(a, b) || a == b,
        0 <= p <= a.len(),
        p <= b.len(),
    ensures
        lex_lt(a.take(p), b.take(p)) || a.take(p) == b.take(p),
    decreases p,
{
    if p == 0 {
        assert(a.take(0) =~= b.take(0));
    } else if a == b {
        assert(a.take(p) =~= b.take(p));
    } else {
        if a[0] == b[0] {
            lemma_lex_le_take(a.skip(1), b.skip(1), p - 1);
            assert(a.take(p).skip(1) =~= a.skip(1).take(p - 1));
            assert(b.take(p).skip(1) =~= b.skip(1).take(p - 1));
            if a.skip(1).take(p - 1) == b.skip(1).take(p - 1) {
                assert forall|i: int| 0 <= i < p implies a.take(p)[i] == b.take(p)[i] by {
                    if i > 0 {
                        assert(a.take(p)[i] == a.take(p).skip(1)[i - 1]);
                        assert(b.take(p)[i] == b.take(p).skip(1)[i - 1]);
                    }
                }
                assert(a.take(p) =~= b.take(p));
            } else {
                assert(a.take(p)[0] == b.take(p)[0]);
            }
        } else {
            assert(a.take(p)[0] == a[0] && b.take(p)[0] == b[0]);
        }
    }
}

/// Keys between two keys that share a prefix share it too: the rows of one
/// prefix form one contiguous run in a sorted table.
pub proof fn lemma_prefix_between(a: Seq<u8>, b: Seq<u8>, c: Seq<u8>, p: int)
    requires
        lex_lt(a, b) || a == b,
        lex_lt(b, c) || b == c,
        0 <= p <= a.len(),
        p <= b.len(),
        p <= c.len(),
        a.take(p) == c.take(p),
    ensures
        b.take(p) == a.take(p),
{
    lemma_lex_le_take(a, b, p);
    lemma_lex_le_take(b, c, p);
    if a.take(p) != b.take(p) {
        assert(lex_lt(a.take(p), b.take(p)));
        if b.take(p) == c.take(p) {
            lemma_lex_lt_irreflexive(a.take(p));
        } else {
            lemma_lex_lt_transitive(a.take(p), b.take(p), c.take(p));
            lemma_lex_lt_irreflexive(a.take(p));
        }
    }
}

/// Compare two keys; the result names exactly one of the three relations
/// `lex_lt(a, b)`, `a == b`, `lex_lt(b, a)`.
pub fn cmp_keys(a: &[u8], b: &[u8]) -> (r: KeyOrder)
    ensures
        r == KeyOrder::Less <==> lex_lt(a@, b@),
        r == KeyOrder::Equal <==> a@ == b@,
        r == KeyOrder::Greater <==> lex_lt(b@, a@),
{
    let alen = a.len();
    let blen = b.len();
    let min: usize = if alen < blen { alen } else { blen };
    let mut i: usize = 0;
    proof {
        assert(a@.skip(0) =~= a@);
        assert(b@.skip(0) =~= b@);
    }
    while i < min
        invariant
            0 <= i <= min,
            min <= a@.len(),
            min <= b@.len(),
            min == a@.len() || min == b@.len(),
            alen == a@.len(),
            blen == b@.len(),
            forall|j: int| 0 <= j < i ==> a@[j] == b@[j],
            lex_lt(a@, b@) == lex_lt(a@.skip(i as int), b@.skip(i as int)),
            lex_lt(b@, a@) == lex_lt(b@.skip(i as int), a@.skip(i as int)),
        decreases min - i,
    {
        let x = a[i];
        let y = b[i];
        if x < y {
            proof {
                assert(a@.skip(i as int)[0] == a@[i as int]);
                assert(a@[i as int] != b@[i as int]);
            }
            return KeyOrder::Less;
        } else if x > y {
            proof {
                assert(a@.skip(i as int)[0] == a@[i as int]);
                assert(a@[i as int] != b@[i as int]);
            }
            return KeyOrder::Greater;
        }
        proof {
            assert(a@.skip(i as int).skip(1) =~= a@.skip(i + 1));
            assert(b@.skip(i as int).skip(1) =~= b@.skip(i + 1));
        }
        i = i + 1;
    }
    if alen == blen {
        proof {
            assert(a@ =~= b@);
            lemma_lex_lt_irreflexive(a@);
        }
        KeyOrder::Equal
    } else if alen < blen {
        proof {
            assert(a@.skip(i as int).len() == 0);
            assert(b@.skip(i as int).len() > 0);
            assert(a@.len() != b@.len());
        }
        KeyOrder::Less
    } else {
        proof {
            assert(b@.skip(i as int).len() == 0);
            assert(a@.skip(i as int).len() > 0);
            assert(a@.len() != b@.len());
        }
        KeyOrder::Greater
    }
}

} // verus!
