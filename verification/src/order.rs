//! Byte-wise lexicographic ordering over keys.
//!
//! Keys are byte sequences, totally ordered by lexicographic comparison: the
//! first differing byte decides, and a proper prefix sorts before any of its
//! extensions.

use vstd::prelude::*;

verus! {

/// Strict lexicographic order on byte sequences: `a` sorts before `b`.
pub open spec fn lex_lt(a: Seq<u8>, b: Seq<u8>) -> bool
    decreases a.len(),
{
    if b.len() == 0 {
        false
    } else if a.len() == 0 {
        true
    } else if a[0] < b[0] {
        true
    } else if a[0] > b[0] {
        false
    } else {
        lex_lt(a.drop_first(), b.drop_first())
    }
}

/// Non-strict lexicographic order on byte sequences.
pub open spec fn lex_le(a: Seq<u8>, b: Seq<u8>) -> bool {
    lex_lt(a, b) || a == b
}

/// Outcome of comparing two keys byte-wise.
#[derive(Clone, Copy, Debug, PartialEq, Eq, Structural)]
pub enum KeyOrder {
    Less,
    Equal,
    Greater,
}

/// No key sorts strictly before itself.
pub proof fn lemma_lex_irrefl(a: Seq<u8>)
    ensures
        !lex_lt(a, a),
    decreases a.len(),
{
    if a.len() > 0 {
        lemma_lex_irrefl(a.drop_first());
    }
}

/// Any two keys compare exactly one way: below, equal, or above.
pub proof fn lemma_lex_trichotomy(a: Seq<u8>, b: Seq<u8>)
    ensures
        lex_lt(a, b) || lex_lt(b, a) || a == b,
        lex_lt(a, b) ==> !lex_lt(b, a) && a != b,
        lex_lt(b, a) ==> !lex_lt(a, b) && a != b,
    decreases a.len(),
{
    lemma_lex_irrefl(a);
    lemma_lex_irrefl(b);
    if a.len() == 0 && b.len() == 0 {
        assert(a =~= b);
    } else if a.len() > 0 && b.len() > 0 && a[0] == b[0] {
        lemma_lex_trichotomy(a.drop_first(), b.drop_first());
        if a.drop_first() == b.drop_first() {
            assert forall|j: int| 0 <= j < a.len() implies a[j] == b[j] by {
                if j > 0 {
                    assert(a[j] == a.drop_first()[j - 1]);
                    assert(b[j] == b.drop_first()[j - 1]);
                }
            }
            assert(a =~= b);
        }
    }
}

/// Strict lexicographic order is transitive.
pub proof fn lemma_lex_trans(a: Seq<u8>, b: Seq<u8>, c: Seq<u8>)
    requires
        lex_lt(a, b),
        lex_lt(b, c),
    ensures
        lex_lt(a, c),
    decreases a.len(),
{
    if b.len() == 0 {
        // lex_lt(a, b) cannot hold
    } else if a.len() == 0 {
        // lex_lt(b, c) forces c to be non-empty
    } else if c.len() == 0 {
        // lex_lt(b, c) cannot hold
    } else if a[0] == b[0] && b[0] == c[0] {
        lemma_lex_trans(a.drop_first(), b.drop_first(), c.drop_first());
    }
}

/// If two keys agree up to position `i` and differ there, the one with the
/// smaller byte sorts first.
pub proof fn lemma_lex_first_diff(a: Seq<u8>, b: Seq<u8>, i: int)
    requires
        0 <= i < a.len(),
        i < b.len(),
        forall|j: int| 0 <= j < i ==> a[j] == b[j],
        a[i] < b[i],
    ensures
        lex_lt(a, b),
    decreases i,
{
    if i > 0 {
        assert forall|j: int| 0 <= j < i - 1 implies a.drop_first()[j] == b.drop_first()[j] by {
            assert(a[j + 1] == b[j + 1]);
        }
        lemma_lex_first_diff(a.drop_first(), b.drop_first(), i - 1);
    }
}

/// A proper prefix sorts strictly before any of its extensions.
pub proof fn lemma_lex_proper_prefix(a: Seq<u8>, b: Seq<u8>)
    requires
        a.len() < b.len(),
        forall|j: int| 0 <= j < a.len() ==> a[j] == b[j],
    ensures
        lex_lt(a, b),
    decreases a.len(),
{
    if a.len() > 0 {
        assert forall|j: int| 0 <= j < a.drop_first().len() implies a.drop_first()[j]
            == b.drop_first()[j] by {
            assert(a[j + 1] == b[j + 1]);
        }
        lemma_lex_proper_prefix(a.drop_first(), b.drop_first());
    }
}

/// Compares two keys byte-wise, reporting their lexicographic relation.
pub fn lex_compare(a: &[u8], b: &[u8]) -> (r: KeyOrder)
    ensures
        (r is Less) == lex_lt(a@, b@),
        (r is Equal) == (a@ == b@),
        (r is Greater) == lex_lt(b@, a@),
{
    let a_len = a.len();
    let b_len = b.len();
    let n = if a_len < b_len {
        a_len
    } else {
        b_len
    };
    let mut i: usize = 0;
    while i < n
        invariant
            0 <= i <= n,
            n <= a@.len(),
            n <= b@.len(),
            n == a@.len() || n == b@.len(),
            forall|j: int| 0 <= j < i ==> a@[j] == b@[j],
        decreases n - i,
    {
        let x = a[i];
        let y = b[i];
        if x < y {
            proof {
                lemma_lex_first_diff(a@, b@, i as int);
                lemma_lex_trichotomy(a@, b@);
            }
            return KeyOrder::Less;
        }
        if y < x {
            proof {
                lemma_lex_first_diff(b@, a@, i as int);
                lemma_lex_trichotomy(a@, b@);
            }
            return KeyOrder::Greater;
        }
        i += 1;
    }
    if a_len == b_len {
        proof {
            assert(a@ =~= b@);
            lemma_lex_irrefl(a@);
        }
        KeyOrder::Equal
    } else if a_len < b_len {
        proof {
            lemma_lex_proper_prefix(a@, b@);
            lemma_lex_trichotomy(a@, b@);
        }
        KeyOrder::Less
    } else {
        proof {
            lemma_lex_proper_prefix(b@, a@);
            lemma_lex_trichotomy(a@, b@);
        }
        KeyOrder::Greater
    }
}

} // verus!
