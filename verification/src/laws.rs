//! The behavioral laws of the storage contract, stated over the contents
//! model that every backend's contracts speak of, and proved once for all
//! backends: any implementation meeting the contract exhibits them.

use vstd::prelude::*;
use crate::order::{lex_le, lex_lt, lemma_lex_irrefl, lemma_lex_trans};
use crate::range::{key_in_range, ScanBound};
use crate::storage::spec_read;

verus! {

/// Law: reading a key right after writing a value to it returns that value.
pub proof fn lemma_read_after_write(m: Map<Seq<u8>, Seq<u8>>, k: Seq<u8>, v: Seq<u8>)
    ensures
        spec_read(m.insert(k, v), k) == Some(v),
{
}

/// Law: reading a key right after removing it returns nothing, whatever the
/// prior state held.
pub proof fn lemma_read_after_remove(m: Map<Seq<u8>, Seq<u8>>, k: Seq<u8>)
    ensures
        spec_read(m.remove(k), k) is None,
{
}

/// Law: removing an absent key leaves the contents untouched — and, by each
/// backend's contract, it is not an error.
pub proof fn lemma_remove_absent(m: Map<Seq<u8>, Seq<u8>>, k: Seq<u8>)
    requires
        !m.contains_key(k),
    ensures
        m.remove(k) == m,
{
    assert(m.remove(k) =~= m);
}

/// Law: writing a key twice leaves the second value; the first one can no
/// longer be read back.
pub proof fn lemma_overwrite(m: Map<Seq<u8>, Seq<u8>>, k: Seq<u8>, v1: Seq<u8>, v2: Seq<u8>)
    ensures
        spec_read(m.insert(k, v1).insert(k, v2), k) == Some(v2),
        v1 != v2 ==> spec_read(m.insert(k, v1).insert(k, v2), k) != Some(v1),
{
}

/// Law: an unbounded range admits every key, so an unbounded scan returns
/// every stored pair — in strictly ascending key order and without
/// duplicates, by the scan contract itself.
pub proof fn lemma_unbounded_admits_all(k: Seq<u8>)
    ensures
        key_in_range(k, ScanBound::Unbounded, ScanBound::Unbounded),
{
}

/// Law: a range whose end excludes `b` never admits the key `b` itself,
/// whatever the start bound and whether or not `b` is stored.
pub proof fn lemma_exclusive_end_excludes(start: ScanBound, b: Vec<u8>)
    ensures
        !key_in_range(b@, start, ScanBound::Excluded(b)),
{
    lemma_lex_irrefl(b@);
}

/// Law: an inverted range — whose end key lies strictly below its start key —
/// admits no key at all: scanning it yields an empty sequence, not an error.
pub proof fn lemma_inverted_range_empty(k: Seq<u8>, a: Vec<u8>, b: Vec<u8>)
    requires
        lex_lt(b@, a@),
    ensures
        !key_in_range(k, ScanBound::Included(a), ScanBound::Included(b)),
{
    if lex_le(a@, k) && lex_le(k, b@) {
        if a@ == k && k == b@ {
            lemma_lex_irrefl(a@);
        } else if a@ == k {
            lemma_lex_trans(k, b@, a@);
            lemma_lex_irrefl(k);
        } else if k == b@ {
            lemma_lex_trans(b@, a@, k);
            lemma_lex_irrefl(k);
        } else {
            lemma_lex_trans(a@, k, b@);
            lemma_lex_trans(a@, b@, a@);
            lemma_lex_irrefl(a@);
        }
    }
}

} // verus!
