//! Range bounds for ordered scans over the key space.

use vstd::prelude::*;
use crate::order::{lex_compare, lex_le, lex_lt, lemma_lex_trichotomy, KeyOrder};

verus! {

/// One end of a scan range over keys: unbounded, or bounded by a key,
/// inclusively or exclusively.
#[derive(Clone, Debug)]
pub enum ScanBound {
    /// Keys equal to the bound are inside the range.
    Included(Vec<u8>),
    /// Keys equal to the bound are outside the range.
    Excluded(Vec<u8>),
    /// No bound at this end.
    Unbounded,
}

/// Whether key `k` lies at or above the start bound.
pub open spec fn above_start(k: Seq<u8>, start: ScanBound) -> bool {
    match start {
        ScanBound::Included(s) => lex_le(s@, k),
        ScanBound::Excluded(s) => lex_lt(s@, k),
        ScanBound::Unbounded => true,
    }
}

/// Whether key `k` lies at or below the end bound.
pub open spec fn below_end(k: Seq<u8>, end: ScanBound) -> bool {
    match end {
        ScanBound::Included(e) => lex_le(k, e@),
        ScanBound::Excluded(e) => lex_lt(k, e@),
        ScanBound::Unbounded => true,
    }
}

/// Whether key `k` lies inside the range `(start, end)`.
pub open spec fn key_in_range(k: Seq<u8>, start: ScanBound, end: ScanBound) -> bool {
    above_start(k, start) && below_end(k, end)
}

impl ScanBound {
    /// Decides whether `k` lies at or above `self` taken as a start bound.
    pub fn admits_from(&self, k: &[u8]) -> (r: bool)
        ensures
            r == above_start(k@, *self),
    {
        match self {
            ScanBound::Included(s) => {
                let o = lex_compare(s.as_slice(), k);
                proof {
                    lemma_lex_trichotomy(s@, k@);
                }
                !(matches!(o, KeyOrder::Greater))
            },
            ScanBound::Excluded(s) => {
                let o = lex_compare(s.as_slice(), k);
                matches!(o, KeyOrder::Less)
            },
            ScanBound::Unbounded => true,
        }
    }

    /// Decides whether `k` lies at or below `self` taken as an end bound.
    pub fn admits_until(&self, k: &[u8]) -> (r: bool)
        ensures
            r == below_end(k@, *self),
    {
        match self {
            ScanBound::Included(e) => {
                let o = lex_compare(k, e.as_slice());
                proof {
                    lemma_lex_trichotomy(k@, e@);
                }
                !(matches!(o, KeyOrder::Greater))
            },
            ScanBound::Excluded(e) => {
                let o = lex_compare(k, e.as_slice());
                matches!(o, KeyOrder::Less)
            },
            ScanBound::Unbounded => true,
        }
    }
}

/// Decides whether `k` lies inside the range `(start, end)`.
pub fn in_range(k: &[u8], start: &ScanBound, end: &ScanBound) -> (r: bool)
    ensures
        r == key_in_range(k@, *start, *end),
{
    start.admits_from(k) && end.admits_until(k)
}

} // verus!
