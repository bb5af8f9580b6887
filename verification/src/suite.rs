//! The conformance suite: behavioral checks exercised against any backend
//! that implements the storage contract.
//!
//! Every check is a statically verified assertion, proved from the contract
//! alone, so any backend whose operations meet their contracts conforms by
//! construction; running the suite can surface only backend failures, which
//! are returned to the caller.

use vstd::prelude::*;
use crate::error::StorageError;
use crate::laws::{lemma_read_after_remove, lemma_read_after_write, lemma_remove_absent,
    lemma_unbounded_admits_all};
use crate::range::ScanBound;
use crate::storage::{view_opt, Storage};

verus! {

/// Runs the conformance checks against `s`: read-after-write, overwrite,
/// read-after-remove, removal of an absent key, and unbounded-scan
/// completeness. Returns the first backend failure encountered, if any.
///
/// The suite probes the caller's backend with a fixed key: when every check
/// succeeds, the intermediate writes and removals cancel out and the probe
/// key is left bound to the last value the suite wrote, with everything else
/// untouched.
pub fn conformance<S: Storage>(s: &mut S) -> (r: Result<(), StorageError>)
    requires
        old(s).inv(),
    ensures
        final(s).inv(),
        r is Ok ==> final(s).contents() == old(s).contents().insert(seq![10u8], seq![3u8]),
{
    let mut key: Vec<u8> = Vec::new();
    key.push(10u8);
    let mut v1: Vec<u8> = Vec::new();
    v1.push(1u8);
    let mut v2: Vec<u8> = Vec::new();
    v2.push(2u8);
    let ghost k = key@;
    let ghost w1 = v1@;
    let ghost w2 = v2@;

    // Read-after-write returns the written value.
    if let Err(e) = s.write(key.as_slice(), v1) {
        return Err(e);
    }
    let got = match s.read(key.as_slice()) {
        Ok(o) => o,
        Err(e) => { return Err(e) },
    };
    proof {
        lemma_read_after_write(old(s).contents(), k, w1);
        assert(view_opt(got) == Some(w1));
    }

    // Overwriting leaves the second value, never the first.
    let ghost c1 = s.contents();
    if let Err(e) = s.write(key.as_slice(), v2) {
        return Err(e);
    }
    let got = match s.read(key.as_slice()) {
        Ok(o) => o,
        Err(e) => { return Err(e) },
    };
    proof {
        lemma_read_after_write(c1, k, w2);
        assert(view_opt(got) == Some(w2));
    }

    // Read-after-remove returns empty.
    let ghost c2 = s.contents();
    if let Err(e) = s.remove(key.as_slice()) {
        return Err(e);
    }
    let got = match s.read(key.as_slice()) {
        Ok(o) => o,
        Err(e) => { return Err(e) },
    };
    proof {
        lemma_read_after_remove(c2, k);
        assert(view_opt(got) is None);
    }

    // Removing the now-absent key leaves the contents untouched.
    let ghost c3 = s.contents();
    if let Err(e) = s.remove(key.as_slice()) {
        return Err(e);
    }
    proof {
        lemma_remove_absent(c3, k);
        assert(s.contents() == c3);
    }

    // An unbounded scan that produces no failure yields every stored pair;
    // in particular the key written back here must appear.
    let mut v3: Vec<u8> = Vec::new();
    v3.push(3u8);
    let ghost w3 = v3@;
    if let Err(e) = s.write(key.as_slice(), v3) {
        return Err(e);
    }
    let items = s.scan(ScanBound::Unbounded, ScanBound::Unbounded);
    proof {
        lemma_unbounded_admits_all(k);
        assert(s.contents().contains_key(k));
        if forall|i: int| 0 <= i < items@.len() ==> items@[i] is Ok {
            assert(exists|i: int| 0 <= i < items@.len() && items@[i]->Ok_0.0@ == k);
        }
    }

    // On success the probe steps cancel to a single binding of the probe key.
    proof {
        assert(k =~= seq![10u8]);
        assert(w3 =~= seq![3u8]);
        assert(s.contents() =~= old(s).contents().insert(seq![10u8], seq![3u8]));
    }
    Ok(())
}

} // verus!
