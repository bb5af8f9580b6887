//! The storage contract: the operations every backend must support, with
//! identical externally observable semantics whatever its representation.

use vstd::prelude::*;
use crate::error::StorageError;
use crate::order::lex_lt;
use crate::range::{key_in_range, ScanBound};

verus! {

/// What a point read of key `k` returns against contents `m`: the stored
/// value, or nothing when the key is absent.
pub open spec fn spec_read(m: Map<Seq<u8>, Seq<u8>>, k: Seq<u8>) -> Option<Seq<u8>> {
    if m.contains_key(k) {
        Some(m[k])
    } else {
        None
    }
}

/// The abstract content of an optional owned value.
pub open spec fn view_opt(o: Option<Vec<u8>>) -> Option<Seq<u8>> {
    match o {
        Some(v) => Some(v@),
        None => None,
    }
}

/// A key-value storage backend.
///
/// Contents are modelled as a map from key bytes to value bytes: at most one
/// value per key. Every operation may fail with a [`StorageError`]; a backend
/// that cannot fail simply never exercises that channel. Scans report
/// failures per produced item, so a caller can observe which item failed.
pub trait Storage: Sized {
    /// The backend's internal well-formedness condition.
    spec fn inv(&self) -> bool;

    /// The key-value pairs the backend currently holds.
    spec fn contents(&self) -> Map<Seq<u8>, Seq<u8>>;

    /// Returns the value stored under `key`, or nothing when absent.
    /// No side effects.
    fn read(&self, key: &[u8]) -> (r: Result<Option<Vec<u8>>, StorageError>)
        requires
            self.inv(),
        ensures
            r matches Ok(o) ==> view_opt(o) == spec_read(self.contents(), key@),
    ;

    /// Inserts or replaces the value stored under `key`.
    fn write(&mut self, key: &[u8], value: Vec<u8>) -> (r: Result<(), StorageError>)
        requires
            old(self).inv(),
        ensures
            final(self).inv(),
            r is Ok ==> final(self).contents() == old(self).contents().insert(key@, value@),
    ;

    /// Deletes `key` if present; removing an absent key is a no-op.
    fn remove(&mut self, key: &[u8]) -> (r: Result<(), StorageError>)
        requires
            old(self).inv(),
        ensures
            final(self).inv(),
            r is Ok ==> final(self).contents() == old(self).contents().remove(key@),
    ;

    /// Produces the pairs whose key falls inside `(start, end)`, in ascending
    /// byte order of key, each item reported individually so that a failure
    /// does not silently abort the whole scan.
    fn scan(&self, start: ScanBound, end: ScanBound) -> (r: Vec<
        Result<(Vec<u8>, Vec<u8>), StorageError>,
    >)
        requires
            self.inv(),
        ensures
            forall|i: int, j: int|
                0 <= i < j < r@.len() && r@[i] is Ok && r@[j] is Ok ==> lex_lt(
                    r@[i]->Ok_0.0@,
                    r@[j]->Ok_0.0@,
                ),
            forall|i: int|
                0 <= i < r@.len() && r@[i] is Ok ==> {
                    &&& key_in_range(r@[i]->Ok_0.0@, start, end)
                    &&& self.contents().contains_key(r@[i]->Ok_0.0@)
                    &&& self.contents()[r@[i]->Ok_0.0@] == r@[i]->Ok_0.1@
                },
            (forall|i: int| 0 <= i < r@.len() ==> r@[i] is Ok) ==> forall|k: Seq<u8>|
                #[trigger] self.contents().contains_key(k) && key_in_range(k, start, end)
                    ==> exists|i: int| 0 <= i < r@.len() && r@[i]->Ok_0.0@ == k,
    ;
}

} // verus!
