//! In-memory key-value storage. Primarily used for prototyping and testing.
//!
//! The reference backend for the storage contract: pairs live in a vector
//! kept strictly sorted by byte-wise key order, so every key occurs at most
//! once and scans walk the pairs in ascending order. Scans materialize
//! independent copies of the matching pairs eagerly — a deliberate tradeoff
//! that keeps the returned sequence free of any borrow of the backend.

use vstd::prelude::*;
use crate::error::StorageError;
use crate::order::{
    lex_compare,
    lex_le,
    lex_lt,
    lemma_lex_irrefl,
    lemma_lex_trans,
    lemma_lex_trichotomy,
    KeyOrder,
};
use crate::range::{in_range, key_in_range, ScanBound};
use crate::storage::{spec_read, view_opt, Storage};

verus! {

/// Whether the keys of `s` are strictly ascending in byte order.
pub open spec fn entries_sorted(s: Seq<(Vec<u8>, Vec<u8>)>) -> bool {
    forall|i: int, j: int| 0 <= i < j < s.len() ==> lex_lt(s[i].0@, s[j].0@)
}

/// Whether some entry of `s` carries the key `k`.
pub open spec fn has_key(s: Seq<(Vec<u8>, Vec<u8>)>, k: Seq<u8>) -> bool {
    exists|i: int| 0 <= i < s.len() && s[i].0@ == k
}

/// The position of the entry carrying key `k`, when one exists.
pub open spec fn index_of_key(s: Seq<(Vec<u8>, Vec<u8>)>, k: Seq<u8>) -> int {
    choose|i: int| 0 <= i < s.len() && s[i].0@ == k
}

/// The key-value map that a sequence of entries represents.
pub open spec fn entries_map(s: Seq<(Vec<u8>, Vec<u8>)>) -> Map<Seq<u8>, Seq<u8>> {
    Map::new(|k: Seq<u8>| has_key(s, k), |k: Seq<u8>| s[index_of_key(s, k)].1@)
}

/// Two sorted entries cannot carry the same key at different positions.
proof fn lemma_key_index_unique(s: Seq<(Vec<u8>, Vec<u8>)>, i: int, j: int)
    requires
        entries_sorted(s),
        0 <= i < s.len(),
        0 <= j < s.len(),
        s[i].0@ == s[j].0@,
    ensures
        i == j,
{
    lemma_lex_irrefl(s[i].0@);
}

/// Every entry of a sorted sequence shows up in its map, under its own key,
/// with its own value.
proof fn lemma_entry_in_map(s: Seq<(Vec<u8>, Vec<u8>)>, i: int)
    requires
        entries_sorted(s),
        0 <= i < s.len(),
    ensures
        entries_map(s).contains_key(s[i].0@),
        entries_map(s)[s[i].0@] == s[i].1@,
        index_of_key(s, s[i].0@) == i,
{
    assert(has_key(s, s[i].0@));
    let j = index_of_key(s, s[i].0@);
    lemma_key_index_unique(s, i, j);
}

/// Replacing the value of the entry at `p` by one carrying the same key
/// keeps the entries sorted and overwrites that key's binding in the map.
proof fn lemma_entries_map_update(s: Seq<(Vec<u8>, Vec<u8>)>, p: int, e: (Vec<u8>, Vec<u8>))
    requires
        entries_sorted(s),
        0 <= p < s.len(),
        e.0@ == s[p].0@,
    ensures
        entries_sorted(s.update(p, e)),
        entries_map(s.update(p, e)) == entries_map(s).insert(e.0@, e.1@),
{
    let t = s.update(p, e);
    assert forall|i: int, j: int| 0 <= i < j < t.len() implies lex_lt(t[i].0@, t[j].0@) by {
        assert(lex_lt(s[i].0@, s[j].0@));
    }
    assert(entries_sorted(t));
    let m1 = entries_map(t);
    let m2 = entries_map(s).insert(e.0@, e.1@);
    assert forall|k: Seq<u8>| has_key(t, k) implies m2.contains_key(k) && m1[k] == m2[k] by {
        let i = index_of_key(t, k);
        assert(0 <= i < t.len() && t[i].0@ == k);
        if k == e.0@ {
            lemma_key_index_unique(t, i, p);
        } else {
            assert(s[i].0@ == k);
            lemma_entry_in_map(s, i);
        }
    }
    assert forall|k: Seq<u8>| m2.contains_key(k) implies has_key(t, k) by {
        if k == e.0@ {
            assert(t[p].0@ == k);
        } else {
            let i = index_of_key(s, k);
            assert(t[i].0@ == k);
        }
    }
    assert(m1 =~= m2);
}

/// Inserting an entry at `p`, between keys strictly below and strictly above
/// its own, keeps the entries sorted and adds that key's binding to the map.
proof fn lemma_entries_map_insert(s: Seq<(Vec<u8>, Vec<u8>)>, p: int, e: (Vec<u8>, Vec<u8>))
    requires
        entries_sorted(s),
        0 <= p <= s.len(),
        forall|j: int| 0 <= j < p ==> lex_lt(s[j].0@, e.0@),
        p < s.len() ==> lex_lt(e.0@, s[p].0@),
    ensures
        entries_sorted(s.insert(p, e)),
        entries_map(s.insert(p, e)) == entries_map(s).insert(e.0@, e.1@),
{
    let t = s.insert(p, e);
    assert forall|i: int| 0 <= i < t.len() implies t[i] == (if i < p {
        s[i]
    } else if i == p {
        e
    } else {
        s[i - 1]
    }) by {}
    assert forall|i: int, j: int| 0 <= i < j < t.len() implies lex_lt(t[i].0@, t[j].0@) by {
        if i < p && j == p {
        } else if i == p && j > p {
            if j - 1 > p {
                lemma_lex_trans(e.0@, s[p].0@, s[j - 1].0@);
            }
        } else if i < p && j > p {
            assert(lex_lt(s[i].0@, s[j - 1].0@));
        } else if i > p && j > p {
            assert(lex_lt(s[i - 1].0@, s[j - 1].0@));
        } else {
            assert(lex_lt(s[i].0@, s[j].0@));
        }
    }
    assert(entries_sorted(t));
    let m1 = entries_map(t);
    let m2 = entries_map(s).insert(e.0@, e.1@);
    assert forall|k: Seq<u8>| has_key(t, k) implies m2.contains_key(k) && m1[k] == m2[k] by {
        let i = index_of_key(t, k);
        assert(0 <= i < t.len() && t[i].0@ == k);
        if k == e.0@ {
            lemma_key_index_unique(t, i, p);
        } else {
            if i < p {
                assert(s[i].0@ == k);
                lemma_entry_in_map(s, i);
            } else {
                assert(i != p);
                assert(s[i - 1].0@ == k);
                lemma_entry_in_map(s, i - 1);
            }
        }
    }
    assert forall|k: Seq<u8>| m2.contains_key(k) implies has_key(t, k) by {
        if k == e.0@ {
            assert(t[p].0@ == k);
        } else {
            let i = index_of_key(s, k);
            assert(0 <= i < s.len() && s[i].0@ == k);
            if i < p {
                assert(t[i].0@ == k);
            } else {
                assert(t[i + 1].0@ == k);
            }
        }
    }
    assert(m1 =~= m2);
}

/// Deleting the entry at `p` keeps the entries sorted and removes exactly
/// that key's binding from the map.
proof fn lemma_entries_map_remove(s: Seq<(Vec<u8>, Vec<u8>)>, p: int)
    requires
        entries_sorted(s),
        0 <= p < s.len(),
    ensures
        entries_sorted(s.remove(p)),
        entries_map(s.remove(p)) == entries_map(s).remove(s[p].0@),
{
    let t = s.remove(p);
    assert forall|i: int| 0 <= i < t.len() implies t[i] == (if i < p {
        s[i]
    } else {
        s[i + 1]
    }) by {}
    assert forall|i: int, j: int| 0 <= i < j < t.len() implies lex_lt(t[i].0@, t[j].0@) by {
        if i < p && j >= p {
            assert(lex_lt(s[i].0@, s[j + 1].0@));
        } else if i >= p {
            assert(lex_lt(s[i + 1].0@, s[j + 1].0@));
        } else {
            assert(lex_lt(s[i].0@, s[j].0@));
        }
    }
    assert(entries_sorted(t));
    let m1 = entries_map(t);
    let m2 = entries_map(s).remove(s[p].0@);
    assert forall|k: Seq<u8>| has_key(t, k) implies m2.contains_key(k) && m1[k] == m2[k] by {
        let i = index_of_key(t, k);
        assert(0 <= i < t.len() && t[i].0@ == k);
        let si: int = if i < p {
            i
        } else {
            i + 1
        };
        assert(s[si].0@ == k);
        lemma_entry_in_map(s, si);
        if k == s[p].0@ {
            lemma_key_index_unique(s, si, p);
        }
    }
    assert forall|k: Seq<u8>| m2.contains_key(k) implies has_key(t, k) by {
        let i = index_of_key(s, k);
        assert(0 <= i < s.len() && s[i].0@ == k);
        assert(i != p);
        if i < p {
            assert(t[i].0@ == k);
        } else {
            assert(t[i - 1].0@ == k);
        }
    }
    assert(m1 =~= m2);
}

/// In-memory key-value storage backend.
#[derive(Clone, Debug)]
pub struct Memory {
    entries: Vec<(Vec<u8>, Vec<u8>)>,
}

impl View for Memory {
    type V = Map<Seq<u8>, Seq<u8>>;

    closed spec fn view(&self) -> Map<Seq<u8>, Seq<u8>> {
        entries_map(self.entries@)
    }
}

/// Copies a byte slice into an independent owned vector.
fn copy_bytes(s: &[u8]) -> (r: Vec<u8>)
    ensures
        r@ == s@,
{
    let mut r: Vec<u8> = Vec::new();
    let mut i: usize = 0;
    while i < s.len()
        invariant
            0 <= i <= s@.len(),
            r@ == s@.subrange(0, i as int),
        decreases s@.len() - i,
    {
        r.push(s[i]);
        proof {
            assert(r@ =~= s@.subrange(0, i + 1));
        }
        i += 1;
    }
    proof {
        assert(r@ =~= s@);
    }
    r
}

impl Memory {
    /// The backend's invariant: entries strictly sorted by key, so every key
    /// occurs at most once.
    pub closed spec fn wf(&self) -> bool {
        entries_sorted(self.entries@)
    }

    /// Creates a new Memory key-value storage engine, holding nothing.
    pub fn new() -> (r: Memory)
        ensures
            r.wf(),
            r@ == Map::<Seq<u8>, Seq<u8>>::empty(),
    {
        let r = Memory { entries: Vec::new() };
        proof {
            assert(r@ =~= Map::<Seq<u8>, Seq<u8>>::empty());
        }
        r
    }

    /// Provides a fresh, empty backend for conformance runs against the
    /// storage contract.
    pub fn setup() -> (r: Result<Memory, StorageError>)
        ensures
            r matches Ok(m) && m.wf() && m@ == Map::<Seq<u8>, Seq<u8>>::empty(),
    {
        Ok(Memory::new())
    }

    /// Finds the position of the first entry whose key is at or above `key`:
    /// the entry for `key` when present, else where `key` would be inserted.
    fn find(&self, key: &[u8]) -> (r: usize)
        requires
            self.wf(),
        ensures
            0 <= r <= self.entries@.len(),
            forall|j: int| 0 <= j < r ==> lex_lt(self.entries@[j].0@, key@),
            r < self.entries@.len() ==> lex_le(key@, self.entries@[r as int].0@),
    {
        let n = self.entries.len();
        let mut i: usize = 0;
        while i < n
            invariant
                self.wf(),
                0 <= i <= n,
                n == self.entries@.len(),
                forall|j: int| 0 <= j < i ==> lex_lt(self.entries@[j].0@, key@),
            decreases n - i,
        {
            let o = lex_compare(self.entries[i].0.as_slice(), key);
            match o {
                KeyOrder::Less => {
                    i += 1;
                },
                _ => {
                    proof {
                        lemma_lex_trichotomy(key@, self.entries@[i as int].0@);
                    }
                    return i;
                },
            }
        }
        i
    }

    /// Returns a copy of the value stored under `key`, or nothing when the
    /// key is absent. No side effects; this backend cannot fail.
    pub fn read(&self, key: &[u8]) -> (r: Result<Option<Vec<u8>>, StorageError>)
        requires
            self.wf(),
        ensures
            r matches Ok(o) && view_opt(o) == spec_read(self@, key@),
    {
        let p = self.find(key);
        if p < self.entries.len() {
            let o = lex_compare(key, self.entries[p].0.as_slice());
            if matches!(o, KeyOrder::Equal) {
                let v = copy_bytes(self.entries[p].1.as_slice());
                proof {
                    lemma_entry_in_map(self.entries@, p as int);
                }
                return Ok(Some(v));
            }
        }
        proof {
            self.lemma_key_absent(key@, p as int);
        }
        Ok(None)
    }

    /// Inserts or replaces the value stored under `key`: afterwards a read of
    /// `key` returns `value` until it is overwritten or removed. The key and
    /// value are stored as independent copies. This backend cannot fail.
    pub fn write(&mut self, key: &[u8], value: Vec<u8>) -> (r: Result<(), StorageError>)
        requires
            old(self).wf(),
        ensures
            final(self).wf(),
            final(self)@ == old(self)@.insert(key@, value@),
            r is Ok,
    {
        let p = self.find(key);
        let mut found = false;
        if p < self.entries.len() {
            let o = lex_compare(key, self.entries[p].0.as_slice());
            found = matches!(o, KeyOrder::Equal);
            proof {
                lemma_lex_trichotomy(key@, self.entries@[p as int].0@);
            }
        }
        let k = copy_bytes(key);
        let ghost s0 = self.entries@;
        if found {
            self.entries.set(p, (k, value));
            proof {
                lemma_entries_map_update(s0, p as int, self.entries@[p as int]);
            }
        } else {
            self.entries.insert(p, (k, value));
            proof {
                lemma_entries_map_insert(s0, p as int, self.entries@[p as int]);
            }
        }
        Ok(())
    }

    /// Deletes `key` if present; removing an absent key is a no-op, not an
    /// error. This backend cannot fail.
    pub fn remove(&mut self, key: &[u8]) -> (r: Result<(), StorageError>)
        requires
            old(self).wf(),
        ensures
            final(self).wf(),
            final(self)@ == old(self)@.remove(key@),
            r is Ok,
    {
        let p = self.find(key);
        let mut found = false;
        if p < self.entries.len() {
            let o = lex_compare(key, self.entries[p].0.as_slice());
            found = matches!(o, KeyOrder::Equal);
        }
        if found {
            let ghost s0 = self.entries@;
            self.entries.remove(p);
            proof {
                lemma_entries_map_remove(s0, p as int);
            }
        } else {
            proof {
                self.lemma_key_absent(key@, p as int);
                assert(self@.remove(key@) =~= self@);
            }
        }
        Ok(())
    }

    /// Materializes all pairs whose key lies inside `(start, end)`, in
    /// ascending byte order of key, as independent copies. Each item is
    /// reported individually so a backend that can fail mid-scan reports
    /// which item failed; for this backend every item is `Ok`.
    pub fn scan(&self, start: ScanBound, end: ScanBound) -> (r: Vec<
        Result<(Vec<u8>, Vec<u8>), StorageError>,
    >)
        requires
            self.wf(),
        ensures
            forall|i: int| 0 <= i < r@.len() ==> r@[i] is Ok,
            forall|i: int, j: int|
                0 <= i < j < r@.len() ==> lex_lt(r@[i]->Ok_0.0@, r@[j]->Ok_0.0@),
            forall|i: int|
                0 <= i < r@.len() ==> {
                    &&& key_in_range(r@[i]->Ok_0.0@, start, end)
                    &&& self@.contains_key(r@[i]->Ok_0.0@)
                    &&& self@[r@[i]->Ok_0.0@] == r@[i]->Ok_0.1@
                },
            forall|k: Seq<u8>|
                #[trigger] self@.contains_key(k) && key_in_range(k, start, end) ==> exists|i: int|
                    0 <= i < r@.len() && r@[i]->Ok_0.0@ == k,
    {
        let mut r: Vec<Result<(Vec<u8>, Vec<u8>), StorageError>> = Vec::new();
        let n = self.entries.len();
        let mut t: usize = 0;
        while t < n
            invariant
                self.wf(),
                0 <= t <= n,
                n == self.entries@.len(),
                forall|i: int| 0 <= i < r@.len() ==> r@[i] is Ok,
                forall|i: int|
                    0 <= i < r@.len() ==> exists|u: int|
                        0 <= u < t && (#[trigger] r@[i])->Ok_0.0@ == (
                        #[trigger] self.entries@[u]).0@ && r@[i]->Ok_0.1@
                            == self.entries@[u].1@,
                forall|i: int, j: int|
                    0 <= i < j < r@.len() ==> lex_lt(r@[i]->Ok_0.0@, r@[j]->Ok_0.0@),
                forall|i: int| 0 <= i < r@.len() ==> key_in_range(r@[i]->Ok_0.0@, start, end),
                forall|u: int|
                    0 <= u < t && key_in_range((#[trigger] self.entries@[u]).0@, start, end)
                        ==> exists|i: int|
                        0 <= i < r@.len() && (#[trigger] r@[i])->Ok_0.0@ == self.entries@[u].0@,
            decreases n - t,
        {
            let inr = in_range(self.entries[t].0.as_slice(), &start, &end);
            if inr {
                let k = copy_bytes(self.entries[t].0.as_slice());
                let v = copy_bytes(self.entries[t].1.as_slice());
                let ghost r0 = r@;
                proof {
                    assert forall|i: int| 0 <= i < r0.len() implies lex_lt(
                        r0[i]->Ok_0.0@,
                        self.entries@[t as int].0@,
                    ) by {
                        let u = choose|u: int|
                            0 <= u < t && r0[i]->Ok_0.0@ == (#[trigger] self.entries@[u]).0@
                                && r0[i]->Ok_0.1@ == self.entries@[u].1@;
                        assert(lex_lt(self.entries@[u].0@, self.entries@[t as int].0@));
                    }
                }
                let ghost gk = k@;
                r.push(Ok((k, v)));
                proof {
                    assert(forall|i: int| 0 <= i < r0.len() ==> r@[i] == r0[i]);
                    assert(r@[r0.len() as int]->Ok_0.0@ == gk);
                    assert(key_in_range(gk, start, end));
                }
            }
            t += 1;
        }
        proof {
            assert forall|k: Seq<u8>|
                #[trigger] self@.contains_key(k) && key_in_range(k, start, end) implies exists|
                i: int,
            | 0 <= i < r@.len() && r@[i]->Ok_0.0@ == k by {
                let u = index_of_key(self.entries@, k);
                assert(0 <= u < self.entries@.len() && self.entries@[u].0@ == k);
            }
            assert forall|i: int| 0 <= i < r@.len() implies self@.contains_key(r@[i]->Ok_0.0@)
                && self@[r@[i]->Ok_0.0@] == r@[i]->Ok_0.1@ by {
                let u = choose|u: int|
                    0 <= u < self.entries@.len() && r@[i]->Ok_0.0@ == (
                    #[trigger] self.entries@[u]).0@ && r@[i]->Ok_0.1@ == self.entries@[u].1@;
                lemma_entry_in_map(self.entries@, u);
            }
        }
        r
    }

    /// After an unsuccessful search — every entry before `p` sorts below the
    /// key, and the entry at `p`, if any, differs from it — the key is absent.
    proof fn lemma_key_absent(&self, k: Seq<u8>, p: int)
        requires
            self.wf(),
            0 <= p <= self.entries@.len(),
            forall|j: int| 0 <= j < p ==> lex_lt(self.entries@[j].0@, k),
            p < self.entries@.len() ==> lex_le(k, self.entries@[p].0@) && self.entries@[p].0@
                != k,
        ensures
            !self@.contains_key(k),
    {
        let s = self.entries@;
        assert forall|i: int| 0 <= i < s.len() implies s[i].0@ != k by {
            if i < p {
                lemma_lex_trichotomy(s[i].0@, k);
            } else {
                assert(lex_lt(k, s[p].0@));
                if i > p {
                    lemma_lex_trans(k, s[p].0@, s[i].0@);
                }
                lemma_lex_trichotomy(k, s[i].0@);
            }
        }
    }
}

impl Storage for Memory {
    open spec fn inv(&self) -> bool {
        self.wf()
    }

    open spec fn contents(&self) -> Map<Seq<u8>, Seq<u8>> {
        self@
    }

    fn read(&self, key: &[u8]) -> (r: Result<Option<Vec<u8>>, StorageError>) {
        Memory::read(self, key)
    }

    fn write(&mut self, key: &[u8], value: Vec<u8>) -> (r: Result<(), StorageError>) {
        Memory::write(self, key, value)
    }

    fn remove(&mut self, key: &[u8]) -> (r: Result<(), StorageError>) {
        Memory::remove(self, key)
    }

    fn scan(&self, start: ScanBound, end: ScanBound) -> (r: Vec<
        Result<(Vec<u8>, Vec<u8>), StorageError>,
    >) {
        Memory::scan(self, start, end)
    }
}

} // verus!
