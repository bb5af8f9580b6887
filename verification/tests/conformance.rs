//! Conformance checks for the in-memory storage backend: read-after-write,
//! read-after-remove, scan ordering, and range-edge handling.

use kvstore::error::StorageError;
use kvstore::memory::Memory;
use kvstore::range::ScanBound;

fn pairs(
    items: Vec<Result<(Vec<u8>, Vec<u8>), StorageError>>,
) -> Vec<(Vec<u8>, Vec<u8>)> {
    items.into_iter().map(|it| it.unwrap()).collect()
}

fn pair(k: &str, v: &str) -> (Vec<u8>, Vec<u8>) {
    (k.as_bytes().to_vec(), v.as_bytes().to_vec())
}

#[test]
fn tests() -> Result<(), StorageError> {
    let mut s = Memory::setup()?;

    // Read-after-write returns the written value.
    s.write(b"a", b"1".to_vec())?;
    assert_eq!(s.read(b"a")?, Some(b"1".to_vec()));

    // Reading an absent key returns empty.
    assert_eq!(s.read(b"b")?, None);

    // Read-after-remove returns empty.
    s.remove(b"a")?;
    assert_eq!(s.read(b"a")?, None);

    // Removing an absent key succeeds without error.
    s.remove(b"a")?;

    // Scan order matches ascending byte order of keys, regardless of
    // insertion order.
    s.write(b"b", b"2".to_vec())?;
    s.write(b"a", b"1".to_vec())?;
    s.write(b"c", b"3".to_vec())?;
    assert_eq!(
        pairs(s.scan(ScanBound::Unbounded, ScanBound::Unbounded)),
        vec![pair("a", "1"), pair("b", "2"), pair("c", "3")],
    );

    // Scans honor inclusive, exclusive, and unbounded range edges.
    assert_eq!(
        pairs(s.scan(
            ScanBound::Included(b"a".to_vec()),
            ScanBound::Excluded(b"c".to_vec()),
        )),
        vec![pair("a", "1"), pair("b", "2")],
    );
    assert_eq!(
        pairs(s.scan(
            ScanBound::Excluded(b"a".to_vec()),
            ScanBound::Included(b"c".to_vec()),
        )),
        vec![pair("b", "2"), pair("c", "3")],
    );
    assert_eq!(
        pairs(s.scan(ScanBound::Unbounded, ScanBound::Excluded(b"b".to_vec()))),
        vec![pair("a", "1")],
    );
    assert_eq!(
        pairs(s.scan(ScanBound::Included(b"b".to_vec()), ScanBound::Unbounded)),
        vec![pair("b", "2"), pair("c", "3")],
    );
    Ok(())
}

#[test]
fn read_after_write_returns_value() {
    let mut s = Memory::new();
    s.write(b"key", b"value".to_vec()).unwrap();
    assert_eq!(s.read(b"key").unwrap(), Some(b"value".to_vec()));
}

#[test]
fn read_after_remove_returns_none() {
    let mut s = Memory::new();
    s.write(b"key", b"value".to_vec()).unwrap();
    s.remove(b"key").unwrap();
    assert_eq!(s.read(b"key").unwrap(), None);
}

#[test]
fn remove_absent_key_is_ok() {
    let mut s = Memory::new();
    assert_eq!(s.remove(b"missing"), Ok(()));
    assert_eq!(s.read(b"missing").unwrap(), None);
}

#[test]
fn overwrite_returns_latest_value() {
    let mut s = Memory::new();
    s.write(b"k", b"v1".to_vec()).unwrap();
    s.write(b"k", b"v2".to_vec()).unwrap();
    assert_eq!(s.read(b"k").unwrap(), Some(b"v2".to_vec()));
    // The overwritten pair must not linger in scans either.
    assert_eq!(
        pairs(s.scan(ScanBound::Unbounded, ScanBound::Unbounded)),
        vec![pair("k", "v2")],
    );
}

#[test]
fn scan_example_ascending_order() {
    let mut s = Memory::new();
    s.write(b"a", b"1".to_vec()).unwrap();
    s.write(b"c", b"3".to_vec()).unwrap();
    s.write(b"b", b"2".to_vec()).unwrap();
    assert_eq!(
        pairs(s.scan(ScanBound::Unbounded, ScanBound::Unbounded)),
        vec![pair("a", "1"), pair("b", "2"), pair("c", "3")],
    );
}

#[test]
fn scan_excludes_exclusive_end_key() {
    let mut s = Memory::new();
    s.write(b"a", b"1".to_vec()).unwrap();
    s.write(b"b", b"2".to_vec()).unwrap();
    // "b" is present, yet an end bound excluding it must not yield it.
    assert_eq!(
        pairs(s.scan(
            ScanBound::Included(b"a".to_vec()),
            ScanBound::Excluded(b"b".to_vec()),
        )),
        vec![pair("a", "1")],
    );
}

#[test]
fn scan_empty_store_is_empty() {
    let s = Memory::new();
    assert_eq!(pairs(s.scan(ScanBound::Unbounded, ScanBound::Unbounded)), vec![]);
}

#[test]
fn scan_inverted_range_is_empty() {
    let mut s = Memory::new();
    s.write(b"a", b"1".to_vec()).unwrap();
    s.write(b"b", b"2".to_vec()).unwrap();
    // Start above end: an empty sequence, not an error.
    assert_eq!(
        pairs(s.scan(
            ScanBound::Included(b"b".to_vec()),
            ScanBound::Excluded(b"a".to_vec()),
        )),
        vec![],
    );
}

#[test]
fn scan_prefix_keys_order() {
    let mut s = Memory::new();
    // A proper prefix sorts before its extensions.
    s.write(b"ab", b"2".to_vec()).unwrap();
    s.write(b"a", b"1".to_vec()).unwrap();
    s.write(b"abc", b"3".to_vec()).unwrap();
    assert_eq!(
        pairs(s.scan(ScanBound::Unbounded, ScanBound::Unbounded)),
        vec![pair("a", "1"), pair("ab", "2"), pair("abc", "3")],
    );
}

#[test]
fn empty_key_and_empty_value() {
    let mut s = Memory::new();
    s.write(b"", b"".to_vec()).unwrap();
    assert_eq!(s.read(b"").unwrap(), Some(Vec::new()));
    // The empty key sorts before every other key.
    s.write(b"a", b"1".to_vec()).unwrap();
    assert_eq!(
        pairs(s.scan(ScanBound::Unbounded, ScanBound::Unbounded)),
        vec![pair("", ""), pair("a", "1")],
    );
}

#[test]
fn clone_is_independent() {
    let mut s = Memory::new();
    s.write(b"a", b"1".to_vec()).unwrap();
    let mut c = s.clone();
    c.write(b"a", b"9".to_vec()).unwrap();
    c.write(b"b", b"2".to_vec()).unwrap();
    // The original is untouched by mutations of the clone.
    assert_eq!(s.read(b"a").unwrap(), Some(b"1".to_vec()));
    assert_eq!(s.read(b"b").unwrap(), None);
    assert_eq!(c.read(b"a").unwrap(), Some(b"9".to_vec()));
}

#[test]
fn error_message_text() {
    assert_eq!(StorageError::Backend.message(), "storage backend failure");
}

#[test]
fn conformance_suite_on_memory() {
    let mut s = Memory::new();
    assert_eq!(kvstore::suite::conformance(&mut s), Ok(()));
}
