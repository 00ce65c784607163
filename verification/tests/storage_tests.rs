use bytes::Bytes;
use mini_lsm::error::Error;
use mini_lsm::iterators::StorageIterator;
use mini_lsm::lsm_storage::{LsmStorage, LsmStorageInner};
use mini_lsm::mem_table::MemTable;
use mini_lsm::table::builder::SsTableBuilder;
use mini_lsm::table::{BlockMeta, FileObject, SsTable};
use std::ops::Bound;
use std::sync::Arc;

fn drain<I: StorageIterator>(iter: &mut I) -> Vec<(String, String)> {
    let mut out = Vec::new();
    while iter.is_valid() {
        out.push((
            String::from_utf8(iter.key().to_vec()).unwrap(),
            String::from_utf8(iter.value().to_vec()).unwrap(),
        ));
        iter.next().unwrap();
    }
    out
}

fn pairs(entries: &[(&str, &str)]) -> Vec<(String, String)> {
    entries.iter().map(|(k, v)| (k.to_string(), v.to_string())).collect()
}

fn table_of(id: usize, entries: &[(&str, &str)]) -> Arc<SsTable> {
    let mut builder = SsTableBuilder::new(32);
    for (k, v) in entries {
        builder.add(k.as_bytes(), v.as_bytes());
    }
    Arc::new(builder.build(id, None))
}

fn scan_all(storage: &LsmStorage) -> Vec<(String, String)> {
    drain(&mut storage.scan(Bound::Unbounded, Bound::Unbounded).unwrap())
}

#[test]
fn mem_table_get() {
    let mut table = MemTable::create();
    table.put(b"key1", b"value1");
    table.put(b"key3", b"value3");
    table.put(b"key2", b"value2");
    assert_eq!(table.len(), 3);
    assert_eq!(table.get(b"key1"), Some(b"value1".to_vec()));
    assert_eq!(table.get(b"key2"), Some(b"value2".to_vec()));
    assert_eq!(table.get(b"key3"), Some(b"value3".to_vec()));
    assert_eq!(table.get(b"key0"), None);
    assert_eq!(table.get(b"key25"), None);
    assert_eq!(table.get(b"key4"), None);
}

#[test]
fn mem_table_overwrite() {
    let mut table = MemTable::create();
    table.put(b"key1", b"value1");
    table.put(b"key2", b"value2");
    table.put(b"key1", b"value11");
    table.put(b"key2", b"");
    assert_eq!(table.len(), 2);
    assert_eq!(table.get(b"key1"), Some(b"value11".to_vec()));
    assert_eq!(table.get(b"key2"), Some(vec![]));
}

#[test]
fn mem_table_scan_ranges() {
    let mut table = MemTable::create();
    for k in ["e", "a", "c", "b", "d"] {
        table.put(k.as_bytes(), k.to_uppercase().as_bytes());
    }
    let all = pairs(&[("a", "A"), ("b", "B"), ("c", "C"), ("d", "D"), ("e", "E")]);
    assert_eq!(drain(&mut table.scan(Bound::Unbounded, Bound::Unbounded)), all);
    assert_eq!(
        drain(&mut table.scan(Bound::Included(b"b"), Bound::Included(b"d"))),
        all[1..4].to_vec()
    );
    assert_eq!(
        drain(&mut table.scan(Bound::Excluded(b"b"), Bound::Excluded(b"d"))),
        all[2..3].to_vec()
    );
    assert_eq!(drain(&mut table.scan(Bound::Included(b"bb"), Bound::Unbounded)), all[2..].to_vec());
    assert_eq!(drain(&mut table.scan(Bound::Unbounded, Bound::Excluded(b"a"))), pairs(&[]));
    assert_eq!(drain(&mut table.scan(Bound::Included(b"d"), Bound::Included(b"b"))), pairs(&[]));
}

#[test]
fn mem_table_scan_is_a_copy() {
    let mut table = MemTable::create();
    table.put(b"a", b"1");
    let mut iter = table.scan(Bound::Unbounded, Bound::Unbounded);
    table.put(b"a", b"2");
    table.put(b"b", b"2");
    assert_eq!(drain(&mut iter), pairs(&[("a", "1")]));
}

#[test]
fn storage_put_and_get() {
    let mut storage = LsmStorage::open();
    storage.put(b"a", b"1").unwrap();
    storage.put(b"b", b"2").unwrap();
    storage.put(b"a", b"3").unwrap();
    assert_eq!(storage.get(b"a").unwrap(), Some(Bytes::from_static(b"3")));
    assert_eq!(storage.get(b"b").unwrap(), Some(Bytes::from_static(b"2")));
    assert_eq!(storage.get(b"c").unwrap(), None);
}

#[test]
fn storage_delete_hides_the_key() {
    let mut storage = LsmStorage::open();
    storage.put(b"a", b"1").unwrap();
    storage.delete(b"a").unwrap();
    assert_eq!(storage.get(b"a").unwrap(), None);
    assert_eq!(scan_all(&storage), pairs(&[]));
}

#[test]
fn storage_rejects_empty_keys_and_values() {
    let mut storage = LsmStorage::open();
    storage.put(b"a", b"1").unwrap();
    assert_eq!(storage.put(b"", b"1"), Err(Error::InvalidArgument));
    assert_eq!(storage.put(b"a", b""), Err(Error::InvalidArgument));
    assert_eq!(storage.put(b"", b""), Err(Error::InvalidArgument));
    assert_eq!(storage.delete(b""), Err(Error::InvalidArgument));
    assert_eq!(storage.get(b"a").unwrap(), Some(Bytes::from_static(b"1")));
    assert_eq!(scan_all(&storage), pairs(&[("a", "1")]));
}

#[test]
fn storage_get_after_put_and_delete() {
    let mut storage = LsmStorage::open();
    storage.add_l0_sstable(table_of(1, &[("k", "table")]));
    storage.put(b"k", b"first").unwrap();
    storage.freeze_memtable();
    assert_eq!(storage.get(b"k").unwrap(), Some(Bytes::from_static(b"first")));
    storage.put(b"k", b"second").unwrap();
    assert_eq!(storage.get(b"k").unwrap(), Some(Bytes::from_static(b"second")));
    storage.delete(b"k").unwrap();
    assert_eq!(storage.get(b"k").unwrap(), None);
    storage.put(b"k", b"third").unwrap();
    assert_eq!(storage.get(b"k").unwrap(), Some(Bytes::from_static(b"third")));
}

#[test]
fn storage_reads_the_latest_source_first() {
    let mut storage = LsmStorage::open();
    assert_eq!(storage.inner().next_sst_id(), 1);
    storage.add_l0_sstable(table_of(1, &[("a", "t1"), ("b", "t1"), ("c", "t1"), ("g", "t1")]));
    storage.add_l0_sstable(table_of(2, &[("b", "t2"), ("c", ""), ("d", "t2")]));
    assert_eq!(storage.inner().next_sst_id(), 3);
    storage.put(b"d", b"m1").unwrap();
    storage.put(b"e", b"m1").unwrap();
    storage.freeze_memtable();
    storage.put(b"e", b"m2").unwrap();
    storage.delete(b"g").unwrap();
    storage.freeze_memtable();
    storage.put(b"f", b"m3").unwrap();
    let get = |key: &[u8]| storage.get(key).unwrap().map(|b| String::from_utf8(b.to_vec()).unwrap());
    assert_eq!(get(b"a"), Some("t1".to_string()));
    assert_eq!(get(b"b"), Some("t2".to_string()));
    assert_eq!(get(b"c"), None);
    assert_eq!(get(b"d"), Some("m1".to_string()));
    assert_eq!(get(b"e"), Some("m2".to_string()));
    assert_eq!(get(b"f"), Some("m3".to_string()));
    assert_eq!(get(b"g"), None);
    assert_eq!(get(b"h"), None);
    assert_eq!(
        scan_all(&storage),
        pairs(&[("a", "t1"), ("b", "t2"), ("d", "m1"), ("e", "m2"), ("f", "m3")])
    );
}

#[test]
fn storage_scan_ranges() {
    let mut storage = LsmStorage::open();
    storage.add_l0_sstable(table_of(1, &[("a", "t"), ("c", "t"), ("e", "t"), ("g", "t")]));
    storage.put(b"b", b"m").unwrap();
    storage.put(b"d", b"m").unwrap();
    storage.put(b"e", b"m").unwrap();
    storage.delete(b"c").unwrap();
    let scan = |lower: Bound<&[u8]>, upper: Bound<&[u8]>| drain(&mut storage.scan(lower, upper).unwrap());
    assert_eq!(
        scan(Bound::Unbounded, Bound::Unbounded),
        pairs(&[("a", "t"), ("b", "m"), ("d", "m"), ("e", "m"), ("g", "t")])
    );
    assert_eq!(
        scan(Bound::Included(b"b"), Bound::Included(b"e")),
        pairs(&[("b", "m"), ("d", "m"), ("e", "m")])
    );
    assert_eq!(scan(Bound::Excluded(b"b"), Bound::Excluded(b"e")), pairs(&[("d", "m")]));
    assert_eq!(scan(Bound::Excluded(b"a"), Bound::Included(b"c")), pairs(&[("b", "m")]));
    assert_eq!(scan(Bound::Included(b"c"), Bound::Included(b"c")), pairs(&[]));
    assert_eq!(scan(Bound::Included(b"f"), Bound::Unbounded), pairs(&[("g", "t")]));
    assert_eq!(scan(Bound::Excluded(b"g"), Bound::Unbounded), pairs(&[]));
    assert_eq!(scan(Bound::Unbounded, Bound::Excluded(b"a")), pairs(&[]));
}

#[test]
fn storage_scan_does_not_see_later_writes() {
    let mut storage = LsmStorage::open();
    storage.put(b"a", b"1").unwrap();
    storage.put(b"b", b"1").unwrap();
    let mut iter = storage.scan(Bound::Unbounded, Bound::Unbounded).unwrap();
    storage.put(b"a", b"2").unwrap();
    storage.delete(b"b").unwrap();
    storage.put(b"c", b"2").unwrap();
    assert_eq!(drain(&mut iter), pairs(&[("a", "1"), ("b", "1")]));
    assert_eq!(scan_all(&storage), pairs(&[("a", "2"), ("c", "2")]));
}

#[test]
fn storage_scan_stays_at_its_end() {
    let mut storage = LsmStorage::open();
    storage.put(b"a", b"1").unwrap();
    let mut iter = storage.scan(Bound::Unbounded, Bound::Unbounded).unwrap();
    assert!(iter.is_valid());
    iter.next().unwrap();
    assert!(!iter.is_valid());
    iter.next().unwrap();
    iter.next().unwrap();
    assert!(!iter.is_valid());
}

#[test]
fn storage_surfaces_a_corrupt_table() {
    let mut bytes: Vec<u8> = vec![9, 9, 9, 9];
    bytes.extend_from_slice(&0u16.to_ne_bytes());
    bytes.extend_from_slice(&1u16.to_ne_bytes());
    let meta_offset = bytes.len() as u32;
    BlockMeta::encode_block_meta(&[BlockMeta { offset: 0, first_key: vec![] }], &mut bytes);
    bytes.extend_from_slice(&meta_offset.to_ne_bytes());
    let table = Arc::new(SsTable::open(1, None, FileObject::new(bytes)).unwrap());
    let mut storage = LsmStorage::open();
    storage.add_l0_sstable(table);
    storage.put(b"a", b"1").unwrap();
    assert_eq!(storage.get(b"a").unwrap(), Some(Bytes::from_static(b"1")));
    assert_eq!(storage.get(b"b"), Err(Error::Corrupt));
    assert!(matches!(storage.scan(Bound::Unbounded, Bound::Unbounded), Err(Error::Corrupt)));
}

#[test]
fn storage_inner_serves_reads() {
    let mut inner = LsmStorageInner::create();
    inner.put(b"a", b"1");
    inner.put(b"b", b"");
    assert_eq!(inner.get(b"a").unwrap(), Some(Bytes::from_static(b"1")));
    assert_eq!(inner.get(b"b").unwrap(), None);
    let mut iter = inner.scan(Bound::Unbounded, Bound::Unbounded).unwrap();
    assert_eq!(drain(&mut iter), pairs(&[("a", "1")]));
}

#[test]
fn error_messages() {
    assert_eq!(Error::Corrupt.message(), "stored bytes are corrupt");
    assert_eq!(Error::Io.message(), "read outside the file");
    assert_eq!(Error::InvalidArgument.message(), "empty key or value");
}

#[test]
fn storage_reads_the_levels_below() {
    let mut storage = LsmStorage::open();
    storage.add_level(vec![
        table_of(1, &[("a", "l1"), ("c", "l1")]),
        table_of(2, &[("e", "l1"), ("g", "")]),
        table_of(3, &[("k", "l1"), ("m", "l1")]),
    ]);
    storage.add_level(vec![
        table_of(4, &[("b", "l2"), ("c", "l2")]),
        table_of(5, &[("g", "l2"), ("h", "l2"), ("z", "l2")]),
    ]);
    storage.add_l0_sstable(table_of(6, &[("a", "l0"), ("m", "")]));
    storage.put(b"k", b"mem").unwrap();
    let get = |key: &[u8]| storage.get(key).unwrap().map(|b| String::from_utf8(b.to_vec()).unwrap());
    assert_eq!(get(b"a"), Some("l0".to_string()));
    assert_eq!(get(b"b"), Some("l2".to_string()));
    assert_eq!(get(b"c"), Some("l1".to_string()));
    assert_eq!(get(b"d"), None);
    assert_eq!(get(b"e"), Some("l1".to_string()));
    assert_eq!(get(b"g"), None);
    assert_eq!(get(b"h"), Some("l2".to_string()));
    assert_eq!(get(b"k"), Some("mem".to_string()));
    assert_eq!(get(b"m"), None);
    assert_eq!(get(b"z"), Some("l2".to_string()));
    assert_eq!(get(b"0"), None);
    assert_eq!(get(b"zz"), None);
    assert_eq!(
        scan_all(&storage),
        pairs(&[
            ("a", "l0"),
            ("b", "l2"),
            ("c", "l1"),
            ("e", "l1"),
            ("h", "l2"),
            ("k", "mem"),
            ("z", "l2")
        ])
    );
    let mut part = storage.scan(Bound::Excluded(b"c"), Bound::Included(b"k")).unwrap();
    assert_eq!(drain(&mut part), pairs(&[("e", "l1"), ("h", "l2"), ("k", "mem")]));
}
