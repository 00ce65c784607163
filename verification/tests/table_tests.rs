use mini_lsm::cache::BlockCache;
use mini_lsm::codec::ByteOrder;
use mini_lsm::error::Error;
use mini_lsm::iterators::StorageIterator;
use mini_lsm::table::builder::SsTableBuilder;
use mini_lsm::table::iterator::SsTableIterator;
use mini_lsm::table::{BlockMeta, FileObject, SsTable};
use std::ops::Bound;
use std::sync::Arc;

fn key_of(i: usize) -> Vec<u8> {
    format!("key_{:03}", i * 5).into_bytes()
}

fn value_of(i: usize) -> Vec<u8> {
    format!("value_{:010}", i).into_bytes()
}

fn num_of_keys() -> usize {
    100
}

fn generate_sst() -> SsTable {
    let mut builder = SsTableBuilder::new(128);
    for idx in 0..num_of_keys() {
        builder.add(&key_of(idx), &value_of(idx));
    }
    builder.build(0, None)
}

fn drain(iter: &mut SsTableIterator) -> Vec<(Vec<u8>, Vec<u8>)> {
    let mut out = Vec::new();
    while iter.is_valid() {
        out.push((iter.key().to_vec(), iter.value().to_vec()));
        iter.next().unwrap();
    }
    out
}

#[test]
fn block_meta_roundtrip() {
    let metas = vec![
        BlockMeta { offset: 0, first_key: vec![] },
        BlockMeta { offset: 40, first_key: b"key_010".to_vec() },
        BlockMeta { offset: 70000, first_key: b"z".to_vec() },
    ];
    let mut buf = vec![7u8];
    BlockMeta::encode_block_meta(&metas, &mut buf);
    assert_eq!(buf.len(), 1 + 6 + 6 + 7 + 6 + 1);
    assert_eq!(BlockMeta::decode_block_meta(&buf[1..]).unwrap(), metas);
}

#[test]
fn block_meta_layout() {
    let metas = vec![BlockMeta { offset: 258, first_key: b"ab".to_vec() }];
    let mut little = Vec::new();
    BlockMeta::encode_block_meta_with(&metas, &mut little, ByteOrder::Little);
    assert_eq!(little, vec![2, 1, 0, 0, 2, 0, b'a', b'b']);
    let mut big = Vec::new();
    BlockMeta::encode_block_meta_with(&metas, &mut big, ByteOrder::Big);
    assert_eq!(big, vec![0, 0, 1, 2, 0, 2, b'a', b'b']);
    assert_eq!(BlockMeta::decode_block_meta_with(&big, ByteOrder::Big).unwrap(), metas);
    let mut host = Vec::new();
    BlockMeta::encode_block_meta(&metas, &mut host);
    let mut expected = Vec::new();
    expected.extend_from_slice(&258u32.to_ne_bytes());
    expected.extend_from_slice(&2u16.to_ne_bytes());
    expected.extend_from_slice(b"ab");
    assert_eq!(host, expected);
}

#[test]
fn block_meta_decode_rejects_overrun() {
    assert_eq!(BlockMeta::decode_block_meta(&[]).unwrap(), vec![]);
    assert_eq!(BlockMeta::decode_block_meta(&[1, 2, 3]), Err(Error::Corrupt));
    let mut buf = Vec::new();
    buf.extend_from_slice(&0u32.to_ne_bytes());
    buf.extend_from_slice(&3u16.to_ne_bytes());
    buf.extend_from_slice(b"ab");
    assert_eq!(BlockMeta::decode_block_meta(&buf), Err(Error::Corrupt));
    buf.push(b'c');
    assert_eq!(
        BlockMeta::decode_block_meta(&buf).unwrap(),
        vec![BlockMeta { offset: 0, first_key: b"abc".to_vec() }]
    );
}

#[test]
fn file_object_reads_ranges() {
    let file = FileObject::new(vec![1, 2, 3, 4, 5]);
    assert_eq!(file.size(), 5);
    assert_eq!(file.as_slice(), &[1, 2, 3, 4, 5]);
    assert_eq!(file.read(1, 3).unwrap(), vec![2, 3, 4]);
    assert_eq!(file.read(5, 0).unwrap(), Vec::<u8>::new());
    assert_eq!(file.read(0, 5).unwrap(), vec![1, 2, 3, 4, 5]);
    assert_eq!(file.read(3, 3), Err(Error::Io));
    assert_eq!(file.read(6, 0), Err(Error::Io));
    assert_eq!(file.read(u64::MAX, 2), Err(Error::Io));
}

#[test]
fn sst_build_single_key() {
    let mut builder = SsTableBuilder::new(16);
    builder.add(b"233", b"233333");
    let table = builder.build(0, None);
    assert_eq!(table.num_of_blocks(), 1);
    let mut iter = SsTableIterator::create_and_seek_to_first(Arc::new(table)).unwrap();
    assert_eq!(drain(&mut iter), vec![(b"233".to_vec(), b"233333".to_vec())]);
}

#[test]
fn sst_build_two_blocks() {
    let mut builder = SsTableBuilder::new(16);
    builder.add(b"11", b"11");
    builder.add(b"22", b"22");
    builder.add(b"33", b"11");
    builder.add(b"44", b"22");
    builder.add(b"55", b"11");
    builder.add(b"66", b"22");
    assert_eq!(builder.estimated_size(), 6 * 12);
    let table = builder.build(0, None);
    assert!(table.num_of_blocks() >= 2);
    assert_eq!(table.num_of_blocks(), 6);
    assert_eq!(table.first_key(0), b"11");
    assert_eq!(table.first_key(1), b"22");
    assert_eq!(table.first_key(5), b"66");
}

#[test]
fn sst_build_all() {
    generate_sst();
}

#[test]
fn sst_estimated_size_adds_the_block_sizes() {
    let mut builder = SsTableBuilder::new(64);
    assert_eq!(builder.estimated_size(), 2);
    builder.add(b"a", b"1");
    assert_eq!(builder.estimated_size(), 10);
    for i in 0..20 {
        builder.add(format!("k{:02}", i).as_bytes(), b"0123456789");
    }
    let size = builder.estimated_size();
    let table = builder.build(0, None);
    let blocks = table.num_of_blocks();
    assert_eq!(size, 2 * blocks + 8 + 20 * 19);
}

#[test]
fn sst_decode() {
    let table = generate_sst();
    let metas: Vec<Vec<u8>> = (0..table.num_of_blocks()).map(|i| table.first_key(i).to_vec()).collect();
    let bytes = table.file().as_slice().to_vec();
    let reopened = SsTable::open(0, None, FileObject::new(bytes)).unwrap();
    assert_eq!(reopened.num_of_blocks(), table.num_of_blocks());
    for i in 0..reopened.num_of_blocks() {
        assert_eq!(reopened.first_key(i), &metas[i][..]);
        assert_eq!(
            reopened.read_block(i).unwrap().encode_to_vec(),
            table.read_block(i).unwrap().encode_to_vec()
        );
    }
    let mut iter = SsTableIterator::create_and_seek_to_first(Arc::new(reopened)).unwrap();
    let all = drain(&mut iter);
    assert_eq!(all.len(), num_of_keys());
    for (i, (k, v)) in all.iter().enumerate() {
        assert_eq!(k, &key_of(i));
        assert_eq!(v, &value_of(i));
    }
}

#[test]
fn sst_file_layout() {
    let mut builder = SsTableBuilder::with_order(1000, ByteOrder::Little);
    builder.add(b"a", b"1");
    let table = builder.build(7, None);
    assert_eq!(table.sst_id(), 7);
    assert_eq!(
        table.file().as_slice(),
        &[
            1, 0, b'a', 1, 0, b'1', 0, 0, 1, 0, // the block
            0, 0, 0, 0, 1, 0, b'a', // its meta record: offset 0, the first key
            10, 0, 0, 0, // where the meta records start
        ]
    );
}

#[test]
fn sst_open_rejects_corrupt_files() {
    assert!(matches!(SsTable::open(0, None, FileObject::new(vec![])), Err(Error::Corrupt)));
    assert!(matches!(SsTable::open(0, None, FileObject::new(vec![0, 0, 0])), Err(Error::Corrupt)));
    let mut bytes = vec![0u8; 3];
    bytes.extend_from_slice(&4u32.to_ne_bytes());
    assert!(matches!(SsTable::open(0, None, FileObject::new(bytes)), Err(Error::Corrupt)));
    let mut bytes = vec![0u8; 3];
    bytes.extend_from_slice(&0u32.to_ne_bytes());
    assert!(matches!(SsTable::open(0, None, FileObject::new(bytes)), Err(Error::Corrupt)));
    let empty = SsTable::open(0, None, FileObject::new(0u32.to_ne_bytes().to_vec())).unwrap();
    assert_eq!(empty.num_of_blocks(), 0);
    let mut iter = SsTableIterator::create_and_seek_to_first(Arc::new(empty)).unwrap();
    assert!(!iter.is_valid());
    iter.next().unwrap();
    assert!(!iter.is_valid());
}

#[test]
fn sst_read_block_rejects_corrupt_blocks() {
    let mut bytes: Vec<u8> = vec![9, 9, 9, 9];
    bytes.extend_from_slice(&0u16.to_ne_bytes());
    bytes.extend_from_slice(&1u16.to_ne_bytes());
    let meta_offset = bytes.len() as u32;
    BlockMeta::encode_block_meta(&[BlockMeta { offset: 0, first_key: vec![] }], &mut bytes);
    bytes.extend_from_slice(&meta_offset.to_ne_bytes());
    let table = SsTable::open(0, None, FileObject::new(bytes)).unwrap();
    assert_eq!(table.num_of_blocks(), 1);
    assert!(matches!(table.read_block(0), Err(Error::Corrupt)));
    assert!(matches!(table.read_block_cached(0), Err(Error::Corrupt)));
    let table = Arc::new(table);
    assert!(matches!(SsTableIterator::create_and_seek_to_first(table.clone()), Err(Error::Corrupt)));
    assert!(matches!(SsTableIterator::create_and_seek_to_key(table, b"a"), Err(Error::Corrupt)));
}

#[test]
fn sst_read_block_rejects_blocks_out_of_the_file() {
    let mut bytes: Vec<u8> = Vec::new();
    bytes.extend_from_slice(&0u16.to_ne_bytes());
    let meta_offset = bytes.len() as u32;
    BlockMeta::encode_block_meta(&[BlockMeta { offset: 100, first_key: vec![] }], &mut bytes);
    bytes.extend_from_slice(&meta_offset.to_ne_bytes());
    let table = SsTable::open(0, None, FileObject::new(bytes)).unwrap();
    assert!(matches!(table.read_block(0), Err(Error::Corrupt)));
}

#[test]
fn sst_iterator() {
    let table = Arc::new(generate_sst());
    let mut iter = SsTableIterator::create_and_seek_to_first(table).unwrap();
    for _ in 0..5 {
        for i in 0..num_of_keys() {
            assert!(iter.is_valid());
            assert_eq!(iter.key(), &key_of(i)[..]);
            assert_eq!(iter.value(), &value_of(i)[..]);
            iter.next().unwrap();
        }
        assert!(!iter.is_valid());
        iter.seek_to_first().unwrap();
    }
}

#[test]
fn sst_seek_key() {
    let table = Arc::new(generate_sst());
    let mut iter = SsTableIterator::create_and_seek_to_key(table, &key_of(0)).unwrap();
    for offset in 1..=5 {
        for i in 0..num_of_keys() {
            assert_eq!(iter.key(), &key_of(i)[..]);
            assert_eq!(iter.value(), &value_of(i)[..]);
            iter.seek_to_key(&format!("key_{:03}", i * 5 + offset).into_bytes()).unwrap();
        }
        assert!(!iter.is_valid());
        iter.seek_to_key(b"k").unwrap();
        assert!(iter.is_valid());
    }
}

#[test]
fn sst_seek_from_a_lower_bound() {
    let table = Arc::new(generate_sst());
    let mut all = SsTableIterator::create_and_seek_from(table.clone(), Bound::Unbounded).unwrap();
    assert_eq!(drain(&mut all).len(), num_of_keys());
    let key = key_of(40);
    let mut included =
        SsTableIterator::create_and_seek_from(table.clone(), Bound::Included(&key)).unwrap();
    assert_eq!(included.key(), &key[..]);
    assert_eq!(drain(&mut included).len(), num_of_keys() - 40);
    let mut excluded =
        SsTableIterator::create_and_seek_from(table.clone(), Bound::Excluded(&key)).unwrap();
    assert_eq!(excluded.key(), &key_of(41)[..]);
    assert_eq!(drain(&mut excluded).len(), num_of_keys() - 41);
    let mut between =
        SsTableIterator::create_and_seek_from(table, Bound::Excluded(b"key_201")).unwrap();
    assert_eq!(between.key(), &key_of(41)[..]);
    assert_eq!(drain(&mut between).len(), num_of_keys() - 41);
}

#[test]
fn sst_find_block_idx_in_a_large_table() {
    let mut builder = SsTableBuilder::new(4096);
    for i in 0..10000 {
        builder.add(format!("k{:04}", i).as_bytes(), format!("v{:04}", i).as_bytes());
    }
    let table = Arc::new(builder.build(1, None));
    let blocks = table.num_of_blocks();
    assert!(blocks > 1);
    let key = b"k5000";
    let idx = table.find_block_idx(key);
    assert!(idx < blocks);
    assert!(table.first_key(idx) <= &key[..]);
    assert!(idx + 1 < blocks);
    assert!(&key[..] < table.first_key(idx + 1));
    for i in 1..blocks {
        assert!(table.first_key(i - 1) < table.first_key(i));
    }
    assert_eq!(table.find_block_idx(b"a"), 0);
    assert_eq!(table.find_block_idx(b"z"), blocks - 1);
    let mut iter = SsTableIterator::create_and_seek_to_key(table, key).unwrap();
    for i in 5000..10000 {
        assert!(iter.is_valid());
        assert_eq!(iter.key(), format!("k{:04}", i).as_bytes());
        assert_eq!(iter.value(), format!("v{:04}", i).as_bytes());
        iter.next().unwrap();
    }
    assert!(!iter.is_valid());
}

#[test]
fn sst_first_key_of_each_block_is_its_first_entry() {
    let table = generate_sst();
    assert!(table.num_of_blocks() > 1);
    for i in 0..table.num_of_blocks() {
        let block = table.read_block(i).unwrap();
        let mut iter = mini_lsm::block::iterator::BlockIterator::create_and_seek_to_first(block);
        iter.seek_to_first();
        assert!(iter.is_valid());
        assert_eq!(iter.key(), table.first_key(i));
    }
}

#[test]
fn sst_builder_takes_keys_in_any_order() {
    let mut builder = SsTableBuilder::new(64);
    let mut order: Vec<usize> = Vec::new();
    for i in 0..200 {
        order.push((i * 77) % 200);
    }
    for &i in &order {
        builder.add(format!("k{:03}", i).as_bytes(), format!("v{:03}", i).as_bytes());
    }
    let table = Arc::new(builder.build(0, None));
    let mut iter = SsTableIterator::create_and_seek_to_first(table.clone()).unwrap();
    let all = drain(&mut iter);
    assert_eq!(all.len(), 200);
    for (i, (k, v)) in all.iter().enumerate() {
        assert_eq!(k, format!("k{:03}", i).as_bytes());
        assert_eq!(v, format!("v{:03}", i).as_bytes());
    }
    for i in 0..200 {
        let key = format!("k{:03}", i);
        let iter = SsTableIterator::create_and_seek_to_key(table.clone(), key.as_bytes()).unwrap();
        assert!(iter.is_valid());
        assert_eq!(iter.key(), key.as_bytes());
    }
}

#[test]
fn sst_builder_divides_a_full_side_again() {
    let mut builder = SsTableBuilder::new(100);
    builder.add(b"a", &[0u8; 4]);
    builder.add(b"b", &[0u8; 34]);
    builder.add(b"c", &[0u8; 34]);
    builder.add(b"d", &[0u8; 34]);
    let table = Arc::new(builder.build(0, None));
    let mut iter = SsTableIterator::create_and_seek_to_first(table).unwrap();
    let keys: Vec<Vec<u8>> = drain(&mut iter).into_iter().map(|(k, _)| k).collect();
    assert_eq!(keys, vec![b"a".to_vec(), b"b".to_vec(), b"c".to_vec(), b"d".to_vec()]);
}

#[test]
fn sst_read_block_through_the_cache() {
    let cache = Arc::new(BlockCache::new(16));
    let mut builder = SsTableBuilder::new(128);
    for idx in 0..num_of_keys() {
        builder.add(&key_of(idx), &value_of(idx));
    }
    let table = builder.build(3, Some(cache.clone()));
    let direct = table.read_block(1).unwrap();
    assert!(cache.get(&(3, 1)).is_none());
    let first = table.read_block_cached(1).unwrap();
    assert_eq!(first.encode_to_vec(), direct.encode_to_vec());
    let held = cache.get(&(3, 1)).unwrap();
    assert!(Arc::ptr_eq(&held, &first));
    let second = table.read_block_cached(1).unwrap();
    assert!(Arc::ptr_eq(&second, &first));
    let uncached = generate_sst();
    assert_eq!(
        uncached.read_block_cached(1).unwrap().encode_to_vec(),
        direct.encode_to_vec()
    );
}

#[test]
fn sst_builder_keeps_the_order_where_a_block_of_one_entry_is_full() {
    let mut builder = SsTableBuilder::new(16);
    builder.add(b"m", &[1u8; 20]);
    builder.add(b"c", &[2u8; 20]);
    builder.add(b"x", &[3u8; 20]);
    builder.add(b"a", &[4u8; 20]);
    assert_eq!(builder.estimated_size(), 4 * (2 + 6 + 1 + 20));
    let table = Arc::new(builder.build(0, None));
    assert_eq!(table.num_of_blocks(), 4);
    assert_eq!(table.first_key(0), b"a");
    assert_eq!(table.first_key(1), b"c");
    assert_eq!(table.first_key(2), b"m");
    assert_eq!(table.first_key(3), b"x");
    let mut iter = SsTableIterator::create_and_seek_to_first(table.clone()).unwrap();
    let all = drain(&mut iter);
    assert_eq!(
        all,
        vec![
            (b"a".to_vec(), vec![4u8; 20]),
            (b"c".to_vec(), vec![2u8; 20]),
            (b"m".to_vec(), vec![1u8; 20]),
            (b"x".to_vec(), vec![3u8; 20])
        ]
    );
    let iter = SsTableIterator::create_and_seek_to_key(table, b"m").unwrap();
    assert_eq!(iter.key(), b"m");
}

#[test]
fn sst_seek_ends_in_the_block_of_the_key() {
    let table = Arc::new(generate_sst());
    let blocks = table.num_of_blocks();
    for i in 0..num_of_keys() {
        let key = key_of(i);
        let idx = table.find_block_idx(&key);
        assert!(idx < blocks);
        if idx > 0 {
            assert!(table.first_key(idx) <= &key[..]);
        }
        if idx + 1 < blocks {
            assert!(&key[..] < table.first_key(idx + 1));
        }
        let block = table.read_block(idx).unwrap();
        let iter = mini_lsm::block::iterator::BlockIterator::create_and_seek_to_key(block, &key);
        assert!(iter.is_valid());
        assert_eq!(iter.key(), &key[..]);
        assert_eq!(iter.value(), &value_of(i)[..]);
    }
}

#[test]
fn sst_estimated_size_after_a_split() {
    let mut builder = SsTableBuilder::new(30);
    builder.add(b"k0", b"v0");
    assert_eq!(builder.estimated_size(), 12);
    builder.add(b"k1", b"v1");
    assert_eq!(builder.estimated_size(), 22);
    builder.add(b"k2", b"v2");
    assert_eq!(builder.estimated_size(), 34);
    let table = builder.build(0, None);
    assert_eq!(table.num_of_blocks(), 2);
    assert_eq!(table.first_key(0), b"k0");
    assert_eq!(table.first_key(1), b"k1");
}

#[test]
fn sst_block_for_a_lookup_in_the_cache() {
    let table = generate_sst();
    let from_file = table.read_block(1).unwrap();
    let (found, read) = table.read_block_unless_hit(1, None);
    assert!(read);
    assert_eq!(found.unwrap().encode_to_vec(), from_file.encode_to_vec());
    let other = table.read_block(2).unwrap();
    let (found, read) = table.read_block_unless_hit(1, Some(other.clone()));
    assert!(!read);
    assert!(Arc::ptr_eq(&found.unwrap(), &other));
    let mut buf = vec![9u8, 9, 9, 9];
    buf.extend_from_slice(&0u16.to_ne_bytes());
    buf.extend_from_slice(&1u16.to_ne_bytes());
    let broken = Arc::new(mini_lsm::block::Block::decode(&buf).unwrap());
    let (found, read) = table.read_block_unless_hit(1, Some(broken));
    assert!(read);
    assert_eq!(found.unwrap().encode_to_vec(), from_file.encode_to_vec());
}
