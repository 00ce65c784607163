use mini_lsm::block::builder::BlockBuilder;
use mini_lsm::block::iterator::BlockIterator;
use mini_lsm::block::Block;
use mini_lsm::codec::{byte_order_of_one, host_byte_order, ByteOrder};
use mini_lsm::error::Error;
use std::sync::Arc;

fn key_of(i: usize) -> Vec<u8> {
    format!("key_{:03}", i * 5).into_bytes()
}

fn value_of(i: usize) -> Vec<u8> {
    format!("value_{:010}", i).into_bytes()
}

fn num_of_keys() -> usize {
    100
}

fn generate_block() -> Block {
    let mut builder = BlockBuilder::new(10000);
    for idx in 0..num_of_keys() {
        assert!(builder.add(&key_of(idx), &value_of(idx)));
    }
    builder.build()
}

fn collect(block: Block) -> Vec<(Vec<u8>, Vec<u8>)> {
    let mut iter = BlockIterator::create_and_seek_to_first(Arc::new(block));
    let mut out = Vec::new();
    while iter.is_valid() {
        out.push((iter.key().to_vec(), iter.value().to_vec()));
        iter.next();
    }
    out
}

#[test]
fn block_build_single_key() {
    let mut builder = BlockBuilder::new(16);
    assert!(builder.add(b"233", b"233333"));
    let block = builder.build();
    assert_eq!(collect(block), vec![(b"233".to_vec(), b"233333".to_vec())]);
}

#[test]
fn block_build_full() {
    let mut builder = BlockBuilder::new(16);
    assert!(builder.add(b"11", b"11"));
    assert!(!builder.add(b"22", b"22"));
    assert_eq!(builder.len(), 1);
    assert_eq!(builder.size(), 12);
}

#[test]
fn block_first_entry_may_exceed_the_target() {
    let mut builder = BlockBuilder::new(4);
    assert!(builder.is_empty());
    assert!(builder.add(b"a-long-key", b"a-long-value"));
    assert!(!builder.is_empty());
    assert_eq!(builder.size(), 2 + 6 + 10 + 12);
    assert!(!builder.add(b"b", b"b"));
}

#[test]
fn block_full_single_entry_takes_new_value_for_its_key() {
    let mut builder = BlockBuilder::new(16);
    assert!(builder.add(b"11", b"11"));
    assert!(builder.add(b"11", b"a longer value"));
    assert_eq!(builder.len(), 1);
    assert_eq!(builder.size(), 2 + 6 + 2 + 14);
    let block = builder.build();
    assert_eq!(collect(block), vec![(b"11".to_vec(), b"a longer value".to_vec())]);
}

#[test]
fn block_size_counts_six_bytes_and_the_lengths() {
    let mut builder = BlockBuilder::new(100);
    assert_eq!(builder.size(), 2);
    assert!(builder.add(b"abc", b"12345"));
    assert_eq!(builder.size(), 2 + 6 + 3 + 5);
    assert!(builder.add(b"d", b""));
    assert_eq!(builder.size(), 2 + 14 + 6 + 1);
}

#[test]
fn block_build_all() {
    generate_block();
}

#[test]
fn block_encode() {
    let block = generate_block();
    let encoded = block.encode();
    assert_eq!(&encoded[..], &block.encode_to_vec()[..]);
}

#[test]
fn block_encode_layout() {
    let mut builder = BlockBuilder::new(100);
    assert!(builder.add(b"b", b"2"));
    assert!(builder.add(b"a", b"11"));
    let block = builder.build();
    let mut expected: Vec<u8> = Vec::new();
    expected.extend_from_slice(&1u16.to_ne_bytes());
    expected.extend_from_slice(b"a");
    expected.extend_from_slice(&2u16.to_ne_bytes());
    expected.extend_from_slice(b"11");
    expected.extend_from_slice(&1u16.to_ne_bytes());
    expected.extend_from_slice(b"b");
    expected.extend_from_slice(&1u16.to_ne_bytes());
    expected.extend_from_slice(b"2");
    assert_eq!(block.data(), &expected[..]);
    assert_eq!(block.offsets(), &[0u16, 7u16][..]);
    expected.extend_from_slice(&0u16.to_ne_bytes());
    expected.extend_from_slice(&7u16.to_ne_bytes());
    expected.extend_from_slice(&2u16.to_ne_bytes());
    assert_eq!(&block.encode()[..], &expected[..]);
}

#[test]
fn block_encode_in_both_byte_orders() {
    let mut little = BlockBuilder::with_order(100, ByteOrder::Little);
    assert!(little.add(b"ab", b"xyz"));
    assert_eq!(
        little.build().encode_to_vec(),
        vec![2, 0, b'a', b'b', 3, 0, b'x', b'y', b'z', 0, 0, 1, 0]
    );
    let mut big = BlockBuilder::with_order(100, ByteOrder::Big);
    assert!(big.add(b"ab", b"xyz"));
    assert_eq!(
        big.build().encode_to_vec(),
        vec![0, 2, b'a', b'b', 0, 3, b'x', b'y', b'z', 0, 0, 0, 1]
    );
}

#[test]
fn host_byte_order_is_that_of_the_machine() {
    let expected = if 1u16.to_ne_bytes()[0] == 1 { ByteOrder::Little } else { ByteOrder::Big };
    assert_eq!(host_byte_order(), expected);
}

#[test]
fn block_decode() {
    let block = generate_block();
    let encoded = block.encode();
    let decoded = Block::decode(&encoded).unwrap();
    assert_eq!(block.offsets(), decoded.offsets());
    assert_eq!(block.data(), decoded.data());
    assert_eq!(decoded.encode_to_vec(), encoded.to_vec());
}

#[test]
fn block_decode_rejects_short_input() {
    assert!(matches!(Block::decode(&[]), Err(Error::Corrupt)));
    assert!(matches!(Block::decode(&[0]), Err(Error::Corrupt)));
    let empty = Block::decode(&0u16.to_ne_bytes()).unwrap();
    assert_eq!(empty.offsets().len(), 0);
    assert_eq!(empty.data().len(), 0);
}

#[test]
fn block_decode_rejects_missing_offsets() {
    let mut buf = vec![1u8, 2, 3];
    buf.extend_from_slice(&2u16.to_ne_bytes());
    assert!(matches!(Block::decode(&buf), Err(Error::Corrupt)));
    let mut buf = vec![1u8, 2, 3, 4];
    buf.extend_from_slice(&2u16.to_ne_bytes());
    let block = Block::decode(&buf).unwrap();
    assert_eq!(block.data().len(), 0);
    assert_eq!(block.offsets().len(), 2);
}

#[test]
fn block_is_well_formed_checks_every_entry() {
    assert!(generate_block().is_well_formed());
    let mut buf = vec![9u8, 9, 9, 9];
    buf.extend_from_slice(&0u16.to_ne_bytes());
    buf.extend_from_slice(&1u16.to_ne_bytes());
    let block = Block::decode(&buf).unwrap();
    assert!(!block.is_well_formed());
}

#[test]
fn block_iterator() {
    let block = Arc::new(generate_block());
    let mut iter = BlockIterator::create_and_seek_to_first(block);
    for _ in 0..5 {
        for i in 0..num_of_keys() {
            assert!(iter.is_valid());
            assert_eq!(iter.key(), &key_of(i)[..]);
            assert_eq!(iter.value(), &value_of(i)[..]);
            iter.next();
        }
        assert!(!iter.is_valid());
        iter.next();
        assert!(!iter.is_valid());
        iter.seek_to_first();
    }
}

#[test]
fn block_seek_key() {
    let block = Arc::new(generate_block());
    let mut iter = BlockIterator::create_and_seek_to_key(block, &key_of(0));
    for offset in 1..=5 {
        for i in 0..num_of_keys() {
            assert_eq!(iter.key(), &key_of(i)[..]);
            assert_eq!(iter.value(), &value_of(i)[..]);
            iter.seek_to_key(&format!("key_{:03}", i * 5 + offset).into_bytes());
        }
        assert!(!iter.is_valid());
        iter.seek_to_key(b"k");
        assert!(iter.is_valid());
    }
}

#[test]
fn block_seek_lands_on_first_key_not_below() {
    let mut builder = BlockBuilder::new(1000);
    for key in [b"b", b"d", b"f"] {
        assert!(builder.add(key, b"v"));
    }
    let block = Arc::new(builder.build());
    let cases: [(&[u8], Option<&[u8]>); 6] = [
        (b"a", Some(b"b")),
        (b"b", Some(b"b")),
        (b"c", Some(b"d")),
        (b"d", Some(b"d")),
        (b"f", Some(b"f")),
        (b"g", None),
    ];
    for (key, expected) in cases {
        let iter = BlockIterator::create_and_seek_to_key(block.clone(), key);
        match expected {
            Some(k) => {
                assert!(iter.is_valid());
                assert_eq!(iter.key(), k);
            }
            None => assert!(!iter.is_valid()),
        }
    }
}

#[test]
fn block_roundtrip_five_pairs() {
    let mut builder = BlockBuilder::new(52);
    let mut expected = Vec::new();
    for i in 0..5 {
        let key = format!("k{}", i).into_bytes();
        let value = format!("v{}", i).into_bytes();
        assert!(builder.add(&key, &value));
        expected.push((key, value));
    }
    assert_eq!(builder.size(), 52);
    let encoded = builder.build().encode();
    assert_eq!(encoded.len(), 52);
    let decoded = Block::decode(&encoded).unwrap();
    assert!(decoded.is_well_formed());
    assert_eq!(collect(decoded), expected);
}

#[test]
fn block_of_target_fifty_holds_four_pairs_of_ten_bytes() {
    let mut builder = BlockBuilder::new(50);
    let mut expected = Vec::new();
    for i in 0..4 {
        let key = format!("k{}", i).into_bytes();
        let value = format!("v{}", i).into_bytes();
        assert!(builder.add(&key, &value));
        expected.push((key, value));
    }
    assert!(!builder.add(b"k4", b"v4"));
    let encoded = builder.build().encode();
    assert!(encoded.len() <= 50);
    let decoded = Block::decode(&encoded).unwrap();
    assert_eq!(collect(decoded), expected);
}

#[test]
fn block_build_sorts_by_key() {
    let mut builder = BlockBuilder::new(1000);
    assert!(builder.add(b"c", b"3"));
    assert!(builder.add(b"a", b"1"));
    assert!(builder.add(b"b", b"2"));
    let first = builder.build().encode_to_vec();
    let second = builder.build().encode_to_vec();
    assert_eq!(first, second);
    assert_eq!(
        collect(Block::decode(&first).unwrap()),
        vec![
            (b"a".to_vec(), b"1".to_vec()),
            (b"b".to_vec(), b"2".to_vec()),
            (b"c".to_vec(), b"3".to_vec())
        ]
    );
}

#[test]
fn block_split_divides_on_the_middle_key() {
    let mut builder = BlockBuilder::new(1000);
    for key in [b"e", b"a", b"d", b"b", b"c"] {
        assert!(builder.add(key, b"vv"));
    }
    let (split_key, mut rhs) = builder.split();
    assert_eq!(split_key, b"c".to_vec());
    assert_eq!(builder.len(), 2);
    assert_eq!(rhs.len(), 3);
    assert_eq!(builder.size(), 2 + 2 * 9);
    assert_eq!(rhs.size(), 2 + 3 * 9);
    assert_eq!(
        collect(builder.build()),
        vec![(b"a".to_vec(), b"vv".to_vec()), (b"b".to_vec(), b"vv".to_vec())]
    );
    assert_eq!(
        collect(rhs.build()),
        vec![
            (b"c".to_vec(), b"vv".to_vec()),
            (b"d".to_vec(), b"vv".to_vec()),
            (b"e".to_vec(), b"vv".to_vec())
        ]
    );
}

#[test]
fn block_split_keeps_the_last_of_equal_split_keys() {
    let mut builder = BlockBuilder::new(1000);
    assert!(builder.add(b"a", b"1"));
    assert!(builder.add(b"b", b"old"));
    assert!(builder.add(b"b", b"new"));
    assert!(builder.add(b"c", b"3"));
    let (split_key, mut rhs) = builder.split();
    assert_eq!(split_key, b"b".to_vec());
    assert_eq!(collect(builder.build()), vec![(b"a".to_vec(), b"1".to_vec())]);
    assert_eq!(rhs.size(), 2 + 8 + 10);
    assert_eq!(
        collect(rhs.build()),
        vec![(b"b".to_vec(), b"new".to_vec()), (b"c".to_vec(), b"3".to_vec())]
    );
}

#[test]
fn block_split_of_one_entry_moves_it() {
    let mut builder = BlockBuilder::new(1000);
    assert!(builder.add(b"only", b"1"));
    let (split_key, rhs) = builder.split();
    assert_eq!(split_key, b"only".to_vec());
    assert!(builder.is_empty());
    assert_eq!(builder.size(), 2);
    assert_eq!(rhs.len(), 1);
}

#[test]
fn byte_order_of_the_bytes_of_one() {
    assert_eq!(byte_order_of_one(1, 0), ByteOrder::Little);
    assert_eq!(byte_order_of_one(0, 1), ByteOrder::Big);
    let native = 1u16.to_ne_bytes();
    assert_eq!(byte_order_of_one(native[0], native[1]), host_byte_order());
}

#[test]
fn block_builder_gives_the_keys_of_its_entries() {
    let mut builder = BlockBuilder::new(100);
    assert!(builder.add(b"b", b"2"));
    assert!(builder.add(b"a", b"1"));
    assert_eq!(builder.key_at(0), b"b");
    assert_eq!(builder.key_at(1), b"a");
    builder.build();
    assert_eq!(builder.key_at(0), b"a");
    assert_eq!(builder.key_at(1), b"b");
}
