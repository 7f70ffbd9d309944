use mini_lsm::block::builder::BlockBuilder;
use mini_lsm::block::iterator::BlockIterator;
use mini_lsm::block::Block;
use mini_lsm::error::StorageError;
use mini_lsm::iterators::{collect_remaining, StorageIterator};
use mini_lsm::key::KeySlice;
use std::sync::Arc;

fn key_of(i: usize) -> Vec<u8> {
    format!("key_{:03}", i * 5).into_bytes()
}

fn value_of(i: usize) -> Vec<u8> {
    format!("value_{:010}", i).into_bytes()
}

fn block_of(pairs: &[(&str, &str)], budget: usize) -> Block {
    let mut builder = BlockBuilder::new(budget);
    for (k, v) in pairs {
        assert!(builder.add(KeySlice::from_slice(k.as_bytes()), v.as_bytes()));
    }
    builder.build()
}

fn hundred_entries() -> Block {
    let mut builder = BlockBuilder::new(10000);
    for i in 0..100 {
        assert!(builder.add(KeySlice::from_slice(&key_of(i)), &value_of(i)));
    }
    builder.build()
}

#[test]
fn block_build_single_key() {
    let mut builder = BlockBuilder::new(16);
    assert!(builder.is_empty());
    assert!(builder.add(KeySlice::from_slice(b"233"), b"233333"));
    assert!(!builder.is_empty());
    let block = builder.build();
    assert_eq!(block.num_entries(), 1);
}

#[test]
fn block_build_full() {
    let mut builder = BlockBuilder::new(16);
    assert!(builder.add(KeySlice::from_slice(b"11"), b"11"));
    assert!(!builder.add(KeySlice::from_slice(b"22"), b"22"));
    let block = builder.build();
    assert_eq!(block.num_entries(), 1);
    assert_eq!(&block.encode()[..], &[0, 2, b'1', b'1', 0, 2, b'1', b'1', 0, 0, 0, 1]);
}

#[test]
fn block_takes_one_oversized_entry() {
    let mut builder = BlockBuilder::new(4);
    let big = vec![7u8; 300];
    assert!(builder.add(KeySlice::from_slice(b"k"), &big));
    assert!(!builder.add(KeySlice::from_slice(b"l"), b""));
    let block = builder.build();
    assert_eq!(block.num_entries(), 1);
    assert_eq!(block.encode().len(), 2 + 1 + 2 + 300 + 2 + 2);
}

#[test]
fn block_budget_counts_entry_offset_and_count() {
    // One entry of key "a" and value "1" takes 6 bytes of data and 2 of offset;
    // the count takes 2. Two entries are 18 bytes, three are 26.
    let mut exact = BlockBuilder::new(26);
    assert!(exact.add(KeySlice::from_slice(b"a"), b"1"));
    assert!(exact.add(KeySlice::from_slice(b"b"), b"2"));
    assert!(exact.add(KeySlice::from_slice(b"c"), b"3"));
    assert!(!exact.add(KeySlice::from_slice(b"d"), b"4"));
    assert_eq!(exact.build().encode().len(), 26);

    let mut short = BlockBuilder::new(25);
    assert!(short.add(KeySlice::from_slice(b"a"), b"1"));
    assert!(short.add(KeySlice::from_slice(b"b"), b"2"));
    assert!(!short.add(KeySlice::from_slice(b"c"), b"3"));
    assert_eq!(short.build().encode().len(), 18);
}

#[test]
fn block_never_exceeds_budget_with_two_entries() {
    for budget in 0..80usize {
        let mut builder = BlockBuilder::new(budget);
        let mut taken = 0usize;
        for i in 0..12 {
            if builder.add(KeySlice::from_slice(&key_of(i)), b"v") {
                taken += 1;
            }
        }
        let size = builder.build().encode().len();
        assert!(taken >= 1);
        assert!(taken == 1 || size <= budget);
    }
}

#[test]
fn block_rejected_add_changes_nothing() {
    let mut builder = BlockBuilder::new(20);
    assert!(builder.add(KeySlice::from_slice(b"a"), b"1"));
    assert!(builder.add(KeySlice::from_slice(b"b"), b"2"));
    assert!(!builder.add(KeySlice::from_slice(b"c"), b"3"));
    assert!(!builder.add(KeySlice::from_slice(b"c"), b"3"));
    let block = builder.build();
    assert_eq!(
        &block.encode()[..],
        &[0, 1, b'a', 0, 1, b'1', 0, 1, b'b', 0, 1, b'2', 0, 0, 0, 6, 0, 2]
    );
}

#[test]
fn block_encode_layout() {
    let block = block_of(&[("a", "1"), ("bc", "")], 100);
    assert_eq!(
        &block.encode()[..],
        &[0, 1, b'a', 0, 1, b'1', 0, 2, b'b', b'c', 0, 0, 0, 0, 0, 6, 0, 2]
    );
}

#[test]
fn block_encode_writes_offsets_big_endian() {
    let mut builder = BlockBuilder::new(2000);
    let value = vec![9u8; 295];
    assert!(builder.add(KeySlice::from_slice(b"a"), &value));
    assert!(builder.add(KeySlice::from_slice(b"b"), b"x"));
    let encoded = builder.build().encode();
    let n = encoded.len();
    // The second entry starts at 2 + 1 + 2 + 295 = 300 = 0x012c.
    assert_eq!(&encoded[n - 6..], &[0, 0, 0x01, 0x2c, 0, 2]);
    // The length of the first value is 295 = 0x0127.
    assert_eq!(&encoded[3..5], &[0x01, 0x27]);
}

#[test]
fn block_encode_empty() {
    let block = BlockBuilder::new(16).build();
    assert_eq!(&block.encode()[..], &[0, 0]);
}

#[test]
fn block_decode_round_trip() {
    let block = hundred_entries();
    let encoded = block.encode();
    let decoded = Block::decode(&encoded).unwrap();
    assert_eq!(decoded.num_entries(), 100);
    assert!(decoded.is_well_formed());
    assert_eq!(&decoded.encode()[..], &encoded[..]);
    for i in 0..100 {
        assert_eq!(decoded.key_at(i), &key_of(i)[..]);
    }
}

#[test]
fn block_decode_reads_entries_back() {
    let block = block_of(&[("a", "1"), ("b", "22"), ("c", "")], 100);
    let decoded = Block::decode(&block.encode()).unwrap();
    let mut it = BlockIterator::create_and_seek_to_first(Arc::new(decoded));
    let got = collect_remaining(&mut it).unwrap();
    assert_eq!(
        got,
        vec![
            (b"a".to_vec(), b"1".to_vec()),
            (b"b".to_vec(), b"22".to_vec()),
            (b"c".to_vec(), b"".to_vec()),
        ]
    );
}

#[test]
fn block_decode_rejects_short_input() {
    assert!(matches!(Block::decode(&[]), Err(StorageError::Corruption)));
    assert!(matches!(Block::decode(&[1]), Err(StorageError::Corruption)));
    // One entry is announced, but there is no room for its offset.
    assert!(matches!(Block::decode(&[0, 1]), Err(StorageError::Corruption)));
    assert!(matches!(
        Block::decode(&[9, 0, 1]),
        Err(StorageError::Corruption)
    ));
    // 0x0100 entries are announced in four bytes.
    assert!(matches!(
        Block::decode(&[0, 0, 1, 0]),
        Err(StorageError::Corruption)
    ));
}

#[test]
fn block_decode_empty_block() {
    let decoded = Block::decode(&[0, 0]).unwrap();
    assert_eq!(decoded.num_entries(), 0);
    assert!(decoded.is_well_formed());
    let it = BlockIterator::create_and_seek_to_first(Arc::new(decoded));
    assert!(!it.is_valid());
}

#[test]
fn block_decode_takes_count_from_last_two_bytes() {
    // Data region of three bytes, one offset, one entry announced. The entry
    // does not fit the data region, so the block is not well formed.
    let decoded = Block::decode(&[0, 1, b'a', 0, 0, 0, 1]).unwrap();
    assert_eq!(decoded.num_entries(), 1);
    assert!(!decoded.is_well_formed());
}

#[test]
fn block_check_finds_malformed_blocks() {
    let good = [0, 1, b'a', 0, 1, b'1', 0, 0, 0, 1];
    assert!(Block::decode(&good).unwrap().is_well_formed());
    // The offset does not point at the start of the data region.
    let shifted = [0, 1, b'a', 0, 1, b'1', 0, 1, 0, 1];
    assert!(!Block::decode(&shifted).unwrap().is_well_formed());
    // The key is empty.
    let empty_key = [0, 0, 0, 1, b'1', 0, 0, 0, 1];
    assert!(!Block::decode(&empty_key).unwrap().is_well_formed());
    // A byte is left over behind the entry.
    let trailing = [0, 1, b'a', 0, 1, b'1', 7, 0, 0, 0, 1];
    assert!(!Block::decode(&trailing).unwrap().is_well_formed());
    // The value length reaches past the data region.
    let long_value = [0, 1, b'a', 0, 9, b'1', 0, 0, 0, 1];
    assert!(!Block::decode(&long_value).unwrap().is_well_formed());
    // Data without entries.
    let no_entries = [1, 2, 3, 0, 0];
    assert!(!Block::decode(&no_entries).unwrap().is_well_formed());
}

#[test]
fn block_iterator_walks_all_entries() {
    let block = Arc::new(hundred_entries());
    let mut it = BlockIterator::create_and_seek_to_first(block);
    for round in 0..3 {
        for i in 0..100 {
            assert!(it.is_valid(), "round {} entry {}", round, i);
            assert_eq!(it.key().raw_ref(), &key_of(i)[..]);
            assert_eq!(it.value(), &value_of(i)[..]);
            it.next().unwrap();
        }
        assert!(!it.is_valid());
        it.seek_to_first();
    }
}

#[test]
fn block_seek_key_lands_on_first_key_not_before() {
    let block = Arc::new(block_of(&[("a", "1"), ("c", "3"), ("e", "5")], 100));
    let it = BlockIterator::create_and_seek_to_key(block.clone(), KeySlice::from_slice(b"b"));
    assert!(it.is_valid());
    assert_eq!(it.key().raw_ref(), b"c");
    assert_eq!(it.value(), b"3");

    let it = BlockIterator::create_and_seek_to_key(block.clone(), KeySlice::from_slice(b"c"));
    assert_eq!(it.key().raw_ref(), b"c");

    let it = BlockIterator::create_and_seek_to_key(block.clone(), KeySlice::from_slice(b"0"));
    assert_eq!(it.key().raw_ref(), b"a");

    let it = BlockIterator::create_and_seek_to_key(block.clone(), KeySlice::from_slice(b"e"));
    assert_eq!(it.key().raw_ref(), b"e");

    let it = BlockIterator::create_and_seek_to_key(block, KeySlice::from_slice(b"f"));
    assert!(!it.is_valid());
}

#[test]
fn block_seek_key_then_next() {
    let block = Arc::new(hundred_entries());
    let mut it = BlockIterator::create_and_seek_to_key(block, KeySlice::from_slice(&key_of(0)));
    for offset in 1..=5 {
        for i in 0..100 {
            assert_eq!(it.key().raw_ref(), &key_of(i)[..]);
            assert_eq!(it.value(), &value_of(i)[..]);
            // A key that lies between key i and key i + 1.
            let between = format!("key_{:03}", i * 5 + offset).into_bytes();
            it.seek_to_key(KeySlice::from_slice(&between));
        }
        assert!(!it.is_valid());
        it.seek_to_key(KeySlice::from_slice(b"k"));
    }
}

#[test]
fn block_seek_in_empty_block() {
    let block = Arc::new(BlockBuilder::new(16).build());
    let it = BlockIterator::create_and_seek_to_key(block, KeySlice::from_slice(b"a"));
    assert!(!it.is_valid());
}
