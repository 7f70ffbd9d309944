use mini_lsm::error::StorageError;
use mini_lsm::iterators::merge_iterator::MergeIterator;
use mini_lsm::iterators::{collect_remaining, StorageIterator};
use mini_lsm::key::{KeyBytes, KeySlice};
use mini_lsm::table::builder::SsTableBuilder;
use mini_lsm::table::iterator::SsTableIterator;
use mini_lsm::table::{BlockMeta, FileObject, SsTable};
use std::sync::Arc;

fn key_of(i: usize) -> Vec<u8> {
    format!("key_{:03}", i * 5).into_bytes()
}

fn value_of(i: usize) -> Vec<u8> {
    format!("value_{:010}", i).into_bytes()
}

fn table_of(pairs: &[(&str, &str)], block_size: usize) -> SsTable {
    let mut builder = SsTableBuilder::new(block_size);
    for (k, v) in pairs {
        builder.add(KeySlice::from_slice(k.as_bytes()), v.as_bytes());
    }
    builder.build(1).unwrap()
}

fn hundred_entry_table() -> SsTable {
    let mut builder = SsTableBuilder::new(128);
    for i in 0..100 {
        builder.add(KeySlice::from_slice(&key_of(i)), &value_of(i));
    }
    builder.build_for_test().unwrap()
}

fn owned(pairs: &[(&str, &str)]) -> Vec<(Vec<u8>, Vec<u8>)> {
    pairs
        .iter()
        .map(|(k, v)| (k.as_bytes().to_vec(), v.as_bytes().to_vec()))
        .collect()
}

#[test]
fn sst_build_single_key() {
    let mut builder = SsTableBuilder::new(16);
    builder.add(KeySlice::from_slice(b"233"), b"233333");
    let table = builder.build(3).unwrap();
    assert_eq!(table.num_of_blocks(), 1);
    assert_eq!(table.sst_id(), 3);
    assert_eq!(table.first_key().raw_ref(), b"233");
    assert_eq!(table.last_key().raw_ref(), b"233");
    assert_eq!(table.max_ts(), 0);
}

#[test]
fn sst_build_two_blocks() {
    let mut builder = SsTableBuilder::new(16);
    builder.add(KeySlice::from_slice(b"11"), b"11");
    builder.add(KeySlice::from_slice(b"22"), b"22");
    builder.add(KeySlice::from_slice(b"33"), b"11");
    builder.add(KeySlice::from_slice(b"44"), b"22");
    builder.add(KeySlice::from_slice(b"55"), b"11");
    builder.add(KeySlice::from_slice(b"66"), b"22");
    assert!(builder.estimated_size() > 0);
    let table = builder.build_for_test().unwrap();
    assert!(table.num_of_blocks() >= 2);
    assert_eq!(table.sst_id(), 0);
}

#[test]
fn sst_build_empty_fails() {
    let builder = SsTableBuilder::new(16);
    assert!(matches!(builder.build(1), Err(StorageError::EmptyTable)));
}

#[test]
fn sst_scenario_four_pairs_in_two_blocks() {
    let table = table_of(&[("a", "1"), ("b", "2"), ("c", "3"), ("d", "4")], 32);
    assert_eq!(table.num_of_blocks(), 2);
    // Three pairs take 26 bytes, a fourth would make it 34.
    let metas = table.block_meta();
    assert_eq!(metas[0].first_key.raw_ref(), b"a");
    assert_eq!(metas[0].last_key.raw_ref(), b"c");
    assert_eq!(metas[1].first_key.raw_ref(), b"d");
    assert_eq!(metas[1].last_key.raw_ref(), b"d");
    assert_eq!(metas[0].offset, 0);
    assert_eq!(metas[1].offset, 26);
    assert_eq!(table.find_block_idx(KeySlice::from_slice(b"c")), 0);
    assert_eq!(table.find_block_idx(KeySlice::from_slice(b"d")), 1);
    let table = Arc::new(table);
    assert_eq!(
        SsTableIterator::scan(table.clone()).unwrap(),
        owned(&[("a", "1"), ("b", "2"), ("c", "3"), ("d", "4")])
    );
    let mut it = SsTableIterator::create_and_seek_to_first(table).unwrap();
    for key in [b"a", b"b", b"c", b"d"] {
        assert!(it.is_valid());
        assert_eq!(it.key().raw_ref(), key);
        it.next().unwrap();
    }
    assert!(!it.is_valid());
}

#[test]
fn sst_estimated_size_counts_finished_blocks() {
    let mut builder = SsTableBuilder::new(32);
    assert_eq!(builder.estimated_size(), 0);
    builder.add(KeySlice::from_slice(b"a"), b"1");
    builder.add(KeySlice::from_slice(b"b"), b"2");
    builder.add(KeySlice::from_slice(b"c"), b"3");
    assert_eq!(builder.estimated_size(), 0);
    builder.add(KeySlice::from_slice(b"d"), b"4");
    assert_eq!(builder.estimated_size(), 26);
}

#[test]
fn sst_file_layout() {
    let table = table_of(&[("a", "1"), ("b", "2")], 8);
    let bytes = table.file_bytes();
    let block_a = [0, 1, b'a', 0, 1, b'1', 0, 0, 0, 1];
    let block_b = [0, 1, b'b', 0, 1, b'2', 0, 0, 0, 1];
    let index = [
        0, 0, 0, 2, // two blocks
        0, 0, 0, 0, 0, 1, b'a', 0, 1, b'a', // block at 0, from "a" to "a"
        0, 0, 0, 10, 0, 1, b'b', 0, 1, b'b', // block at 10, from "b" to "b"
    ];
    let footer = [0, 0, 0, 20];
    let mut expected = Vec::new();
    expected.extend_from_slice(&block_a);
    expected.extend_from_slice(&block_b);
    expected.extend_from_slice(&index);
    expected.extend_from_slice(&footer);
    assert_eq!(bytes, &expected[..]);
    assert_eq!(table.table_size(), expected.len());
}

#[test]
fn sst_block_meta_keeps_last_key_of_each_block() {
    let table = hundred_entry_table();
    let metas = table.block_meta();
    assert!(metas.len() > 1);
    for pair in metas.windows(2) {
        assert!(pair[0].first_key.raw_ref() <= pair[0].last_key.raw_ref());
        assert!(pair[0].last_key.raw_ref() < pair[1].first_key.raw_ref());
        assert!(pair[0].offset < pair[1].offset);
    }
    assert_eq!(table.first_key().raw_ref(), &key_of(0)[..]);
    assert_eq!(table.last_key().raw_ref(), &key_of(99)[..]);
}

#[test]
fn sst_read_block_gives_the_entries_of_that_block() {
    let table = table_of(&[("a", "1"), ("b", "2"), ("c", "3"), ("d", "4")], 32);
    let first = table.read_block(0).unwrap();
    assert_eq!(first.num_entries(), 3);
    assert_eq!(first.key_at(2), b"c");
    let second = table.read_block_cached(1).unwrap();
    assert_eq!(second.num_entries(), 1);
    assert_eq!(second.key_at(0), b"d");
}

#[test]
fn sst_find_block_idx() {
    let table = table_of(
        &[("b", "1"), ("c", "2"), ("d", "3"), ("f", "4"), ("g", "5"), ("h", "6"), ("j", "7")],
        32,
    );
    assert_eq!(table.num_of_blocks(), 3);
    // Blocks: b c d | f g h | j
    assert_eq!(table.find_block_idx(KeySlice::from_slice(b"a")), 0);
    assert_eq!(table.find_block_idx(KeySlice::from_slice(b"b")), 0);
    assert_eq!(table.find_block_idx(KeySlice::from_slice(b"d")), 0);
    assert_eq!(table.find_block_idx(KeySlice::from_slice(b"e")), 0);
    assert_eq!(table.find_block_idx(KeySlice::from_slice(b"f")), 1);
    assert_eq!(table.find_block_idx(KeySlice::from_slice(b"i")), 1);
    assert_eq!(table.find_block_idx(KeySlice::from_slice(b"j")), 2);
    assert_eq!(table.find_block_idx(KeySlice::from_slice(b"z")), 2);
}

#[test]
fn sst_iterator_walks_all_entries() {
    let table = Arc::new(hundred_entry_table());
    let mut it = SsTableIterator::create_and_seek_to_first(table).unwrap();
    for _ in 0..3 {
        for i in 0..100 {
            assert!(it.is_valid());
            assert_eq!(it.key().raw_ref(), &key_of(i)[..]);
            assert_eq!(it.value(), &value_of(i)[..]);
            it.next().unwrap();
        }
        assert!(!it.is_valid());
        it.seek_to_first().unwrap();
    }
}

#[test]
fn sst_scan_yields_what_was_added() {
    let table = Arc::new(hundred_entry_table());
    let got = SsTableIterator::scan(table.clone()).unwrap();
    let expected: Vec<(Vec<u8>, Vec<u8>)> = (0..100).map(|i| (key_of(i), value_of(i))).collect();
    assert_eq!(got, expected);
    let mut it = SsTableIterator::create_and_seek_to_first(table).unwrap();
    assert_eq!(collect_remaining(&mut it).unwrap(), expected);
}

#[test]
fn sst_scan_keeps_order_of_unsorted_input() {
    let pairs = [("m", "1"), ("a", "2"), ("z", "3"), ("a", "4"), ("k", "5")];
    let table = Arc::new(table_of(&pairs, 20));
    assert_eq!(SsTableIterator::scan(table).unwrap(), owned(&pairs));
}

#[test]
fn sst_seek_key() {
    let table = Arc::new(hundred_entry_table());
    let mut it =
        SsTableIterator::create_and_seek_to_key(table, KeySlice::from_slice(&key_of(0))).unwrap();
    for offset in 1..=5 {
        for i in 0..100 {
            assert_eq!(it.key().raw_ref(), &key_of(i)[..]);
            assert_eq!(it.value(), &value_of(i)[..]);
            let between = format!("key_{:03}", i * 5 + offset).into_bytes();
            it.seek_to_key(KeySlice::from_slice(&between)).unwrap();
        }
        assert!(!it.is_valid());
        it.seek_to_key(KeySlice::from_slice(b"k")).unwrap();
    }
}

#[test]
fn sst_seek_key_between_blocks() {
    // Blocks: b c d | f g h | j
    let table = Arc::new(table_of(
        &[("b", "1"), ("c", "2"), ("d", "3"), ("f", "4"), ("g", "5"), ("h", "6"), ("j", "7")],
        32,
    ));
    let it = SsTableIterator::create_and_seek_to_key(table.clone(), KeySlice::from_slice(b"e"))
        .unwrap();
    assert!(it.is_valid());
    assert_eq!(it.key().raw_ref(), b"f");
    assert_eq!(it.value(), b"4");

    let mut it = SsTableIterator::create_and_seek_to_key(table.clone(), KeySlice::from_slice(b"i"))
        .unwrap();
    assert_eq!(it.key().raw_ref(), b"j");
    it.next().unwrap();
    assert!(!it.is_valid());

    let it = SsTableIterator::create_and_seek_to_key(table.clone(), KeySlice::from_slice(b"a"))
        .unwrap();
    assert_eq!(it.key().raw_ref(), b"b");

    let it = SsTableIterator::create_and_seek_to_key(table.clone(), KeySlice::from_slice(b"g"))
        .unwrap();
    assert_eq!(it.key().raw_ref(), b"g");

    let it =
        SsTableIterator::create_and_seek_to_key(table, KeySlice::from_slice(b"k")).unwrap();
    assert!(!it.is_valid());
}

#[test]
fn sst_seek_then_read_on_across_blocks() {
    let table = Arc::new(table_of(
        &[("b", "1"), ("c", "2"), ("d", "3"), ("f", "4"), ("g", "5"), ("h", "6"), ("j", "7")],
        32,
    ));
    let mut it =
        SsTableIterator::create_and_seek_to_key(table, KeySlice::from_slice(b"d")).unwrap();
    assert_eq!(
        collect_remaining(&mut it).unwrap(),
        owned(&[("d", "3"), ("f", "4"), ("g", "5"), ("h", "6"), ("j", "7")])
    );
}

#[test]
fn sst_open_reads_back_what_build_wrote() {
    let built = hundred_entry_table();
    let file = FileObject::create(built.file_bytes().to_vec());
    let opened = SsTable::open(9, file).unwrap();
    assert_eq!(opened.sst_id(), 9);
    assert_eq!(opened.num_of_blocks(), built.num_of_blocks());
    assert_eq!(opened.first_key().raw_ref(), built.first_key().raw_ref());
    assert_eq!(opened.last_key().raw_ref(), built.last_key().raw_ref());
    for (a, b) in opened.block_meta().iter().zip(built.block_meta()) {
        assert_eq!(a.offset, b.offset);
        assert_eq!(a.first_key.raw_ref(), b.first_key.raw_ref());
        assert_eq!(a.last_key.raw_ref(), b.last_key.raw_ref());
    }
    let expected: Vec<(Vec<u8>, Vec<u8>)> = (0..100).map(|i| (key_of(i), value_of(i))).collect();
    assert_eq!(SsTableIterator::scan(Arc::new(opened)).unwrap(), expected);
}

#[test]
fn sst_open_rejects_damaged_files() {
    let built = table_of(&[("a", "1"), ("b", "2"), ("c", "3"), ("d", "4")], 32);
    let good = built.file_bytes().to_vec();
    assert!(SsTable::open(1, FileObject::create(good.clone())).is_ok());

    for bad in [Vec::new(), vec![0u8; 3], vec![0u8; 4]] {
        let r = SsTable::open(1, FileObject::create(bad));
        assert!(matches!(r, Err(StorageError::Corruption)));
    }

    // The file is cut short.
    let cut = good[..good.len() - 1].to_vec();
    assert!(matches!(
        SsTable::open(1, FileObject::create(cut)),
        Err(StorageError::Corruption)
    ));

    // The offset of the index points behind the file.
    let mut far = good.clone();
    let n = far.len();
    far[n - 4..].copy_from_slice(&[0xff, 0xff, 0xff, 0xff]);
    assert!(matches!(
        SsTable::open(1, FileObject::create(far)),
        Err(StorageError::Corruption)
    ));

    // The first key of the first block is not the one that the index gives.
    let mut other_key = good.clone();
    other_key[2] = b'0';
    assert!(matches!(
        SsTable::open(1, FileObject::create(other_key)),
        Err(StorageError::Corruption)
    ));

    // A length field inside a block is damaged.
    let mut long_key = good.clone();
    long_key[1] = 200;
    assert!(matches!(
        SsTable::open(1, FileObject::create(long_key)),
        Err(StorageError::Corruption)
    ));

    // The index announces a block too many.
    let mut count = good;
    count[26 + 10 + 3] = 3;
    assert!(matches!(
        SsTable::open(1, FileObject::create(count)),
        Err(StorageError::Corruption)
    ));
}

#[test]
fn block_meta_encoding_round_trip() {
    let metas = vec![
        BlockMeta {
            offset: 0,
            first_key: KeyBytes::copy_from_slice(b"a"),
            last_key: KeyBytes::copy_from_slice(b"bc"),
        },
        BlockMeta {
            offset: 0x01020304,
            first_key: KeyBytes::copy_from_slice(b"def"),
            last_key: KeyBytes::copy_from_slice(b"g"),
        },
    ];
    let mut buf = vec![0xaa];
    BlockMeta::encode_block_meta(&metas, &mut buf);
    assert_eq!(
        buf,
        vec![
            0xaa, // what was there
            0, 0, 0, 2, // two items
            0, 0, 0, 0, 0, 1, b'a', 0, 2, b'b', b'c', // the first
            1, 2, 3, 4, 0, 3, b'd', b'e', b'f', 0, 1, b'g', // the second
        ]
    );
    let decoded = BlockMeta::decode_block_meta(&buf[1..]).unwrap();
    assert_eq!(decoded.len(), 2);
    assert_eq!(decoded[0].offset, 0);
    assert_eq!(decoded[0].first_key.raw_ref(), b"a");
    assert_eq!(decoded[0].last_key.raw_ref(), b"bc");
    assert_eq!(decoded[1].offset, 0x01020304);
    assert_eq!(decoded[1].first_key.raw_ref(), b"def");
    assert_eq!(decoded[1].last_key.raw_ref(), b"g");
}

#[test]
fn block_meta_decoding_rejects_malformed_input() {
    let good = [0, 0, 0, 1, 0, 0, 0, 7, 0, 1, b'a', 0, 1, b'b'];
    assert_eq!(BlockMeta::decode_block_meta(&good).unwrap().len(), 1);
    assert_eq!(BlockMeta::decode_block_meta(&[0, 0, 0, 0]).unwrap().len(), 0);
    // Too short for the number of items.
    assert!(BlockMeta::decode_block_meta(&[0, 0, 0]).is_err());
    // An item is cut short.
    assert!(BlockMeta::decode_block_meta(&good[..good.len() - 1]).is_err());
    // A byte is left over.
    let mut long = good.to_vec();
    long.push(0);
    assert!(BlockMeta::decode_block_meta(&long).is_err());
    // More items are announced than there are.
    let mut more = good.to_vec();
    more[3] = 2;
    assert!(matches!(
        BlockMeta::decode_block_meta(&more),
        Err(StorageError::Corruption)
    ));
    // No items are announced, but bytes follow.
    assert!(BlockMeta::decode_block_meta(&[0, 0, 0, 0, 1]).is_err());
}

#[test]
fn file_object_reads_ranges() {
    let file = FileObject::create(vec![1, 2, 3, 4, 5]);
    assert_eq!(file.size(), 5);
    assert_eq!(file.as_bytes(), &[1, 2, 3, 4, 5]);
    assert_eq!(file.read(1, 3).unwrap(), vec![2, 3, 4]);
    assert_eq!(file.read(5, 0).unwrap(), Vec::<u8>::new());
    assert_eq!(file.read(0, 5).unwrap(), vec![1, 2, 3, 4, 5]);
    assert_eq!(file.read(3, 3), Err(StorageError::Corruption));
    assert_eq!(file.read(6, 0), Err(StorageError::Corruption));
    assert_eq!(file.read(usize::MAX, 2), Err(StorageError::Corruption));
}

#[test]
fn merge_over_tables() {
    let newer = Arc::new(table_of(&[("a", "new"), ("c", "new"), ("e", "new")], 16));
    let older = Arc::new(table_of(
        &[("a", "old"), ("b", "old"), ("c", "old"), ("d", "old")],
        16,
    ));
    let sources = vec![
        Box::new(SsTableIterator::create_and_seek_to_first(newer).unwrap()),
        Box::new(SsTableIterator::create_and_seek_to_first(older).unwrap()),
    ];
    let mut merged = MergeIterator::create(sources);
    assert_eq!(
        collect_remaining(&mut merged).unwrap(),
        owned(&[("a", "new"), ("b", "old"), ("c", "new"), ("d", "old"), ("e", "new")])
    );
}

#[test]
fn storage_error_messages_differ() {
    let all = [
        StorageError::Corruption,
        StorageError::EmptyTable,
        StorageError::TableTooLarge,
        StorageError::Io,
    ];
    for (i, a) in all.iter().enumerate() {
        assert!(!a.message().is_empty());
        for b in &all[i + 1..] {
            assert_ne!(a.message(), b.message());
        }
    }
}

#[test]
fn sst_carries_no_filter_and_no_timestamp() {
    let built = table_of(&[("a", "1"), ("b", "2")], 16);
    assert!(built.bloom().is_none());
    assert_eq!(built.max_ts(), 0);
    let opened = SsTable::open(2, FileObject::create(built.file_bytes().to_vec())).unwrap();
    assert!(opened.bloom().is_none());
    assert_eq!(opened.max_ts(), 0);
}
