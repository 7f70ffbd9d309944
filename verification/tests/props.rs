use mini_lsm::block::builder::BlockBuilder;
use mini_lsm::block::iterator::BlockIterator;
use mini_lsm::block::Block;
use mini_lsm::iterators::merge_iterator::MergeIterator;
use mini_lsm::iterators::{collect_remaining, StorageIterator};
use mini_lsm::key::{key_order, KeyOrder, KeySlice};
use mini_lsm::table::builder::SsTableBuilder;
use mini_lsm::table::iterator::SsTableIterator;
use mini_lsm::table::{FileObject, SsTable};
use std::collections::BTreeMap;
use std::sync::Arc;

/// A small generator of pseudo-random numbers, so that every run sees the
/// same inputs.
struct Numbers(u64);

impl Numbers {
    fn next(&mut self) -> u64 {
        self.0 = self
            .0
            .wrapping_mul(6364136223846793005)
            .wrapping_add(1442695040888963407);
        self.0 >> 33
    }

    fn below(&mut self, bound: u64) -> usize {
        (self.next() % bound) as usize
    }

    fn bytes(&mut self, min_len: usize, max_len: usize, alphabet: u8) -> Vec<u8> {
        let len = min_len + self.below((max_len - min_len + 1) as u64);
        (0..len)
            .map(|_| b'a' + self.below(alphabet as u64) as u8)
            .collect()
    }

    /// Pairs with strictly increasing keys.
    fn sorted_pairs(&mut self, max_count: usize) -> Vec<(Vec<u8>, Vec<u8>)> {
        let count = self.below(max_count as u64 + 1);
        let mut map = BTreeMap::new();
        for _ in 0..count {
            let key = self.bytes(1, 6, 4);
            let value = self.bytes(0, 12, 26);
            map.insert(key, value);
        }
        map.into_iter().collect()
    }
}

fn lower_bound(pairs: &[(Vec<u8>, Vec<u8>)], key: &[u8]) -> usize {
    pairs
        .iter()
        .position(|(k, _)| k.as_slice() >= key)
        .unwrap_or(pairs.len())
}

#[test]
fn random_blocks_round_trip_and_seek() {
    let mut numbers = Numbers(1);
    for _ in 0..200 {
        let pairs = numbers.sorted_pairs(40);
        let mut builder = BlockBuilder::new(100_000);
        for (k, v) in &pairs {
            assert!(builder.add(KeySlice::from_slice(k), v));
        }
        let block = builder.build();
        let encoded = block.encode();
        let decoded = Block::decode(&encoded).unwrap();
        assert!(decoded.is_well_formed());
        assert_eq!(decoded.num_entries(), pairs.len());
        assert_eq!(&decoded.encode()[..], &encoded[..]);
        let decoded = Arc::new(decoded);

        let mut it = BlockIterator::create_and_seek_to_first(decoded.clone());
        assert_eq!(collect_remaining(&mut it).unwrap(), pairs);

        for _ in 0..20 {
            let target = numbers.bytes(0, 7, 5);
            let it = BlockIterator::create_and_seek_to_key(
                decoded.clone(),
                KeySlice::from_slice(&target),
            );
            let expected = lower_bound(&pairs, &target);
            if expected == pairs.len() {
                assert!(!it.is_valid());
            } else {
                assert_eq!(it.key().raw_ref(), &pairs[expected].0[..]);
                assert_eq!(it.value(), &pairs[expected].1[..]);
            }
        }
    }
}

#[test]
fn random_block_sizes_respect_budget() {
    let mut numbers = Numbers(2);
    for _ in 0..300 {
        let budget = numbers.below(200);
        let pairs = numbers.sorted_pairs(30);
        let mut builder = BlockBuilder::new(budget);
        let mut expected_size = 2usize;
        let mut taken = 0usize;
        for (k, v) in &pairs {
            let entry = 2 + k.len() + 2 + v.len() + 2;
            let fits = taken == 0 || expected_size + entry <= budget;
            assert_eq!(builder.add(KeySlice::from_slice(k), v), fits);
            if fits {
                expected_size += entry;
                taken += 1;
            }
        }
        assert_eq!(builder.is_empty(), taken == 0);
        let encoded = builder.build().encode();
        assert_eq!(encoded.len(), expected_size);
        assert!(taken <= 1 || encoded.len() <= budget);
    }
}

#[test]
fn random_tables_scan_seek_and_reopen() {
    let mut numbers = Numbers(3);
    for round in 0..150 {
        let mut pairs = numbers.sorted_pairs(60);
        if pairs.is_empty() {
            pairs.push((b"only".to_vec(), b"one".to_vec()));
        }
        let block_size = 8 + numbers.below(120);
        let mut builder = SsTableBuilder::new(block_size);
        for (k, v) in &pairs {
            builder.add(KeySlice::from_slice(k), v);
        }
        let table = builder.build(round).unwrap();
        assert_eq!(table.first_key().raw_ref(), &pairs[0].0[..]);
        assert_eq!(table.last_key().raw_ref(), &pairs[pairs.len() - 1].0[..]);

        let reopened = SsTable::open(round, FileObject::create(table.file_bytes().to_vec()))
            .unwrap();
        assert_eq!(reopened.num_of_blocks(), table.num_of_blocks());
        assert_eq!(reopened.file_bytes(), table.file_bytes());

        for table in [Arc::new(table), Arc::new(reopened)] {
            assert_eq!(SsTableIterator::scan(table.clone()).unwrap(), pairs);
            for _ in 0..20 {
                let target = numbers.bytes(0, 7, 5);
                let expected = lower_bound(&pairs, &target);

                let idx = table.find_block_idx(KeySlice::from_slice(&target));
                let metas = table.block_meta();
                assert!(idx == 0 || metas[idx].first_key.raw_ref() <= &target[..]);
                assert!(idx + 1 == metas.len() || metas[idx + 1].first_key.raw_ref() > &target[..]);

                let mut it = SsTableIterator::create_and_seek_to_key(
                    table.clone(),
                    KeySlice::from_slice(&target),
                )
                .unwrap();
                assert_eq!(collect_remaining(&mut it).unwrap(), pairs[expected..].to_vec());
            }
        }
    }
}

#[test]
fn random_merges_agree_with_a_map() {
    let mut numbers = Numbers(4);
    for _ in 0..150 {
        let count = numbers.below(7);
        let mut sources = Vec::new();
        let mut expected: BTreeMap<Vec<u8>, Vec<u8>> = BTreeMap::new();
        let mut held = Vec::new();
        for _ in 0..count {
            held.push(numbers.sorted_pairs(25));
        }
        // The first source that holds a key gives its value.
        for pairs in held.iter().rev() {
            for (k, v) in pairs {
                expected.insert(k.clone(), v.clone());
            }
        }
        for pairs in &held {
            let mut builder = BlockBuilder::new(100_000);
            for (k, v) in pairs {
                assert!(builder.add(KeySlice::from_slice(k), v));
            }
            sources.push(Box::new(BlockIterator::create_and_seek_to_first(Arc::new(
                builder.build(),
            ))));
        }
        let mut merged = MergeIterator::create(sources);
        let got = collect_remaining(&mut merged).unwrap();
        let expected: Vec<(Vec<u8>, Vec<u8>)> = expected.into_iter().collect();
        assert_eq!(got, expected);
        for pair in got.windows(2) {
            assert_eq!(key_order(&pair[0].0, &pair[1].0), KeyOrder::Before);
        }
    }
}

#[test]
fn random_merges_over_tables_started_at_a_key() {
    let mut numbers = Numbers(5);
    for round in 0..60 {
        let count = 1 + numbers.below(4);
        let target = numbers.bytes(0, 4, 4);
        let mut sources = Vec::new();
        let mut expected: BTreeMap<Vec<u8>, Vec<u8>> = BTreeMap::new();
        let mut held = Vec::new();
        for _ in 0..count {
            let mut pairs = numbers.sorted_pairs(40);
            if pairs.is_empty() {
                pairs.push((b"zz".to_vec(), b"last".to_vec()));
            }
            held.push(pairs);
        }
        for pairs in held.iter().rev() {
            for (k, v) in pairs {
                if k >= &target {
                    expected.insert(k.clone(), v.clone());
                }
            }
        }
        for pairs in &held {
            let mut builder = SsTableBuilder::new(40);
            for (k, v) in pairs {
                builder.add(KeySlice::from_slice(k), v);
            }
            let table = Arc::new(builder.build(round).unwrap());
            sources.push(Box::new(
                SsTableIterator::create_and_seek_to_key(table, KeySlice::from_slice(&target))
                    .unwrap(),
            ));
        }
        let mut merged = MergeIterator::create(sources);
        let got = collect_remaining(&mut merged).unwrap();
        let expected: Vec<(Vec<u8>, Vec<u8>)> = expected.into_iter().collect();
        assert_eq!(got, expected);
    }
}
