use mini_lsm::block::builder::BlockBuilder;
use mini_lsm::block::iterator::BlockIterator;
use mini_lsm::error::StorageError;
use mini_lsm::iterators::merge_iterator::MergeIterator;
use mini_lsm::iterators::{collect_remaining, StorageIterator};
use mini_lsm::key::KeySlice;
use std::sync::Arc;

/// A source over pairs held in memory. It fails when it is asked to move
/// past the pair with index `fail_at`.
struct MockIterator {
    data: Vec<(Vec<u8>, Vec<u8>)>,
    index: usize,
    fail_at: Option<usize>,
}

impl MockIterator {
    fn new(pairs: &[(&str, &str)]) -> Self {
        Self {
            data: owned(pairs),
            index: 0,
            fail_at: None,
        }
    }

    fn failing(pairs: &[(&str, &str)], fail_at: usize) -> Self {
        Self {
            data: owned(pairs),
            index: 0,
            fail_at: Some(fail_at),
        }
    }
}

impl StorageIterator for MockIterator {
    fn value(&self) -> &[u8] {
        &self.data[self.index].1
    }

    fn key(&self) -> KeySlice<'_> {
        KeySlice::from_slice(&self.data[self.index].0)
    }

    fn is_valid(&self) -> bool {
        self.index < self.data.len()
    }

    fn next(&mut self) -> Result<(), StorageError> {
        if self.fail_at == Some(self.index) {
            return Err(StorageError::Io);
        }
        self.index += 1;
        Ok(())
    }
}

fn owned(pairs: &[(&str, &str)]) -> Vec<(Vec<u8>, Vec<u8>)> {
    pairs
        .iter()
        .map(|(k, v)| (k.as_bytes().to_vec(), v.as_bytes().to_vec()))
        .collect()
}

fn merge_of(sources: Vec<MockIterator>) -> MergeIterator<MockIterator> {
    MergeIterator::create(sources.into_iter().map(Box::new).collect())
}

#[test]
fn merge_yields_sorted_union() {
    let a = MockIterator::new(&[("a", "1.1"), ("b", "2.1"), ("c", "3.1")]);
    let b = MockIterator::new(&[("a", "1.2"), ("b", "2.2"), ("c", "3.2"), ("d", "4.2")]);
    let c = MockIterator::new(&[("b", "2.3"), ("c", "3.3"), ("d", "4.3")]);
    let mut merged = merge_of(vec![a, b, c]);
    let got = collect_remaining(&mut merged).unwrap();
    assert_eq!(
        got,
        owned(&[("a", "1.1"), ("b", "2.1"), ("c", "3.1"), ("d", "4.2")])
    );
    assert!(!merged.is_valid());
}

#[test]
fn merge_prefers_lower_index_whatever_the_order() {
    let a = || MockIterator::new(&[("a", "1.1"), ("b", "2.1"), ("c", "3.1")]);
    let b = || MockIterator::new(&[("a", "1.2"), ("b", "2.2"), ("c", "3.2"), ("d", "4.2")]);
    let c = || MockIterator::new(&[("b", "2.3"), ("c", "3.3"), ("d", "4.3")]);

    let mut merged = merge_of(vec![c(), a(), b()]);
    assert_eq!(
        collect_remaining(&mut merged).unwrap(),
        owned(&[("a", "1.1"), ("b", "2.3"), ("c", "3.3"), ("d", "4.3")])
    );

    let mut merged = merge_of(vec![b(), c(), a()]);
    assert_eq!(
        collect_remaining(&mut merged).unwrap(),
        owned(&[("a", "1.2"), ("b", "2.2"), ("c", "3.2"), ("d", "4.2")])
    );
}

#[test]
fn merge_interleaves_disjoint_sources() {
    let a = MockIterator::new(&[("a", "1.1"), ("b", "2.1"), ("c", "3.1")]);
    let b = MockIterator::new(&[("d", "1.2"), ("e", "2.2"), ("f", "3.2"), ("g", "4.2")]);
    let c = MockIterator::new(&[("h", "1.3"), ("i", "2.3"), ("j", "3.3"), ("k", "4.3")]);
    let d = MockIterator::new(&[]);
    let expected = owned(&[
        ("a", "1.1"),
        ("b", "2.1"),
        ("c", "3.1"),
        ("d", "1.2"),
        ("e", "2.2"),
        ("f", "3.2"),
        ("g", "4.2"),
        ("h", "1.3"),
        ("i", "2.3"),
        ("j", "3.3"),
        ("k", "4.3"),
    ]);
    let mut merged = merge_of(vec![c, d, b, a]);
    assert_eq!(collect_remaining(&mut merged).unwrap(), expected);
}

#[test]
fn merge_of_nothing_is_invalid() {
    let merged = merge_of(vec![]);
    assert!(!merged.is_valid());

    let merged = merge_of(vec![MockIterator::new(&[]), MockIterator::new(&[])]);
    assert!(!merged.is_valid());
}

#[test]
fn merge_skips_exhausted_sources() {
    let a = MockIterator::new(&[("a", "1.1"), ("b", "2.1"), ("c", "3.1")]);
    let b = MockIterator::new(&[]);
    let mut merged = merge_of(vec![b, a]);
    assert_eq!(
        collect_remaining(&mut merged).unwrap(),
        owned(&[("a", "1.1"), ("b", "2.1"), ("c", "3.1")])
    );
}

#[test]
fn merge_of_one_source_is_that_source() {
    let a = MockIterator::new(&[("a", "1"), ("b", "2")]);
    let mut merged = merge_of(vec![a]);
    assert!(merged.is_valid());
    assert_eq!(merged.key().raw_ref(), b"a");
    assert_eq!(merged.value(), b"1");
    merged.next().unwrap();
    assert_eq!(merged.key().raw_ref(), b"b");
    assert_eq!(merged.value(), b"2");
    merged.next().unwrap();
    assert!(!merged.is_valid());
}

#[test]
fn merge_yields_each_key_once() {
    let a = MockIterator::new(&[("k", "first")]);
    let b = MockIterator::new(&[("k", "second")]);
    let c = MockIterator::new(&[("k", "third")]);
    let mut merged = merge_of(vec![a, b, c]);
    assert_eq!(
        collect_remaining(&mut merged).unwrap(),
        owned(&[("k", "first")])
    );
}

#[test]
fn merge_orders_many_sources() {
    // Source i holds the multiples of i + 1 below 60, as three-digit keys.
    let mut sources = Vec::new();
    for i in 0..7usize {
        let step = i + 1;
        let held: Vec<(String, String)> = (0..60)
            .filter(|n| n % step == 0)
            .map(|n| (format!("{:03}", n), format!("{}", i)))
            .collect();
        let borrowed: Vec<(&str, &str)> = held
            .iter()
            .map(|(k, v)| (k.as_str(), v.as_str()))
            .collect();
        sources.push(MockIterator::new(&borrowed));
    }
    sources.reverse();
    // After the reversal the source with step s has index 7 - s, so every
    // key comes from the source with the largest step that divides it.
    let mut merged = merge_of(sources);
    let got = collect_remaining(&mut merged).unwrap();
    assert_eq!(got.len(), 60);
    for (n, (key, value)) in got.iter().enumerate() {
        assert_eq!(key, &format!("{:03}", n).into_bytes());
        let step = (1..=7usize).rev().find(|s| n % s == 0).unwrap();
        assert_eq!(value, &format!("{}", step - 1).into_bytes());
    }
}

#[test]
fn merge_propagates_failure_of_current_source() {
    let a = MockIterator::new(&[("a", "1.1"), ("b", "2.1"), ("c", "3.1")]);
    let failing = MockIterator::failing(&[("a", "1.1"), ("b", "2.1"), ("c", "3.1")], 1);
    let mut merged = merge_of(vec![a, failing]);
    // Three steps are asked for before the end; the source fails on its way
    // from "b" to "c".
    let mut failed = false;
    for _ in 0..3 {
        if let Err(e) = merged.next() {
            assert_eq!(e, StorageError::Io);
            failed = true;
            break;
        }
    }
    assert!(failed);
}

#[test]
fn merge_drops_failed_source_and_goes_on() {
    let good = MockIterator::new(&[("a", "good"), ("c", "good"), ("e", "good")]);
    let bad = MockIterator::failing(&[("a", "bad"), ("b", "bad"), ("d", "bad")], 0);
    let mut merged = merge_of(vec![good, bad]);
    assert_eq!(merged.key().raw_ref(), b"a");
    assert_eq!(merged.value(), b"good");
    // Moving past "a" moves the second source too, and that one fails.
    assert_eq!(merged.next(), Err(StorageError::Io));
    // The failed source is gone; the other one has not moved.
    assert!(merged.is_valid());
    assert_eq!(merged.key().raw_ref(), b"a");
    assert_eq!(
        collect_remaining(&mut merged).unwrap(),
        owned(&[("a", "good"), ("c", "good"), ("e", "good")])
    );
}

#[test]
fn merge_over_blocks() {
    let mut first = BlockBuilder::new(100);
    assert!(first.add(KeySlice::from_slice(b"a"), b"new"));
    assert!(first.add(KeySlice::from_slice(b"c"), b"new"));
    let mut second = BlockBuilder::new(100);
    assert!(second.add(KeySlice::from_slice(b"a"), b"old"));
    assert!(second.add(KeySlice::from_slice(b"b"), b"old"));
    let sources = vec![
        Box::new(BlockIterator::create_and_seek_to_first(Arc::new(first.build()))),
        Box::new(BlockIterator::create_and_seek_to_first(Arc::new(second.build()))),
    ];
    let mut merged = MergeIterator::create(sources);
    assert_eq!(
        collect_remaining(&mut merged).unwrap(),
        owned(&[("a", "new"), ("b", "old"), ("c", "new")])
    );
}

#[test]
fn collecting_at_the_end_moves_nothing() {
    // The source would fail on its first move, but it is at its end already.
    let mut ended = MockIterator::failing(&[], 0);
    assert_eq!(collect_remaining(&mut ended).unwrap(), owned(&[]));
    assert_eq!(ended.index, 0);

    // A source that has pairs and fails on its first move.
    let mut failing = MockIterator::failing(&[("a", "1")], 0);
    assert_eq!(collect_remaining(&mut failing), Err(StorageError::Io));
}

fn block_source(pairs: &[(&str, &str)]) -> Box<BlockIterator> {
    let mut builder = BlockBuilder::new(4096);
    for (k, v) in pairs {
        assert!(builder.add(KeySlice::from_slice(k.as_bytes()), v.as_bytes()));
    }
    Box::new(BlockIterator::create_and_seek_to_first(Arc::new(builder.build())))
}

#[test]
fn merge_steps_over_block_readers() {
    let mut m = MergeIterator::create(vec![
        block_source(&[("a", "1")]),
        block_source(&[("a", "2")]),
        block_source(&[("a", "3"), ("b", "4")]),
    ]);
    assert_eq!((m.key().raw_ref(), m.value()), (&b"a"[..], &b"1"[..]));
    assert_eq!(m.next(), Ok(()));
    assert!(m.is_valid());
    assert_eq!((m.key().raw_ref(), m.value()), (&b"b"[..], &b"4"[..]));

    let mut m = MergeIterator::create(vec![
        block_source(&[("a", "1"), ("b", "2")]),
        block_source(&[("a", "9"), ("c", "3")]),
    ]);
    assert_eq!(m.next(), Ok(()));
    assert_eq!((m.key().raw_ref(), m.value()), (&b"b"[..], &b"2"[..]));
    assert_eq!(m.next(), Ok(()));
    assert_eq!((m.key().raw_ref(), m.value()), (&b"c"[..], &b"3"[..]));
    assert_eq!(m.next(), Ok(()));
    assert!(!m.is_valid());

    let mut m = MergeIterator::create(vec![
        block_source(&[("a", "1"), ("d", "4")]),
        block_source(&[("b", "2")]),
    ]);
    assert_eq!(m.key().raw_ref(), b"a");
    assert_eq!(m.next(), Ok(()));
    assert_eq!((m.key().raw_ref(), m.value()), (&b"b"[..], &b"2"[..]));
}

/// A source that fails with `Corruption` when it is asked to move at all.
struct BrokenIterator {
    key: Vec<u8>,
}

impl StorageIterator for BrokenIterator {
    fn value(&self) -> &[u8] {
        b"broken"
    }

    fn key(&self) -> KeySlice<'_> {
        KeySlice::from_slice(&self.key)
    }

    fn is_valid(&self) -> bool {
        true
    }

    fn next(&mut self) -> Result<(), StorageError> {
        Err(StorageError::Corruption)
    }
}

#[test]
fn merge_returns_the_error_of_the_source() {
    // The failing source is the current one.
    let mut m = MergeIterator::create(vec![Box::new(BrokenIterator { key: b"a".to_vec() })]);
    assert_eq!(m.next(), Err(StorageError::Corruption));
    assert!(!m.is_valid());

    // The failing source waits in the heap on the current key.
    let mut m = MergeIterator::create(vec![
        Box::new(BrokenIterator { key: b"b".to_vec() }),
        Box::new(BrokenIterator { key: b"b".to_vec() }),
    ]);
    assert_eq!(m.next(), Err(StorageError::Corruption));
    // The source in the heap was given up; the current one was not asked.
    assert!(m.is_valid());
    assert_eq!(m.key().raw_ref(), b"b");
    assert_eq!(m.next(), Err(StorageError::Corruption));
    assert!(!m.is_valid());
}
