//! Storage core of a log-structured-merge key-value engine: the block and
//! table formats, the builders that produce them, and the iterators that read
//! them back in key order.
//!
//! Pairs of a key and a value go through a `BlockBuilder` into a `Block`, and
//! through an `SsTableBuilder` into the blocks of an `SsTable`. A table is
//! read with an `SsTableIterator`, a block with a `BlockIterator`, and
//! several readers are read as one with a `MergeIterator`. All readers share
//! the contract of `StorageIterator`.
//!
//! The contracts speak of keys and values as `Seq<u8>` and of what a block,
//! a table or a reader holds as a sequence of `Entry`. The library works on
//! bytes in memory: writing a table file to a device and reading it back is
//! left to the caller, who gets the bytes from `SsTable::file_bytes` and
//! hands them to `SsTable::open`.

pub mod error;

pub mod wire;

pub mod key;

pub mod iterators;

pub mod block;

pub mod table;
