//! Reading a table entry by entry, from its first entry or from a key.

use crate::block::iterator::BlockIterator;
use crate::error::StorageError;
use crate::iterators::{is_lower_bound, pairs_view, strictly_sorted, Entry, StorageIterator};
use crate::key::{
    lemma_lex_asymmetric, lemma_lex_lt_le, lemma_lex_transitive, lex_le, lex_lt, KeySlice,
};
use crate::table::layout::{
    block_ok, entries_before, lemma_entries_before_monotonic, lemma_entries_before_next,
    lemma_flatten_index, lemma_flatten_locate, lemma_flatten_split, lemma_sorted_runs,
};
use crate::table::SsTable;
use std::sync::Arc;
use vstd::prelude::*;
use vstd::slice::slice_to_vec;

verus! {

/// A search for `key` that lands at entry `p` of block `idx` lands at entry
/// `entries_before(blocks, idx) + p` of the table, if `idx` is the block that
/// `find_block_idx` gives for `key`. When `p` is past the end of the block,
/// that is the first entry of the next block.
pub proof fn lemma_seek_position(table: &SsTable, key: Seq<u8>, idx: int, p: int)
    requires
        table.wf(),
        strictly_sorted(table.entries()),
        0 <= idx < table.metas().len(),
        forall|j: int|
            idx < j < table.metas().len() ==> lex_lt(key, (#[trigger] table.metas()[j]).first_key),
        idx == 0 || lex_le(table.metas()[idx].first_key, key),
        is_lower_bound(table.blocks()[idx], key, p),
    ensures
        is_lower_bound(table.entries(), key, entries_before(table.blocks(), idx) + p),
{
    let runs = table.blocks();
    let all = table.entries();
    let metas = table.metas();
    let end = table.meta_offset() as int;
    let at = entries_before(runs, idx) + p;
    lemma_sorted_runs(runs);
    lemma_entries_before_next(runs, idx);
    lemma_flatten_split(runs, idx + 1);
    assert(block_ok(table.file(), metas, end, idx));
    assert forall|g: int| 0 <= g < at implies lex_lt(#[trigger] all[g].key, key) by {
        let (i, q) = lemma_flatten_locate(runs, g);
        if i > idx {
            lemma_entries_before_monotonic(runs, idx + 1, i);
        } else if i < idx {
            lemma_lex_lt_le(runs[i][q].key, metas[idx].first_key, key);
        }
    }
    assert forall|g: int| at <= g < all.len() implies !lex_lt(#[trigger] all[g].key, key) by {
        let (i, q) = lemma_flatten_locate(runs, g);
        if i < idx {
            lemma_entries_before_next(runs, i);
            lemma_entries_before_monotonic(runs, i + 1, idx);
        } else if i > idx {
            assert(block_ok(table.file(), metas, end, i));
            if q > 0 {
                lemma_lex_transitive(key, runs[i][0].key, runs[i][q].key);
            }
            lemma_lex_asymmetric(key, runs[i][q].key);
        }
    }
}

/// A key that lies between two blocks is found at the start of the later
/// one: if `key` comes after the last key of block `idx` and before the
/// first key of block `idx + 1`, a search for it lands at the first entry of
/// block `idx + 1`.
pub proof fn lemma_seek_between_blocks(table: &SsTable, key: Seq<u8>, idx: int)
    requires
        table.wf(),
        strictly_sorted(table.entries()),
        0 <= idx,
        idx + 1 < table.metas().len(),
        lex_lt(table.metas()[idx].last_key, key),
        lex_lt(key, table.metas()[idx + 1].first_key),
    ensures
        is_lower_bound(table.entries(), key, entries_before(table.blocks(), idx + 1) as int),
        entries_before(table.blocks(), idx + 1) < table.entries().len(),
        table.entries()[entries_before(table.blocks(), idx + 1) as int] == table.blocks()[idx
            + 1][0],
{
    let runs = table.blocks();
    let all = table.entries();
    let metas = table.metas();
    let end = table.meta_offset() as int;
    let at = entries_before(runs, idx + 1) as int;
    lemma_sorted_runs(runs);
    assert(block_ok(table.file(), metas, end, idx));
    assert(block_ok(table.file(), metas, end, idx + 1));
    lemma_flatten_index(runs, idx + 1, 0);
    assert forall|g: int| 0 <= g < at implies lex_lt(#[trigger] all[g].key, key) by {
        let (i, q) = lemma_flatten_locate(runs, g);
        if i > idx {
            lemma_entries_before_monotonic(runs, idx + 1, i);
        } else {
            let last = runs[idx].len() - 1;
            if i < idx {
                lemma_lex_transitive(runs[i][q].key, metas[idx].last_key, key);
            } else if q < last {
                lemma_lex_transitive(runs[i][q].key, metas[idx].last_key, key);
            }
        }
    }
    assert forall|g: int| at <= g < all.len() implies !lex_lt(#[trigger] all[g].key, key) by {
        let (i, q) = lemma_flatten_locate(runs, g);
        if i <= idx {
            lemma_entries_before_next(runs, i);
            lemma_entries_before_monotonic(runs, i + 1, idx + 1);
        } else {
            let first = runs[idx + 1][0].key;
            if i > idx + 1 {
                lemma_lex_transitive(key, first, runs[i][q].key);
            } else if q > 0 {
                lemma_lex_transitive(key, first, runs[i][q].key);
            }
            lemma_lex_asymmetric(key, runs[i][q].key);
        }
    }
}

/// A cursor over the entries of a table.
pub struct SsTableIterator {
    /// The table that is read.
    table: Arc<SsTable>,
    /// The cursor in the current block.
    blk_iter: BlockIterator,
    /// Index of the current block.
    blk_idx: usize,
}

impl SsTableIterator {
    /// The table that is read.
    pub closed spec fn table(&self) -> SsTable {
        *self.table
    }

    /// Index of the current block.
    pub closed spec fn block_index(&self) -> nat {
        self.blk_idx as nat
    }

    /// Index of the current entry in the current block.
    pub closed spec fn in_block(&self) -> nat {
        self.blk_iter.position()
    }

    /// Index of the current entry among the entries of the table; their
    /// number when the cursor is past the end.
    pub open spec fn position(&self) -> nat {
        entries_before(self.table().blocks(), self.block_index() as int) + self.in_block()
    }

    /// The cursor in block `idx` stands in the block that the table has at
    /// `idx`, and it is past the end of a block only in the last block.
    spec fn placed(table: SsTable, blk_iter: BlockIterator, idx: int) -> bool {
        &&& table.wf()
        &&& 0 <= idx < table.blocks().len()
        &&& blk_iter.wf()
        &&& blk_iter.block().entries() == table.blocks()[idx]
        &&& blk_iter.position() <= table.blocks()[idx].len()
        &&& blk_iter.position() == table.blocks()[idx].len() ==> idx == table.blocks().len() - 1
    }

    /// What a well-formed cursor promises: its table is well formed, and its
    /// position is an index of the table's entries or their number.
    pub proof fn lemma_wf(&self)
        requires
            self.wf(),
        ensures
            self.table().wf(),
            self.block_index() < self.table().blocks().len(),
            self.in_block() <= self.table().blocks()[self.block_index() as int].len(),
            self.position() <= self.table().entries().len(),
    {
        let runs = self.table().blocks();
        let idx = self.block_index() as int;
        lemma_entries_before_next(runs, idx);
        lemma_entries_before_monotonic(runs, idx + 1, runs.len() as int);
        assert(runs.take(runs.len() as int) =~= runs);
    }

    /// A well-formed cursor is valid exactly while it stands on an entry of
    /// its block, and that entry is the one at its position in the table.
    pub proof fn lemma_valid(&self)
        requires
            self.wf(),
        ensures
            self.remaining().len() > 0 <==> self.in_block() < self.table().blocks()[self.block_index() as int].len(),
            self.remaining().len() > 0 ==> self.remaining()[0]
                == self.table().blocks()[self.block_index() as int][self.in_block() as int],
    {
        let runs = self.table().blocks();
        let idx = self.block_index() as int;
        lemma_entries_before_next(runs, idx);
        assert(runs.take(runs.len() as int) =~= runs);
        if self.in_block() < runs[idx].len() {
            lemma_flatten_index(runs, idx, self.in_block() as int);
        }
    }

    /// A cursor on the first entry of `table`.
    pub fn create_and_seek_to_first(table: Arc<SsTable>) -> (r: Result<Self, StorageError>)
        requires
            table.wf(),
        ensures
            r is Ok,
            r->Ok_0.wf(),
            r->Ok_0.table() == *table,
            r->Ok_0.position() == 0,
            r->Ok_0.remaining() == table.entries(),
    {
        let (blk_iter, blk_idx) = match Self::seek_to_first_inner(&table) {
            Ok(found) => found,
            Err(e) => {
                return Err(e);
            },
        };
        Ok(Self { table, blk_iter, blk_idx })
    }

    /// Moves to the first entry of the table.
    pub fn seek_to_first(&mut self) -> (r: Result<(), StorageError>)
        requires
            old(self).wf(),
        ensures
            r is Ok,
            final(self).wf(),
            final(self).table() == old(self).table(),
            final(self).position() == 0,
            final(self).remaining() == old(self).table().entries(),
    {
        let (blk_iter, blk_idx) = match Self::seek_to_first_inner(&self.table) {
            Ok(found) => found,
            Err(e) => {
                return Err(e);
            },
        };
        self.blk_iter = blk_iter;
        self.blk_idx = blk_idx;
        Ok(())
    }

    /// A cursor on the first entry of `table` whose key is `key` or comes
    /// after it.
    pub fn create_and_seek_to_key(table: Arc<SsTable>, key: KeySlice) -> (r: Result<
        Self,
        StorageError,
    >)
        requires
            table.wf(),
        ensures
            r is Ok,
            r->Ok_0.wf(),
            r->Ok_0.table() == *table,
            strictly_sorted(table.entries()) ==> is_lower_bound(
                table.entries(),
                key@,
                r->Ok_0.position() as int,
            ),
    {
        let (blk_iter, blk_idx) = match Self::seek_to_key_inner(&table, key) {
            Ok(found) => found,
            Err(e) => {
                return Err(e);
            },
        };
        Ok(Self { table, blk_iter, blk_idx })
    }

    /// Moves to the first entry of the table whose key is `key` or comes
    /// after it, or past the end if there is none.
    pub fn seek_to_key(&mut self, key: KeySlice) -> (r: Result<(), StorageError>)
        requires
            old(self).wf(),
        ensures
            r is Ok,
            final(self).wf(),
            final(self).table() == old(self).table(),
            strictly_sorted(old(self).table().entries()) ==> is_lower_bound(
                old(self).table().entries(),
                key@,
                final(self).position() as int,
            ),
    {
        let (blk_iter, blk_idx) = match Self::seek_to_key_inner(&self.table, key) {
            Ok(found) => found,
            Err(e) => {
                return Err(e);
            },
        };
        self.blk_iter = blk_iter;
        self.blk_idx = blk_idx;
        Ok(())
    }

    /// Reads `table` from its first entry to its last and returns copies of
    /// the pairs, which are the pairs that the table was built from, in the
    /// order in which they were added.
    pub fn scan(table: Arc<SsTable>) -> (r: Result<Vec<(Vec<u8>, Vec<u8>)>, StorageError>)
        requires
            table.wf(),
        ensures
            r is Ok,
            pairs_view(r->Ok_0@) == table.entries(),
    {
        let mut iter = match Self::create_and_seek_to_first(table) {
            Ok(iter) => iter,
            Err(e) => {
                return Err(e);
            },
        };
        let ghost all = iter.remaining();
        let mut pairs: Vec<(Vec<u8>, Vec<u8>)> = Vec::new();
        while iter.is_valid()
            invariant
                iter.wf(),
                pairs_view(pairs@) + iter.remaining() == all,
            decreases iter.remaining().len(),
        {
            let key = slice_to_vec(iter.key().raw_ref());
            let value = slice_to_vec(iter.value());
            pairs.push((key, value));
            let _ = iter.next();
        }
        Ok(pairs)
    }

    /// A cursor on the first entry of the first block.
    fn seek_to_first_inner(table: &Arc<SsTable>) -> (r: Result<(BlockIterator, usize), StorageError>)
        requires
            table.wf(),
        ensures
            r is Ok,
            Self::placed(**table, r->Ok_0.0, r->Ok_0.1 as int),
            r->Ok_0.1 == 0,
            r->Ok_0.0.position() == 0,
    {
        let block = match table.read_block_cached(0) {
            Ok(block) => block,
            Err(e) => {
                return Err(e);
            },
        };
        let blk_iter = BlockIterator::create_and_seek_to_first(block);
        proof {
            assert(block_ok(table.file(), table.metas(), table.meta_offset() as int, 0));
        }
        Ok((blk_iter, 0))
    }

    /// A cursor on the first entry whose key is not before `key`: in the
    /// block that could hold `key`, or at the start of the next block when
    /// `key` comes after every key of that block.
    fn seek_to_key_inner(table: &Arc<SsTable>, key: KeySlice) -> (r: Result<
        (BlockIterator, usize),
        StorageError,
    >)
        requires
            table.wf(),
        ensures
            r is Ok,
            Self::placed(**table, r->Ok_0.0, r->Ok_0.1 as int),
            strictly_sorted(table.entries()) ==> is_lower_bound(
                table.entries(),
                key@,
                (entries_before(table.blocks(), r->Ok_0.1 as int) + r->Ok_0.0.position()) as int,
            ),
    {
        let mut blk_idx: usize = table.find_block_idx(key);
        let block = match table.read_block_cached(blk_idx) {
            Ok(block) => block,
            Err(e) => {
                return Err(e);
            },
        };
        let mut blk_iter = BlockIterator::create_and_seek_to_key(block, key);
        proof {
            blk_iter.lemma_wf();
            if strictly_sorted(table.entries()) {
                lemma_sorted_runs(table.blocks());
                lemma_seek_position(&**table, key@, blk_idx as int, blk_iter.position() as int);
                lemma_entries_before_next(table.blocks(), blk_idx as int);
            }
        }
        if !blk_iter.is_valid() {
            if blk_idx + 1 < table.num_of_blocks() {
                blk_idx = blk_idx + 1;
                let next = match table.read_block_cached(blk_idx) {
                    Ok(block) => block,
                    Err(e) => {
                        return Err(e);
                    },
                };
                blk_iter = BlockIterator::create_and_seek_to_first(next);
                proof {
                    assert(block_ok(
                        table.file(),
                        table.metas(),
                        table.meta_offset() as int,
                        blk_idx as int,
                    ));
                }
            }
        }
        Ok((blk_iter, blk_idx))
    }
}

impl StorageIterator for SsTableIterator {
    closed spec fn wf(&self) -> bool {
        Self::placed(*self.table, self.blk_iter, self.blk_idx as int)
    }

    open spec fn remaining(&self) -> Seq<Entry> {
        self.table().entries().skip(self.position() as int)
    }

    /// Moving within a well-formed table never fails: its blocks are in
    /// memory and decode.
    open spec fn infallible(&self) -> bool {
        true
    }

    /// The value of the current entry.
    fn value(&self) -> (v: &[u8]) {
        proof {
            self.lemma_valid();
        }
        self.blk_iter.value()
    }

    /// The key of the current entry.
    fn key(&self) -> (k: KeySlice<'_>) {
        proof {
            self.lemma_valid();
        }
        self.blk_iter.key()
    }

    /// Whether the cursor stands on an entry.
    fn is_valid(&self) -> (b: bool) {
        proof {
            self.lemma_valid();
        }
        self.blk_iter.is_valid()
    }

    /// Moves to the next entry of the table: the next entry of the current
    /// block, or the first entry of the next block when the current block is
    /// exhausted. Never fails.
    fn next(&mut self) -> (r: Result<(), StorageError>)
        ensures
            r is Ok,
            final(self).table() == old(self).table(),
            final(self).position() == old(self).position() + 1,
    {
        proof {
            self.lemma_wf();
            self.lemma_valid();
            lemma_entries_before_next(self.table().blocks(), self.block_index() as int);
        }
        let _ = self.blk_iter.next();
        proof {
            self.blk_iter.lemma_wf();
        }
        if !self.blk_iter.is_valid() && self.blk_idx + 1 < self.table.num_of_blocks() {
            let block = match self.table.read_block_cached(self.blk_idx + 1) {
                Ok(block) => block,
                Err(e) => {
                    return Err(e);
                },
            };
            self.blk_iter = BlockIterator::create_and_seek_to_first(block);
            self.blk_idx = self.blk_idx + 1;
            proof {
                self.blk_iter.lemma_wf();
                assert(block_ok(
                    self.table.file(),
                    self.table.metas(),
                    self.table.meta_offset() as int,
                    self.blk_idx as int,
                ));
            }
        }
        Ok(())
    }
}

} // verus!
