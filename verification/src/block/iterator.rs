//! Reading a block entry by entry, from its first entry or from a key.

use crate::block::{entry_at, entry_end, entry_fits, value_start, Block};
use crate::error::StorageError;
use crate::iterators::{is_lower_bound, strictly_sorted, Entry, StorageIterator};
use crate::key::{
    key_order, lemma_lex_asymmetric, lemma_lex_transitive, lex_lt, KeyOrder, KeySlice, KeyVec,
};
use crate::wire::read_u16;
use std::sync::Arc;
use vstd::prelude::*;
use vstd::slice::{slice_subrange, slice_to_vec};

verus! {

/// A cursor over the entries of a block.
pub struct BlockIterator {
    /// The block that is read.
    block: Arc<Block>,
    /// The key of the current entry; empty when the cursor is past the end.
    key: KeyVec,
    /// Where the value of the current entry lies in the data region.
    value_range: (usize, usize),
    /// Index of the current entry; the number of entries when the cursor is
    /// past the end.
    idx: usize,
}

impl BlockIterator {
    /// The block that is read.
    pub closed spec fn block(&self) -> Block {
        *self.block
    }

    /// Index of the current entry; the number of entries of the block when
    /// the cursor is past the end.
    pub closed spec fn position(&self) -> nat {
        self.idx as nat
    }

    /// The decoded key and the value range are those of the current entry.
    spec fn decoded(&self) -> bool {
        let data = self.block.data@;
        let offsets = self.block.offsets@;
        &&& self.idx <= offsets.len()
        &&& self.idx < offsets.len() ==> {
            let at = offsets[self.idx as int] as int;
            &&& self.key@ == entry_at(data, at).key
            &&& self.value_range.0 == value_start(data, at)
            &&& self.value_range.1 == entry_end(data, at)
        }
    }

    /// What a well-formed cursor promises: its block is well formed, and its
    /// position is an index of the block or one past the last.
    pub proof fn lemma_wf(&self)
        requires
            self.wf(),
        ensures
            self.block().wf(),
            self.position() <= self.block().entries().len(),
    {
    }

    fn new(block: Arc<Block>) -> (it: Self)
        ensures
            it.block() == *block,
    {
        Self { block, key: KeyVec::new(), value_range: (0, 0), idx: 0 }
    }

    /// A cursor on the first entry of `block`.
    pub fn create_and_seek_to_first(block: Arc<Block>) -> (it: Self)
        requires
            block.wf(),
        ensures
            it.wf(),
            it.block() == *block,
            it.position() == 0,
    {
        let mut it = Self::new(block);
        it.seek_to(0);
        it
    }

    /// A cursor on the first entry of `block` whose key is `key` or comes
    /// after it.
    pub fn create_and_seek_to_key(block: Arc<Block>, key: KeySlice) -> (it: Self)
        requires
            block.wf(),
        ensures
            it.wf(),
            it.block() == *block,
            strictly_sorted(block.entries()) ==> is_lower_bound(
                block.entries(),
                key@,
                it.position() as int,
            ),
    {
        let mut it = Self::new(block);
        it.search(key);
        it
    }

    /// Moves to the first entry.
    pub fn seek_to_first(&mut self)
        requires
            old(self).wf(),
        ensures
            final(self).wf(),
            final(self).block() == old(self).block(),
            final(self).position() == 0,
    {
        self.seek_to(0);
    }

    /// Moves to the first entry whose key is `key` or comes after it, or
    /// past the end if there is none.
    pub fn seek_to_key(&mut self, key: KeySlice)
        requires
            old(self).wf(),
        ensures
            final(self).wf(),
            final(self).block() == old(self).block(),
            strictly_sorted(old(self).block().entries()) ==> is_lower_bound(
                old(self).block().entries(),
                key@,
                final(self).position() as int,
            ),
    {
        self.search(key);
    }

    /// Binary search over the offsets for the first entry whose key is not
    /// before `key`. Only the entries that are probed are decoded.
    fn search(&mut self, key: KeySlice)
        requires
            old(self).block().wf(),
        ensures
            final(self).wf(),
            final(self).block() == old(self).block(),
            strictly_sorted(old(self).block().entries()) ==> is_lower_bound(
                old(self).block().entries(),
                key@,
                final(self).position() as int,
            ),
    {
        let target: &[u8] = key.raw_ref();
        let ghost entries = self.block().entries();
        let mut low: usize = 0;
        let mut high: usize = self.block.offsets.len();
        while low < high
            invariant
                self.block() == old(self).block(),
                self.block().wf(),
                entries == self.block().entries(),
                target@ == key@,
                0 <= low <= high <= entries.len(),
                strictly_sorted(entries) ==> forall|i: int|
                    0 <= i < low ==> lex_lt(#[trigger] entries[i].key, key@),
                strictly_sorted(entries) ==> forall|i: int|
                    high <= i < entries.len() ==> !lex_lt(#[trigger] entries[i].key, key@),
            decreases high - low,
        {
            let mid: usize = low + (high - low) / 2;
            self.seek_to(mid);
            let ghost probe = entries[mid as int].key;
            match key_order(self.key.raw_ref(), target) {
                KeyOrder::Before => {
                    proof {
                        if strictly_sorted(entries) {
                            assert forall|i: int| 0 <= i < mid + 1 implies lex_lt(
                                #[trigger] entries[i].key,
                                key@,
                            ) by {
                                if i < mid {
                                    lemma_lex_transitive(entries[i].key, probe, key@);
                                }
                            }
                        }
                    }
                    low = mid + 1;
                },
                KeyOrder::After => {
                    proof {
                        if strictly_sorted(entries) {
                            assert forall|i: int| mid <= i < entries.len() implies !lex_lt(
                                #[trigger] entries[i].key,
                                key@,
                            ) by {
                                if i > mid {
                                    if lex_lt(entries[i].key, key@) {
                                        lemma_lex_transitive(entries[i].key, key@, probe);
                                        lemma_lex_asymmetric(entries[i].key, probe);
                                    }
                                }
                            }
                        }
                    }
                    high = mid;
                },
                KeyOrder::Same => {
                    proof {
                        if strictly_sorted(entries) {
                            assert forall|i: int| mid <= i < entries.len() implies !lex_lt(
                                #[trigger] entries[i].key,
                                key@,
                            ) by {
                                if i > mid {
                                    lemma_lex_asymmetric(key@, entries[i].key);
                                }
                            }
                        }
                    }
                    return ;
                },
            }
        }
        self.seek_to(low);
    }

    /// Moves to the entry with index `idx`, or past the end if there is no
    /// such entry.
    fn seek_to(&mut self, idx: usize)
        requires
            old(self).block().wf(),
        ensures
            final(self).wf(),
            final(self).block() == old(self).block(),
            final(self).position() == if idx < old(self).block().entries().len() {
                idx as nat
            } else {
                old(self).block().entries().len()
            },
    {
        let n: usize = self.block.offsets.len();
        if idx >= n {
            self.key = KeyVec::new();
            self.value_range = (0, 0);
            self.idx = n;
            return ;
        }
        let offset: usize = self.block.offsets[idx] as usize;
        self.seek_to_offset(offset);
        self.idx = idx;
    }

    /// Decodes the entry that starts at `offset` in the data region.
    fn seek_to_offset(&mut self, offset: usize)
        requires
            entry_fits(old(self).block().data(), offset as int),
        ensures
            final(self).block() == old(self).block(),
            final(self).idx == old(self).idx,
            final(self).key@ == entry_at(final(self).block().data(), offset as int).key,
            final(self).value_range.0 == value_start(final(self).block().data(), offset as int),
            final(self).value_range.1 == entry_end(final(self).block().data(), offset as int),
    {
        let data = self.block.data.as_slice();
        assert(data.len() == self.block.data@.len());
        let key_len: usize = read_u16(data, offset) as usize;
        let key_start: usize = offset + 2;
        let key = slice_to_vec(slice_subrange(data, key_start, key_start + key_len));
        let value_len: usize = read_u16(data, key_start + key_len) as usize;
        let value_begin: usize = key_start + key_len + 2;
        self.key = KeyVec::from_vec(key);
        self.value_range = (value_begin, value_begin + value_len);
    }
}

impl StorageIterator for BlockIterator {
    closed spec fn wf(&self) -> bool {
        self.block().wf() && self.decoded()
    }

    open spec fn remaining(&self) -> Seq<Entry> {
        self.block().entries().skip(self.position() as int)
    }

    /// Moving within a block never fails.
    open spec fn infallible(&self) -> bool {
        true
    }

    fn value(&self) -> (v: &[u8]) {
        slice_subrange(self.block.data.as_slice(), self.value_range.0, self.value_range.1)
    }

    fn key(&self) -> (k: KeySlice<'_>) {
        self.key.as_key_slice()
    }

    fn is_valid(&self) -> (b: bool) {
        self.idx < self.block.offsets.len()
    }

    /// Moves to the next entry, or past the end if the current entry is the
    /// last. Never fails.
    fn next(&mut self) -> (r: Result<(), StorageError>)
        ensures
            r is Ok,
            final(self).block() == old(self).block(),
            final(self).position() == old(self).position() + 1,
    {
        let next: usize = self.idx + 1;
        self.seek_to(next);
        Ok(())
    }
}

} // verus!
