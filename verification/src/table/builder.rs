//! Building a table from key-value pairs.

use crate::block::builder::BlockBuilder;
use crate::block::{block_encoding, entry_encoding, U16_LIMIT};
use crate::error::StorageError;
use crate::iterators::Entry;
use crate::key::{KeyBytes, KeySlice};
use crate::table::index::{
    index_encoding, index_representable, lemma_index_round_trip, meta_representable, metas_view,
};
use crate::table::layout::{
    block_ok, blocks_of, blocks_ok, lemma_entries_before_next, lemma_file_tail,
    lemma_flatten_index, lemma_flatten_split, lemma_push_block, MetaView,
};
use crate::table::{
    footer_offset, table_image, table_index, BlockMeta, FileObject, SsTable, U32_LIMIT,
};
use crate::wire::{bytes_as_slice, lemma_u32_round_trip, put_slice, put_u32, u32_be};
use vstd::prelude::*;
use vstd::slice::slice_to_vec;

verus! {

/// A file that consists of blocks has at most as many blocks as bytes, for
/// no block is empty.
pub proof fn lemma_block_count(file: Seq<u8>, metas: Seq<MetaView>, end: int, i: int)
    requires
        blocks_ok(file, metas, end),
        0 <= i < metas.len(),
    ensures
        i <= metas[i].offset < end,
    decreases i,
{
    assert(block_ok(file, metas, end, i));
    if i > 0 {
        lemma_block_count(file, metas, end, i - 1);
        assert(block_ok(file, metas, end, i - 1));
    }
}

/// A file that consists of at least one block has entries; the first has
/// the first key of the first block, the last has the last key of the last
/// block.
pub proof fn lemma_table_ends(file: Seq<u8>, metas: Seq<MetaView>, end: int)
    requires
        blocks_ok(file, metas, end),
        metas.len() > 0,
    ensures
        blocks_of(file, metas, end).flatten().len() > 0,
        blocks_of(file, metas, end).flatten()[0].key == metas[0].first_key,
        blocks_of(file, metas, end).flatten().last().key == metas.last().last_key,
{
    let runs = blocks_of(file, metas, end);
    let n = metas.len() as int;
    assert(block_ok(file, metas, end, 0));
    assert(block_ok(file, metas, end, n - 1));
    lemma_flatten_index(runs, n - 1, runs[n - 1].len() - 1);
    lemma_flatten_split(runs, n);
    lemma_entries_before_next(runs, n - 1);
    assert(runs.take(0) =~= Seq::<Seq<Entry>>::empty());
}

/// Blocks with their index and the offset of the index behind them are a
/// table file, from which the index and the offset are read back.
pub proof fn lemma_table_file(blocks: Seq<u8>, metas: Seq<MetaView>)
    requires
        blocks_ok(blocks, metas, blocks.len() as int),
        metas.len() > 0,
        blocks.len() <= U32_LIMIT,
        forall|i: int|
            0 <= i < metas.len() ==> (#[trigger] metas[i]).first_key.len() <= U16_LIMIT
                && metas[i].last_key.len() <= U16_LIMIT,
    ensures
        index_representable(metas),
        table_image(blocks + index_encoding(metas) + u32_be(blocks.len() as u32)),
        table_index(blocks + index_encoding(metas) + u32_be(blocks.len() as u32)) == Some(metas),
        footer_offset(blocks + index_encoding(metas) + u32_be(blocks.len() as u32)) == blocks.len(),
        blocks_of(
            blocks + index_encoding(metas) + u32_be(blocks.len() as u32),
            metas,
            blocks.len() as int,
        ) == blocks_of(blocks, metas, blocks.len() as int),
{
    let len = blocks.len() as int;
    let index = index_encoding(metas);
    let footer = u32_be(len as u32);
    let file = blocks + index + footer;
    assert(index_representable(metas)) by {
        assert forall|i: int| 0 <= i < metas.len() implies meta_representable(
            #[trigger] metas[i],
        ) by {
            lemma_block_count(blocks, metas, len, i);
        }
        lemma_block_count(blocks, metas, len, metas.len() - 1);
    }
    assert(footer_offset(file) == len) by {
        lemma_u32_round_trip(len as u32);
    }
    assert(table_index(file) == Some(metas)) by {
        assert(file.subrange(len, file.len() - 4) =~= index);
        lemma_index_round_trip(metas);
    }
    assert(blocks_ok(file, metas, len) && blocks_of(file, metas, len) == blocks_of(
        blocks,
        metas,
        len,
    )) by {
        assert(file =~= blocks + (index + footer));
        lemma_file_tail(blocks, index + footer, metas, len);
    }
}

/// Collects key-value pairs into the blocks of a table.
pub struct SsTableBuilder {
    /// The block that is being filled.
    builder: BlockBuilder,
    /// The first key of the block that is being filled; empty while that
    /// block is.
    first_key: Vec<u8>,
    /// The last key of the block that is being filled.
    last_key: Vec<u8>,
    /// The finished blocks, encoded one behind the other.
    data: Vec<u8>,
    /// The index of the finished blocks.
    pub(crate) meta: Vec<BlockMeta>,
    /// The size that an encoded block should not exceed.
    block_size: usize,
}

impl SsTableBuilder {
    /// The block that is being filled.
    pub closed spec fn builder(&self) -> BlockBuilder {
        self.builder
    }

    /// The finished blocks, encoded one behind the other.
    pub closed spec fn data(&self) -> Seq<u8> {
        self.data@
    }

    /// The index of the finished blocks.
    pub closed spec fn metas(&self) -> Seq<MetaView> {
        metas_view(self.meta@)
    }

    /// The size that an encoded block should not exceed.
    pub closed spec fn block_size(&self) -> nat {
        self.block_size as nat
    }

    /// The entries of each finished block.
    pub open spec fn blocks(&self) -> Seq<Seq<Entry>> {
        blocks_of(self.data(), self.metas(), self.data().len() as int)
    }

    /// The entries of the block that is being filled.
    pub open spec fn pending(&self) -> Seq<Entry> {
        self.builder().entries()
    }

    /// All pairs added so far, in the order in which they were added.
    pub open spec fn entries(&self) -> Seq<Entry> {
        self.blocks().flatten() + self.pending()
    }

    /// What the index gets for the block that is being filled when that
    /// block is finished: the offset at which its encoding is written, and
    /// its first and last key.
    pub open spec fn pending_meta(&self) -> MetaView {
        MetaView {
            offset: self.data().len(),
            first_key: self.pending()[0].key,
            last_key: self.pending().last().key,
        }
    }

    /// The index of the table that `build` makes: that of the finished
    /// blocks, and behind it the item for the block that is being filled,
    /// unless that block is empty.
    pub open spec fn built_metas(&self) -> Seq<MetaView> {
        if self.pending().len() > 0 {
            self.metas().push(self.pending_meta())
        } else {
            self.metas()
        }
    }

    /// The encoded blocks of the table that `build` makes.
    pub open spec fn built_data(&self) -> Seq<u8> {
        if self.pending().len() > 0 {
            self.data() + block_encoding(self.builder().data(), self.builder().offsets())
        } else {
            self.data()
        }
    }

    /// The blocks of the table that `build` makes: the finished ones, and
    /// behind them the block that is being filled, unless it is empty.
    pub open spec fn built_blocks(&self) -> Seq<Seq<Entry>> {
        if self.pending().len() > 0 {
            self.blocks().push(self.pending())
        } else {
            self.blocks()
        }
    }

    /// Number of bytes that the blocks of the table that `build` makes take.
    pub open spec fn built_len(&self) -> nat {
        if self.pending().len() > 0 {
            self.data().len() + self.builder().encoded_size()
        } else {
            self.data().len()
        }
    }

    /// The first and the last key of the block that is being filled are
    /// recorded.
    spec fn keys_recorded(&self) -> bool {
        let pending = self.builder.entries();
        &&& self.first_key@.len() <= U16_LIMIT
        &&& self.last_key@.len() <= U16_LIMIT
        &&& pending.len() == 0 ==> self.first_key@.len() == 0
        &&& pending.len() > 0 ==> self.first_key@ == pending[0].key && self.last_key@
            == pending.last().key
    }

    /// The builder's invariant: the finished blocks are well formed and lie
    /// one behind the other, and so is the block that is being filled.
    pub closed spec fn wf(&self) -> bool {
        &&& self.builder.wf()
        &&& self.builder.budget() == self.block_size
        &&& blocks_ok(self.data@, metas_view(self.meta@), self.data@.len() as int)
        &&& forall|i: int|
            0 <= i < self.meta@.len() ==> (#[trigger] self.meta@[i]).first_key@.len() <= U16_LIMIT
                && self.meta@[i].last_key@.len() <= U16_LIMIT
        &&& self.keys_recorded()
    }

    /// A builder for a table with blocks of at most `block_size` bytes.
    pub fn new(block_size: usize) -> (b: Self)
        ensures
            b.wf(),
            b.block_size() == block_size,
            b.entries() == Seq::<Entry>::empty(),
            b.data() == Seq::<u8>::empty(),
            b.metas() == Seq::<MetaView>::empty(),
            b.builder().budget() == block_size,
            b.builder().data() == Seq::<u8>::empty(),
            b.builder().offsets() == Seq::<u16>::empty(),
    {
        let b = Self {
            builder: BlockBuilder::new(block_size),
            first_key: Vec::new(),
            last_key: Vec::new(),
            data: Vec::new(),
            meta: Vec::new(),
            block_size,
        };
        proof {
            assert(b.entries() =~= Seq::<Entry>::empty());
        }
        b
    }

    /// Adds a pair behind those that are there. When the block that is being
    /// filled does not take the pair, that block is finished and the pair
    /// starts a new one: the encoding of the block goes behind the finished
    /// blocks, and the index gets an item with the offset of the block and
    /// its first and last key.
    pub fn add(&mut self, key: KeySlice, value: &[u8])
        requires
            old(self).wf(),
            0 < key@.len() <= U16_LIMIT,
            value@.len() <= U16_LIMIT,
        ensures
            final(self).wf(),
            final(self).block_size() == old(self).block_size(),
            final(self).builder().budget() == old(self).builder().budget(),
            final(self).entries() == old(self).entries().push(Entry { key: key@, value: value@ }),
            old(self).builder().admits(key@, value@) ==> {
                &&& final(self).blocks() == old(self).blocks()
                &&& final(self).pending() == old(self).pending().push(
                    Entry { key: key@, value: value@ },
                )
                &&& final(self).data() == old(self).data()
                &&& final(self).metas() == old(self).metas()
                &&& final(self).builder().data() == old(self).builder().data() + entry_encoding(
                    Entry { key: key@, value: value@ },
                )
                &&& final(self).builder().offsets() == old(self).builder().offsets().push(
                    old(self).builder().data().len() as u16,
                )
            },
            !old(self).builder().admits(key@, value@) ==> {
                &&& final(self).blocks() == old(self).blocks().push(old(self).pending())
                &&& final(self).pending() == seq![Entry { key: key@, value: value@ }]
                &&& final(self).data() == old(self).data() + block_encoding(
                    old(self).builder().data(),
                    old(self).builder().offsets(),
                )
                &&& final(self).metas() == old(self).metas().push(old(self).pending_meta())
                &&& final(self).builder().data() == entry_encoding(
                    Entry { key: key@, value: value@ },
                )
                &&& final(self).builder().offsets() == seq![0u16]
            },
    {
        let raw: &[u8] = key.raw_ref();
        let ghost e = Entry { key: key@, value: value@ };
        let ghost before = self.builder.entries();
        if self.builder.add(key, value) {
            if self.first_key.is_empty() {
                self.first_key = slice_to_vec(raw);
            }
            self.last_key = slice_to_vec(raw);
            proof {
                let after = self.builder.entries();
                assert(after[0] == if before.len() == 0 {
                    e
                } else {
                    before[0]
                });
            }
            return ;
        }
        self.finish_block();
        let ok = self.builder.add(key, value);
        assert(ok);
        self.first_key = slice_to_vec(raw);
        self.last_key = slice_to_vec(raw);
        proof {
            assert(self.builder.data() =~= entry_encoding(e));
            assert(self.builder.offsets() =~= seq![0u16]);
            old(self).blocks().lemma_flatten_push(old(self).pending());
        }
    }

    /// Finishes the block that is being filled: its entry goes to the index,
    /// its encoding behind the finished blocks, and a new block is started.
    fn finish_block(&mut self)
        requires
            old(self).wf(),
            old(self).pending().len() > 0,
        ensures
            final(self).wf(),
            final(self).block_size() == old(self).block_size(),
            final(self).blocks() == old(self).blocks().push(old(self).pending()),
            final(self).metas() == old(self).metas().push(old(self).pending_meta()),
            final(self).builder().data() == Seq::<u8>::empty(),
            final(self).builder().offsets() == Seq::<u16>::empty(),
            final(self).data() == old(self).data() + block_encoding(
                old(self).builder().data(),
                old(self).builder().offsets(),
            ),
    {
        let ghost metas = metas_view(self.meta@);
        let meta = BlockMeta {
            offset: self.data.len(),
            first_key: KeyBytes::copy_from_slice(self.first_key.as_slice()),
            last_key: KeyBytes::copy_from_slice(self.last_key.as_slice()),
        };
        proof {
            lemma_push_block(
                self.data@,
                metas,
                self.builder.data(),
                self.builder.offsets(),
                meta@,
            );
        }
        self.meta.push(meta);
        assert(metas_view(self.meta@) =~= metas.push(meta@));
        let mut finished = BlockBuilder::new(self.block_size);
        core::mem::swap(&mut self.builder, &mut finished);
        let block = finished.build().encode();
        put_slice(&mut self.data, bytes_as_slice(&block));
        self.first_key = Vec::new();
        self.last_key = Vec::new();
    }

    /// Number of bytes that the finished blocks take. The block that is being
    /// filled and the index are not counted.
    pub fn estimated_size(&self) -> (n: usize)
        ensures
            n == self.data().len(),
    {
        self.data.len()
    }

    /// Makes the table with the number `id`: finishes the block that is being
    /// filled, and writes the index and its offset behind the blocks. Fails
    /// with `EmptyTable` if no pair was added, and with `TableTooLarge` if
    /// the blocks take more bytes than a `u32` can count.
    pub fn build(self, id: usize) -> (r: Result<SsTable, StorageError>)
        requires
            self.wf(),
        ensures
            self.entries().len() == 0 ==> r == Err::<SsTable, StorageError>(
                StorageError::EmptyTable,
            ),
            self.entries().len() > 0 && self.built_len() > U32_LIMIT ==> r == Err::<
                SsTable,
                StorageError,
            >(StorageError::TableTooLarge),
            self.entries().len() > 0 && self.built_len() <= U32_LIMIT ==> {
                &&& r is Ok
                &&& r->Ok_0.wf()
                &&& r->Ok_0.id() == id
                &&& r->Ok_0.blocks() == self.built_blocks()
                &&& r->Ok_0.entries() == self.entries()
                &&& r->Ok_0.first() == self.entries()[0].key
                &&& r->Ok_0.last() == self.entries().last().key
                &&& r->Ok_0.meta_offset() == self.built_len()
                &&& r->Ok_0.metas() == self.built_metas()
                &&& r->Ok_0.file() == self.built_data() + index_encoding(self.built_metas())
                    + u32_be(self.built_len() as u32)
            },
    {
        let mut this = self;
        proof {
            if this.meta@.len() > 0 {
                lemma_table_ends(this.data@, metas_view(this.meta@), this.data@.len() as int);
            }
        }
        if this.builder.is_empty() && this.meta.len() == 0 {
            return Err(StorageError::EmptyTable);
        }
        this.finish_pending();
        this.seal(id)
    }

    /// Finishes the block that is being filled, unless it is empty.
    fn finish_pending(&mut self)
        requires
            old(self).wf(),
        ensures
            final(self).wf(),
            final(self).blocks() == old(self).built_blocks(),
            final(self).blocks().flatten() == old(self).entries(),
            final(self).metas() == old(self).built_metas(),
            final(self).data() == old(self).built_data(),
            final(self).data().len() == old(self).built_len(),
    {
        if !self.builder.is_empty() {
            proof {
                self.blocks().lemma_flatten_push(self.pending());
            }
            self.finish_block();
        }
    }

    /// Writes the index and its offset behind the finished blocks and makes
    /// the table.
    fn seal(self, id: usize) -> (r: Result<SsTable, StorageError>)
        requires
            self.wf(),
            self.metas().len() > 0,
        ensures
            self.data().len() > U32_LIMIT ==> r == Err::<SsTable, StorageError>(
                StorageError::TableTooLarge,
            ),
            self.data().len() <= U32_LIMIT ==> {
                &&& r is Ok
                &&& r->Ok_0.wf()
                &&& r->Ok_0.id() == id
                &&& r->Ok_0.blocks() == self.blocks()
                &&& r->Ok_0.first() == self.blocks().flatten()[0].key
                &&& r->Ok_0.last() == self.blocks().flatten().last().key
                &&& r->Ok_0.meta_offset() == self.data().len()
                &&& r->Ok_0.metas() == self.metas()
                &&& r->Ok_0.file() == self.data() + index_encoding(self.metas()) + u32_be(
                    self.data().len() as u32,
                )
            },
    {
        let ghost metas = metas_view(self.meta@);
        let ghost blocks_bytes = self.data@;
        let ghost blocks_len = self.data@.len() as int;
        let meta_offset: usize = self.data.len();
        if meta_offset > U32_LIMIT {
            return Err(StorageError::TableTooLarge);
        }
        proof {
            assert forall|i: int| 0 <= i < metas.len() implies (#[trigger] metas[i]).first_key.len()
                <= U16_LIMIT && metas[i].last_key.len() <= U16_LIMIT by {
                assert(self.meta@[i].first_key@.len() <= U16_LIMIT);
            }
            lemma_table_file(blocks_bytes, metas);
            lemma_table_ends(blocks_bytes, metas, blocks_len);
        }
        let mut buf = self.data;
        BlockMeta::encode_block_meta(self.meta.as_slice(), &mut buf);
        put_u32(&mut buf, meta_offset as u32);
        assert(buf@ =~= blocks_bytes + index_encoding(metas) + u32_be(meta_offset as u32));
        assert(self.meta@[metas.len() - 1]@ == metas.last());
        let first_key = self.meta[0].first_key.clone();
        let last_key = self.meta[self.meta.len() - 1].last_key.clone();
        let file = FileObject::create(buf);
        Ok(SsTable::assemble(file, self.meta, meta_offset, id, first_key, last_key))
    }

    /// As `build`, with the number 0.
    pub fn build_for_test(self) -> (r: Result<SsTable, StorageError>)
        requires
            self.wf(),
        ensures
            self.entries().len() == 0 ==> r == Err::<SsTable, StorageError>(
                StorageError::EmptyTable,
            ),
            self.entries().len() > 0 && self.built_len() > U32_LIMIT ==> r == Err::<
                SsTable,
                StorageError,
            >(StorageError::TableTooLarge),
            self.entries().len() > 0 && self.built_len() <= U32_LIMIT ==> {
                &&& r is Ok
                &&& r->Ok_0.wf()
                &&& r->Ok_0.id() == 0
                &&& r->Ok_0.blocks() == self.built_blocks()
                &&& r->Ok_0.entries() == self.entries()
                &&& r->Ok_0.first() == self.entries()[0].key
                &&& r->Ok_0.last() == self.entries().last().key
                &&& r->Ok_0.meta_offset() == self.built_len()
                &&& r->Ok_0.metas() == self.built_metas()
                &&& r->Ok_0.file() == self.built_data() + index_encoding(self.built_metas())
                    + u32_be(self.built_len() as u32)
            },
    {
        self.build(0)
    }
}

} // verus!
