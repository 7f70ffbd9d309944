//! The table: an immutable file of blocks with an index of their key ranges.
//!
//! ```text
//! | block | block | ... | block index | offset of the index: u32 |
//! ```
//!
//! The index starts with the number of blocks as a `u32` and holds for each
//! block
//!
//! ```text
//! | offset: u32 | first key length: u16 | first key | last key length: u16 | last key |
//! ```

pub mod builder;
pub mod index;
pub mod iterator;
pub mod layout;

use crate::block::Block;
use crate::error::StorageError;
use crate::iterators::{strictly_sorted, Entry};
use crate::key::{key_order, lemma_lex_transitive, lex_le, lex_lt, KeyBytes, KeyOrder, KeySlice};
use crate::table::index::{
    index_decoding, index_representable, lemma_decoded_representable, metas_view,
};
use crate::table::layout::{block_ok, blocks_of, blocks_ok, encoded_ok, lemma_sorted_runs, MetaView};
use crate::wire::{read_u32, u32_at};
use std::sync::Arc;
use vstd::prelude::*;
use vstd::slice::{slice_subrange, slice_to_vec};

verus! {

/// The largest number that a `u32` field holds.
pub const U32_LIMIT: usize = 0xFFFF_FFFF;

/// What the index of a table holds for one block.
pub struct BlockMeta {
    /// Offset of the block in the file.
    pub offset: usize,
    /// The first key of the block.
    pub first_key: KeyBytes,
    /// The last key of the block.
    pub last_key: KeyBytes,
}

impl View for BlockMeta {
    type V = MetaView;

    open spec fn view(&self) -> MetaView {
        MetaView { offset: self.offset as nat, first_key: self.first_key@, last_key: self.last_key@ }
    }
}

/// The offset of the index that the last four bytes of a table file give.
pub open spec fn footer_offset(file: Seq<u8>) -> int {
    u32_at(file, file.len() - 4) as int
}

/// The index that a table file holds between its blocks and its last four
/// bytes, if it holds one.
pub open spec fn table_index(file: Seq<u8>) -> Option<Seq<MetaView>> {
    if file.len() < 4 || footer_offset(file) > file.len() - 4 {
        None
    } else {
        index_decoding(file.subrange(footer_offset(file), file.len() - 4))
    }
}

/// `file` is a table file: it ends with the offset of an index, the index
/// lists at least one block, and the bytes before the index are the blocks
/// that it lists.
pub open spec fn table_image(file: Seq<u8>) -> bool {
    &&& table_index(file) is Some
    &&& table_index(file)->Some_0.len() > 0
    &&& blocks_ok(file, table_index(file)->Some_0, footer_offset(file))
}

/// Whether block `i` of the index `block_meta` is a well-formed block of
/// `bytes` with the first and last key that the index gives for it.
fn block_is_ok(bytes: &[u8], block_meta: &[BlockMeta], end: usize, i: usize) -> (b: bool)
    requires
        i < block_meta@.len(),
        end <= bytes@.len(),
    ensures
        b == block_ok(bytes@, metas_view(block_meta@), end as int, i as int),
{
    proof {
        reveal(encoded_ok);
    }
    let start: usize = block_meta[i].offset;
    let stop: usize = if i + 1 < block_meta.len() {
        block_meta[i + 1].offset
    } else {
        end
    };
    if start >= stop || stop > end {
        return false;
    }
    let block = match Block::decode(slice_subrange(bytes, start, stop)) {
        Ok(block) => block,
        Err(_) => {
            return false;
        },
    };
    if !block.is_well_formed() || block.num_entries() == 0 {
        return false;
    }
    let last: usize = block.num_entries() - 1;
    let first_matches = match key_order(block.key_at(0), block_meta[i].first_key.raw_ref()) {
        KeyOrder::Same => true,
        _ => false,
    };
    let last_matches = match key_order(block.key_at(last), block_meta[i].last_key.raw_ref()) {
        KeyOrder::Same => true,
        _ => false,
    };
    first_matches && last_matches
}

/// The bytes of a table file. Writing them to a device and reading them back
/// is left to the caller.
pub struct FileObject {
    data: Vec<u8>,
}

impl View for FileObject {
    type V = Seq<u8>;

    closed spec fn view(&self) -> Seq<u8> {
        self.data@
    }
}

impl FileObject {
    /// A file with the contents `data`.
    pub fn create(data: Vec<u8>) -> (f: Self)
        ensures
            f@ == data@,
    {
        Self { data }
    }

    /// Number of bytes in the file.
    pub fn size(&self) -> (n: usize)
        ensures
            n == self@.len(),
    {
        self.data.len()
    }

    /// The contents of the file.
    pub fn as_bytes(&self) -> (s: &[u8])
        ensures
            s@ == self@,
    {
        self.data.as_slice()
    }

    /// The `len` bytes that start at `offset`. Fails with `Corruption` if the
    /// file ends before them.
    pub fn read(&self, offset: usize, len: usize) -> (r: Result<Vec<u8>, StorageError>)
        ensures
            offset + len <= self@.len() ==> r is Ok && r->Ok_0@ == self@.subrange(
                offset as int,
                offset + len,
            ),
            offset + len > self@.len() ==> r == Err::<Vec<u8>, StorageError>(
                StorageError::Corruption,
            ),
    {
        let size: usize = self.data.len();
        if offset > size || len > size - offset {
            return Err(StorageError::Corruption);
        }
        Ok(slice_to_vec(slice_subrange(self.data.as_slice(), offset, offset + len)))
    }
}

/// An immutable table: the file, and the index of its blocks.
pub struct SsTable {
    /// The bytes of the table.
    file: FileObject,
    /// The index of the blocks.
    block_meta: Vec<BlockMeta>,
    /// Where the index starts in the file.
    block_meta_offset: usize,
    /// The number of the table.
    id: usize,
    /// The first key of the table.
    first_key: KeyBytes,
    /// The last key of the table.
    last_key: KeyBytes,
    /// A serialized filter; none is built here.
    bloom: Option<Vec<u8>>,
    /// The largest timestamp in the table; none is recorded here.
    max_ts: u64,
}

impl SsTable {
    /// The bytes of the table file.
    pub closed spec fn file(&self) -> Seq<u8> {
        self.file@
    }

    /// The index of the blocks.
    pub closed spec fn metas(&self) -> Seq<MetaView> {
        metas_view(self.block_meta@)
    }

    /// Where the index starts in the file.
    pub closed spec fn meta_offset(&self) -> nat {
        self.block_meta_offset as nat
    }

    /// The number of the table.
    pub closed spec fn id(&self) -> nat {
        self.id as nat
    }

    /// The first key of the table.
    pub closed spec fn first(&self) -> Seq<u8> {
        self.first_key@
    }

    /// The last key of the table.
    pub closed spec fn last(&self) -> Seq<u8> {
        self.last_key@
    }

    /// The serialized filter that the table carries, if it carries one.
    pub closed spec fn filter(&self) -> Option<Seq<u8>> {
        match self.bloom {
            Some(bytes) => Some(bytes@),
            None => None,
        }
    }

    /// The largest timestamp that is recorded for the table.
    pub closed spec fn max_timestamp(&self) -> u64 {
        self.max_ts
    }

    /// The table comes without a filter and without a timestamp.
    pub open spec fn plain(&self) -> bool {
        self.filter() is None && self.max_timestamp() == 0
    }

    /// The entries of each block.
    pub open spec fn blocks(&self) -> Seq<Seq<Entry>> {
        blocks_of(self.file(), self.metas(), self.meta_offset() as int)
    }

    /// The entries of the table, in the order in which they were added.
    pub open spec fn entries(&self) -> Seq<Entry> {
        self.blocks().flatten()
    }

    /// The table's invariant: the file consists of at least one block, the
    /// index and the offset of the index, and the table holds that index and
    /// that offset; each block is well formed, has at least one entry, and
    /// has the first and last key that the index gives for it.
    pub open spec fn wf(&self) -> bool {
        &&& self.metas().len() > 0
        &&& blocks_ok(self.file(), self.metas(), self.meta_offset() as int)
        &&& self.meta_offset() <= U32_LIMIT
        &&& index_representable(self.metas())
        &&& self.meta_offset() == footer_offset(self.file())
        &&& table_index(self.file()) == Some(self.metas())
        &&& self.first() == self.metas()[0].first_key
        &&& self.last() == self.metas().last().last_key
        &&& self.plain()
    }

    /// A table over `file` with the index `block_meta`, which starts at
    /// `block_meta_offset` in the file. No filter and no timestamp come with
    /// it.
    pub(crate) fn assemble(
        file: FileObject,
        block_meta: Vec<BlockMeta>,
        block_meta_offset: usize,
        id: usize,
        first_key: KeyBytes,
        last_key: KeyBytes,
    ) -> (t: Self)
        ensures
            t.file() == file@,
            t.metas() == metas_view(block_meta@),
            t.meta_offset() == block_meta_offset,
            t.id() == id,
            t.first() == first_key@,
            t.last() == last_key@,
            t.plain(),
    {
        Self {
            file,
            block_meta,
            block_meta_offset,
            id,
            first_key,
            last_key,
            bloom: None,
            max_ts: 0,
        }
    }

    /// The table with the number `id` that the bytes of `file` hold. Fails
    /// with `Corruption` unless `file` is a table file; every block is
    /// decoded and checked for this.
    pub fn open(id: usize, file: FileObject) -> (r: Result<Self, StorageError>)
        ensures
            table_image(file@) ==> r is Ok && r->Ok_0.wf() && r->Ok_0.file() == file@
                && r->Ok_0.id() == id,
            !table_image(file@) ==> r == Err::<Self, StorageError>(StorageError::Corruption),
    {
        let bytes = file.as_bytes();
        let len: usize = bytes.len();
        if len < 4 {
            return Err(StorageError::Corruption);
        }
        let meta_offset: usize = read_u32(bytes, len - 4) as usize;
        if meta_offset > len - 4 {
            return Err(StorageError::Corruption);
        }
        let ghost index_bytes = bytes@.subrange(meta_offset as int, len - 4);
        let block_meta = match BlockMeta::decode_block_meta(
            slice_subrange(bytes, meta_offset, len - 4),
        ) {
            Ok(block_meta) => block_meta,
            Err(_) => {
                return Err(StorageError::Corruption);
            },
        };
        let ghost metas = metas_view(block_meta@);
        proof {
            lemma_decoded_representable(index_bytes, 4, u32_at(index_bytes, 0) as nat);
        }
        let n: usize = block_meta.len();
        if n == 0 {
            return Err(StorageError::Corruption);
        }
        if block_meta[0].offset != 0 {
            return Err(StorageError::Corruption);
        }
        let mut i: usize = 0;
        while i < n
            invariant
                bytes@ == file@,
                n == block_meta@.len(),
                metas == metas_view(block_meta@),
                meta_offset <= bytes@.len(),
                meta_offset == footer_offset(file@),
                table_index(file@) == Some(metas),
                i <= n,
                forall|j: int| 0 <= j < i ==> #[trigger] block_ok(file@, metas, meta_offset as int, j),
            decreases n - i,
        {
            if !block_is_ok(bytes, block_meta.as_slice(), meta_offset, i) {
                return Err(StorageError::Corruption);
            }
            i = i + 1;
        }
        let first_key = block_meta[0].first_key.clone();
        let last_key = block_meta[n - 1].last_key.clone();
        Ok(Self::assemble(file, block_meta, meta_offset, id, first_key, last_key))
    }

    /// Number of blocks in the table.
    pub fn num_of_blocks(&self) -> (n: usize)
        ensures
            n == self.metas().len(),
            n == self.blocks().len(),
    {
        self.block_meta.len()
    }

    /// The first key of the table.
    pub fn first_key(&self) -> (k: &KeyBytes)
        ensures
            k@ == self.first(),
    {
        &self.first_key
    }

    /// The last key of the table.
    pub fn last_key(&self) -> (k: &KeyBytes)
        ensures
            k@ == self.last(),
    {
        &self.last_key
    }

    /// The number of the table.
    pub fn sst_id(&self) -> (id: usize)
        ensures
            id == self.id(),
    {
        self.id
    }

    /// Number of bytes in the table file.
    pub fn table_size(&self) -> (n: usize)
        ensures
            n == self.file().len(),
    {
        self.file.size()
    }

    /// The largest timestamp that is recorded for the table. A well-formed
    /// table records none, so that this is 0.
    pub fn max_ts(&self) -> (ts: u64)
        ensures
            ts == self.max_timestamp(),
    {
        self.max_ts
    }

    /// The serialized filter that the table carries. A well-formed table
    /// carries none.
    pub fn bloom(&self) -> (filter: Option<&Vec<u8>>)
        ensures
            filter is Some <==> self.filter() is Some,
            filter is Some ==> filter->Some_0@ == self.filter()->Some_0,
    {
        self.bloom.as_ref()
    }

    /// The bytes of the table file, as they are to be persisted.
    pub fn file_bytes(&self) -> (s: &[u8])
        ensures
            s@ == self.file(),
    {
        self.file.as_bytes()
    }

    /// The index of the blocks.
    pub fn block_meta(&self) -> (m: &[BlockMeta])
        ensures
            metas_view(m@) == self.metas(),
    {
        self.block_meta.as_slice()
    }

    /// In a sorted table the blocks are sorted, and each block lies before
    /// the next.
    pub proof fn lemma_sorted_blocks(&self)
        requires
            self.wf(),
            strictly_sorted(self.entries()),
        ensures
            forall|i: int| 0 <= i < self.blocks().len() ==> strictly_sorted(#[trigger] self.blocks()[i]),
            forall|i: int, j: int|
                0 <= i < j < self.metas().len() ==> lex_lt(
                    #[trigger] self.metas()[i].last_key,
                    #[trigger] self.metas()[j].first_key,
                ),
            forall|i: int|
                0 <= i < self.metas().len() ==> lex_le(
                    (#[trigger] self.metas()[i]).first_key,
                    self.metas()[i].last_key,
                ),
    {
        let runs = self.blocks();
        let metas = self.metas();
        let end = self.meta_offset() as int;
        lemma_sorted_runs(runs);
        assert forall|i: int, j: int| 0 <= i < j < metas.len() implies lex_lt(
            #[trigger] metas[i].last_key,
            #[trigger] metas[j].first_key,
        ) by {
            assert(block_ok(self.file(), metas, end, i));
            assert(block_ok(self.file(), metas, end, j));
            assert(lex_lt(runs[i][runs[i].len() - 1].key, runs[j][0].key));
        }
        assert forall|i: int| 0 <= i < metas.len() implies lex_le(
            (#[trigger] metas[i]).first_key,
            metas[i].last_key,
        ) by {
            assert(block_ok(self.file(), metas, end, i));
            if runs[i].len() > 1 {
                assert(lex_lt(runs[i][0].key, runs[i][runs[i].len() - 1].key));
            }
        }
    }

    /// The block that could hold `key`: the last block whose first key is
    /// `key` or comes before it, and the first block if there is none.
    pub fn find_block_idx(&self, key: KeySlice) -> (idx: usize)
        requires
            self.wf(),
        ensures
            idx < self.metas().len(),
            strictly_sorted(self.entries()) ==> forall|j: int|
                idx < j < self.metas().len() ==> lex_lt(key@, (#[trigger] self.metas()[j]).first_key),
            strictly_sorted(self.entries()) ==> idx == 0 || lex_le(
                self.metas()[idx as int].first_key,
                key@,
            ),
    {
        let target: &[u8] = key.raw_ref();
        let ghost metas = self.metas();
        let n: usize = self.block_meta.len();
        let mut low: usize = 0;
        let mut high: usize = n;
        proof {
            if strictly_sorted(self.entries()) {
                self.lemma_sorted_blocks();
                assert forall|i: int, j: int| 0 <= i < j < metas.len() implies lex_lt(
                    #[trigger] metas[i].first_key,
                    #[trigger] metas[j].first_key,
                ) by {
                    if metas[i].first_key != metas[i].last_key {
                        lemma_lex_transitive(
                            metas[i].first_key,
                            metas[i].last_key,
                            metas[j].first_key,
                        );
                    }
                }
            }
        }
        let ghost sorted = strictly_sorted(self.entries());
        while low < high
            invariant
                n == self.block_meta@.len(),
                metas == metas_view(self.block_meta@),
                target@ == key@,
                0 <= low <= high <= n,
                sorted ==> forall|i: int, j: int|
                    0 <= i < j < metas.len() ==> lex_lt(
                        #[trigger] metas[i].first_key,
                        #[trigger] metas[j].first_key,
                    ),
                sorted ==> forall|j: int|
                    0 <= j < low ==> lex_le((#[trigger] metas[j]).first_key, key@),
                sorted ==> forall|j: int|
                    high <= j < n ==> lex_lt(key@, (#[trigger] metas[j]).first_key),
            decreases high - low,
        {
            let mid: usize = low + (high - low) / 2;
            let ghost probe = metas[mid as int].first_key;
            match key_order(self.block_meta[mid].first_key.raw_ref(), target) {
                KeyOrder::After => {
                    proof {
                        if sorted {
                            assert forall|j: int| mid <= j < n implies lex_lt(
                                key@,
                                (#[trigger] metas[j]).first_key,
                            ) by {
                                if j > mid {
                                    lemma_lex_transitive(key@, probe, metas[j].first_key);
                                }
                            }
                        }
                    }
                    high = mid;
                },
                _ => {
                    proof {
                        if sorted {
                            assert forall|j: int| 0 <= j < mid + 1 implies lex_le(
                                (#[trigger] metas[j]).first_key,
                                key@,
                            ) by {
                                if j < mid {
                                    if probe != key@ {
                                        lemma_lex_transitive(metas[j].first_key, probe, key@);
                                    }
                                }
                            }
                        }
                    }
                    low = mid + 1;
                },
            }
        }
        if low == 0 {
            0
        } else {
            low - 1
        }
    }

    /// Reads block `block_idx` from the file and decodes it.
    pub fn read_block(&self, block_idx: usize) -> (r: Result<Arc<Block>, StorageError>)
        requires
            self.wf(),
            block_idx < self.metas().len(),
        ensures
            r is Ok,
            r->Ok_0.wf(),
            r->Ok_0.entries() == self.blocks()[block_idx as int],
    {
        let ghost metas = self.metas();
        let ghost end = self.meta_offset() as int;
        proof {
            reveal(encoded_ok);
        }
        assert(block_ok(self.file(), metas, end, block_idx as int));
        let offset: usize = self.block_meta[block_idx].offset;
        let offset_end: usize = if block_idx + 1 < self.block_meta.len() {
            self.block_meta[block_idx + 1].offset
        } else {
            self.block_meta_offset
        };
        let bytes = match self.file.read(offset, offset_end - offset) {
            Ok(bytes) => bytes,
            Err(e) => {
                return Err(e);
            },
        };
        match Block::decode(bytes.as_slice()) {
            Ok(block) => Ok(Arc::new(block)),
            Err(e) => Err(e),
        }
    }

    /// The block `block_idx`. A table of this library carries no cache, so
    /// the block is read and decoded on every call.
    pub fn read_block_cached(&self, block_idx: usize) -> (r: Result<Arc<Block>, StorageError>)
        requires
            self.wf(),
            block_idx < self.metas().len(),
        ensures
            r is Ok,
            r->Ok_0.wf(),
            r->Ok_0.entries() == self.blocks()[block_idx as int],
    {
        self.read_block(block_idx)
    }
}

} // verus!
