//! Building a block from key-value pairs under a size budget.

use crate::block::{
    block_wf, entries_of, entry_at, entry_encoding, entry_end, entry_len, key_len_at, value_len_at,
    Block, U16_LIMIT,
};
use crate::iterators::Entry;
use crate::key::KeySlice;
use crate::wire::{put_slice, put_u16, SIZEOF_U16};
use vstd::prelude::*;

verus! {

/// In a well-formed block the entry with index `i` starts at least `5 * i`
/// bytes into the data region: every entry before it has two length fields
/// and a key of at least one byte.
pub proof fn lemma_offsets_grow(data: Seq<u8>, offsets: Seq<u16>, i: int)
    requires
        block_wf(data, offsets),
        0 <= i < offsets.len(),
    ensures
        offsets[i] >= 5 * i,
        entry_end(data, offsets[i] as int) >= 5 * (i + 1),
    decreases i,
{
    if i > 0 {
        lemma_offsets_grow(data, offsets, i - 1);
    }
}

/// Appending the encoding of an entry to the data region of a well-formed
/// block, and its offset to the offsets, gives a well-formed block with that
/// entry behind the others.
pub proof fn lemma_append_entry(data: Seq<u8>, offsets: Seq<u16>, e: Entry)
    requires
        block_wf(data, offsets),
        data.len() <= U16_LIMIT,
        0 < e.key.len() <= U16_LIMIT,
        e.value.len() <= U16_LIMIT,
    ensures
        block_wf(data + entry_encoding(e), offsets.push(data.len() as u16)),
        entries_of(data + entry_encoding(e), offsets.push(data.len() as u16)) == entries_of(
            data,
            offsets,
        ).push(e),
{
    let d = data.len() as int;
    let grown = data + entry_encoding(e);
    let n = offsets.len() as int;
    if n > 0 {
        lemma_offsets_grow(data, offsets, n - 1);
    }
    assert(entry_at(grown, d).key =~= e.key);
    assert(entry_at(grown, d).value =~= e.value);
    // The entries that were there are read as before.
    assert forall|i: int| 0 <= i < n implies {
        let at = #[trigger] offsets[i] as int;
        &&& key_len_at(grown, at) == key_len_at(data, at)
        &&& value_len_at(grown, at) == value_len_at(data, at)
        &&& entry_at(grown, at) == entry_at(data, at)
    } by {
        let at = offsets[i] as int;
        assert(entry_at(grown, at).key =~= entry_at(data, at).key);
        assert(entry_at(grown, at).value =~= entry_at(data, at).value);
    }
}

/// Writes the encoding of the entry with this key and value behind `data`.
fn append_entry(data: &mut Vec<u8>, key: &[u8], value: &[u8])
    requires
        key@.len() <= U16_LIMIT,
        value@.len() <= U16_LIMIT,
    ensures
        final(data)@ == old(data)@ + entry_encoding(Entry { key: key@, value: value@ }),
{
    put_u16(data, key.len() as u16);
    put_slice(data, key);
    put_u16(data, value.len() as u16);
    put_slice(data, value);
}

/// Collects key-value pairs into one block.
pub struct BlockBuilder {
    /// Where each entry starts in `data`.
    offsets: Vec<u16>,
    /// The encoded entries, one behind the other.
    data: Vec<u8>,
    /// The size that the encoded block should not exceed.
    block_size: usize,
}

impl BlockBuilder {
    /// The data region so far.
    pub closed spec fn data(&self) -> Seq<u8> {
        self.data@
    }

    /// The offsets so far.
    pub closed spec fn offsets(&self) -> Seq<u16> {
        self.offsets@
    }

    /// The size that the encoded block should not exceed.
    pub closed spec fn budget(&self) -> nat {
        self.block_size as nat
    }

    /// The pairs added so far.
    pub open spec fn entries(&self) -> Seq<Entry> {
        entries_of(self.data(), self.offsets())
    }

    /// Size of the block if it were encoded now: the data region, two bytes
    /// for each offset, and two bytes for the number of entries.
    pub open spec fn encoded_size(&self) -> nat {
        self.data().len() + 2 * self.offsets().len() + 2
    }

    /// The builder's invariant: what it holds is a well-formed block, and
    /// that block is within the budget unless it consists of a single entry.
    pub open spec fn wf(&self) -> bool {
        &&& block_wf(self.data(), self.offsets())
        &&& self.offsets().len() <= 1 || self.encoded_size() <= self.budget()
    }

    /// Whether `add` takes a pair with this key and value. An empty builder
    /// takes any pair. Otherwise the pair, with the two bytes of its offset,
    /// must fit in the budget, and the pair must start at an offset that a
    /// `u16` can hold.
    pub open spec fn admits(&self, key: Seq<u8>, value: Seq<u8>) -> bool {
        self.offsets().len() == 0 || (self.encoded_size() + entry_len(key, value) + 2
            <= self.budget() && self.data().len() <= U16_LIMIT)
    }

    /// The size bound: whatever pairs were added, and whether they were taken
    /// or not, the block is within its budget or holds a single entry. Every
    /// builder that `new` made and `add` worked on is well formed.
    pub proof fn lemma_size_bound(&self)
        requires
            self.wf(),
        ensures
            self.entries().len() <= 1 || self.encoded_size() <= self.budget(),
    {
    }

    /// A builder for a block of at most `block_size` bytes.
    pub fn new(block_size: usize) -> (b: Self)
        ensures
            b.wf(),
            b.budget() == block_size,
            b.data() == Seq::<u8>::empty(),
            b.offsets() == Seq::<u16>::empty(),
    {
        Self { offsets: Vec::new(), data: Vec::new(), block_size }
    }

    /// Size of the block if it were encoded now.
    fn size(&self) -> (n: usize)
        requires
            self.wf(),
        ensures
            n == self.encoded_size(),
            n <= 4 * U16_LIMIT + 6 + 2 * U16_LIMIT,
    {
        self.offsets.len() * SIZEOF_U16 + self.data.len() + SIZEOF_U16
    }

    /// Adds a pair behind those that are there. Returns `false`, and leaves
    /// the builder as it was, when the block is full.
    #[must_use]
    pub fn add(&mut self, key: KeySlice, value: &[u8]) -> (ok: bool)
        requires
            old(self).wf(),
            0 < key@.len() <= U16_LIMIT,
            value@.len() <= U16_LIMIT,
        ensures
            final(self).wf(),
            final(self).budget() == old(self).budget(),
            ok == old(self).admits(key@, value@),
            ok ==> final(self).entries() == old(self).entries().push(
                Entry { key: key@, value: value@ },
            ),
            ok ==> final(self).data() == old(self).data() + entry_encoding(
                Entry { key: key@, value: value@ },
            ),
            ok ==> final(self).offsets() == old(self).offsets().push(old(self).data().len() as u16),
            !ok ==> final(self).data() == old(self).data(),
            !ok ==> final(self).offsets() == old(self).offsets(),
            final(self).offsets().len() <= 1 || final(self).encoded_size() <= final(self).budget(),
    {
        let entry_size: usize = SIZEOF_U16 + key.len() + SIZEOF_U16 + value.len() + SIZEOF_U16;
        if !self.is_empty() {
            if self.size() + entry_size > self.block_size || self.data.len() > U16_LIMIT {
                return false;
            }
        }
        proof {
            lemma_append_entry(self.data@, self.offsets@, Entry { key: key@, value: value@ });
        }
        self.offsets.push(self.data.len() as u16);
        append_entry(&mut self.data, key.into_inner(), value);
        true
    }

    /// Whether no pair has been added.
    pub fn is_empty(&self) -> (b: bool)
        ensures
            b == (self.data().len() == 0),
            self.wf() ==> b == (self.entries().len() == 0),
    {
        self.data.is_empty()
    }

    /// The block that holds the pairs added.
    pub fn build(self) -> (b: Block)
        ensures
            b.data() == self.data(),
            b.offsets() == self.offsets(),
    {
        Block { data: self.data, offsets: self.offsets }
    }
}

} // verus!
