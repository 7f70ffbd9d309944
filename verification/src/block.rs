//! The block: the smallest unit of reading and caching, a run of key-value
//! pairs with an index of where each pair starts.
//!
//! A block is encoded as its data region, the offsets of its entries as
//! big-endian `u16`, and the number of entries as a big-endian `u16`:
//!
//! ```text
//! | entry | entry | ... | offset | offset | ... | number of entries |
//! ```
//!
//! and each entry as
//!
//! ```text
//! | key length: u16 | key | value length: u16 | value |
//! ```

use crate::error::StorageError;
use crate::iterators::Entry;
use crate::wire::{bytes_contents, bytes_from_vec, put_u16, read_u16, u16_at, u16_be, SIZEOF_U16};
use bytes::Bytes;
use vstd::prelude::*;
use vstd::slice::{slice_subrange, slice_to_vec};

pub mod builder;
pub mod iterator;

verus! {

/// The largest number that a `u16` field holds.
pub const U16_LIMIT: usize = 0xFFFF;

/// Number of bytes that an entry with this key and value takes in the data
/// region.
pub open spec fn entry_len(key: Seq<u8>, value: Seq<u8>) -> nat {
    4 + key.len() + value.len()
}

/// The bytes of an entry in the data region.
pub open spec fn entry_encoding(e: Entry) -> Seq<u8> {
    u16_be(e.key.len() as u16) + e.key + u16_be(e.value.len() as u16) + e.value
}

/// Length of the key of the entry that starts at `at`.
pub open spec fn key_len_at(data: Seq<u8>, at: int) -> int {
    u16_at(data, at) as int
}

/// Length of the value of the entry that starts at `at`.
pub open spec fn value_len_at(data: Seq<u8>, at: int) -> int {
    u16_at(data, at + 2 + key_len_at(data, at)) as int
}

/// Where the value of the entry that starts at `at` begins.
pub open spec fn value_start(data: Seq<u8>, at: int) -> int {
    at + 4 + key_len_at(data, at)
}

/// Where the entry that starts at `at` ends.
pub open spec fn entry_end(data: Seq<u8>, at: int) -> int {
    value_start(data, at) + value_len_at(data, at)
}

/// An entry starts at `at` and lies within `data`.
pub open spec fn entry_fits(data: Seq<u8>, at: int) -> bool {
    &&& 0 <= at
    &&& at + 2 <= data.len()
    &&& value_start(data, at) <= data.len()
    &&& entry_end(data, at) <= data.len()
}

/// The entry that starts at `at`.
pub open spec fn entry_at(data: Seq<u8>, at: int) -> Entry {
    Entry {
        key: data.subrange(at + 2, at + 2 + key_len_at(data, at)),
        value: data.subrange(value_start(data, at), entry_end(data, at)),
    }
}

/// The entries to which `offsets` point in `data`.
pub open spec fn entries_of(data: Seq<u8>, offsets: Seq<u16>) -> Seq<Entry> {
    Seq::new(offsets.len(), |i: int| entry_at(data, offsets[i] as int))
}

/// `offsets` point to entries that fill `data` from its first byte to its
/// last, one behind the other, each with a key that is not empty.
pub open spec fn block_wf(data: Seq<u8>, offsets: Seq<u16>) -> bool {
    &&& offsets.len() <= U16_LIMIT
    &&& forall|i: int|
        0 <= i < offsets.len() ==> entry_fits(data, #[trigger] offsets[i] as int) && key_len_at(
            data,
            offsets[i] as int,
        ) > 0
    &&& forall|i: int, j: int|
        #![trigger offsets[i], offsets[j]]
        0 <= i && j == i + 1 && j < offsets.len() ==> entry_end(data, offsets[i] as int)
            == offsets[j]
    &&& offsets.len() == 0 ==> data.len() == 0
    &&& offsets.len() > 0 ==> offsets[0] == 0 && entry_end(data, offsets.last() as int)
        == data.len()
}

/// The offsets as they stand in an encoded block: two bytes each, most
/// significant first.
pub open spec fn offsets_encoding(offsets: Seq<u16>) -> Seq<u8> {
    Seq::new(2 * offsets.len(), |j: int| u16_be(offsets[j / 2])[j % 2])
}

/// The bytes of an encoded block.
pub open spec fn block_encoding(data: Seq<u8>, offsets: Seq<u16>) -> Seq<u8> {
    data + offsets_encoding(offsets) + u16_be(offsets.len() as u16)
}

/// The number of entries that the last two bytes of an encoded block give.
pub open spec fn encoded_count(bytes: Seq<u8>) -> int {
    u16_at(bytes, bytes.len() - 2) as int
}

/// `bytes` is long enough for the number of entries that it gives.
pub open spec fn decodable(bytes: Seq<u8>) -> bool {
    bytes.len() >= 2 && bytes.len() >= 2 + 2 * encoded_count(bytes)
}

/// Where the offsets start in an encoded block.
pub open spec fn offsets_start(bytes: Seq<u8>) -> int {
    bytes.len() - 2 - 2 * encoded_count(bytes)
}

/// The data region of an encoded block.
pub open spec fn decoded_data(bytes: Seq<u8>) -> Seq<u8> {
    bytes.subrange(0, offsets_start(bytes))
}

/// The offsets of an encoded block.
pub open spec fn decoded_offsets(bytes: Seq<u8>) -> Seq<u16> {
    Seq::new(encoded_count(bytes) as nat, |i: int| u16_at(bytes, offsets_start(bytes) + 2 * i))
}

/// Decoding an encoded block gives back its data region and its offsets.
pub proof fn lemma_decode_encode(data: Seq<u8>, offsets: Seq<u16>)
    requires
        offsets.len() <= U16_LIMIT,
    ensures
        decodable(block_encoding(data, offsets)),
        decoded_data(block_encoding(data, offsets)) == data,
        decoded_offsets(block_encoding(data, offsets)) == offsets,
{
}

/// A sorted run of key-value pairs, held as the data region and the offsets
/// of the entries in it.
pub struct Block {
    pub(crate) data: Vec<u8>,
    pub(crate) offsets: Vec<u16>,
}

impl Block {
    /// The data region.
    pub closed spec fn data(&self) -> Seq<u8> {
        self.data@
    }

    /// The offsets of the entries in the data region.
    pub closed spec fn offsets(&self) -> Seq<u16> {
        self.offsets@
    }

    /// The key-value pairs of the block, in the order of their offsets.
    pub open spec fn entries(&self) -> Seq<Entry> {
        entries_of(self.data(), self.offsets())
    }

    /// The block is as a builder leaves it: its entries fill the data region
    /// one behind the other, and each has a key that is not empty.
    pub open spec fn wf(&self) -> bool {
        block_wf(self.data(), self.offsets())
    }

    /// The bytes of the encoded block.
    pub open spec fn encoding(&self) -> Seq<u8> {
        block_encoding(self.data(), self.offsets())
    }

    /// Number of entries in the block.
    pub fn num_entries(&self) -> (n: usize)
        ensures
            n == self.offsets().len(),
    {
        self.offsets.len()
    }

    /// The key of the entry with index `idx`.
    pub fn key_at(&self, idx: usize) -> (k: &[u8])
        requires
            self.wf(),
            idx < self.offsets().len(),
        ensures
            k@ == self.entries()[idx as int].key,
    {
        let data = self.data.as_slice();
        let at: usize = self.offsets[idx] as usize;
        let key_len: usize = read_u16(data, at) as usize;
        slice_subrange(data, at + 2, at + 2 + key_len)
    }

    /// Encodes the block: the data region, the offsets and the number of
    /// entries.
    pub fn encode(&self) -> (r: Bytes)
        requires
            self.offsets().len() <= U16_LIMIT,
        ensures
            bytes_contents(r) == self.encoding(),
    {
        let mut buf = slice_to_vec(self.data.as_slice());
        let n: usize = self.offsets.len();
        let mut i: usize = 0;
        while i < n
            invariant
                n == self.offsets@.len(),
                i <= n,
                buf@ == self.data@ + offsets_encoding(self.offsets@.take(i as int)),
            decreases n - i,
        {
            put_u16(&mut buf, self.offsets[i]);
            proof {
                let more = self.offsets@.take(i + 1);
                let grown = self.data@ + offsets_encoding(more);
                assert forall|j: int| 0 <= j < buf@.len() implies buf@[j] == grown[j] by {
                    let x = j - self.data@.len();
                    assert(x < 0 || 0 <= x / 2 <= i);
                }
            }
            i = i + 1;
        }
        put_u16(&mut buf, n as u16);
        bytes_from_vec(buf)
    }

    /// Decodes a block. Fails with `Corruption` if `data` is too short to
    /// hold the number of entries that its last two bytes give; nothing else
    /// is checked.
    pub fn decode(data: &[u8]) -> (r: Result<Self, StorageError>)
        ensures
            decodable(data@) ==> r is Ok && r->Ok_0.data() == decoded_data(data@)
                && r->Ok_0.offsets() == decoded_offsets(data@),
            !decodable(data@) ==> r == Err::<Self, StorageError>(StorageError::Corruption),
    {
        let len: usize = data.len();
        if len < SIZEOF_U16 {
            return Err(StorageError::Corruption);
        }
        let num_entries: usize = read_u16(data, len - SIZEOF_U16) as usize;
        if (len - SIZEOF_U16) / SIZEOF_U16 < num_entries {
            return Err(StorageError::Corruption);
        }
        let start: usize = len - SIZEOF_U16 - num_entries * SIZEOF_U16;
        let mut offsets: Vec<u16> = Vec::new();
        let mut i: usize = 0;
        while i < num_entries
            invariant
                i <= num_entries,
                num_entries == encoded_count(data@),
                start == offsets_start(data@),
                len == data@.len(),
                start + 2 * num_entries + 2 == len,
                offsets@ == decoded_offsets(data@).take(i as int),
            decreases num_entries - i,
        {
            let offset: u16 = read_u16(data, start + i * SIZEOF_U16);
            offsets.push(offset);
            i = i + 1;
        }
        let data = slice_to_vec(slice_subrange(data, 0, start));
        Ok(Self { data, offsets })
    }

    /// Whether the block is well formed. A block that was decoded from bytes
    /// of unknown origin is to be checked before it is read.
    pub fn is_well_formed(&self) -> (b: bool)
        ensures
            b == self.wf(),
    {
        let n: usize = self.offsets.len();
        let len: usize = self.data.len();
        if n > U16_LIMIT {
            return false;
        }
        let data = self.data.as_slice();
        let mut pos: usize = 0;
        let mut i: usize = 0;
        while i < n
            invariant
                n == self.offsets@.len(),
                n <= U16_LIMIT,
                len == self.data@.len(),
                data@ == self.data@,
                i <= n,
                pos <= len,
                forall|j: int|
                    0 <= j < i ==> entry_fits(self.data@, #[trigger] self.offsets@[j] as int)
                        && key_len_at(self.data@, self.offsets@[j] as int) > 0,
                forall|j: int, h: int|
                    #![trigger self.offsets@[j], self.offsets@[h]]
                    0 <= j && h == j + 1 && h < i ==> entry_end(self.data@, self.offsets@[j] as int)
                        == self.offsets@[h],
                i == 0 ==> pos == 0,
                i > 0 ==> self.offsets@[0] == 0 && pos == entry_end(
                    self.data@,
                    self.offsets@[i - 1] as int,
                ),
            decreases n - i,
        {
            let offset: usize = self.offsets[i] as usize;
            if offset != pos {
                return false;
            }
            if len - pos < 2 {
                return false;
            }
            let key_len: usize = read_u16(data, pos) as usize;
            if key_len == 0 {
                return false;
            }
            if len - pos - 2 < key_len + 2 {
                return false;
            }
            let value_len: usize = read_u16(data, pos + 2 + key_len) as usize;
            if len - pos - 4 - key_len < value_len {
                return false;
            }
            pos = pos + 4 + key_len + value_len;
            i = i + 1;
        }
        pos == len
    }
}

} // verus!
