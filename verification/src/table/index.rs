//! The block index of a table, and how it is encoded.
//!
//! The index starts with the number of its items as a `u32` and holds for
//! each block
//!
//! ```text
//! | offset: u32 | first key length: u16 | first key | last key length: u16 | last key |
//! ```

use crate::block::U16_LIMIT;
use crate::error::StorageError;
use crate::key::KeyBytes;
use crate::table::layout::MetaView;
use crate::table::{BlockMeta, U32_LIMIT};
use crate::wire::{
    lemma_u16_round_trip, lemma_u32_round_trip, put_slice, put_u16, put_u32, read_u16, read_u32,
    u16_at, u16_be, u32_at, u32_be,
};
use vstd::prelude::*;
use vstd::slice::slice_subrange;

verus! {

/// The views of the items of an index.
pub open spec fn metas_view(metas: Seq<BlockMeta>) -> Seq<MetaView> {
    Seq::new(metas.len(), |i: int| metas[i]@)
}

/// The bytes of one item of the index.
#[verifier::opaque]
pub open spec fn meta_encoding(m: MetaView) -> Seq<u8> {
    u32_be(m.offset as u32) + u16_be(m.first_key.len() as u16) + m.first_key + u16_be(
        m.last_key.len() as u16,
    ) + m.last_key
}

/// The bytes of the items of the index, one behind the other.
pub open spec fn metas_encoding(metas: Seq<MetaView>) -> Seq<u8>
    decreases metas.len(),
{
    if metas.len() == 0 {
        Seq::empty()
    } else {
        metas_encoding(metas.drop_last()) + meta_encoding(metas.last())
    }
}

/// The bytes of the index: the number of its items, then the items.
pub open spec fn index_encoding(metas: Seq<MetaView>) -> Seq<u8> {
    u32_be(metas.len() as u32) + metas_encoding(metas)
}

/// The offset and the key lengths of `m` fit the fields that hold them.
pub open spec fn meta_representable(m: MetaView) -> bool {
    m.offset <= U32_LIMIT && m.first_key.len() <= U16_LIMIT && m.last_key.len() <= U16_LIMIT
}

/// The index can be encoded.
pub open spec fn index_representable(metas: Seq<MetaView>) -> bool {
    &&& metas.len() <= U32_LIMIT
    &&& forall|i: int| 0 <= i < metas.len() ==> meta_representable(#[trigger] metas[i])
}

impl BlockMeta {
    /// Writes the index `block_meta` behind `buf`.
    pub fn encode_block_meta(block_meta: &[BlockMeta], buf: &mut Vec<u8>)
        requires
            index_representable(metas_view(block_meta@)),
        ensures
            final(buf)@ == old(buf)@ + index_encoding(metas_view(block_meta@)),
    {
        let ghost metas = metas_view(block_meta@);
        let n: usize = block_meta.len();
        put_u32(buf, n as u32);
        let mut i: usize = 0;
        while i < n
            invariant
                n == block_meta@.len(),
                metas == metas_view(block_meta@),
                index_representable(metas),
                i <= n,
                buf@ == old(buf)@ + u32_be(n as u32) + metas_encoding(metas.take(i as int)),
            decreases n - i,
        {
            let meta = &block_meta[i];
            put_u32(buf, meta.offset as u32);
            put_u16(buf, meta.first_key.len() as u16);
            put_slice(buf, meta.first_key.raw_ref());
            put_u16(buf, meta.last_key.len() as u16);
            put_slice(buf, meta.last_key.raw_ref());
            proof {
                reveal(meta_encoding);
                assert(metas.take(i + 1).drop_last() =~= metas.take(i as int));
            }
            i = i + 1;
        }
        assert(metas.take(n as int) =~= metas);
    }
}

/// Length of the first key of the item that starts at `at`.
pub open spec fn first_len_at(bytes: Seq<u8>, at: int) -> int {
    u16_at(bytes, at + 4) as int
}

/// Length of the last key of the item that starts at `at`.
pub open spec fn last_len_at(bytes: Seq<u8>, at: int) -> int {
    u16_at(bytes, at + 6 + first_len_at(bytes, at)) as int
}

/// Where the item that starts at `at` ends.
pub open spec fn meta_end(bytes: Seq<u8>, at: int) -> int {
    at + 8 + first_len_at(bytes, at) + last_len_at(bytes, at)
}

/// An item starts at `at` and lies within `bytes`.
pub open spec fn meta_fits(bytes: Seq<u8>, at: int) -> bool {
    &&& 0 <= at
    &&& at + 6 <= bytes.len()
    &&& at + 8 + first_len_at(bytes, at) <= bytes.len()
    &&& meta_end(bytes, at) <= bytes.len()
}

/// The item that starts at `at`.
pub open spec fn meta_at(bytes: Seq<u8>, at: int) -> MetaView {
    MetaView {
        offset: u32_at(bytes, at) as nat,
        first_key: bytes.subrange(at + 6, at + 6 + first_len_at(bytes, at)),
        last_key: bytes.subrange(at + 8 + first_len_at(bytes, at), meta_end(bytes, at)),
    }
}

/// The `count` items that start at `at` and reach the end of `bytes`, if
/// `bytes` holds just these.
pub open spec fn metas_at(bytes: Seq<u8>, at: int, count: nat) -> Option<Seq<MetaView>>
    decreases count,
{
    if count == 0 {
        if at == bytes.len() {
            Some(Seq::empty())
        } else {
            None
        }
    } else if !meta_fits(bytes, at) {
        None
    } else {
        match metas_at(bytes, meta_end(bytes, at), (count - 1) as nat) {
            Some(rest) => Some(seq![meta_at(bytes, at)] + rest),
            None => None,
        }
    }
}

/// The index that `bytes` encode, if they encode one.
pub open spec fn index_decoding(bytes: Seq<u8>) -> Option<Seq<MetaView>> {
    if bytes.len() < 4 {
        None
    } else {
        metas_at(bytes, 4, u32_at(bytes, 0) as nat)
    }
}

/// `front`, and behind it the items of `rest`, if there are any.
pub open spec fn behind(front: Seq<MetaView>, rest: Option<Seq<MetaView>>) -> Option<
    Seq<MetaView>,
> {
    match rest {
        Some(rest) => Some(front + rest),
        None => None,
    }
}

/// The encoded items start with the first one.
pub proof fn lemma_metas_encoding_front(metas: Seq<MetaView>)
    requires
        metas.len() > 0,
    ensures
        metas_encoding(metas) == meta_encoding(metas[0]) + metas_encoding(metas.skip(1)),
    decreases metas.len(),
{
    let init = metas.drop_last();
    if metas.len() == 1 {
        assert(metas_encoding(init) =~= Seq::<u8>::empty());
    } else {
        lemma_metas_encoding_front(init);
        assert(metas.skip(1).drop_last() =~= init.skip(1));
        assert(metas.skip(1).last() == metas.last());
        assert(metas_encoding(metas) =~= meta_encoding(metas[0]) + metas_encoding(metas.skip(1)));
    }
}

/// Where the encoding of an item stands in `bytes`, that item is read.
pub proof fn lemma_meta_round_trip(bytes: Seq<u8>, at: int, m: MetaView)
    requires
        meta_representable(m),
        0 <= at,
        at + meta_encoding(m).len() <= bytes.len(),
        bytes.subrange(at, at + meta_encoding(m).len()) == meta_encoding(m),
    ensures
        meta_fits(bytes, at),
        meta_at(bytes, at) == m,
        meta_end(bytes, at) == at + meta_encoding(m).len(),
{
    reveal(meta_encoding);
    let enc = meta_encoding(m);
    let part = bytes.subrange(at, at + enc.len());
    let fl = m.first_key.len() as int;
    let ll = m.last_key.len() as int;
    lemma_u32_round_trip(m.offset as u32);
    lemma_u16_round_trip(fl as u16);
    lemma_u16_round_trip(ll as u16);
    assert(enc.len() == 8 + fl + ll);
    assert(enc[4] == u16_be(fl as u16)[0] && enc[5] == u16_be(fl as u16)[1]);
    assert(enc[6 + fl] == u16_be(ll as u16)[0] && enc[7 + fl] == u16_be(ll as u16)[1]);
    assert(bytes[at] == part[0] && bytes[at + 1] == part[1] && bytes[at + 2] == part[2] && bytes[at
        + 3] == part[3]);
    assert(bytes[at + 4] == part[4] && bytes[at + 5] == part[5]);
    assert(first_len_at(bytes, at) == fl);
    assert(bytes[at + 6 + fl] == part[6 + fl] && bytes[at + 7 + fl] == part[7 + fl]);
    assert forall|j: int| 0 <= j < fl implies bytes[at + 6 + j] == m.first_key[j] by {
        assert(bytes[at + 6 + j] == part[6 + j]);
    }
    assert forall|j: int| 0 <= j < ll implies bytes[at + 8 + fl + j] == m.last_key[j] by {
        assert(bytes[at + 8 + fl + j] == part[8 + fl + j]);
    }
    assert(meta_at(bytes, at).first_key =~= m.first_key);
    assert(meta_at(bytes, at).last_key =~= m.last_key);
}

/// Behind any bytes, the encoded items of an index are read back as they
/// were written.
pub proof fn lemma_metas_round_trip(prefix: Seq<u8>, metas: Seq<MetaView>)
    requires
        forall|i: int| 0 <= i < metas.len() ==> meta_representable(#[trigger] metas[i]),
    ensures
        metas_at(prefix + metas_encoding(metas), prefix.len() as int, metas.len()) == Some(metas),
    decreases metas.len(),
{
    let bytes = prefix + metas_encoding(metas);
    let at = prefix.len() as int;
    if metas.len() > 0 {
        let m = metas[0];
        let rest = metas.skip(1);
        let enc = meta_encoding(m);
        let tail = metas_encoding(rest);
        assert(bytes == prefix + enc + tail && bytes.subrange(at, at + enc.len()) == enc) by {
            lemma_metas_encoding_front(metas);
            assert(bytes =~= prefix + enc + tail);
            assert(bytes.subrange(at, at + enc.len()) =~= enc);
        }
        assert(meta_fits(bytes, at) && meta_at(bytes, at) == m && meta_end(bytes, at) == at
            + enc.len()) by {
            lemma_meta_round_trip(bytes, at, m);
        }
        assert(metas_at(bytes, at + enc.len(), rest.len()) == Some(rest)) by {
            assert forall|i: int| 0 <= i < rest.len() implies meta_representable(
                #[trigger] rest[i],
            ) by {
                assert(rest[i] == metas[i + 1]);
            }
            lemma_metas_round_trip(prefix + enc, rest);
        }
    }
}

/// Decoding an encoded index gives back the index.
pub proof fn lemma_index_round_trip(metas: Seq<MetaView>)
    requires
        index_representable(metas),
    ensures
        index_decoding(index_encoding(metas)) == Some(metas),
{
    let count = u32_be(metas.len() as u32);
    lemma_metas_round_trip(count, metas);
}

/// The items that `metas_at` reads can be encoded.
pub proof fn lemma_decoded_representable(bytes: Seq<u8>, at: int, count: nat)
    requires
        metas_at(bytes, at, count) is Some,
    ensures
        metas_at(bytes, at, count)->Some_0.len() == count,
        forall|i: int|
            0 <= i < count ==> meta_representable(#[trigger] metas_at(bytes, at, count)->Some_0[i]),
    decreases count,
{
    if count > 0 {
        lemma_decoded_representable(bytes, meta_end(bytes, at), (count - 1) as nat);
    }
}

impl BlockMeta {
    /// Reads an index from `buf`. Fails with `Corruption` unless `buf` holds
    /// the number of items and then just that many items.
    pub fn decode_block_meta(buf: &[u8]) -> (r: Result<Vec<BlockMeta>, StorageError>)
        ensures
            index_decoding(buf@) is Some ==> r is Ok && metas_view(r->Ok_0@) == index_decoding(
                buf@,
            )->Some_0,
            index_decoding(buf@) is None ==> r == Err::<Vec<BlockMeta>, StorageError>(
                StorageError::Corruption,
            ),
    {
        let len: usize = buf.len();
        if len < 4 {
            return Err(StorageError::Corruption);
        }
        let count: usize = read_u32(buf, 0) as usize;
        let mut block_meta: Vec<BlockMeta> = Vec::new();
        let mut pos: usize = 4;
        let mut i: usize = 0;
        assert(behind(metas_view(block_meta@), metas_at(buf@, 4, count as nat)) =~= index_decoding(
            buf@,
        ));
        while i < count
            invariant
                len == buf@.len(),
                4 <= pos <= len,
                i <= count,
                behind(metas_view(block_meta@), metas_at(buf@, pos as int, (count - i) as nat))
                    == index_decoding(buf@),
            decreases count - i,
        {
            if len - pos < 6 {
                return Err(StorageError::Corruption);
            }
            let offset: usize = read_u32(buf, pos) as usize;
            let first_len: usize = read_u16(buf, pos + 4) as usize;
            if len - pos - 6 < first_len + 2 {
                return Err(StorageError::Corruption);
            }
            let first_key = KeyBytes::copy_from_slice(
                slice_subrange(buf, pos + 6, pos + 6 + first_len),
            );
            let last_len: usize = read_u16(buf, pos + 6 + first_len) as usize;
            if len - pos - 8 - first_len < last_len {
                return Err(StorageError::Corruption);
            }
            let last_start: usize = pos + 8 + first_len;
            let last_key = KeyBytes::copy_from_slice(
                slice_subrange(buf, last_start, last_start + last_len),
            );
            let meta = BlockMeta { offset, first_key, last_key };
            block_meta.push(meta);
            pos = last_start + last_len;
            i = i + 1;
        }
        if pos != len {
            return Err(StorageError::Corruption);
        }
        Ok(block_meta)
    }
}

} // verus!
