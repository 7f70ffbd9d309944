//! How the blocks of a table lie in its file, as mathematics.
//!
//! A table file is its blocks, encoded one behind the other, then the block
//! index, then the four bytes of the offset at which the index starts. The
//! index gives for each block the offset at which it starts and its first and
//! last key; a block ends where the next one starts, the last one where the
//! index starts.

use crate::block::{block_encoding, block_wf, decodable, decoded_data, decoded_offsets, entries_of,
    lemma_decode_encode};
use crate::iterators::{strictly_sorted, Entry};
use crate::key::lex_lt;
use vstd::prelude::*;
use vstd::seq_lib::lemma_flatten_concat;

verus! {

/// What the index says of one block.
pub struct MetaView {
    /// Where the block starts in the file.
    pub offset: nat,
    /// The key of its first entry.
    pub first_key: Seq<u8>,
    /// The key of its last entry.
    pub last_key: Seq<u8>,
}

/// Where block `i` ends, in a file whose blocks end at `end`.
pub open spec fn block_end(metas: Seq<MetaView>, end: int, i: int) -> int {
    if i + 1 < metas.len() {
        metas[i + 1].offset as int
    } else {
        end
    }
}

/// The encoded block `i`.
pub open spec fn block_bytes(file: Seq<u8>, metas: Seq<MetaView>, end: int, i: int) -> Seq<u8> {
    file.subrange(metas[i].offset as int, block_end(metas, end, i))
}

/// The entries of an encoded block.
pub open spec fn encoded_entries(bytes: Seq<u8>) -> Seq<Entry> {
    entries_of(decoded_data(bytes), decoded_offsets(bytes))
}

/// `bytes` decode to a well-formed block with at least one entry.
#[verifier::opaque]
pub open spec fn encoded_ok(bytes: Seq<u8>) -> bool {
    &&& decodable(bytes)
    &&& block_wf(decoded_data(bytes), decoded_offsets(bytes))
    &&& decoded_offsets(bytes).len() > 0
}

/// The entries of block `i`.
pub open spec fn block_entries(file: Seq<u8>, metas: Seq<MetaView>, end: int, i: int) -> Seq<
    Entry,
> {
    encoded_entries(block_bytes(file, metas, end, i))
}

/// Block `i` lies within the first `end` bytes of the file, decodes to a
/// well-formed block with at least one entry, and has the first and last key
/// that the index gives for it.
pub open spec fn block_ok(file: Seq<u8>, metas: Seq<MetaView>, end: int, i: int) -> bool {
    let bytes = block_bytes(file, metas, end, i);
    &&& metas[i].offset < block_end(metas, end, i) <= end
    &&& encoded_ok(bytes)
    &&& encoded_entries(bytes).len() > 0
    &&& metas[i].first_key == encoded_entries(bytes)[0].key
    &&& metas[i].last_key == encoded_entries(bytes).last().key
}

/// The encoding of a well-formed block with at least one entry decodes to
/// that block.
pub proof fn lemma_encoded_block(data: Seq<u8>, offsets: Seq<u16>)
    requires
        block_wf(data, offsets),
        offsets.len() > 0,
    ensures
        encoded_ok(block_encoding(data, offsets)),
        encoded_entries(block_encoding(data, offsets)) == entries_of(data, offsets),
{
    reveal(encoded_ok);
    lemma_decode_encode(data, offsets);
}

/// The first `end` bytes of the file are the blocks that the index lists,
/// one behind the other.
pub open spec fn blocks_ok(file: Seq<u8>, metas: Seq<MetaView>, end: int) -> bool {
    &&& 0 <= end <= file.len()
    &&& metas.len() == 0 ==> end == 0
    &&& metas.len() > 0 ==> metas[0].offset == 0
    &&& forall|i: int| 0 <= i < metas.len() ==> #[trigger] block_ok(file, metas, end, i)
}

/// The entries of each block of the file.
pub open spec fn blocks_of(file: Seq<u8>, metas: Seq<MetaView>, end: int) -> Seq<Seq<Entry>> {
    Seq::new(metas.len(), |i: int| block_entries(file, metas, end, i))
}

/// Appending an encoded block to a file that consists of blocks, and its
/// entry to the index, gives a file that consists of blocks: those that were
/// there, unchanged, and the new one behind them.
pub proof fn lemma_push_block(
    file: Seq<u8>,
    metas: Seq<MetaView>,
    data: Seq<u8>,
    offsets: Seq<u16>,
    meta: MetaView,
)
    requires
        blocks_ok(file, metas, file.len() as int),
        block_wf(data, offsets),
        offsets.len() > 0,
        meta.offset == file.len(),
        meta.first_key == entries_of(data, offsets)[0].key,
        meta.last_key == entries_of(data, offsets).last().key,
    ensures
        blocks_ok(
            file + block_encoding(data, offsets),
            metas.push(meta),
            (file + block_encoding(data, offsets)).len() as int,
        ),
        blocks_of(
            file + block_encoding(data, offsets),
            metas.push(meta),
            (file + block_encoding(data, offsets)).len() as int,
        ) == blocks_of(file, metas, file.len() as int).push(entries_of(data, offsets)),
{
    let enc = block_encoding(data, offsets);
    let grown = file + enc;
    let more = metas.push(meta);
    let end = grown.len() as int;
    let old_end = file.len() as int;
    let n = metas.len() as int;
    lemma_encoded_block(data, offsets);
    assert(enc.len() > 0);
    assert forall|i: int| 0 <= i < n implies block_bytes(grown, more, end, i) == block_bytes(
        file,
        metas,
        old_end,
        i,
    ) && #[trigger] block_ok(grown, more, end, i) by {
        assert(block_ok(file, metas, old_end, i));
        assert(more[i] == metas[i]);
        if i + 1 < n {
            assert(more[i + 1] == metas[i + 1]);
        }
        assert(block_end(more, end, i) == block_end(metas, old_end, i));
        assert(block_bytes(grown, more, end, i) =~= block_bytes(file, metas, old_end, i));
    }
    assert(block_bytes(grown, more, end, n) =~= enc);
    assert(block_ok(grown, more, end, n));
    assert forall|i: int| 0 <= i < more.len() implies blocks_of(grown, more, end)[i] == blocks_of(
        file,
        metas,
        old_end,
    ).push(entries_of(data, offsets))[i] by {
        if i < n {
            assert(block_ok(grown, more, end, i));
        }
    }
    assert(blocks_of(grown, more, end) =~= blocks_of(file, metas, old_end).push(
        entries_of(data, offsets),
    ));
}

/// Bytes behind the blocks of a file do not change the blocks.
pub proof fn lemma_file_tail(file: Seq<u8>, tail: Seq<u8>, metas: Seq<MetaView>, end: int)
    requires
        blocks_ok(file, metas, end),
    ensures
        blocks_ok(file + tail, metas, end),
        blocks_of(file + tail, metas, end) == blocks_of(file, metas, end),
{
    let grown = file + tail;
    assert forall|i: int| 0 <= i < metas.len() implies block_bytes(grown, metas, end, i)
        == block_bytes(file, metas, end, i) by {
        assert(block_ok(file, metas, end, i));
        assert(block_bytes(grown, metas, end, i) =~= block_bytes(file, metas, end, i));
    }
    assert forall|i: int| 0 <= i < metas.len() implies #[trigger] block_ok(grown, metas, end, i) by {
        assert(block_ok(file, metas, end, i));
    }
    assert(blocks_of(grown, metas, end) =~= blocks_of(file, metas, end));
}

/// Number of entries in the runs before run `i`.
pub open spec fn entries_before(runs: Seq<Seq<Entry>>, i: int) -> nat {
    runs.take(i).flatten().len()
}

/// The runs from `i` on, one behind the other, are run `i` and then the runs
/// behind it.
pub proof fn lemma_flatten_from(runs: Seq<Seq<Entry>>, i: int)
    requires
        0 <= i < runs.len(),
    ensures
        runs.skip(i).flatten() == runs[i] + runs.skip(i + 1).flatten(),
{
    assert(runs.skip(i).drop_first() =~= runs.skip(i + 1));
}

/// All runs, one behind the other, are the runs before `i` and then those
/// from `i` on.
pub proof fn lemma_flatten_split(runs: Seq<Seq<Entry>>, i: int)
    requires
        0 <= i <= runs.len(),
    ensures
        runs.flatten() == runs.take(i).flatten() + runs.skip(i).flatten(),
        runs.flatten().skip(entries_before(runs, i) as int) == runs.skip(i).flatten(),
{
    lemma_flatten_concat(runs.take(i), runs.skip(i));
    assert(runs =~= runs.take(i) + runs.skip(i));
    assert(runs.flatten().skip(entries_before(runs, i) as int) =~= runs.skip(i).flatten());
}

/// The runs up to and with run `i` hold the entries of the runs before it
/// and its own.
pub proof fn lemma_entries_before_next(runs: Seq<Seq<Entry>>, i: int)
    requires
        0 <= i < runs.len(),
    ensures
        entries_before(runs, i + 1) == entries_before(runs, i) + runs[i].len(),
{
    runs.take(i).lemma_flatten_push(runs[i]);
    assert(runs.take(i + 1) =~= runs.take(i).push(runs[i]));
}

/// Later runs start later.
pub proof fn lemma_entries_before_monotonic(runs: Seq<Seq<Entry>>, i: int, j: int)
    requires
        0 <= i <= j <= runs.len(),
    ensures
        entries_before(runs, i) <= entries_before(runs, j),
    decreases j - i,
{
    if i < j {
        lemma_entries_before_next(runs, j - 1);
        lemma_entries_before_monotonic(runs, i, j - 1);
    }
}

/// Entry `p` of run `i` is entry `entries_before(runs, i) + p` of the runs
/// taken together.
pub proof fn lemma_flatten_index(runs: Seq<Seq<Entry>>, i: int, p: int)
    requires
        0 <= i < runs.len(),
        0 <= p < runs[i].len(),
    ensures
        entries_before(runs, i) + p < runs.flatten().len(),
        runs.flatten()[entries_before(runs, i) + p] == runs[i][p],
{
    lemma_flatten_split(runs, i);
    lemma_flatten_from(runs, i);
}

/// Every entry of the runs taken together is an entry of one of the runs.
pub proof fn lemma_flatten_locate(runs: Seq<Seq<Entry>>, g: int) -> (r: (int, int))
    requires
        0 <= g < runs.flatten().len(),
    ensures
        0 <= r.0 < runs.len(),
        0 <= r.1 < runs[r.0].len(),
        g == entries_before(runs, r.0) + r.1,
        runs.flatten()[g] == runs[r.0][r.1],
{
    let r = lemma_locate_from(runs, g, 0);
    lemma_flatten_index(runs, r.0, r.1);
    r
}

proof fn lemma_locate_from(runs: Seq<Seq<Entry>>, g: int, i: int) -> (r: (int, int))
    requires
        0 <= i <= runs.len(),
        entries_before(runs, i) <= g < runs.flatten().len(),
    ensures
        0 <= r.0 < runs.len(),
        0 <= r.1 < runs[r.0].len(),
        g == entries_before(runs, r.0) + r.1,
    decreases runs.len() - i,
{
    if i == runs.len() {
        assert(runs.take(i) =~= runs);
        (0, 0)
    } else {
        lemma_entries_before_next(runs, i);
        if g < entries_before(runs, i) + runs[i].len() {
            (i, g - entries_before(runs, i))
        } else {
            lemma_locate_from(runs, g, i + 1)
        }
    }
}

/// In runs that are sorted when taken together, every entry of a run comes
/// before every entry of a later run, and each run is sorted.
pub proof fn lemma_sorted_runs(runs: Seq<Seq<Entry>>)
    requires
        strictly_sorted(runs.flatten()),
    ensures
        forall|i: int| 0 <= i < runs.len() ==> strictly_sorted(#[trigger] runs[i]),
        forall|i: int, p: int, j: int, q: int|
            0 <= i < j < runs.len() && 0 <= p < runs[i].len() && 0 <= q < runs[j].len() ==> lex_lt(
                #[trigger] runs[i][p].key,
                #[trigger] runs[j][q].key,
            ),
{
    let all = runs.flatten();
    assert forall|i: int| 0 <= i < runs.len() implies strictly_sorted(#[trigger] runs[i]) by {
        let r = runs[i];
        assert forall|p: int, q: int| 0 <= p < q < r.len() implies lex_lt(
            #[trigger] r[p].key,
            #[trigger] r[q].key,
        ) by {
            lemma_flatten_index(runs, i, p);
            lemma_flatten_index(runs, i, q);
            let b = entries_before(runs, i) as int;
            assert(lex_lt(all[b + p].key, all[b + q].key));
        }
    }
    assert forall|i: int, p: int, j: int, q: int|
        0 <= i < j < runs.len() && 0 <= p < runs[i].len() && 0 <= q < runs[j].len() implies lex_lt(
        #[trigger] runs[i][p].key,
        #[trigger] runs[j][q].key,
    ) by {
        lemma_flatten_index(runs, i, p);
        lemma_flatten_index(runs, j, q);
        lemma_entries_before_next(runs, i);
        lemma_entries_before_monotonic(runs, i + 1, j);
        let a = entries_before(runs, i) + p;
        let b = entries_before(runs, j) + q;
        assert(lex_lt(all[a].key, all[b].key));
    }
}

} // verus!
