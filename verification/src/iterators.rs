//! The common contract of every reader of a sorted run.

use crate::error::StorageError;
use crate::key::{lex_lt, KeySlice};
use vstd::prelude::*;
use vstd::slice::slice_to_vec;

pub mod merge_iterator;
pub mod merge_spec;

verus! {

/// A key with its value, as the mathematical content of a stored pair.
pub struct Entry {
    pub key: Seq<u8>,
    pub value: Seq<u8>,
}

/// The keys of `s` increase strictly from each entry to the next.
pub open spec fn strictly_sorted(s: Seq<Entry>) -> bool {
    forall|i: int, j: int| 0 <= i < j < s.len() ==> lex_lt(#[trigger] s[i].key, #[trigger] s[j].key)
}

/// Some entry of `s` has the key `k`.
pub open spec fn has_key(s: Seq<Entry>, k: Seq<u8>) -> bool {
    exists|i: int| 0 <= i < s.len() && #[trigger] s[i].key == k
}

/// `p` is where a search for `k` lands in `s`: every entry before `p` has a
/// smaller key, and the entry at `p`, if there is one, does not.
pub open spec fn is_lower_bound(s: Seq<Entry>, k: Seq<u8>, p: int) -> bool {
    &&& 0 <= p <= s.len()
    &&& forall|i: int| 0 <= i < p ==> lex_lt(#[trigger] s[i].key, k)
    &&& forall|i: int| p <= i < s.len() ==> !lex_lt(#[trigger] s[i].key, k)
}

/// A forward cursor over key-value pairs.
///
/// `remaining` is what the cursor has yet to yield, the pair it stands on
/// first; the cursor is valid while that sequence is not empty. `wf` is the
/// cursor's own invariant: every method needs it and keeps it, except that a
/// failed `next` leaves the cursor unusable.
///
/// The readers of this library say what their `wf` and `remaining` are. A
/// reader from elsewhere that says nothing has no invariant, so that
/// verified code has nothing to rely on and cannot call it.
///
/// A reader whose `next` cannot fail says so with `infallible`; the readers
/// of blocks and tables do. Of a reader that does not say so, success of
/// `next` is never assumed.
pub trait StorageIterator {
    /// The cursor's invariant.
    open spec fn wf(&self) -> bool {
        false
    }

    /// The pairs from the current one on, in the order in which the cursor
    /// yields them.
    open spec fn remaining(&self) -> Seq<Entry> {
        Seq::empty()
    }

    /// `next` never fails on this cursor, now or after any number of moves.
    open spec fn infallible(&self) -> bool {
        false
    }

    /// The current value.
    fn value(&self) -> (v: &[u8])
        requires
            self.wf(),
            self.remaining().len() > 0,
        ensures
            v@ == self.remaining()[0].value,
    ;

    /// The current key.
    fn key(&self) -> (k: KeySlice<'_>)
        requires
            self.wf(),
            self.remaining().len() > 0,
        ensures
            k@ == self.remaining()[0].key,
    ;

    /// Whether the cursor stands on a pair.
    fn is_valid(&self) -> (b: bool)
        requires
            self.wf(),
        ensures
            b == (self.remaining().len() > 0),
    ;

    /// Moves to the next pair. May only be called on a valid cursor.
    fn next(&mut self) -> (r: Result<(), StorageError>)
        requires
            old(self).wf(),
            old(self).remaining().len() > 0,
        ensures
            r is Ok ==> final(self).wf() && final(self).remaining() == old(self).remaining().skip(1),
            old(self).infallible() ==> r is Ok && final(self).infallible(),
    ;
}

/// The pairs of `v` as mathematical entries.
pub open spec fn pairs_view(v: Seq<(Vec<u8>, Vec<u8>)>) -> Seq<Entry> {
    Seq::new(v.len(), |i: int| Entry { key: v[i].0@, value: v[i].1@ })
}

/// Reads `iter` to its end and returns copies of the pairs that it yields,
/// in order. Stops at the first failure of `iter` and returns it; there is
/// none if `iter` cannot fail. A cursor that is at its end already is not
/// moved, so that nothing can fail: it is left as it was, and no pairs are
/// returned.
pub fn collect_remaining<I: StorageIterator>(iter: &mut I) -> (r: Result<
    Vec<(Vec<u8>, Vec<u8>)>,
    StorageError,
>)
    requires
        old(iter).wf(),
    ensures
        r is Ok ==> final(iter).wf() && final(iter).remaining().len() == 0 && pairs_view(r->Ok_0@)
            == old(iter).remaining(),
        old(iter).remaining().len() == 0 ==> r is Ok && *final(iter) == *old(iter),
        old(iter).infallible() ==> r is Ok && final(iter).infallible(),
{
    let mut pairs: Vec<(Vec<u8>, Vec<u8>)> = Vec::new();
    while iter.is_valid()
        invariant
            iter.wf(),
            pairs_view(pairs@) + iter.remaining() == old(iter).remaining(),
            old(iter).remaining().len() == 0 ==> *iter == *old(iter),
            old(iter).infallible() ==> iter.infallible(),
        decreases iter.remaining().len(),
    {
        let key = slice_to_vec(iter.key().raw_ref());
        let value = slice_to_vec(iter.value());
        pairs.push((key, value));
        match iter.next() {
            Ok(()) => {},
            Err(e) => {
                return Err(e);
            },
        }
    }
    Ok(pairs)
}

} // verus!
