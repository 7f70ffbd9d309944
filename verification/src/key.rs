//! Keys: byte strings ordered lexicographically by their raw bytes.
//!
//! A key comes in three forms that differ only in who owns the bytes: a
//! growable buffer (`KeyVec`), a borrowed view (`KeySlice`) and an immutable
//! shared buffer (`KeyBytes`). All three have the same view, a `Seq<u8>`, and
//! are ordered by `lex_lt` on it.

use crate::wire::{bytes_as_slice, bytes_clone, bytes_contents, bytes_copy_from_slice};
use bytes::Bytes;
use vstd::prelude::*;
use vstd::slice::slice_to_vec;

verus! {

/// `a` comes strictly before `b` in lexicographic byte order: at the first
/// position where they differ `a` has the smaller byte, or `a` is a proper
/// prefix of `b`.
pub open spec fn lex_lt(a: Seq<u8>, b: Seq<u8>) -> bool
    decreases a.len(),
{
    if b.len() == 0 {
        false
    } else if a.len() == 0 {
        true
    } else if a[0] != b[0] {
        a[0] < b[0]
    } else {
        lex_lt(a.skip(1), b.skip(1))
    }
}

/// `a` comes before `b` or equals it.
pub open spec fn lex_le(a: Seq<u8>, b: Seq<u8>) -> bool {
    a == b || lex_lt(a, b)
}

/// No key comes before itself.
pub proof fn lemma_lex_irreflexive(a: Seq<u8>)
    ensures
        !lex_lt(a, a),
    decreases a.len(),
{
    if a.len() > 0 {
        lemma_lex_irreflexive(a.skip(1));
    }
}

/// Of two keys at most one comes before the other.
pub proof fn lemma_lex_asymmetric(a: Seq<u8>, b: Seq<u8>)
    ensures
        !(lex_lt(a, b) && lex_lt(b, a)),
    decreases a.len(),
{
    if a.len() > 0 && b.len() > 0 && a[0] == b[0] {
        lemma_lex_asymmetric(a.skip(1), b.skip(1));
    }
}

/// Two different keys are ordered one way or the other.
pub proof fn lemma_lex_total(a: Seq<u8>, b: Seq<u8>)
    ensures
        lex_lt(a, b) || a == b || lex_lt(b, a),
    decreases a.len(),
{
    if a.len() > 0 && b.len() > 0 && a[0] == b[0] {
        lemma_lex_total(a.skip(1), b.skip(1));
        if a.skip(1) == b.skip(1) {
            assert(a =~= seq![a[0]] + a.skip(1));
        }
    } else if a.len() == 0 && b.len() == 0 {
        assert(a =~= b);
    }
}

/// The order is transitive.
pub proof fn lemma_lex_transitive(a: Seq<u8>, b: Seq<u8>, c: Seq<u8>)
    requires
        lex_lt(a, b),
        lex_lt(b, c),
    ensures
        lex_lt(a, c),
    decreases a.len(),
{
    if a.len() > 0 && a[0] == b[0] && b[0] == c[0] {
        lemma_lex_transitive(a.skip(1), b.skip(1), c.skip(1));
    }
}

/// `lex_lt` followed by `lex_le` gives `lex_lt`.
pub proof fn lemma_lex_lt_le(a: Seq<u8>, b: Seq<u8>, c: Seq<u8>)
    requires
        lex_lt(a, b),
        lex_le(b, c),
    ensures
        lex_lt(a, c),
{
    if b != c {
        lemma_lex_transitive(a, b, c);
    }
}

/// How two keys stand to each other.
#[derive(Clone, Copy, Debug, PartialEq, Eq)]
pub enum KeyOrder {
    /// The first key comes before the second.
    Before,
    /// The keys hold the same bytes.
    Same,
    /// The first key comes after the second.
    After,
}

/// What `key_order` returns on `a` and `b`.
pub open spec fn key_order_of(a: Seq<u8>, b: Seq<u8>) -> KeyOrder {
    if lex_lt(a, b) {
        KeyOrder::Before
    } else if a == b {
        KeyOrder::Same
    } else {
        KeyOrder::After
    }
}

/// Compares two byte strings lexicographically.
pub fn key_order(a: &[u8], b: &[u8]) -> (r: KeyOrder)
    ensures
        r == key_order_of(a@, b@),
        r == KeyOrder::After <==> lex_lt(b@, a@),
{
    let mut i: usize = 0;
    assert(a@.skip(0) =~= a@ && b@.skip(0) =~= b@);
    while i < a.len() && i < b.len()
        invariant
            i <= a@.len(),
            i <= b@.len(),
            a@.take(i as int) == b@.take(i as int),
            lex_lt(a@, b@) == lex_lt(a@.skip(i as int), b@.skip(i as int)),
            lex_lt(b@, a@) == lex_lt(b@.skip(i as int), a@.skip(i as int)),
        decreases a@.len() - i,
    {
        let x: u8 = a[i];
        let y: u8 = b[i];
        proof {
            let sa = a@.skip(i as int);
            let sb = b@.skip(i as int);
            assert(sa.skip(1) =~= a@.skip(i + 1));
            assert(sb.skip(1) =~= b@.skip(i + 1));
        }
        if x < y {
            return KeyOrder::Before;
        }
        if x > y {
            return KeyOrder::After;
        }
        i = i + 1;
    }
    if a.len() < b.len() {
        KeyOrder::Before
    } else if a.len() == b.len() {
        KeyOrder::Same
    } else {
        KeyOrder::After
    }
}

/// A key over some holder `T` of its bytes.
///
/// The comparison operators that are derived for it order keys by their
/// bytes as well. Nothing is proved of them: verified code compares keys
/// with `key_order`.
#[derive(Debug, PartialEq, Eq, PartialOrd, Ord)]
pub struct Key<T>(pub T);

/// A key that borrows its bytes.
pub type KeySlice<'a> = Key<&'a [u8]>;

/// A key that owns a growable buffer.
pub type KeyVec = Key<Vec<u8>>;

/// A key that owns an immutable, shareable buffer.
pub type KeyBytes = Key<Bytes>;

impl<'a> View for Key<&'a [u8]> {
    type V = Seq<u8>;

    open spec fn view(&self) -> Seq<u8> {
        self.0@
    }
}

impl View for Key<Vec<u8>> {
    type V = Seq<u8>;

    open spec fn view(&self) -> Seq<u8> {
        self.0@
    }
}

impl View for Key<Bytes> {
    type V = Seq<u8>;

    open spec fn view(&self) -> Seq<u8> {
        bytes_contents(self.0)
    }
}

impl<'a> Key<&'a [u8]> {
    /// A key over the bytes of `slice`.
    pub fn from_slice(slice: &'a [u8]) -> (k: Self)
        ensures
            k@ == slice@,
    {
        Key(slice)
    }

    /// The bytes of the key.
    pub fn raw_ref(self) -> (s: &'a [u8])
        ensures
            s@ == self@,
    {
        self.0
    }

    /// The bytes of the key, giving the key up.
    pub fn into_inner(self) -> (s: &'a [u8])
        ensures
            s@ == self@,
    {
        self.0
    }

    /// Number of bytes in the key.
    pub fn len(&self) -> (n: usize)
        ensures
            n == self@.len(),
    {
        self.0.len()
    }

    /// Whether the key has no bytes.
    pub fn is_empty(&self) -> (b: bool)
        ensures
            b == (self@.len() == 0),
    {
        self.0.len() == 0
    }

    /// An owned copy of the key.
    pub fn to_key_vec(self) -> (k: KeyVec)
        ensures
            k@ == self@,
    {
        Key(slice_to_vec(self.0))
    }

    /// How this key stands to `other`.
    pub fn order(self, other: KeySlice<'_>) -> (r: KeyOrder)
        ensures
            r == key_order_of(self@, other@),
            r == KeyOrder::After <==> lex_lt(other@, self@),
    {
        key_order(self.0, other.0)
    }
}

impl Key<Vec<u8>> {
    /// The empty key.
    pub fn new() -> (k: Self)
        ensures
            k@ == Seq::<u8>::empty(),
    {
        Key(Vec::new())
    }

    /// A key that takes over the bytes of `key`.
    pub fn from_vec(key: Vec<u8>) -> (k: Self)
        ensures
            k@ == key@,
    {
        Key(key)
    }

    /// A borrowed view of the key.
    pub fn as_key_slice(&self) -> (k: KeySlice<'_>)
        ensures
            k@ == self@,
    {
        Key(self.0.as_slice())
    }

    /// The bytes of the key.
    pub fn raw_ref(&self) -> (s: &[u8])
        ensures
            s@ == self@,
    {
        self.0.as_slice()
    }

    /// The buffer of the key, giving the key up.
    pub fn into_inner(self) -> (v: Vec<u8>)
        ensures
            v@ == self@,
    {
        self.0
    }

    /// An immutable, shareable copy of the key.
    pub fn into_key_bytes(self) -> (k: KeyBytes)
        ensures
            k@ == self@,
    {
        Key(bytes_copy_from_slice(self.0.as_slice()))
    }

    /// Number of bytes in the key.
    pub fn len(&self) -> (n: usize)
        ensures
            n == self@.len(),
    {
        self.0.len()
    }

    /// Whether the key has no bytes.
    pub fn is_empty(&self) -> (b: bool)
        ensures
            b == (self@.len() == 0),
    {
        self.0.len() == 0
    }
}

impl Key<Bytes> {
    /// A key over the buffer `bytes`.
    pub fn from_bytes(bytes: Bytes) -> (k: Self)
        ensures
            k@ == bytes_contents(bytes),
    {
        Key(bytes)
    }

    /// A key holding a copy of `slice`.
    pub fn copy_from_slice(slice: &[u8]) -> (k: Self)
        ensures
            k@ == slice@,
    {
        Key(bytes_copy_from_slice(slice))
    }

    /// A borrowed view of the key.
    pub fn as_key_slice(&self) -> (k: KeySlice<'_>)
        ensures
            k@ == self@,
    {
        Key(bytes_as_slice(&self.0))
    }

    /// The bytes of the key.
    pub fn raw_ref(&self) -> (s: &[u8])
        ensures
            s@ == self@,
    {
        bytes_as_slice(&self.0)
    }

    /// Number of bytes in the key.
    pub fn len(&self) -> (n: usize)
        ensures
            n == self@.len(),
    {
        bytes_as_slice(&self.0).len()
    }

    /// Whether the key has no bytes.
    pub fn is_empty(&self) -> (b: bool)
        ensures
            b == (self@.len() == 0),
    {
        bytes_as_slice(&self.0).len() == 0
    }
}

impl Clone for Key<Bytes> {
    /// Another handle on the same key.
    fn clone(&self) -> (k: Self)
        ensures
            k@ == self@,
    {
        Key(bytes_clone(&self.0))
    }
}

impl Clone for Key<Vec<u8>> {
    /// A copy of the key.
    fn clone(&self) -> (k: Self)
        ensures
            k@ == self@,
    {
        Key(slice_to_vec(self.0.as_slice()))
    }
}

impl<'a> Clone for Key<&'a [u8]> {
    /// Another view of the same bytes.
    fn clone(&self) -> (k: Self)
        ensures
            k@ == self@,
    {
        Key(self.0)
    }
}

impl<'a> Copy for Key<&'a [u8]> {

}

} // verus!
