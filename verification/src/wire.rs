//! Big-endian integer fields and byte buffers.
//!
//! Every integer of the on-disk format is written and read through the
//! `bytes` crate. The functions marked `external_body` are the only places
//! where that crate is called. Their bodies are not verified: each states
//! what the call does in terms of the specification functions of this
//! module, and the rest of the library is proved from these statements. A
//! `Vec` grows as needed; as in vstd's specification of `Vec`, allocation
//! is taken to succeed.

use bytes::{Buf, BufMut, Bytes};
use vstd::prelude::*;
use vstd::slice::slice_subrange;

verus! {

/// Width of an encoded `u16` field.
pub const SIZEOF_U16: usize = 2;

/// Width of an encoded `u32` field.
pub const SIZEOF_U32: usize = 4;

/// The two bytes of `n`, most significant first.
pub open spec fn u16_be(n: u16) -> Seq<u8> {
    seq![(n / 256) as u8, (n % 256) as u8]
}

/// The number whose big-endian bytes are `hi`, `lo`.
pub open spec fn u16_from_be(hi: u8, lo: u8) -> u16 {
    (hi * 256 + lo) as u16
}

/// The four bytes of `n`, most significant first.
pub open spec fn u32_be(n: u32) -> Seq<u8> {
    seq![
        (n / 0x100_0000) as u8,
        ((n / 0x1_0000) % 256) as u8,
        ((n / 0x100) % 256) as u8,
        (n % 256) as u8,
    ]
}

/// The number whose big-endian bytes are `b0`, `b1`, `b2`, `b3`.
pub open spec fn u32_from_be(b0: u8, b1: u8, b2: u8, b3: u8) -> u32 {
    (b0 * 0x100_0000 + b1 * 0x1_0000 + b2 * 0x100 + b3) as u32
}

/// The big-endian `u16` stored at `at` in `s`.
pub open spec fn u16_at(s: Seq<u8>, at: int) -> u16 {
    u16_from_be(s[at], s[at + 1])
}

/// The big-endian `u32` stored at `at` in `s`.
pub open spec fn u32_at(s: Seq<u8>, at: int) -> u32 {
    u32_from_be(s[at], s[at + 1], s[at + 2], s[at + 3])
}

/// Reading back what `u16_be` wrote gives the number again.
pub proof fn lemma_u16_round_trip(n: u16)
    ensures
        u16_be(n).len() == 2,
        u16_from_be(u16_be(n)[0], u16_be(n)[1]) == n,
{
}

/// Reading back what `u32_be` wrote gives the number again.
pub proof fn lemma_u32_round_trip(n: u32)
    ensures
        u32_be(n).len() == 4,
        u32_from_be(u32_be(n)[0], u32_be(n)[1], u32_be(n)[2], u32_be(n)[3]) == n,
{
}

/// `bytes::BufMut::put_u16` on a `Vec<u8>`: appends the two bytes of `n`,
/// most significant first, and leaves what was there untouched.
#[verifier::external_body]
pub(crate) fn put_u16(buf: &mut Vec<u8>, n: u16)
    ensures
        final(buf)@ == old(buf)@ + u16_be(n),
{
    buf.put_u16(n)
}

/// `bytes::BufMut::put_u32` on a `Vec<u8>`: appends the four bytes of `n`,
/// most significant first, and leaves what was there untouched.
#[verifier::external_body]
pub(crate) fn put_u32(buf: &mut Vec<u8>, n: u32)
    ensures
        final(buf)@ == old(buf)@ + u32_be(n),
{
    buf.put_u32(n)
}

/// `bytes::BufMut::put_slice` on a `Vec<u8>`: appends the bytes of `src` in
/// order and leaves what was there untouched.
#[verifier::external_body]
pub(crate) fn put_slice(buf: &mut Vec<u8>, src: &[u8])
    ensures
        final(buf)@ == old(buf)@ + src@,
{
    buf.put_slice(src)
}

/// `bytes::Buf::get_u16` on a byte slice: the big-endian number held by its
/// first two bytes. The call panics on a shorter slice, which `requires`
/// leaves out.
#[verifier::external_body]
pub(crate) fn get_u16(src: &[u8]) -> (n: u16)
    requires
        src@.len() >= 2,
    ensures
        n == u16_at(src@, 0),
{
    let mut cursor = src;
    cursor.get_u16()
}

/// `bytes::Buf::get_u32` on a byte slice: the big-endian number held by its
/// first four bytes. The call panics on a shorter slice, which `requires`
/// leaves out.
#[verifier::external_body]
pub(crate) fn get_u32(src: &[u8]) -> (n: u32)
    requires
        src@.len() >= 4,
    ensures
        n == u32_at(src@, 0),
{
    let mut cursor = src;
    cursor.get_u32()
}

/// The big-endian `u16` at `at` in `data`.
pub fn read_u16(data: &[u8], at: usize) -> (n: u16)
    requires
        at + 2 <= data.len(),
    ensures
        n == u16_at(data@, at as int),
{
    let field = slice_subrange(data, at, at + SIZEOF_U16);
    get_u16(field)
}

/// The big-endian `u32` at `at` in `data`.
pub fn read_u32(data: &[u8], at: usize) -> (n: u32)
    requires
        at + 4 <= data.len(),
    ensures
        n == u32_at(data@, at as int),
{
    let field = slice_subrange(data, at, at + SIZEOF_U32);
    get_u32(field)
}

/// `bytes::Bytes`, an immutable byte buffer that is cheap to share.
#[verifier::external_type_specification]
#[verifier::external_body]
pub struct ExBytes(Bytes);

/// The bytes that a `bytes::Bytes` holds, in order.
pub uninterp spec fn bytes_contents(b: Bytes) -> Seq<u8>;

/// `bytes::Bytes::copy_from_slice`: a buffer holding a copy of `data`.
#[verifier::external_body]
pub(crate) fn bytes_copy_from_slice(data: &[u8]) -> (b: Bytes)
    ensures
        bytes_contents(b) == data@,
{
    Bytes::copy_from_slice(data)
}

/// `<bytes::Bytes as From<Vec<u8>>>::from`: a buffer holding the bytes of
/// `data`.
#[verifier::external_body]
pub(crate) fn bytes_from_vec(data: Vec<u8>) -> (b: Bytes)
    ensures
        bytes_contents(b) == data@,
{
    Bytes::from(data)
}

/// `<bytes::Bytes as AsRef<[u8]>>::as_ref`: the bytes of the buffer as a
/// slice.
#[verifier::external_body]
pub(crate) fn bytes_as_slice(b: &Bytes) -> (s: &[u8])
    ensures
        s@ == bytes_contents(*b),
{
    b.as_ref()
}

/// `<bytes::Bytes as Clone>::clone`: another handle on the same bytes.
#[verifier::external_body]
pub(crate) fn bytes_clone(b: &Bytes) -> (c: Bytes)
    ensures
        bytes_contents(c) == bytes_contents(*b),
{
    b.clone()
}

} // verus!
