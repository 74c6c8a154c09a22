//! The trusted boundary around [`bytes::Bytes`], the shared immutable byte
//! chunk that a [`crate::BufList`] stores.
//!
//! `Bytes` is a reference-counted view over a byte range with O(1) shared
//! sub-range extraction. Verus sees it as an opaque type; the spec function
//! [`chunk_data`] names the bytes a chunk holds, and each wrapper below
//! states, over that name, what the one `bytes` call in its body does.

use vstd::prelude::*;

verus! {

/// Declares `bytes::Bytes` so it can stand in signatures and fields.
#[verifier::external_type_specification]
#[verifier::external_body]
pub struct ExBytes(bytes::Bytes);

/// The bytes a chunk holds, in order.
pub uninterp spec fn chunk_data(b: bytes::Bytes) -> Seq<u8>;

/// Relies on `Bytes::len`: the number of bytes in the chunk.
#[verifier::external_body]
pub fn chunk_len(b: &bytes::Bytes) -> (r: usize)
    ensures
        r == chunk_data(*b).len(),
{
    b.len()
}

/// Relies on `Bytes::new`: an empty chunk.
#[verifier::external_body]
pub fn chunk_new() -> (r: bytes::Bytes)
    ensures
        chunk_data(r) == Seq::<u8>::empty(),
{
    bytes::Bytes::new()
}

/// Relies on `<Bytes as Clone>::clone`: a second handle to the same bytes
/// (a reference-count bump, no copy).
#[verifier::external_body]
pub fn chunk_clone(b: &bytes::Bytes) -> (r: bytes::Bytes)
    ensures
        chunk_data(r) == chunk_data(*b),
{
    b.clone()
}

/// Relies on `<Bytes as From<Vec<u8>>>::from`: a chunk holding exactly the
/// vector's bytes.
#[verifier::external_body]
pub fn chunk_from_vec(v: Vec<u8>) -> (r: bytes::Bytes)
    ensures
        chunk_data(r) == v@,
{
    bytes::Bytes::from(v)
}

/// Relies on slice indexing through `<Bytes as Deref>::deref`: the byte at
/// index `i`.
#[verifier::external_body]
pub fn chunk_byte(b: &bytes::Bytes, i: usize) -> (r: u8)
    requires
        i < chunk_data(*b).len(),
    ensures
        r == chunk_data(*b)[i as int],
{
    b[i]
}

/// Relies on `<Bytes as Deref>::deref` and range indexing: a borrowed view
/// of the chunk's bytes from `start` on.
#[verifier::external_body]
pub fn chunk_suffix<'a>(b: &'a bytes::Bytes, start: usize) -> (r: &'a [u8])
    requires
        start <= chunk_data(*b).len(),
    ensures
        r@ == chunk_data(*b).skip(start as int),
{
    &b[start..]
}

/// Relies on `Bytes::split_to`: splits off the first `n` bytes as a chunk
/// sharing the same storage (no copy), leaving the rest behind.
#[verifier::external_body]
pub fn chunk_split_to(b: &mut bytes::Bytes, n: usize) -> (r: bytes::Bytes)
    requires
        n <= chunk_data(*old(b)).len(),
    ensures
        chunk_data(r) == chunk_data(*old(b)).take(n as int),
        chunk_data(*final(b)) == chunk_data(*old(b)).skip(n as int),
{
    b.split_to(n)
}

/// Relies on `<Bytes as Buf>::advance`: drops the first `n` bytes in place
/// (no copy).
#[verifier::external_body]
pub fn chunk_advance(b: &mut bytes::Bytes, n: usize)
    requires
        n <= chunk_data(*old(b)).len(),
    ensures
        chunk_data(*final(b)) == chunk_data(*old(b)).skip(n as int),
{
    bytes::Buf::advance(b, n)
}

} // verus!
