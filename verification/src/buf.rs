//! `bytes::Bytes`, the shared byte buffer that carries message payloads, and
//! the few of its operations that the library calls.

use bytes::Bytes;
use vstd::prelude::*;

verus! {

#[verifier::external_type_specification]
#[verifier::external_body]
pub struct ExBytes(Bytes);

/// The bytes a `Bytes` value holds.
pub uninterp spec fn bytes_content(b: Bytes) -> Seq<u8>;

/// The contents of each buffer of `v`, in order.
pub open spec fn contents(v: Seq<Bytes>) -> Seq<Seq<u8>> {
    v.map_values(|b: Bytes| bytes_content(b))
}

/// Calls `Bytes::len`. Claimed: the number of bytes held.
#[verifier::external_body]
pub(crate) fn bytes_len(b: &Bytes) -> (n: usize)
    ensures
        n == bytes_content(*b).len(),
{
    b.len()
}

/// Calls `<Bytes as AsRef<[u8]>>::as_ref`. Claimed: a slice of exactly the bytes held.
#[verifier::external_body]
pub(crate) fn bytes_as_slice(b: &Bytes) -> (s: &[u8])
    ensures
        s@ == bytes_content(*b),
{
    b.as_ref()
}

/// Calls `Bytes::slice` with `start..end`. Claimed: a buffer holding the bytes
/// of `b` from `start` up to `end`; the bounds are checked, as `slice` panics
/// outside them.
#[verifier::external_body]
pub(crate) fn bytes_slice(b: &Bytes, start: usize, end: usize) -> (r: Bytes)
    requires
        start <= end <= bytes_content(*b).len(),
    ensures
        bytes_content(r) == bytes_content(*b).subrange(start as int, end as int),
{
    b.slice(start..end)
}

/// `Bytes::clone` (a new handle on the same shared buffer). Claimed: the copy
/// holds the same bytes.
pub assume_specification[ <Bytes as Clone>::clone ](b: &Bytes) -> (r: Bytes)
    ensures
        bytes_content(r) == bytes_content(*b),
;

} // verus!
