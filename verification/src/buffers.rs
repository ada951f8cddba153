//! The shared byte buffers that carry payloads.

use bytes::{Bytes, BytesMut};
use vstd::prelude::*;

verus! {

/// `bytes::Bytes`: an immutable, cheaply cloned buffer.
#[verifier::external_type_specification]
#[verifier::external_body]
pub struct ExBytes(bytes::Bytes);

/// `bytes::BytesMut`: a growing buffer that blocks are cut from.
#[verifier::external_type_specification]
#[verifier::external_body]
pub struct ExBytesMut(bytes::BytesMut);

/// The bytes that a shared buffer holds.
pub uninterp spec fn held(buffer: Bytes) -> Seq<u8>;

/// The bytes that each buffer of a list holds.
pub open spec fn contents(buffers: Seq<Bytes>) -> Seq<Seq<u8>> {
    Seq::new(buffers.len(), |i: int| held(buffers[i]))
}

/// The bytes that a growing buffer holds.
pub uninterp spec fn staged(buffer: BytesMut) -> Seq<u8>;

/// `Bytes::len`: the number of bytes held.
#[verifier::external_body]
pub(crate) fn buffer_len(buffer: &Bytes) -> (len: usize)
    ensures
        len == held(*buffer).len(),
{
    buffer.len()
}

/// `Bytes` dereferenced to a slice: the slice shows exactly the bytes held.
#[verifier::external_body]
pub(crate) fn buffer_slice(buffer: &Bytes) -> (slice: &[u8])
    ensures
        slice@ == held(*buffer),
{
    &buffer[..]
}

/// `Bytes::clone`: the clone holds the same bytes.
#[verifier::external_body]
pub(crate) fn buffer_clone(buffer: &Bytes) -> (twin: Bytes)
    ensures
        held(twin) == held(*buffer),
{
    buffer.clone()
}

/// The buffers of a list, cloned.
pub(crate) fn buffers_clone(buffers: &Vec<Bytes>) -> (twins: Vec<Bytes>)
    ensures
        contents(twins@) == contents(buffers@),
{
    let mut twins: Vec<Bytes> = Vec::new();
    for at in 0..buffers.len()
        invariant
            twins@.len() == at,
            at <= buffers@.len(),
            forall|i: int| 0 <= i < at ==> held(#[trigger] twins@[i]) == held(buffers@[i]),
    {
        twins.push(buffer_clone(&buffers[at]));
    }
    twins
}

/// `Bytes::slice`: the sub-range `from..to` of the bytes held.
#[verifier::external_body]
pub(crate) fn buffer_part(buffer: &Bytes, from: usize, to: usize) -> (part: Bytes)
    requires
        from <= to <= held(*buffer).len(),
    ensures
        held(part) == held(*buffer).subrange(from as int, to as int),
{
    buffer.slice(from..to)
}

/// `Bytes::from(Vec<u8>)`: the buffer holds the bytes of the vector.
#[verifier::external_body]
pub(crate) fn buffer_of(bytes: Vec<u8>) -> (buffer: Bytes)
    ensures
        held(buffer) == bytes@,
{
    Bytes::from(bytes)
}

/// `BytesMut::len`: the number of bytes held.
#[verifier::external_body]
pub(crate) fn staged_len(buffer: &BytesMut) -> (len: usize)
    ensures
        len == staged(*buffer).len(),
{
    buffer.len()
}

/// `BytesMut::split_to`: the first `at` bytes leave the growing buffer as a buffer of
/// their own, the rest stay.
#[verifier::external_body]
pub(crate) fn staged_split(buffer: &mut BytesMut, at: usize) -> (front: BytesMut)
    requires
        at <= staged(*old(buffer)).len(),
    ensures
        staged(front) == staged(*old(buffer)).subrange(0, at as int),
        staged(*final(buffer)) == staged(*old(buffer)).subrange(
            at as int,
            staged(*old(buffer)).len() as int,
        ),
{
    buffer.split_to(at)
}

/// `BytesMut::freeze`: the bytes of a growing buffer as a shared one.
#[verifier::external_body]
pub(crate) fn staged_freeze(buffer: BytesMut) -> (frozen: Bytes)
    ensures
        held(frozen) == staged(buffer),
{
    buffer.freeze()
}

} // verus!
