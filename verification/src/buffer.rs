//! What the library knows of `vortex_buffer::BitBuffer`: its backing bytes, the bit offset at
//! which it starts in them, and its length in bits. The contents are the bits those three
//! describe.

use vortex_buffer::BitBuffer;
use vstd::prelude::*;

use crate::bits::packed_bits;

verus! {

/// `vortex_buffer::BitBuffer`, a bit string packed into bytes. Opaque: what is known of one is
/// what the items below say.
#[verifier::external_type_specification]
#[verifier::external_body]
pub struct ExBitBuffer(BitBuffer);

/// The bytes that back `buf`: what `buf.inner().as_slice()` returns.
pub uninterp spec fn backing_bytes_of(buf: BitBuffer) -> Seq<u8>;

/// The bit of the backing bytes at which `buf` starts: what `buf.offset()` returns.
pub uninterp spec fn offset_of(buf: BitBuffer) -> usize;

/// The length of `buf` in bits: what `buf.len()` returns.
pub uninterp spec fn len_of(buf: BitBuffer) -> usize;

/// The bits that `buf` holds.
pub open spec fn buffer_bits(buf: BitBuffer) -> Seq<bool> {
    packed_bits(backing_bytes_of(buf), offset_of(buf) as int, len_of(buf) as nat)
}

/// `BitBuffer::len` reads the field that holds the length of the buffer in bits, so the result
/// depends on the buffer alone.
pub assume_specification[ BitBuffer::len ](buf: &BitBuffer) -> (len: usize)
    ensures
        len == len_of(*buf),
;

/// `BitBuffer::offset` reads the field that holds the bit offset of the buffer into its backing
/// bytes, so the result depends on the buffer alone.
pub assume_specification[ BitBuffer::offset ](buf: &BitBuffer) -> (offset: usize)
    ensures
        offset == offset_of(*buf),
;

/// `BitBuffer::inner` borrows the `ByteBuffer` that backs the buffer, and `Buffer::as_slice` views
/// it as a slice. The contract claims that the slice holds the backing bytes of the buffer, which
/// no borrow of it changes.
#[verifier::external_body]
pub(crate) fn backing_bytes(buf: &BitBuffer) -> (bytes: &[u8])
    ensures
        bytes@ == backing_bytes_of(*buf),
{
    buf.inner().as_slice()
}

} // verus!
