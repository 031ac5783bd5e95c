//! Byte ranges of the backing storage, the little-endian trailer, and the
//! errors that stand for what the storage cannot give.

use vstd::prelude::*;
use vstd::bytes::{spec_u64_from_le_bytes, spec_u64_to_le_bytes};
use byteorder::{LittleEndian, ReadBytesExt, WriteBytesExt};
use crate::io::ByteWindow;

verus! {

/// `byteorder::WriteBytesExt::write_u64` in little-endian order, into a
/// vector: appends the eight bytes of `value`, lowest first.
#[verifier::external_body]
pub(crate) fn write_u64_le(out: &mut Vec<u8>, value: u64) -> (done: Result<(), std::io::Error>)
    ensures
        done is Ok,
        final(out)@ == old(out)@ + spec_u64_to_le_bytes(value),
{
    out.write_u64::<LittleEndian>(value)
}

/// `byteorder::ReadBytesExt::read_u64` in little-endian order, from the
/// front of a slice: the number made of the first eight bytes, lowest
/// first, or an error where there are fewer.
#[verifier::external_body]
pub(crate) fn read_u64_le(bytes: &[u8]) -> (value: Result<u64, std::io::Error>)
    ensures
        bytes@.len() < 8 ==> value is Err,
        bytes@.len() >= 8 ==> value is Ok && value->Ok_0 == spec_u64_from_le_bytes(
            bytes@.take(8),
        ),
{
    let mut rest = bytes;
    rest.read_u64::<LittleEndian>()
}

/// The `size` bytes at `off`, where the storage holds them.
pub open spec fn stored(reader: Seq<u8>, off: u64, size: u32) -> Option<Seq<u8>> {
    if off + size <= reader.len() {
        Some(reader.subrange(off as int, off + size))
    } else {
        None
    }
}

/// Reads the `size` bytes at `off`; asking for bytes that the storage does
/// not hold is an error.
pub fn read_range(reader: &[u8], off: u64, size: u32) -> (bytes: Result<Vec<u8>, std::io::Error>)
    ensures
        match stored(reader@, off, size) {
            Some(range) => bytes is Ok && bytes->Ok_0@ == range,
            None => bytes is Err,
        },
{
    ByteWindow::new(reader).bytes_at(off, size as u64)
}

} // verus!
