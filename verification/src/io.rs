//! The error of the standard library's readers and writers, which the
//! codecs and the archive hand on, and a byte source that is addressed by
//! absolute offsets.

use vstd::prelude::*;
use vstd::slice::slice_subrange;

verus! {

/// `std::io::Error`: it is carried through, and nothing is known of what it
/// holds.
#[verifier::external_type_specification]
#[verifier::external_body]
pub struct ExIoError(std::io::Error);

/// `std::io::Error::from` for `ErrorKind::UnexpectedEof`: the error of a
/// read that asks for more bytes than there are.
#[verifier::external_body]
pub(crate) fn unexpected_eof() -> std::io::Error {
    std::io::Error::from(std::io::ErrorKind::UnexpectedEof)
}

/// `std::io::Error::from` for `ErrorKind::InvalidInput`: the error of a
/// payload or an offset that the format has no room for.
#[verifier::external_body]
pub(crate) fn too_large() -> std::io::Error {
    std::io::Error::from(std::io::ErrorKind::InvalidInput)
}

/// A byte source that is read at absolute offsets, beside a cursor of its
/// own that only reading byte after byte moves.
pub struct ByteWindow<'a> {
    data: &'a [u8],
    cursor: usize,
}

/// What a [ByteWindow] holds: its bytes and where its cursor stands.
pub struct ByteWindowView {
    pub data: Seq<u8>,
    pub cursor: nat,
}

impl<'a> View for ByteWindow<'a> {
    type V = ByteWindowView;

    closed spec fn view(&self) -> ByteWindowView {
        ByteWindowView { data: self.data@, cursor: self.cursor as nat }
    }
}

/// The `len` bytes at `pos`, where the source holds them.
pub open spec fn range(data: Seq<u8>, pos: u64, len: u64) -> Option<Seq<u8>> {
    if pos + len <= data.len() {
        Some(data.subrange(pos as int, pos + len))
    } else {
        None
    }
}

impl<'a> ByteWindow<'a> {
    /// A window over `data` with its cursor at the start.
    pub fn new(data: &'a [u8]) -> (window: Self)
        ensures
            window@.data == data@,
            window@.cursor == 0,
    {
        ByteWindow { data, cursor: 0 }
    }

    /// Number of bytes in the source.
    pub fn len(&self) -> (len: usize)
        ensures
            len == self@.data.len(),
    {
        self.data.len()
    }

    /// Read a single byte at the cursor and move the cursor past it; past
    /// the last byte this is an error and the cursor stays.
    pub fn byte(&mut self) -> (byte: Result<u8, std::io::Error>)
        ensures
            final(self)@.data == old(self)@.data,
            old(self)@.cursor < old(self)@.data.len() ==> byte is Ok && byte->Ok_0 == old(
                self,
            )@.data[old(self)@.cursor as int] && final(self)@.cursor == old(self)@.cursor + 1,
            old(self)@.cursor >= old(self)@.data.len() ==> byte is Err && final(self)@.cursor
                == old(self)@.cursor,
    {
        if self.cursor < self.data.len() {
            let byte = self.data[self.cursor];
            self.cursor = self.cursor + 1;
            Ok(byte)
        } else {
            Err(unexpected_eof())
        }
    }

    /// Read a certain number of bytes from a position; the cursor stays
    /// where it is. Bytes that the source does not hold are an error.
    pub fn bytes_at(&self, pos: u64, len: u64) -> (bytes: Result<Vec<u8>, std::io::Error>)
        ensures
            match range(self@.data, pos, len) {
                Some(found) => bytes is Ok && bytes->Ok_0@ == found,
                None => bytes is Err,
            },
    {
        let size = self.data.len();
        if pos > size as u64 || len > size as u64 - pos {
            return Err(unexpected_eof());
        }
        let from = pos as usize;
        let to = from + len as usize;
        let mut bytes: Vec<u8> = Vec::new();
        bytes.extend_from_slice(slice_subrange(self.data, from, to));
        assert(bytes@ =~= self@.data.subrange(from as int, to as int));
        Ok(bytes)
    }

    /// Read a single byte at a certain position; the cursor stays where it
    /// is.
    pub fn byte_at(&self, pos: u64) -> (byte: Result<u8, std::io::Error>)
        ensures
            pos < self@.data.len() ==> byte is Ok && byte->Ok_0 == self@.data[pos as int],
            pos >= self@.data.len() ==> byte is Err,
    {
        let size = self.data.len();
        if pos >= size as u64 {
            return Err(unexpected_eof());
        }
        Ok(self.data[pos as usize])
    }
}

} // verus!
