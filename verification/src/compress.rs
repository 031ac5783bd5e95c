//! Compression codecs: a byte-aligned LZ77 variant and a bit-packed LZSS
//! variant, sharing one sliding-window match search.

use vstd::prelude::*;

pub mod bitio;
pub mod lz77;
pub mod window;

verus! {

/// How a codec trades window size against speed.
#[derive(Debug, PartialEq, Eq, PartialOrd, Ord, Clone, Copy, Structural)]
pub enum Optimize {
    /// Optimize for large files
    Ultra,
    /// Big files, not huge
    High,
    /// Optimize for best performance across all files
    Average,
    /// Optimize for many small files
    Less,
}

/// One interface over the codecs: a name, compression of a buffer into a
/// writer, and the way back.
pub trait Compressor {
    type Error;

    /// The stream that `data` is compressed to.
    spec fn encoding(data: Seq<u8>, opts: Optimize) -> Seq<u8>;

    /// The bytes that `stream` is decompressed to, where it is well formed.
    spec fn decoding(stream: Seq<u8>, opts: Optimize) -> Option<Seq<u8>>;

    /// Decompressing what was compressed with the same options gives the
    /// input back.
    proof fn round_trip(data: Seq<u8>, opts: Optimize)
        ensures
            Self::decoding(Self::encoding(data, opts), opts) == Some(data),
    ;

    /// Get a name for the compression format
    fn name() -> &'static str;

    /// Compress some input data and append the compressed output to `writer`
    fn compress(reader: Vec<u8>, writer: &mut Vec<u8>, opts: Optimize) -> (done: Result<
        (),
        Self::Error,
    >)
        ensures
            done is Ok,
            final(writer)@ == old(writer)@ + Self::encoding(reader@, opts),
    ;

    /// Decompress some input data and append the decompressed bytes to
    /// `writer`; a stream that is not well formed is refused and leaves
    /// `writer` as it was.
    fn decompress(reader: Vec<u8>, writer: &mut Vec<u8>, opts: Optimize) -> (done: Result<
        (),
        Self::Error,
    >)
        ensures
            match Self::decoding(reader@, opts) {
                Some(bytes) => done is Ok && final(writer)@ == old(writer)@ + bytes,
                None => done is Err && final(writer)@ == old(writer)@,
            },
    ;

    /// Compress a buffer into a `Vec<u8>`
    fn compress_vec(reader: Vec<u8>, opts: Optimize) -> (out: Result<Vec<u8>, Self::Error>)
        ensures
            out is Ok,
            out->Ok_0@ == Self::encoding(reader@, opts),
    {
        let mut vec: Vec<u8> = Vec::new();
        match Self::compress(reader, &mut vec, opts) {
            Ok(()) => {
                assert(vec@ =~= Self::encoding(reader@, opts));
                Ok(vec)
            },
            Err(e) => Err(e),
        }
    }

    /// Decompress a buffer into a `Vec<u8>`
    fn deccompress_vec(reader: Vec<u8>, opts: Optimize) -> (out: Result<Vec<u8>, Self::Error>)
        ensures
            match Self::decoding(reader@, opts) {
                Some(bytes) => out is Ok && out->Ok_0@ == bytes,
                None => out is Err,
            },
    {
        let mut vec: Vec<u8> = Vec::new();
        match Self::decompress(reader, &mut vec, opts) {
            Ok(()) => {
                assert(vec@ =~= Self::decoding(reader@, opts)->Some_0);
                Ok(vec)
            },
            Err(e) => Err(e),
        }
    }
}

} // verus!
