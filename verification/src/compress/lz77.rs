//! The two codecs. [`Lz77`] writes byte-aligned two-byte tokens; [`LzSS`]
//! packs flagged literals and back-references bit by bit.

use vstd::prelude::*;
use vstd::arithmetic::power2::{lemma2_to64, lemma_pow2_pos, pow2};
use vstd::string::StringExecFns;
use super::bitio::{
    bit_reader, bit_writer, bits_of, byte_align, into_bytes, lemma_bits_of_len,
    lemma_bits_of_value_of, lemma_padded_len, lemma_unpacked_packed, lemma_value_of_bits_of,
    pad_len, packed, padded, read_bit, read_bits, unpacked, unread, value_of, write_bit,
    write_bits, written,
};
use super::{Compressor, Optimize};
use crate::io::ByteWindow;
use super::window::{
    best_within, chosen, copied, lemma_best_within, lemma_run_len_agrees, lemma_run_len_bounds,
    longest_match, match_len, reach, run_back, run_len, settles, Match,
};

verus! {

/// Any error that can occur when compressing or decompressing
#[derive(Debug)]
pub enum LzErr {
    /// The stream ended in the middle of a token
    IO(std::io::Error),
    /// A back-reference points before the start of the output
    InvalidPointer,
}

impl From<std::io::Error> for LzErr {
    fn from(e: std::io::Error) -> (err: Self) {
        Self::IO(e)
    }
}

impl vstd::std_specs::convert::FromSpecImpl<std::io::Error> for LzErr {
    open spec fn obeys_from_spec() -> bool {
        true
    }

    open spec fn from_spec(e: std::io::Error) -> Self {
        Self::IO(e)
    }
}

pub type LzResult<T> = Result<T, LzErr>;

/// Window size and longest match of the byte-aligned codec.
pub const LZ77_WINDOW: usize = 255;

/// The shortest match that the byte-aligned codec writes as a back-reference.
pub const LZ77_LEAST: usize = 2;

/// Number of bytes of `data` from `pos` on.
pub open spec fn left(data: Seq<u8>, pos: int) -> nat {
    if pos < data.len() {
        (data.len() - pos) as nat
    } else {
        0
    }
}

/// The token stream that encodes `data` from `pos` on: `(0, byte)` for a
/// literal, `(distance, length)` for a back-reference.
pub open spec fn lz77_tokens(data: Seq<u8>, pos: int) -> Seq<u8>
    decreases left(data, pos),
{
    if pos < 0 || pos >= data.len() {
        Seq::empty()
    } else {
        let m = chosen(data, pos, LZ77_WINDOW as int, LZ77_LEAST as int);
        if m.len <= 0 {
            seq![0u8, data[pos]] + lz77_tokens(data, pos + 1)
        } else {
            seq![m.dist as u8, m.len as u8] + lz77_tokens(data, pos + m.len)
        }
    }
}

/// The byte-aligned encoding of `data`.
pub open spec fn lz77_encoded(data: Seq<u8>) -> Seq<u8> {
    lz77_tokens(data, 0)
}

/// What a token stream expands to after `out`, or `None` where a
/// back-reference reaches before the start of the output. A single trailing
/// byte is no token and is passed over.
pub open spec fn lz77_expand(stream: Seq<u8>, out: Seq<u8>) -> Option<Seq<u8>>
    decreases stream.len(),
{
    if stream.len() < 2 {
        Some(out)
    } else if stream[0] == 0 {
        lz77_expand(stream.skip(2), out.push(stream[1]))
    } else if stream[0] > out.len() {
        None
    } else {
        lz77_expand(stream.skip(2), out + copied(out, stream[0] as int, stream[1] as int))
    }
}

/// What a whole token stream decodes to.
pub open spec fn lz77_decoded(stream: Seq<u8>) -> Option<Seq<u8>> {
    lz77_expand(stream, Seq::empty())
}

/// Expanding a match that the encoder found at `pos` gives back the bytes it
/// was found for, also where the match runs over itself.
pub proof fn lemma_copied_is_run(data: Seq<u8>, pos: int, cap: int, dist: int)
    requires
        1 <= dist <= pos <= data.len(),
        0 <= cap,
    ensures
        copied(data.take(pos), dist, run_back(data, pos, cap, dist)) =~= data.subrange(
            pos,
            pos + run_back(data, pos, cap, dist),
        ),
{
    let n = run_back(data, pos, cap, dist);
    lemma_run_len_bounds(data, pos - dist, pos, cap);
    let back = copied(data.take(pos), dist, n);
    assert forall|i: int| 0 <= i < n implies #[trigger] back[i] == data[pos + i] by {
        lemma_period(data, pos, cap, dist, i);
    }
}

proof fn lemma_period(data: Seq<u8>, pos: int, cap: int, dist: int, i: int)
    requires
        1 <= dist <= pos <= data.len(),
        0 <= i < run_back(data, pos, cap, dist),
    ensures
        data[pos + i] == data[pos - dist + i % dist],
        0 <= i % dist < dist,
    decreases i,
{
    lemma_run_len_agrees(data, pos - dist, pos, cap, i);
    if i >= dist {
        lemma_period(data, pos, cap, dist, i - dist);
        assert((i - dist) % dist == i % dist) by (nonlinear_arith)
            requires
                dist >= 1,
                i >= dist,
        ;
    } else {
        assert(i % dist == i) by (nonlinear_arith)
            requires
                0 <= i < dist,
        ;
    }
}

/// Decoding what the encoder wrote for `data[pos..]`, after `data[..pos]`,
/// gives `data`.
pub proof fn lemma_lz77_resumes(data: Seq<u8>, pos: int)
    requires
        0 <= pos <= data.len(),
    ensures
        lz77_expand(lz77_tokens(data, pos), data.take(pos)) == Some(data),
    decreases data.len() - pos,
{
    if pos >= data.len() {
        assert(data.take(pos) =~= data);
    } else {
        let cap = LZ77_WINDOW as int;
        let m = chosen(data, pos, cap, LZ77_LEAST as int);
        lemma_best_within(data, pos, cap, reach(pos, cap));
        let stream = lz77_tokens(data, pos);
        if m.len <= 0 {
            let rest = lz77_tokens(data, pos + 1);
            assert(stream.skip(2) =~= rest);
            assert(data.take(pos).push(data[pos]) =~= data.take(pos + 1));
            lemma_lz77_resumes(data, pos + 1);
        } else {
            let rest = lz77_tokens(data, pos + m.len);
            assert(stream.skip(2) =~= rest);
            lemma_copied_is_run(data, pos, cap, m.dist);
            assert(data.take(pos) + data.subrange(pos, pos + m.len) =~= data.take(pos + m.len));
            lemma_lz77_resumes(data, pos + m.len);
        }
    }
}

/// Decompressing what was compressed gives the input back, whatever the input.
pub proof fn lemma_lz77_round_trip(data: Seq<u8>)
    ensures
        lz77_decoded(lz77_encoded(data)) == Some(data),
{
    lemma_lz77_resumes(data, 0);
    assert(data.take(0) =~= Seq::<u8>::empty());
}

/// Appends to `out` the `len` bytes that start `dist` bytes before its end,
/// byte by byte, so that a copy longer than `dist` repeats its own output.
pub fn copy_back(out: &mut Vec<u8>, dist: usize, len: usize)
    requires
        1 <= dist <= old(out)@.len(),
    ensures
        final(out)@ == old(out)@ + copied(old(out)@, dist as int, len as int),
{
    let start: usize = out.len() - dist;
    let mut i: usize = 0;
    while i < len
        invariant
            i <= len,
            1 <= dist <= old(out)@.len(),
            start == old(out)@.len() - dist,
            out@ == old(out)@ + copied(old(out)@, dist as int, i as int),
        decreases len - i,
    {
        let turn: usize = i % dist;
        assert(turn < dist) by (nonlinear_arith)
            requires
                dist >= 1,
                turn == i % dist,
        ;
        let size = out.len();
        assert(start + dist <= size);
        let byte = out[start + turn];
        out.push(byte);
        i += 1;
        assert(out@ =~= old(out)@ + copied(old(out)@, dist as int, i as int));
    }
}

/// The byte-aligned codec over a buffer of input bytes.
pub struct Lz77 {
    /// The bytes to compress, or the token stream to decompress
    data: Vec<u8>,
}

impl View for Lz77 {
    type V = Seq<u8>;

    closed spec fn view(&self) -> Seq<u8> {
        self.data@
    }
}

impl Lz77 {
    /// Takes the bytes that `compress` or `decompress` will read.
    pub fn new(data: Vec<u8>) -> (codec: Self)
        ensures
            codec@ == data@,
    {
        Self { data }
    }

    /// Number of bytes held.
    pub fn len(&self) -> (n: usize)
        ensures
            n == self@.len(),
    {
        self.data.len()
    }

    /// Length of the run at `off` that agrees with the run at `pos`, at most 255.
    pub fn match_len(&self, off: usize, pos: usize) -> (n: u8)
        requires
            off < pos <= self@.len(),
        ensures
            n == run_len(self@, off as int, pos as int, LZ77_WINDOW as int),
    {
        proof {
            lemma_run_len_bounds(self@, off as int, pos as int, LZ77_WINDOW as int);
        }
        match_len(self.data.as_slice(), off, pos, LZ77_WINDOW) as u8
    }

    /// The longest match at `pos` in the 255 bytes before it, as
    /// `(distance, length)`, or `(0, 0)` where none has two bytes.
    pub fn longest_match(&self, pos: usize) -> (found: (u8, u8))
        requires
            pos <= self@.len(),
        ensures
            found.0 == chosen(self@, pos as int, LZ77_WINDOW as int, LZ77_LEAST as int).dist,
            found.1 == chosen(self@, pos as int, LZ77_WINDOW as int, LZ77_LEAST as int).len,
            found.0 as int <= pos,
            pos + found.1 <= self@.len(),
            found.0 == 0 <==> found.1 == 0,
            settles(
                self@,
                pos as int,
                LZ77_WINDOW as int,
                LZ77_LEAST as int,
                Match { dist: found.0 as int, len: found.1 as int },
            ),
    {
        let found = longest_match(self.data.as_slice(), pos, LZ77_WINDOW, LZ77_LEAST);
        (found.0 as u8, found.1 as u8)
    }

    /// Appends the encoding of the held bytes to `writer`.
    pub fn compress(&self, writer: &mut Vec<u8>, _opt: Optimize) -> (done: LzResult<()>)
        ensures
            done is Ok,
            final(writer)@ == old(writer)@ + lz77_encoded(self@),
    {
        let len = self.data.len();
        let source = ByteWindow::new(self.data.as_slice());
        let mut pos: usize = 0;
        while pos < len
            invariant
                pos <= len,
                len == self@.len(),
                source@.data == self@,
                writer@ + lz77_tokens(self@, pos as int) == old(writer)@ + lz77_encoded(self@),
            decreases len - pos,
        {
            let ghost before = writer@;
            let (dist, run) = self.longest_match(pos);
            if dist == 0 {
                let literal = match source.byte_at(pos as u64) {
                    Ok(literal) => literal,
                    Err(e) => {
                        return Err(LzErr::IO(e));
                    },
                };
                writer.push(0);
                writer.push(literal);
                proof {
                    assert(writer@ =~= before + seq![0u8, self@[pos as int]]);
                    assert(writer@ + lz77_tokens(self@, pos + 1) =~= before + lz77_tokens(
                        self@,
                        pos as int,
                    ));
                }
                pos += 1;
            } else {
                writer.push(dist);
                writer.push(run);
                proof {
                    assert(writer@ =~= before + seq![dist, run]);
                    assert(writer@ + lz77_tokens(self@, pos + run) =~= before + lz77_tokens(
                        self@,
                        pos as int,
                    ));
                }
                pos += run as usize;
            }
        }
        assert(writer@ + Seq::<u8>::empty() =~= writer@);
        Ok(())
    }

    /// Appends to `writer` what the held token stream decodes to. Where a
    /// back-reference reaches before the start of the output, nothing is
    /// appended and the stream is refused.
    pub fn decompress(&self, writer: &mut Vec<u8>, _opt: Optimize) -> (done: LzResult<()>)
        ensures
            match lz77_decoded(self@) {
                Some(out) => done is Ok && final(writer)@ == old(writer)@ + out,
                None => done matches Err(LzErr::InvalidPointer) && final(writer)@ == old(
                    writer,
                )@,
            },
    {
        let len = self.data.len();
        let mut source = ByteWindow::new(self.data.as_slice());
        let mut out: Vec<u8> = Vec::new();
        let mut pos: usize = 0;
        assert(self@.skip(0) =~= self@);
        while len - pos >= 2
            invariant
                pos <= len,
                len == self@.len(),
                source@.data == self@,
                source@.cursor == pos,
                lz77_expand(self@.skip(pos as int), out@) == lz77_decoded(self@),
                writer@ == old(writer)@,
            decreases len - pos,
        {
            let first = match source.byte() {
                Ok(first) => first,
                Err(e) => {
                    return Err(LzErr::IO(e));
                },
            };
            let second = match source.byte() {
                Ok(second) => second,
                Err(e) => {
                    return Err(LzErr::IO(e));
                },
            };
            assert(self@.skip(pos as int).skip(2) =~= self@.skip(pos + 2));
            if first == 0 {
                out.push(second);
            } else if first as usize > out.len() {
                return Err(LzErr::InvalidPointer);
            } else {
                copy_back(&mut out, first as usize, second as usize);
            }
            pos += 2;
        }
        writer.extend_from_slice(out.as_slice());
        Ok(())
    }
}

/// Width in bits of the distance and length fields for an optimization level.
pub open spec fn width_of(opt: Optimize) -> nat {
    match opt {
        Optimize::Ultra => 15,
        Optimize::High => 14,
        Optimize::Average => 12,
        Optimize::Less => 10,
    }
}

/// The farthest distance and the longest match that fit in `width` bits.
pub open spec fn window_of(width: nat) -> int {
    pow2(width) - 1
}

/// The shortest match worth a back-reference: a shorter one costs more bits
/// as a pointer than as literals.
pub open spec fn least_of(width: nat) -> int {
    width as int / 4
}

/// Return the bitsizes for a given optimization level
pub fn opt_bitsize(opt: Optimize) -> (bits: u32)
    ensures
        bits == width_of(opt),
{
    match opt {
        Optimize::Ultra => 15,
        Optimize::High => 14,
        Optimize::Average => 12,
        Optimize::Less => 10,
    }
}

/// Get the maximum value for a given optimization level, this is used to determine window size
pub fn opt_max(opt: Optimize) -> (max: usize)
    ensures
        max == window_of(width_of(opt)),
{
    proof {
        lemma2_to64();
    }
    match opt {
        Optimize::Ultra => 32767,
        Optimize::High => 16383,
        Optimize::Average => 4095,
        Optimize::Less => 1023,
    }
}

/// A literal token: a set flag and the byte.
pub open spec fn lzss_literal(byte: u8) -> Seq<bool> {
    seq![true] + bits_of(byte as int, 8)
}

/// A pointer token: a clear flag, the distance and the length, each `width` bits.
pub open spec fn lzss_pointer(m: Match, width: nat) -> Seq<bool> {
    seq![false] + bits_of(m.dist, width as int) + bits_of(m.len, width as int)
}

/// The tokens that encode `data` from `pos` on, as bits.
pub open spec fn lzss_tokens(data: Seq<u8>, width: nat, pos: int) -> Seq<bool>
    decreases left(data, pos),
{
    if pos < 0 || pos >= data.len() {
        Seq::empty()
    } else {
        let m = chosen(data, pos, window_of(width), least_of(width));
        if m.len <= 0 {
            lzss_literal(data[pos]) + lzss_tokens(data, width, pos + 1)
        } else {
            lzss_pointer(m, width) + lzss_tokens(data, width, pos + m.len)
        }
    }
}

/// The bit-packed encoding of `data`: its tokens, zero bits up to a whole
/// byte, packed least significant bit first.
pub open spec fn lzss_encoded(data: Seq<u8>, width: nat) -> Seq<u8> {
    packed(padded(lzss_tokens(data, width, 0)))
}

/// How decoding a bit stream ends.
pub enum Decoded {
    /// Every token was expanded, to these bytes
    Done(Seq<u8>),
    /// The stream ends inside a pointer token
    Truncated,
    /// A pointer has distance zero or reaches before the start of the output
    InvalidPointer,
}

/// What a bit stream expands to after `out`. Eight bits or fewer are padding
/// and end the stream. A pointer of length zero stands for nothing.
pub open spec fn lzss_expand(bits: Seq<bool>, width: nat, out: Seq<u8>) -> Decoded
    decreases bits.len(),
{
    if bits.len() <= 8 {
        Decoded::Done(out)
    } else if bits[0] {
        lzss_expand(bits.skip(9), width, out.push(value_of(bits.subrange(1, 9)) as u8))
    } else if bits.len() < 1 + 2 * width {
        Decoded::Truncated
    } else {
        let w = width as int;
        let dist = value_of(bits.subrange(1, 1 + w));
        let len = value_of(bits.subrange(1 + w, 1 + 2 * w));
        let rest = bits.skip(1 + 2 * w);
        if len == 0 {
            lzss_expand(rest, width, out)
        } else if dist == 0 || dist > out.len() {
            Decoded::InvalidPointer
        } else {
            lzss_expand(rest, width, out + copied(out, dist, len))
        }
    }
}

/// What a packed stream decodes to.
pub open spec fn lzss_decoded(stream: Seq<u8>, width: nat) -> Decoded {
    lzss_expand(unpacked(stream), width, Seq::empty())
}

/// Decoding the tokens written for `data[pos..]`, followed by less than a
/// byte of padding, after `data[..pos]`, gives `data`.
pub proof fn lemma_lzss_resumes(data: Seq<u8>, width: nat, pos: int, tail: Seq<bool>)
    requires
        4 <= width,
        0 <= pos <= data.len(),
        tail.len() <= 8,
    ensures
        lzss_expand(lzss_tokens(data, width, pos) + tail, width, data.take(pos)) == Decoded::Done(
            data,
        ),
    decreases data.len() - pos,
{
    let bits = lzss_tokens(data, width, pos) + tail;
    if pos >= data.len() {
        assert(bits =~= tail);
        assert(data.take(pos) =~= data);
    } else {
        let cap = window_of(width);
        let m = chosen(data, pos, cap, least_of(width));
        lemma_pow2_pos(width);
        lemma_best_within(data, pos, cap, reach(pos, cap));
        if m.len <= 0 {
            let byte = data[pos];
            let rest = lzss_tokens(data, width, pos + 1);
            lemma_bits_of_len(byte as int, 8);
            lemma2_to64();
            lemma_value_of_bits_of(byte as int, 8);
            assert(bits =~= seq![true] + bits_of(byte as int, 8) + (rest + tail));
            assert(bits.subrange(1, 9) =~= bits_of(byte as int, 8));
            assert(bits.skip(9) =~= rest + tail);
            assert(data.take(pos).push(byte) =~= data.take(pos + 1));
            lemma_lzss_resumes(data, width, pos + 1, tail);
        } else {
            let rest = lzss_tokens(data, width, pos + m.len);
            let w = width as int;
            lemma_bits_of_len(m.dist, w);
            lemma_bits_of_len(m.len, w);
            lemma_value_of_bits_of(m.dist, w);
            lemma_value_of_bits_of(m.len, w);
            assert(bits =~= seq![false] + bits_of(m.dist, w) + bits_of(m.len, w) + (rest + tail));
            assert(bits.subrange(1, 1 + w) =~= bits_of(m.dist, w));
            assert(bits.subrange(1 + w, 1 + 2 * w) =~= bits_of(m.len, w));
            assert(bits.skip(1 + 2 * w) =~= rest + tail);
            lemma_copied_is_run(data, pos, cap, m.dist);
            assert(data.take(pos) + data.subrange(pos, pos + m.len) =~= data.take(pos + m.len));
            lemma_lzss_resumes(data, width, pos + m.len, tail);
        }
    }
}

/// Decompressing what was compressed at the same width gives the input
/// back, whatever the input.
pub proof fn lemma_lzss_round_trip(data: Seq<u8>, width: nat)
    requires
        4 <= width,
    ensures
        lzss_decoded(lzss_encoded(data, width), width) == Decoded::Done(data),
{
    let tokens = lzss_tokens(data, width, 0);
    lemma_padded_len(tokens);
    lemma_unpacked_packed(padded(tokens));
    let tail = Seq::new(pad_len(tokens.len() as int) as nat, |i: int| false);
    lemma_lzss_resumes(data, width, 0, tail);
    assert(data.take(0) =~= Seq::<u8>::empty());
}

/// The bit-packed codec over a buffer of input bytes.
pub struct LzSS {
    /// The bytes to compress, or the packed stream to decompress
    data: Vec<u8>,
}

impl View for LzSS {
    type V = Seq<u8>;

    closed spec fn view(&self) -> Seq<u8> {
        self.data@
    }
}

impl LzSS {
    /// Takes the bytes that `compress` or `decompress` will read.
    pub fn new(data: Vec<u8>) -> (codec: Self)
        ensures
            codec@ == data@,
    {
        Self { data }
    }

    /// Number of bytes held.
    pub fn len(&self) -> (n: usize)
        ensures
            n == self@.len(),
    {
        self.data.len()
    }

    /// Length of the run at `off` that agrees with the run at `pos`, at most `max`.
    pub fn match_len(&self, off: usize, pos: usize, max: usize) -> (n: u16)
        requires
            off < pos <= self@.len(),
            max <= u16::MAX,
        ensures
            n == run_len(self@, off as int, pos as int, max as int),
    {
        proof {
            lemma_run_len_bounds(self@, off as int, pos as int, max as int);
        }
        match_len(self.data.as_slice(), off, pos, max) as u16
    }

    /// The longest match at `pos` in the `max` bytes before it, as
    /// `(distance, length)`: `(0, 0)` where no run in the window has
    /// `bitsize / 4` bytes, and only there; else the nearest distance with
    /// the longest run.
    pub fn longest_match(&self, pos: usize, bitsize: u32, max: usize) -> (found: (u16, u16))
        requires
            pos <= self@.len(),
            max <= u16::MAX,
        ensures
            found.0 == chosen(self@, pos as int, max as int, bitsize as int / 4).dist,
            found.1 == chosen(self@, pos as int, max as int, bitsize as int / 4).len,
            found.0 as int <= pos,
            found.0 <= max,
            found.1 <= max,
            pos + found.1 <= self@.len(),
            found.0 == 0 <==> found.1 == 0,
            bitsize >= 4 ==> settles(
                self@,
                pos as int,
                max as int,
                bitsize as int / 4,
                Match { dist: found.0 as int, len: found.1 as int },
            ),
    {
        let least: usize = (bitsize / 4) as usize;
        let found = longest_match(self.data.as_slice(), pos, max, least);
        (found.0 as u16, found.1 as u16)
    }

    /// Appends the packed encoding of the held bytes to `writer`, with the
    /// field width that `opt` selects.
    pub fn compress(&self, writer: &mut Vec<u8>, opt: Optimize) -> (done: LzResult<()>)
        ensures
            done is Ok,
            final(writer)@ == old(writer)@ + lzss_encoded(self@, width_of(opt)),
    {
        let bitsize = opt_bitsize(opt);
        let max = opt_max(opt);
        let len = self.data.len();
        let ghost width = width_of(opt);
        let source = ByteWindow::new(self.data.as_slice());
        let mut sink = bit_writer();
        let mut pos: usize = 0;
        proof {
            lemma2_to64();
        }
        while pos < len
            invariant
                pos <= len,
                len == self@.len(),
                source@.data == self@,
                bitsize == width,
                width == width_of(opt),
                max == window_of(width),
                max <= 32767,
                written(sink) + lzss_tokens(self@, width, pos as int) == lzss_tokens(self@, width, 0),
            decreases len - pos,
        {
            let ghost before = written(sink);
            proof {
                lemma2_to64();
            }
            let (dist, run) = self.longest_match(pos, bitsize, max);
            if dist == 0 {
                let byte = match source.byte_at(pos as u64) {
                    Ok(byte) => byte,
                    Err(e) => {
                        return Err(LzErr::IO(e));
                    },
                };
                match write_bit(&mut sink, true) {
                    Ok(()) => {},
                    Err(e) => {
                        return Err(LzErr::IO(e));
                    },
                }
                match write_bits(&mut sink, 8, byte as u16) {
                    Ok(()) => {},
                    Err(e) => {
                        return Err(LzErr::IO(e));
                    },
                }
                proof {
                    assert(written(sink) =~= before + lzss_literal(byte));
                    assert(written(sink) + lzss_tokens(self@, width, pos + 1) =~= before
                        + lzss_tokens(self@, width, pos as int));
                }
                pos += 1;
            } else {
                match write_bit(&mut sink, false) {
                    Ok(()) => {},
                    Err(e) => {
                        return Err(LzErr::IO(e));
                    },
                }
                match write_bits(&mut sink, bitsize, dist) {
                    Ok(()) => {},
                    Err(e) => {
                        return Err(LzErr::IO(e));
                    },
                }
                match write_bits(&mut sink, bitsize, run) {
                    Ok(()) => {},
                    Err(e) => {
                        return Err(LzErr::IO(e));
                    },
                }
                proof {
                    let m = chosen(self@, pos as int, max as int, least_of(width));
                    assert(written(sink) =~= before + lzss_pointer(m, width));
                    assert(written(sink) + lzss_tokens(self@, width, pos + run) =~= before
                        + lzss_tokens(self@, width, pos as int));
                }
                pos += run as usize;
            }
        }
        assert(written(sink) + Seq::<bool>::empty() =~= written(sink));
        match byte_align(&mut sink) {
            Ok(()) => {},
            Err(e) => {
                return Err(LzErr::IO(e));
            },
        }
        let bytes = into_bytes(sink);
        writer.extend_from_slice(bytes.as_slice());
        Ok(())
    }

    /// Appends to `out` what the held packed stream decodes to, with the
    /// field width that `opt` selects. Where the stream is refused, nothing
    /// is appended.
    pub fn decompress(&self, out: &mut Vec<u8>, opt: Optimize) -> (done: LzResult<()>)
        ensures
            match lzss_decoded(self@, width_of(opt)) {
                Decoded::Done(bytes) => done is Ok && final(out)@ == old(out)@ + bytes,
                Decoded::Truncated => done matches Err(LzErr::IO(_)) && final(out)@ == old(out)@,
                Decoded::InvalidPointer => done matches Err(LzErr::InvalidPointer) && final(out)@
                    == old(out)@,
            },
    {
        let bitsize = opt_bitsize(opt);
        let ghost width = width_of(opt);
        let len = self.data.len();
        let mut buf: Vec<u8> = Vec::new();
        let mut source = bit_reader(self.data.as_slice());
        let mut left_bits: u128 = (len as u128) * 8;
        while left_bits > 8
            invariant
                bitsize == width,
                width == width_of(opt),
                left_bits == unread(source).len(),
                lzss_expand(unread(source), width, buf@) == lzss_decoded(self@, width),
                out@ == old(out)@,
            decreases left_bits,
        {
            let ghost bits = unread(source);
            let flag = match read_bit(&mut source) {
                Ok(flag) => flag,
                Err(e) => {
                    return Err(LzErr::IO(e));
                },
            };
            if flag {
                let literal = match read_bits(&mut source, 8) {
                    Ok(literal) => literal,
                    Err(e) => {
                        return Err(LzErr::IO(e));
                    },
                };
                proof {
                    assert(bits.skip(1).take(8) =~= bits.subrange(1, 9));
                    assert(bits.skip(1).skip(8) =~= bits.skip(9));
                    lemma_bits_of_value_of(bits.subrange(1, 9));
                    lemma2_to64();
                }
                buf.push(literal as u8);
                left_bits -= 9;
            } else {
                let dist = match read_bits(&mut source, bitsize) {
                    Ok(dist) => dist,
                    Err(e) => {
                        assert(lzss_expand(bits, width, buf@) == Decoded::Truncated);
                        return Err(LzErr::IO(e));
                    },
                };
                let run = match read_bits(&mut source, bitsize) {
                    Ok(run) => run,
                    Err(e) => {
                        assert(lzss_expand(bits, width, buf@) == Decoded::Truncated);
                        return Err(LzErr::IO(e));
                    },
                };
                proof {
                    let w = width as int;
                    assert(bits.skip(1).take(w) =~= bits.subrange(1, 1 + w));
                    assert(bits.skip(1).skip(w).take(w) =~= bits.subrange(1 + w, 1 + 2 * w));
                    assert(bits.skip(1).skip(w).skip(w) =~= bits.skip(1 + 2 * w));
                }
                if run != 0 {
                    if dist == 0 || dist as usize > buf.len() {
                        return Err(LzErr::InvalidPointer);
                    }
                    copy_back(&mut buf, dist as usize, run as usize);
                }
                left_bits -= 1 + 2 * (bitsize as u128);
            }
        }
        out.extend_from_slice(buf.as_slice());
        Ok(())
    }
}

/// Whether some run of `n` bytes occurs at two places in `data`.
pub open spec fn repeats(data: Seq<u8>, n: int) -> bool {
    exists|i: int, j: int|
        0 <= i < j && j + n <= data.len() && #[trigger] data.subrange(i, i + n)
            == #[trigger] data.subrange(j, j + n)
}

/// The bytes of `data` from `pos` on, each as a literal token.
pub open spec fn lzss_literals(data: Seq<u8>, pos: int) -> Seq<bool>
    decreases left(data, pos),
{
    if pos < 0 || pos >= data.len() {
        Seq::empty()
    } else {
        lzss_literal(data[pos]) + lzss_literals(data, pos + 1)
    }
}

/// Where no run of `width / 4` bytes occurs twice in `data`, the encoder
/// writes literal tokens only.
pub proof fn lemma_breakeven(data: Seq<u8>, width: nat, pos: int)
    requires
        4 <= width,
        !repeats(data, least_of(width)),
        0 <= pos <= data.len(),
    ensures
        lzss_tokens(data, width, pos) == lzss_literals(data, pos),
    decreases data.len() - pos,
{
    if pos < data.len() {
        let cap = window_of(width);
        let n = least_of(width);
        let best = best_within(data, pos, cap, reach(pos, cap));
        lemma_pow2_pos(width);
        lemma_best_within(data, pos, cap, reach(pos, cap));
        if best.len >= n {
            let from = pos - best.dist;
            let early = data.subrange(from, from + n);
            let late = data.subrange(pos, pos + n);
            assert forall|i: int| 0 <= i < n implies #[trigger] early[i] == late[i] by {
                lemma_run_len_agrees(data, from, pos, cap, i);
            }
            assert(early =~= late);
            assert(false);
        }
        lemma_breakeven(data, width, pos + 1);
    }
}

impl Compressor for Lz77 {
    type Error = LzErr;

    open spec fn encoding(data: Seq<u8>, opts: Optimize) -> Seq<u8> {
        lz77_encoded(data)
    }

    open spec fn decoding(stream: Seq<u8>, opts: Optimize) -> Option<Seq<u8>> {
        lz77_decoded(stream)
    }

    proof fn round_trip(data: Seq<u8>, opts: Optimize) {
        lemma_lz77_round_trip(data);
    }

    fn name() -> (name: &'static str)
        ensures
            name@ == "lz77"@,
    {
        "lz77"
    }

    fn compress(reader: Vec<u8>, writer: &mut Vec<u8>, opts: Optimize) -> (done: Result<
        (),
        LzErr,
    >) {
        let me = Lz77::new(reader);
        me.compress(writer, opts)
    }

    fn decompress(reader: Vec<u8>, writer: &mut Vec<u8>, opts: Optimize) -> (done: Result<
        (),
        LzErr,
    >) {
        let me = Lz77::new(reader);
        me.decompress(writer, opts)
    }
}

impl Compressor for LzSS {
    type Error = LzErr;

    open spec fn encoding(data: Seq<u8>, opts: Optimize) -> Seq<u8> {
        lzss_encoded(data, width_of(opts))
    }

    open spec fn decoding(stream: Seq<u8>, opts: Optimize) -> Option<Seq<u8>> {
        match lzss_decoded(stream, width_of(opts)) {
            Decoded::Done(bytes) => Some(bytes),
            _ => None,
        }
    }

    proof fn round_trip(data: Seq<u8>, opts: Optimize) {
        lemma_lzss_round_trip(data, width_of(opts));
    }

    fn name() -> (name: &'static str)
        ensures
            name@ == "lzss"@,
    {
        "lzss"
    }

    fn compress(reader: Vec<u8>, writer: &mut Vec<u8>, opts: Optimize) -> (done: Result<
        (),
        LzErr,
    >) {
        let me = LzSS::new(reader);
        me.compress(writer, opts)
    }

    fn decompress(reader: Vec<u8>, writer: &mut Vec<u8>, opts: Optimize) -> (done: Result<
        (),
        LzErr,
    >) {
        let me = LzSS::new(reader);
        me.decompress(writer, opts)
    }
}

/// `String::push`: appends one character.
#[verifier::external_body]
fn push_char(text: &mut String, c: char)
    ensures
        final(text)@ == old(text)@.push(c),
{
    text.push(c)
}

/// The character of a decimal digit.
pub open spec fn digit(d: int) -> char {
    if d == 0 {
        '0'
    } else if d == 1 {
        '1'
    } else if d == 2 {
        '2'
    } else if d == 3 {
        '3'
    } else if d == 4 {
        '4'
    } else if d == 5 {
        '5'
    } else if d == 6 {
        '6'
    } else if d == 7 {
        '7'
    } else if d == 8 {
        '8'
    } else {
        '9'
    }
}

/// A number in decimal digits, without leading zeros.
pub open spec fn decimal(n: int) -> Seq<char>
    decreases n,
{
    if n < 10 {
        seq![digit(n)]
    } else {
        decimal(n / 10).push(digit(n % 10))
    }
}

/// The bytes of a run, each as the character with its number.
pub open spec fn as_chars(bytes: Seq<u8>) -> Seq<char> {
    Seq::new(bytes.len(), |i: int| bytes[i] as char)
}

/// The character of a decimal digit.
fn digit_char(d: usize) -> (c: char)
    requires
        d < 10,
    ensures
        c == digit(d as int),
{
    if d == 0 {
        '0'
    } else if d == 1 {
        '1'
    } else if d == 2 {
        '2'
    } else if d == 3 {
        '3'
    } else if d == 4 {
        '4'
    } else if d == 5 {
        '5'
    } else if d == 6 {
        '6'
    } else if d == 7 {
        '7'
    } else if d == 8 {
        '8'
    } else {
        '9'
    }
}

/// Appends a number in decimal digits.
fn push_decimal(text: &mut String, n: usize)
    ensures
        final(text)@ == old(text)@ + decimal(n as int),
    decreases n,
{
    if n < 10 {
        push_char(text, digit_char(n));
        assert(text@ =~= old(text)@ + decimal(n as int));
    } else {
        push_decimal(text, n / 10);
        push_char(text, digit_char(n % 10));
        assert(text@ =~= old(text)@ + decimal(n as int));
    }
}

/// Appends the bytes `data[from..from + len]`, each as the character with
/// its number.
fn push_run(text: &mut String, data: &[u8], from: usize, len: usize)
    requires
        from + len <= data@.len(),
    ensures
        final(text)@ == old(text)@ + as_chars(data@.subrange(from as int, from + len)),
{
    let size = data.len();
    let mut i: usize = 0;
    assert(text@ =~= old(text)@ + as_chars(data@.subrange(from as int, from as int)));
    while i < len
        invariant
            i <= len,
            size == data@.len(),
            from + len <= data@.len(),
            text@ == old(text)@ + as_chars(data@.subrange(from as int, from + i)),
        decreases len - i,
    {
        push_char(text, data[from + i] as char);
        i += 1;
        assert(text@ =~= old(text)@ + as_chars(data@.subrange(from as int, from + i)));
    }
}

/// A literal in readable form: the flag in brackets, the byte as a
/// character and a space.
pub open spec fn debug_literal(flag: Seq<char>, byte: u8) -> Seq<char> {
    flag + seq![byte as char, ' ']
}

/// A back-reference in readable form: `(distance, length):(text) ` after
/// `lead`, the text being the bytes that the reference stands for.
pub open spec fn debug_pointer(lead: Seq<char>, data: Seq<u8>, pos: int, m: Match) -> Seq<char> {
    lead + decimal(m.dist) + ", "@ + decimal(m.len) + "):("@ + as_chars(
        data.subrange(pos - m.dist, pos - m.dist + m.len),
    ) + ") "@
}

/// The tokens of a codec in readable form, from `pos` on: the codec looks
/// `cap` bytes back and takes no match under `least` bytes.
pub open spec fn debug_tokens(
    data: Seq<u8>,
    pos: int,
    cap: int,
    least: int,
    literal: Seq<char>,
    pointer: Seq<char>,
) -> Seq<char>
    decreases left(data, pos),
{
    if pos < 0 || pos >= data.len() {
        Seq::empty()
    } else {
        let m = chosen(data, pos, cap, least);
        if m.len <= 0 {
            debug_literal(literal, data[pos]) + debug_tokens(
                data,
                pos + 1,
                cap,
                least,
                literal,
                pointer,
            )
        } else {
            debug_pointer(pointer, data, pos, m) + debug_tokens(
                data,
                pos + m.len,
                cap,
                least,
                literal,
                pointer,
            )
        }
    }
}

/// The tokens that the byte-aligned codec writes for `data`, in readable
/// form.
pub open spec fn lz77_debug(data: Seq<u8>) -> Seq<char> {
    debug_tokens(data, 0, LZ77_WINDOW as int, LZ77_LEAST as int, "(0)"@, "("@)
}

/// The tokens that the bit-packed codec writes for `data` at the average
/// level, in readable form.
pub open spec fn lzss_debug(data: Seq<u8>) -> Seq<char> {
    debug_tokens(data, 0, window_of(12), least_of(12), "(1)"@, "(0)("@)
}

/// The tokens for `data` in readable form.
fn debug_text(data: &[u8], cap: usize, least: usize, literal: &str, pointer: &str) -> (out: String)
    ensures
        out@ == debug_tokens(data@, 0, cap as int, least as int, literal@, pointer@),
{
    let len = data.len();
    let mut out = String::new();
    let mut pos: usize = 0;
    let ghost all = debug_tokens(data@, 0, cap as int, least as int, literal@, pointer@);
    assert(out@ + all =~= all);
    while pos < len
        invariant
            pos <= len,
            len == data@.len(),
            all == debug_tokens(data@, 0, cap as int, least as int, literal@, pointer@),
            out@ + debug_tokens(data@, pos as int, cap as int, least as int, literal@, pointer@)
                == all,
        decreases len - pos,
    {
        let ghost before = out@;
        let ghost m = chosen(data@, pos as int, cap as int, least as int);
        let (dist, run) = longest_match(data, pos, cap, least);
        if dist == 0 {
            out.append(literal);
            push_char(&mut out, data[pos] as char);
            push_char(&mut out, ' ');
            proof {
                assert(out@ =~= before + debug_literal(literal@, data@[pos as int]));
                assert(out@ + debug_tokens(
                    data@,
                    pos + 1,
                    cap as int,
                    least as int,
                    literal@,
                    pointer@,
                ) =~= before + debug_tokens(
                    data@,
                    pos as int,
                    cap as int,
                    least as int,
                    literal@,
                    pointer@,
                ));
            }
            pos += 1;
        } else {
            out.append(pointer);
            push_decimal(&mut out, dist);
            out.append(", ");
            push_decimal(&mut out, run);
            out.append("):(");
            push_run(&mut out, data, pos - dist, run);
            out.append(") ");
            proof {
                assert(out@ =~= before + debug_pointer(pointer@, data@, pos as int, m));
                assert(out@ + debug_tokens(
                    data@,
                    pos + run,
                    cap as int,
                    least as int,
                    literal@,
                    pointer@,
                ) =~= before + debug_tokens(
                    data@,
                    pos as int,
                    cap as int,
                    least as int,
                    literal@,
                    pointer@,
                ));
            }
            pos += run;
        }
    }
    assert(out@ + Seq::<char>::empty() =~= out@);
    out
}

impl Lz77 {
    /// Compress data but show it as a human readable format
    pub fn debug_compress(&self) -> (done: LzResult<String>)
        ensures
            done is Ok,
            done->Ok_0@ == lz77_debug(self@),
    {
        Ok(debug_text(self.data.as_slice(), LZ77_WINDOW, LZ77_LEAST, "(0)", "("))
    }
}

impl LzSS {
    /// Compress data but show it as a human readable format
    pub fn debug_compress(&self) -> (done: LzResult<String>)
        ensures
            done is Ok,
            done->Ok_0@ == lzss_debug(self@),
    {
        let bitsize = opt_bitsize(Optimize::Average);
        let max = opt_max(Optimize::Average);
        Ok(debug_text(self.data.as_slice(), max, (bitsize / 4) as usize, "(1)", "(0)("))
    }
}

} // verus!
