//! Bit-level model of a packed stream, and the `bitstream_io` writer and
//! reader that produce and consume it.

use vstd::prelude::*;
use vstd::arithmetic::power2::{lemma2_to64, lemma_pow2_unfold, pow2};
use bitstream_io::{BitRead, BitReader, BitWrite, BitWriter, LittleEndian};

verus! {

/// The `count` low bits of `value`, least significant first.
pub open spec fn bits_of(value: int, count: int) -> Seq<bool>
    decreases count,
{
    if count <= 0 {
        Seq::empty()
    } else {
        seq![value % 2 == 1] + bits_of(value / 2, count - 1)
    }
}

/// The number whose bits, least significant first, are `bits`.
pub open spec fn value_of(bits: Seq<bool>) -> int
    decreases bits.len(),
{
    if bits.len() == 0 {
        0
    } else {
        (if bits[0] {
            1int
        } else {
            0int
        }) + 2 * value_of(bits.skip(1))
    }
}

/// Number of zero bits that bring a stream of `len` bits to a whole byte.
pub open spec fn pad_len(len: int) -> int {
    (8 - len % 8) % 8
}

/// `bits` followed by zero bits up to the next whole byte.
pub open spec fn padded(bits: Seq<bool>) -> Seq<bool> {
    bits + Seq::new(pad_len(bits.len() as int) as nat, |i: int| false)
}

/// The whole bytes that `bits` fill, the first bit of each byte being its
/// least significant one. Bits after the last whole byte are left out.
pub open spec fn packed(bits: Seq<bool>) -> Seq<u8> {
    Seq::new(bits.len() / 8, |i: int| value_of(bits.subrange(8 * i, 8 * i + 8)) as u8)
}

/// The bits of `bytes`, each byte giving its least significant bit first.
pub open spec fn unpacked(bytes: Seq<u8>) -> Seq<bool> {
    Seq::new(8 * bytes.len(), |k: int| bits_of(bytes[k / 8] as int, 8)[k % 8])
}

/// `bits_of` gives as many bits as were asked for.
pub proof fn lemma_bits_of_len(value: int, count: int)
    requires
        0 <= count,
    ensures
        bits_of(value, count).len() == count,
    decreases count,
{
    if count > 0 {
        lemma_bits_of_len(value / 2, count - 1);
    }
}

/// A number that fits in `count` bits is read back from its bits.
pub proof fn lemma_value_of_bits_of(value: int, count: int)
    requires
        0 <= count,
        0 <= value < pow2(count as nat),
    ensures
        value_of(bits_of(value, count)) == value,
    decreases count,
{
    lemma_bits_of_len(value, count);
    if count > 0 {
        lemma_pow2_unfold(count as nat);
        let rest = bits_of(value / 2, count - 1);
        assert(bits_of(value, count).skip(1) =~= rest);
        lemma_value_of_bits_of(value / 2, count - 1);
    } else {
        lemma2_to64();
    }
}

/// The number read from a run of bits fits in as many bits, and its bits
/// are that run.
pub proof fn lemma_bits_of_value_of(bits: Seq<bool>)
    ensures
        0 <= value_of(bits) < pow2(bits.len()),
        bits_of(value_of(bits), bits.len() as int) == bits,
    decreases bits.len(),
{
    if bits.len() == 0 {
        lemma2_to64();
        assert(bits_of(value_of(bits), 0) =~= bits);
    } else {
        let rest = bits.skip(1);
        lemma_bits_of_value_of(rest);
        lemma_pow2_unfold(bits.len());
        let v = value_of(bits);
        assert(v / 2 == value_of(rest));
        assert((v % 2 == 1) == bits[0]);
        assert(bits_of(v, bits.len() as int) =~= seq![bits[0]] + rest);
        assert(seq![bits[0]] + rest =~= bits);
    }
}

/// Padding brings a stream to a whole number of bytes and adds less than one.
pub proof fn lemma_padded_len(bits: Seq<bool>)
    ensures
        padded(bits).len() % 8 == 0,
        bits.len() <= padded(bits).len() < bits.len() + 8,
{
}

/// Unpacking the bytes that a whole number of bytes' worth of bits was
/// packed into gives those bits.
pub proof fn lemma_unpacked_packed(bits: Seq<bool>)
    requires
        bits.len() % 8 == 0,
    ensures
        unpacked(packed(bits)) == bits,
{
    let bytes = packed(bits);
    let back = unpacked(bytes);
    assert(back.len() == bits.len());
    assert forall|k: int| 0 <= k < bits.len() implies #[trigger] back[k] == bits[k] by {
        let i = k / 8;
        let chunk = bits.subrange(8 * i, 8 * i + 8);
        lemma_bits_of_value_of(chunk);
        lemma2_to64();
        assert(bytes[i] as int == value_of(chunk));
        assert(chunk[k % 8] == bits[k]);
    }
    assert(back =~= bits);
}

/// A `bitstream_io::BitWriter` that collects little-endian bits into a vector.
#[verifier::external_body]
pub struct BitSink {
    inner: BitWriter<Vec<u8>, LittleEndian>,
}

/// A `bitstream_io::BitReader` that hands out the bits of a byte slice,
/// little-endian.
#[verifier::external_body]
pub struct BitSource<'a> {
    inner: BitReader<&'a [u8], LittleEndian>,
}

/// All bits written to a writer so far, in the order written.
pub uninterp spec fn written(w: BitSink) -> Seq<bool>;

/// The bits that a reader has not handed out yet, in the order it will.
pub uninterp spec fn unread(r: BitSource) -> Seq<bool>;

/// `BitWriter::endian` over an empty vector, little-endian: a writer to
/// which nothing has been written.
#[verifier::external_body]
pub(crate) fn bit_writer() -> (w: BitSink)
    ensures
        written(w) == Seq::<bool>::empty(),
{
    BitSink { inner: BitWriter::endian(Vec::new(), LittleEndian) }
}

/// `BitWrite::write_bit`: appends one bit. Writing into a vector cannot fail.
#[verifier::external_body]
pub(crate) fn write_bit(w: &mut BitSink, bit: bool) -> (done: Result<
    (),
    std::io::Error,
>)
    ensures
        done is Ok,
        written(*final(w)) == written(*old(w)).push(bit),
{
    w.inner.write_bit(bit)
}

/// `BitWrite::write` with a 16-bit value: appends the `bits` low bits of
/// `value`, least significant first. It fails only for more than 16 bits or
/// for a value that does not fit in `bits` bits.
#[verifier::external_body]
pub(crate) fn write_bits(w: &mut BitSink, bits: u32, value: u16) -> (done:
    Result<(), std::io::Error>)
    requires
        bits <= 16,
        (value as int) < pow2(bits as nat),
    ensures
        done is Ok,
        written(*final(w)) == written(*old(w)) + bits_of(value as int, bits as int),
{
    w.inner.write(bits, value)
}

/// `BitWrite::byte_align`: appends zero bits up to the next whole byte.
#[verifier::external_body]
pub(crate) fn byte_align(w: &mut BitSink) -> (done: Result<
    (),
    std::io::Error,
>)
    ensures
        done is Ok,
        written(*final(w)) == padded(written(*old(w))),
{
    w.inner.byte_align()
}

/// `BitWriter::into_writer`: the whole bytes written; bits after the last
/// whole byte are dropped.
#[verifier::external_body]
pub(crate) fn into_bytes(w: BitSink) -> (bytes: Vec<u8>)
    ensures
        bytes@ == packed(written(w)),
{
    w.inner.into_writer()
}

/// `BitReader::endian` over a byte slice, little-endian: a reader that has
/// all bits of `data` still to hand out.
#[verifier::external_body]
pub(crate) fn bit_reader<'a>(data: &'a [u8]) -> (r: BitSource<'a>)
    ensures
        unread(r) == unpacked(data@),
{
    BitSource { inner: BitReader::endian(data, LittleEndian) }
}

/// `BitRead::read_bit`: hands out the next bit, and fails where none is left.
#[verifier::external_body]
pub(crate) fn read_bit(r: &mut BitSource) -> (bit: Result<bool, std::io::Error>)
    ensures
        unread(*old(r)).len() == 0 ==> bit is Err,
        unread(*old(r)).len() > 0 ==> bit is Ok && bit->Ok_0 == unread(*old(r))[0] && unread(
            *final(r),
        ) == unread(*old(r)).skip(1),
{
    r.inner.read_bit()
}

/// `BitRead::read` into a 16-bit value: hands out the number made of the
/// next `bits` bits, least significant first, and fails where fewer are left.
#[verifier::external_body]
pub(crate) fn read_bits(r: &mut BitSource, bits: u32) -> (value: Result<
    u16,
    std::io::Error,
>)
    requires
        bits <= 16,
    ensures
        unread(*old(r)).len() < bits ==> value is Err,
        unread(*old(r)).len() >= bits ==> value is Ok && value->Ok_0 == value_of(
            unread(*old(r)).take(bits as int),
        ) && unread(*final(r)) == unread(*old(r)).skip(bits as int),
{
    r.inner.read(bits)
}

} // verus!
