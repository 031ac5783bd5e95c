//! Unauthenticated encryption of a byte stream with AES-128, block by
//! block. Every whole block of 16 bytes is encrypted on its own; the bytes
//! after the last whole block are passed through as they are, so that the
//! output is as long as the input and its last 0 to 15 bytes are not
//! encrypted.

use vstd::prelude::*;
use aes::cipher::generic_array::GenericArray;
use aes::cipher::{BlockDecrypt, BlockEncrypt, NewBlockCipher};
use aes::Aes128;
use crate::ar::BarResult;

verus! {

/// The block that AES-128 encrypts a block to under a key.
pub uninterp spec fn aes_encrypted(key: Seq<u8>, block: Seq<u8>) -> Seq<u8>;

/// The block that AES-128 decrypts a block to under a key.
pub uninterp spec fn aes_decrypted(key: Seq<u8>, block: Seq<u8>) -> Seq<u8>;

/// `BlockEncrypt::encrypt_block` of `Aes128` with the given key: the
/// encrypted block.
#[verifier::external_body]
#[allow(deprecated)]
fn encrypt_block(key: &[u8; 16], block: &[u8; 16]) -> (out: [u8; 16])
    ensures
        out@ == aes_encrypted(key@, block@),
{
    let mut out = GenericArray::clone_from_slice(block);
    Aes128::new(GenericArray::from_slice(key)).encrypt_block(&mut out);
    out.into()
}

/// `BlockDecrypt::decrypt_block` of `Aes128` with the given key: the
/// decrypted block. It undoes `encrypt_block`: the block that a block was
/// encrypted to under the same key is decrypted to that block.
#[verifier::external_body]
#[allow(deprecated)]
fn decrypt_block(key: &[u8; 16], block: &[u8; 16]) -> (out: [u8; 16])
    ensures
        out@ == aes_decrypted(key@, block@),
        forall|plain: Seq<u8>|
            plain.len() == 16 && block@ == #[trigger] aes_encrypted(key@, plain) ==> out@ == plain,
{
    let mut out = GenericArray::clone_from_slice(block);
    Aes128::new(GenericArray::from_slice(key)).decrypt_block(&mut out);
    out.into()
}

/// Whether the byte at `i` lies in a whole block of `data`.
pub open spec fn in_whole_block(data: Seq<u8>, i: int) -> bool {
    (i / 16 + 1) * 16 <= data.len()
}

/// The block of `data` that holds the byte at `i`.
pub open spec fn block_of(data: Seq<u8>, i: int) -> Seq<u8> {
    data.subrange(16 * (i / 16), 16 * (i / 16) + 16)
}

/// `data` with every whole block encrypted under `key`, and what follows
/// the last whole block as it is.
pub open spec fn ciphered(key: Seq<u8>, data: Seq<u8>) -> Seq<u8> {
    Seq::new(
        data.len(),
        |i: int|
            if in_whole_block(data, i) {
                aes_encrypted(key, block_of(data, i))[i % 16]
            } else {
                data[i]
            },
    )
}

/// `data` with every whole block decrypted under `key`, and what follows
/// the last whole block as it is.
pub open spec fn deciphered(key: Seq<u8>, data: Seq<u8>) -> Seq<u8> {
    Seq::new(
        data.len(),
        |i: int|
            if in_whole_block(data, i) {
                aes_decrypted(key, block_of(data, i))[i % 16]
            } else {
                data[i]
            },
    )
}

/// Whether every whole block of `data` is encrypted under `key` to a block
/// of 16 bytes again, as every block that was encrypted is.
pub open spec fn sized(key: Seq<u8>, data: Seq<u8>) -> bool {
    forall|i: int|
        0 <= i < data.len() && in_whole_block(data, i) ==> (#[trigger] aes_encrypted(
            key,
            block_of(data, i),
        )).len() == 16
}

/// The 16 bytes of `data` from `at` on.
fn block_at(data: &[u8], at: usize) -> (block: [u8; 16])
    requires
        at + 16 <= data@.len(),
    ensures
        block@ == data@.subrange(at as int, at + 16),
{
    let block: [u8; 16] = [
        data[at],
        data[at + 1],
        data[at + 2],
        data[at + 3],
        data[at + 4],
        data[at + 5],
        data[at + 6],
        data[at + 7],
        data[at + 8],
        data[at + 9],
        data[at + 10],
        data[at + 11],
        data[at + 12],
        data[at + 13],
        data[at + 14],
        data[at + 15],
    ];
    assert(block@ =~= data@.subrange(at as int, at + 16));
    block
}

/// Appends to `writer` the bytes of `reader` with every whole block turned
/// by AES under `key`, forwards or backwards.
fn transform(reader: &[u8], writer: &mut Vec<u8>, key: &[u8; 16], forwards: bool)
    ensures
        final(writer)@ == old(writer)@ + if forwards {
            ciphered(key@, reader@)
        } else {
            deciphered(key@, reader@)
        },
        forwards ==> sized(key@, reader@),
        !forwards ==> forall|plain: Seq<u8>|
            reader@ == #[trigger] ciphered(key@, plain) && sized(key@, plain) ==> final(writer)@
                == old(writer)@ + plain,
{
    let len = reader.len();
    let ghost want = if forwards {
        ciphered(key@, reader@)
    } else {
        deciphered(key@, reader@)
    };
    let mut at: usize = 0;
    assert(writer@ =~= old(writer)@ + want.take(0));
    assert forall|plain: Seq<u8>| reader@ == #[trigger] ciphered(key@, plain) implies writer@
        == old(writer)@ + plain.take(0) by {
        assert(writer@ =~= old(writer)@ + plain.take(0));
    }
    while len - at >= 16
        invariant
            len == reader@.len(),
            at <= len,
            at % 16 == 0,
            want == if forwards {
                ciphered(key@, reader@)
            } else {
                deciphered(key@, reader@)
            },
            writer@ == old(writer)@ + want.take(at as int),
            forwards ==> forall|i: int|
                0 <= i < at ==> (#[trigger] aes_encrypted(key@, block_of(reader@, i))).len() == 16,
            !forwards ==> forall|plain: Seq<u8>|
                reader@ == #[trigger] ciphered(key@, plain) && sized(key@, plain) ==> writer@
                    == old(writer)@ + plain.take(at as int),
        decreases len - at,
    {
        let block = block_at(reader, at);
        let turned = if forwards {
            encrypt_block(key, &block)
        } else {
            decrypt_block(key, &block)
        };
        let ghost before = writer@;
        let mut i: usize = 0;
        while i < 16
            invariant
                i <= 16,
                writer@ == before + turned@.take(i as int),
            decreases 16 - i,
        {
            writer.push(turned[i]);
            i += 1;
            assert(writer@ =~= before + turned@.take(i as int));
        }
        proof {
            assert(turned@.take(16) =~= turned@);
            assert forall|j: int| 0 <= j < 16 implies want[at + j] == #[trigger] turned@[j] by {
                assert((at + j) / 16 == at / 16);
                assert((at + j) % 16 == j);
                assert(16 * (at as int / 16) == at);
                assert(block_of(reader@, at + j) =~= block@);
            }
            assert(want.take(at + 16) =~= want.take(at as int) + turned@);
            if forwards {
                assert forall|i: int| 0 <= i < at + 16 implies (#[trigger] aes_encrypted(
                    key@,
                    block_of(reader@, i),
                )).len() == 16 by {
                    if i >= at {
                        assert(i / 16 == at / 16);
                        assert(16 * (at as int / 16) == at);
                        assert(block_of(reader@, i) =~= block@);
                    }
                }
            } else {
                assert forall|plain: Seq<u8>|
                    reader@ == #[trigger] ciphered(key@, plain) && sized(key@, plain) implies writer@
                    == old(writer)@ + plain.take(at + 16) by {
                    let piece = block_of(plain, at as int);
                    assert(16 * (at as int / 16) == at);
                    assert(in_whole_block(plain, at as int));
                    let made = aes_encrypted(key@, piece);
                    assert(made.len() == 16);
                    assert forall|j: int| 0 <= j < 16 implies block@[j] == made[j] by {
                        assert((at + j) / 16 == at / 16);
                        assert((at + j) % 16 == j);
                        assert(block_of(plain, at + j) =~= piece);
                        assert(block@[j] == reader@[at + j]);
                    }
                    assert(block@ =~= made);
                    assert(turned@ == piece);
                    assert(plain.take(at + 16) =~= plain.take(at as int) + piece);
                }
            }
        }
        at += 16;
    }
    let ghost before = writer@;
    let mut i: usize = at;
    assert(reader@.subrange(at as int, at as int) =~= Seq::<u8>::empty());
    while i < len
        invariant
            at <= i <= len,
            len == reader@.len(),
            writer@ == before + reader@.subrange(at as int, i as int),
        decreases len - i,
    {
        writer.push(reader[i]);
        i += 1;
        assert(writer@ =~= before + reader@.subrange(at as int, i as int));
    }
    proof {
        assert forall|j: int| at <= j < len implies !in_whole_block(reader@, j) by {
            assert(j / 16 == at / 16);
            assert(16 * (at as int / 16) == at);
        }
        assert forall|j: int| at <= j < len implies want[j] == reader@[j] by {
            assert(!in_whole_block(reader@, j));
        }
        assert(want =~= want.take(at as int) + reader@.subrange(at as int, len as int));
        if forwards {
            assert forall|i: int| 0 <= i < reader@.len() && in_whole_block(reader@, i) implies (
            #[trigger] aes_encrypted(key@, block_of(reader@, i))).len() == 16 by {
                if i >= at {
                    assert(!in_whole_block(reader@, i));
                }
            }
        } else {
            assert forall|plain: Seq<u8>|
                reader@ == #[trigger] ciphered(key@, plain) && sized(key@, plain) implies writer@
                == old(writer)@ + plain by {
                assert forall|j: int| at <= j < len implies plain[j] == reader@[j] by {
                    assert(!in_whole_block(plain, j)) by {
                        assert(j / 16 == at / 16);
                        assert(16 * (at as int / 16) == at);
                    }
                }
                assert(plain =~= plain.take(at as int) + reader@.subrange(at as int, len as int));
            }
        }
    }
}

/// Encrypt the bytes of a reader, writing the encrypted bytes to a writer
pub fn encrypt(reader: &[u8], writer: &mut Vec<u8>, key: &[u8; 16]) -> (done: BarResult<()>)
    ensures
        done is Ok,
        final(writer)@ == old(writer)@ + ciphered(key@, reader@),
        sized(key@, reader@),
{
    transform(reader, writer, key, true);
    Ok(())
}

/// Decrypt the bytes of a reader, writing decrypted bytes to a writer; what
/// [`encrypt`] wrote under the same key is turned back into what it was
/// made of
pub fn decrypt(reader: &[u8], writer: &mut Vec<u8>, key: &[u8; 16]) -> (done: BarResult<()>)
    ensures
        done is Ok,
        final(writer)@ == old(writer)@ + deciphered(key@, reader@),
        forall|plain: Seq<u8>|
            reader@ == #[trigger] ciphered(key@, plain) && sized(key@, plain) ==> final(writer)@
                == old(writer)@ + plain,
{
    transform(reader, writer, key, false);
    Ok(())
}

/// Encrypt a buffer in place
pub fn encrypt_in_place(plaintxt: &mut Vec<u8>, key: &[u8; 16]) -> (done: BarResult<()>)
    ensures
        done is Ok,
        final(plaintxt)@ == ciphered(key@, old(plaintxt)@),
        sized(key@, old(plaintxt)@),
{
    let mut out: Vec<u8> = Vec::new();
    transform(plaintxt.as_slice(), &mut out, key, true);
    assert(out@ =~= ciphered(key@, plaintxt@));
    *plaintxt = out;
    Ok(())
}

/// Decrypt a buffer in place; what [`encrypt_in_place`] made under the same
/// key is turned back into what it was made of
pub fn decrypt_in_place(ciphertxt: &mut Vec<u8>, key: &[u8; 16]) -> (done: BarResult<()>)
    ensures
        done is Ok,
        final(ciphertxt)@ == deciphered(key@, old(ciphertxt)@),
        forall|plain: Seq<u8>|
            old(ciphertxt)@ == #[trigger] ciphered(key@, plain) && sized(key@, plain) ==> final(ciphertxt)@ == plain,
{
    let mut out: Vec<u8> = Vec::new();
    transform(ciphertxt.as_slice(), &mut out, key, false);
    assert(out@ =~= deciphered(key@, ciphertxt@));
    assert forall|plain: Seq<u8>|
        ciphertxt@ == #[trigger] ciphered(key@, plain) && sized(key@, plain) implies out@
        == plain by {
        assert(Seq::<u8>::empty() + plain =~= plain);
    }
    *ciphertxt = out;
    Ok(())
}

} // verus!
