//! Authenticated encryption of a payload with ChaCha20-Poly1305, by the
//! `chacha20poly1305` crate.

use vstd::prelude::*;
use chacha20poly1305::aead::{AeadInPlace, NewAead};
use chacha20poly1305::{ChaCha20Poly1305, Key, Nonce};

verus! {

/// Number of bytes that sealing adds to a message: the authentication tag.
pub const TAG_LEN: usize = 16;

/// The longest message that can be sealed holds fewer than this many
/// blocks of 64 bytes.
pub const MAX_BLOCKS: u64 = 0xffff_ffff;

/// The ciphertext with its tag that ChaCha20-Poly1305 makes of a message
/// under a key and a nonce, with no associated data.
pub uninterp spec fn sealed(key: Seq<u8>, nonce: Seq<u8>, message: Seq<u8>) -> Seq<u8>;

/// The message that ChaCha20-Poly1305 finds in a ciphertext with its tag
/// under a key and a nonce, where the tag is the right one.
pub uninterp spec fn opened(key: Seq<u8>, nonce: Seq<u8>, ciphertext: Seq<u8>) -> Option<Seq<u8>>;

/// Whether a message is short enough to be sealed.
pub open spec fn sealable(message: Seq<u8>) -> bool {
    message.len() / 64 < MAX_BLOCKS
}

/// `AeadInPlace::encrypt_in_place` of `ChaCha20Poly1305`, with no
/// associated data: the message becomes its ciphertext, followed by the
/// tag of 16 bytes. It fails only for a message of too many blocks, which
/// it leaves as it is.
#[verifier::external_body]
#[allow(deprecated)]
pub(crate) fn seal(key: &[u8; 32], nonce: &[u8; 12], buffer: &mut Vec<u8>) -> (done: Result<
    (),
    chacha20poly1305::aead::Error,
>)
    ensures
        done is Ok <==> sealable(old(buffer)@),
        done is Ok ==> final(buffer)@ == sealed(key@, nonce@, old(buffer)@),
        done is Ok ==> final(buffer)@.len() == old(buffer)@.len() + TAG_LEN,
        done is Err ==> final(buffer)@ == old(buffer)@,
{
    let cipher = ChaCha20Poly1305::new(Key::from_slice(key));
    cipher.encrypt_in_place(Nonce::from_slice(nonce), b"", buffer)
}

/// `AeadInPlace::decrypt_in_place` of `ChaCha20Poly1305`, with no
/// associated data: a ciphertext whose tag is the right one becomes its
/// message, 16 bytes shorter, any other buffer stays as it is and gives
/// the error. What was
/// sealed under the same key and nonce is opened to the message it was
/// made of.
#[verifier::external_body]
#[allow(deprecated)]
pub(crate) fn open(key: &[u8; 32], nonce: &[u8; 12], buffer: &mut Vec<u8>) -> (done: Result<
    (),
    chacha20poly1305::aead::Error,
>)
    ensures
        match done {
            Ok(()) => opened(key@, nonce@, old(buffer)@) == Some(final(buffer)@),
            Err(_) => opened(key@, nonce@, old(buffer)@) is None && final(buffer)@ == old(
                buffer,
            )@,
        },
        done is Ok ==> final(buffer)@.len() + TAG_LEN == old(buffer)@.len(),
        forall|message: Seq<u8>|
            sealable(message) && old(buffer)@ == #[trigger] sealed(key@, nonce@, message)
                ==> done is Ok && final(buffer)@ == message,
{
    let cipher = ChaCha20Poly1305::new(Key::from_slice(key));
    cipher.decrypt_in_place(Nonce::from_slice(nonce), b"", buffer)
}

} // verus!
