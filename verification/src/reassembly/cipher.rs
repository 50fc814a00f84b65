//! Chunk encryption: ChaCha20-Poly1305 with the nonce in front of the ciphertext.
use crate::endian::{self, append_bytes};
use chacha20poly1305::aead::{AeadInPlace, KeyInit};
use chacha20poly1305::{ChaCha20Poly1305, Key, Nonce};
use vstd::prelude::*;
use vstd::slice::{slice_subrange, slice_to_vec};

verus! {

/// The bytes of a nonce.
pub const NONCE_LEN: usize = 12;

/// The bytes of the longest message that the cipher takes: as many blocks of 64 bytes as its
/// counter has left after the first two.
pub const MAX_MESSAGE: u64 = 274_877_906_816;

/// What `chacha20poly1305` makes of a message: the ciphertext with its tag.
pub uninterp spec fn aead_sealed(key: Seq<u8>, nonce: Seq<u8>, plain: Seq<u8>) -> Seq<u8>;

/// What `chacha20poly1305` makes of a ciphertext with its tag: the message, if the tag is right.
pub uninterp spec fn aead_opened(key: Seq<u8>, nonce: Seq<u8>, sealed: Seq<u8>) -> Option<
    Seq<u8>,
>;

/// Calls `chacha20poly1305::ChaCha20Poly1305::decrypt_in_place` without associated data: the
/// result depends on key, nonce and ciphertext alone, and a message is 16 bytes shorter than its
/// ciphertext.
#[verifier::external_body]
fn aead_open(key: &[u8; 32], nonce: &[u8], sealed: Vec<u8>) -> (r: Option<Vec<u8>>)
    requires
        nonce@.len() == NONCE_LEN,
        sealed@.len() <= MAX_MESSAGE + 16,
    ensures
        endian::bytes_view(r) == aead_opened(key@, nonce@, sealed@),
        r matches Some(plain) ==> plain@.len() + 16 == sealed@.len(),
{
    let mut buffer = sealed;
    let cipher = ChaCha20Poly1305::new(Key::from_slice(key));
    cipher.decrypt_in_place(Nonce::from_slice(nonce), &[], &mut buffer).ok()?;
    Some(buffer)
}

/// Calls `chacha20poly1305::ChaCha20Poly1305::encrypt_in_place` without associated data: the
/// result depends on key, nonce and message alone, is 16 bytes longer than the message, and opens
/// to the message under the same key and nonce. No message within the cipher's limit is refused.
#[verifier::external_body]
fn aead_seal(key: &[u8; 32], nonce: &[u8], plain: Vec<u8>) -> (r: Option<Vec<u8>>)
    requires
        nonce@.len() == NONCE_LEN,
        plain@.len() <= MAX_MESSAGE,
    ensures
        endian::bytes_view(r) == Some(aead_sealed(key@, nonce@, plain@)),
        r matches Some(sealed) ==> sealed@.len() == plain@.len() + 16,
        r matches Some(sealed) ==> aead_opened(key@, nonce@, sealed@) == Some(plain@),
{
    let mut buffer = plain;
    let cipher = ChaCha20Poly1305::new(Key::from_slice(key));
    cipher.encrypt_in_place(Nonce::from_slice(nonce), &[], &mut buffer).ok()?;
    Some(buffer)
}

/// The message in a nonce and the ciphertext behind it, if they are one. No message is longer than
/// the cipher's limit.
pub open spec fn decrypted(key: Seq<u8>, data: Seq<u8>) -> Option<Seq<u8>> {
    if data.len() < NONCE_LEN || data.len() > MAX_MESSAGE + 28 {
        None
    } else {
        aead_opened(key, data.take(NONCE_LEN as int), data.skip(NONCE_LEN as int))
    }
}

/// Opens a nonce and the ciphertext behind it.
pub fn decrypt(key: &[u8; 32], data: &[u8]) -> (r: Option<Vec<u8>>)
    ensures
        endian::bytes_view(r) == decrypted(key@, data@),
        r matches Some(plain) ==> plain@.len() <= data@.len(),
        12 <= data@.len() <= 274_877_906_844 ==> endian::bytes_view(r) == aead_opened(
            key@,
            data@.take(12),
            data@.skip(12),
        ),
        data@.len() < 12 || data@.len() > 274_877_906_844 ==> r is None,
        r matches Some(plain) ==> plain@.len() + 28 == data@.len(),
{
    if data.len() < NONCE_LEN || data.len() as u64 > MAX_MESSAGE + 28 {
        return None;
    }
    let nonce: &[u8] = slice_subrange(data, 0, NONCE_LEN);
    let sealed: Vec<u8> = slice_to_vec(slice_subrange(data, NONCE_LEN, data.len()));
    assert(nonce@ =~= data@.take(NONCE_LEN as int));
    assert(sealed@ =~= data@.skip(NONCE_LEN as int));
    aead_open(key, nonce, sealed)
}

/// The nonce and the ciphertext of a message. What it makes, `decrypt` opens to the message. A
/// message longer than the cipher's limit is refused.
pub fn encrypt(key: &[u8; 32], nonce: &[u8; 12], plain: &[u8]) -> (r: Option<Vec<u8>>)
    ensures
        endian::bytes_view(r) == if plain@.len() <= MAX_MESSAGE {
            Some(nonce@ + aead_sealed(key@, nonce@, plain@))
        } else {
            None
        },
        r matches Some(data) ==> data@.len() == plain@.len() + 28,
        r matches Some(data) ==> decrypted(key@, data@) == Some(plain@),
        r is Some <==> plain@.len() <= 274_877_906_816,
        r matches Some(data) ==> data@.take(12) == nonce@ && aead_opened(
            key@,
            nonce@,
            data@.skip(12),
        ) == Some(plain@),
{
    if plain.len() as u64 > MAX_MESSAGE {
        return None;
    }
    match aead_seal(key, nonce.as_slice(), slice_to_vec(plain)) {
        Some(sealed) => {
            let mut data: Vec<u8> = Vec::new();
            append_bytes(&mut data, nonce.as_slice());
            append_bytes(&mut data, sealed.as_slice());
            assert(data@ =~= nonce@ + sealed@);
            assert(data@.take(NONCE_LEN as int) =~= nonce@);
            assert(data@.skip(NONCE_LEN as int) =~= sealed@);
            Some(data)
        },
        None => None,
    }
}

/// The nonce whose bytes count from 1 to 12.
pub fn counting_nonce() -> (r: [u8; 12])
    ensures
        forall|i: int| 0 <= i < 12 ==> #[trigger] r@[i] == i + 1,
{
    [1, 2, 3, 4, 5, 6, 7, 8, 9, 10, 11, 12]
}

} // verus!
