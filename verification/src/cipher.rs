//! The chunk cipher: ChaCha20-Poly1305 in the STREAM construction, with a
//! 31-bit little-endian chunk counter.
//!
//! The cipher itself is not verified here. Two functions of this module call
//! into the `chacha20poly1305` crate, and what they return is given a name
//! ([`stream_sealed`], [`stream_opened`]); everything else, including the
//! counter that binds each chunk to its place in the stream, is verified
//! against those names.

use crate::error::Error;
use chacha20poly1305::aead::stream::{NewStream, StreamLE31, StreamPrimitive};
use chacha20poly1305::ChaCha20Poly1305;
use vstd::prelude::*;

verus! {

/// Bytes in the shared secret.
pub const KEY_SIZE: usize = 32;

/// Bytes in the session nonce that the writing side picks.
pub const NONCE_SIZE: usize = 8;

/// Bytes that sealing adds to a chunk: the authentication tag.
pub const TAG_SIZE: usize = 16;

/// The upper end of the chunk counter. A stream may seal chunks at the
/// positions `0 .. COUNTER_MAX`; the last position is kept back, so a stream
/// carries at most `COUNTER_MAX` chunks.
pub const COUNTER_MAX: u32 = 0x0fff_ffff;

/// The bytes that sealing `plaintext` at `position` of the stream keyed by
/// `key` and `nonce` produces: the ciphertext followed by its tag.
pub uninterp spec fn stream_sealed(
    key: Seq<u8>,
    nonce: Seq<u8>,
    position: u32,
    plaintext: Seq<u8>,
) -> Seq<u8>;

/// The plaintext that opening `sealed` at `position` of the stream keyed by
/// `key` and `nonce` produces, or `None` where authentication fails.
pub uninterp spec fn stream_opened(
    key: Seq<u8>,
    nonce: Seq<u8>,
    position: u32,
    sealed: Seq<u8>,
) -> Option<Seq<u8>>;

/// Whether a chunk of `len` bytes is short enough for the cipher's block
/// counter.
pub open spec fn sealable_len(len: nat) -> bool {
    len / 64 < u32::MAX
}

/// Calls `StreamLE31::<ChaCha20Poly1305>::encrypt_in_place` with no
/// associated data and the last-block flag off.
///
/// Trusted: the call succeeds exactly when the position is within the counter's
/// range and the buffer is short enough for the cipher; on success the buffer
/// holds the sealed chunk, 16 bytes longer than the plaintext, and that chunk
/// opens at the same position to the plaintext it was sealed from; on failure
/// the buffer is as it was.
#[verifier::external_body]
fn seal_in_place(key: &[u8; 32], nonce: &[u8; 8], position: u32, buffer: &mut Vec<u8>) -> (ok: bool)
    ensures
        ok <==> position <= COUNTER_MAX && sealable_len(old(buffer)@.len()),
        ok ==> final(buffer)@ == stream_sealed(key@, nonce@, position, old(buffer)@),
        ok ==> final(buffer)@.len() == old(buffer)@.len() + TAG_SIZE,
        ok ==> stream_opened(key@, nonce@, position, final(buffer)@) == Some(old(buffer)@),
        !ok ==> final(buffer)@ == old(buffer)@,
{
    let stream = StreamLE31::<ChaCha20Poly1305>::new(key.into(), nonce.into());
    stream.encrypt_in_place(position, false, &[], buffer).is_ok()
}

/// Calls `StreamLE31::<ChaCha20Poly1305>::decrypt_in_place` with no
/// associated data and the last-block flag off.
///
/// Trusted: on success the buffer holds the plaintext, 16 bytes shorter than
/// the chunk; on failure the buffer is as it was.
#[verifier::external_body]
fn open_in_place(key: &[u8; 32], nonce: &[u8; 8], position: u32, buffer: &mut Vec<u8>) -> (ok: bool)
    ensures
        ok <==> stream_opened(key@, nonce@, position, old(buffer)@) is Some,
        ok ==> final(buffer)@ == stream_opened(key@, nonce@, position, old(buffer)@)->0,
        ok ==> final(buffer)@.len() + TAG_SIZE == old(buffer)@.len(),
        !ok ==> final(buffer)@ == old(buffer)@,
{
    let stream = StreamLE31::<ChaCha20Poly1305>::new(key.into(), nonce.into());
    stream.decrypt_in_place(position, false, &[], buffer).is_ok()
}

/// Where a stream stands: its key, its session nonce, and the position of
/// the next chunk.
pub struct StreamState {
    pub key: Seq<u8>,
    pub nonce: Seq<u8>,
    pub position: u32,
}

impl StreamState {
    /// A stream that has not handled any chunk yet.
    pub open spec fn start(key: Seq<u8>, nonce: Seq<u8>) -> StreamState {
        StreamState { key, nonce, position: 0 }
    }

    /// Whether the counter allows one more chunk.
    pub open spec fn has_room(self) -> bool {
        self.position < COUNTER_MAX
    }

    /// The stream after one more chunk.
    pub open spec fn next(self) -> StreamState {
        StreamState { position: (self.position + 1) as u32, ..self }
    }

    /// The stream after `n` more chunks.
    pub open spec fn skip(self, n: nat) -> StreamState {
        StreamState { position: (self.position + n) as u32, ..self }
    }

    /// What sealing `plaintext` as the next chunk gives.
    pub open spec fn sealed(self, plaintext: Seq<u8>) -> Seq<u8> {
        stream_sealed(self.key, self.nonce, self.position, plaintext)
    }

    /// Whether the chunk that `plaintext` is sealed to, as the next chunk,
    /// opens to `plaintext` again. [`StreamEncryptor::encrypt_next_in_place`]
    /// promises this of every chunk that it seals.
    pub open spec fn opens_what_it_seals(self, plaintext: Seq<u8>) -> bool {
        self.opened(self.sealed(plaintext)) == Some(plaintext)
    }

    /// What opening `sealed` as the next chunk gives: the plaintext, which
    /// is shorter than the chunk by the tag, or `None` where the chunk does
    /// not authenticate.
    pub open spec fn opened(self, sealed: Seq<u8>) -> Option<Seq<u8>> {
        match stream_opened(self.key, self.nonce, self.position, sealed) {
            Some(plaintext) if plaintext.len() + TAG_SIZE == sealed.len() => Some(plaintext),
            _ => None,
        }
    }
}

/// The sealing end of a stream. Each chunk is sealed at its own position, and
/// the position moves forward by exactly one per chunk and never back.
pub struct StreamEncryptor {
    key: [u8; 32],
    nonce: [u8; 8],
    position: u32,
}

impl View for StreamEncryptor {
    type V = StreamState;

    closed spec fn view(&self) -> StreamState {
        StreamState { key: self.key@, nonce: self.nonce@, position: self.position }
    }
}

impl StreamEncryptor {
    /// A stream at position 0.
    pub fn new(key: [u8; 32], nonce: [u8; 8]) -> (r: StreamEncryptor)
        ensures
            r@ == StreamState::start(key@, nonce@),
    {
        StreamEncryptor { key, nonce, position: 0 }
    }

    /// The session nonce.
    pub fn nonce(&self) -> (r: &[u8; 8])
        ensures
            r@ == self@.nonce,
    {
        &self.nonce
    }

    /// Seals the buffer's contents in place as the next chunk of the stream.
    /// The sealed chunk opens, at the position it was sealed at, to the
    /// plaintext it was sealed from.
    ///
    /// Fails, and changes nothing, once the counter is used up or where the
    /// buffer is longer than the cipher can take.
    pub fn encrypt_next_in_place(&mut self, buffer: &mut Vec<u8>) -> (r: Result<(), Error>)
        ensures
            r is Ok <==> old(self)@.has_room() && sealable_len(old(buffer)@.len()),
            r is Ok ==> {
                &&& final(buffer)@ == old(self)@.sealed(old(buffer)@)
                &&& final(buffer)@.len() == old(buffer)@.len() + TAG_SIZE
                &&& old(self)@.opens_what_it_seals(old(buffer)@)
                &&& final(self)@ == old(self)@.next()
            },
            r is Err ==> {
                &&& r == Err::<(), Error>(Error::EncryptionFailed)
                &&& final(buffer)@ == old(buffer)@
                &&& final(self)@ == old(self)@
            },
    {
        if self.position >= COUNTER_MAX {
            return Err(Error::EncryptionFailed);
        }
        if seal_in_place(&self.key, &self.nonce, self.position, buffer) {
            self.position = self.position + 1;
            Ok(())
        } else {
            Err(Error::EncryptionFailed)
        }
    }
}

/// The opening end of a stream: the mirror of [`StreamEncryptor`]. A chunk is
/// accepted only at the position it was sealed at.
pub struct StreamDecryptor {
    key: [u8; 32],
    nonce: [u8; 8],
    position: u32,
}

impl View for StreamDecryptor {
    type V = StreamState;

    closed spec fn view(&self) -> StreamState {
        StreamState { key: self.key@, nonce: self.nonce@, position: self.position }
    }
}

impl StreamDecryptor {
    /// A stream at position 0.
    pub fn new(key: [u8; 32], nonce: [u8; 8]) -> (r: StreamDecryptor)
        ensures
            r@ == StreamState::start(key@, nonce@),
    {
        StreamDecryptor { key, nonce, position: 0 }
    }

    /// Opens the buffer's contents in place as the next chunk of the stream.
    ///
    /// Fails, and changes nothing, once the counter is used up or where the
    /// chunk does not authenticate at this position.
    pub fn decrypt_next_in_place(&mut self, buffer: &mut Vec<u8>) -> (r: Result<(), Error>)
        ensures
            r is Ok <==> old(self)@.has_room() && old(self)@.opened(old(buffer)@) is Some,
            r is Ok ==> {
                &&& final(buffer)@ == old(self)@.opened(old(buffer)@)->0
                &&& final(buffer)@.len() + TAG_SIZE == old(buffer)@.len()
                &&& final(self)@ == old(self)@.next()
            },
            r is Err ==> {
                &&& r == Err::<(), Error>(Error::DecryptionFailed)
                &&& final(buffer)@ == old(buffer)@
                &&& final(self)@ == old(self)@
            },
    {
        if self.position >= COUNTER_MAX {
            return Err(Error::DecryptionFailed);
        }
        if open_in_place(&self.key, &self.nonce, self.position, buffer) {
            self.position = self.position + 1;
            Ok(())
        } else {
            Err(Error::DecryptionFailed)
        }
    }
}

} // verus!
