//! The unit on the wire: a four-byte big-endian length, then that many bytes
//! of sealed chunk (ciphertext and tag).

use crate::cipher::TAG_SIZE;
use crate::helper_buf::HelperBuf;
use vstd::prelude::*;

verus! {

/// The most bytes a sealed chunk may have, tag included.
pub const MAX_CHUNK_SIZE: usize = 0xffff;

/// The most plaintext that fits in one chunk.
pub const MAX_PLAINTEXT_SIZE: usize = MAX_CHUNK_SIZE - TAG_SIZE;

/// Bytes in the length prefix.
pub const HEADER_SIZE: usize = 4;

/// The number that the first four bytes of `b` spell, most significant byte
/// first.
pub open spec fn be_u32(b: Seq<u8>) -> nat {
    (b[0] as nat) * 0x100_0000 + (b[1] as nat) * 0x1_0000 + (b[2] as nat) * 0x100 + (b[3] as nat)
}

/// The four bytes that spell `n`, most significant byte first.
pub open spec fn be_bytes(n: nat) -> Seq<u8> {
    seq![
        (n / 0x100_0000) as u8,
        (n / 0x1_0000 % 0x100) as u8,
        (n / 0x100 % 0x100) as u8,
        (n % 0x100) as u8,
    ]
}

/// The length that `data` announces for its first chunk, once the whole
/// prefix has arrived.
pub open spec fn header_len(data: Seq<u8>) -> Option<nat> {
    if data.len() >= HEADER_SIZE {
        Some(be_u32(data))
    } else {
        None
    }
}

/// The first sealed chunk in `data`, once all of it has arrived.
pub open spec fn cipher_chunk(data: Seq<u8>) -> Option<Seq<u8>> {
    match header_len(data) {
        Some(n) if data.len() >= HEADER_SIZE + n => Some(
            data.subrange(HEADER_SIZE as int, HEADER_SIZE + n),
        ),
        _ => None,
    }
}

/// A sealed chunk as it goes on the wire.
pub open spec fn framed(chunk: Seq<u8>) -> Seq<u8> {
    be_bytes(chunk.len()) + chunk
}

/// Spelling a number and reading it back gives the number.
pub proof fn lemma_be_round_trip(n: nat)
    requires
        n <= u32::MAX,
    ensures
        be_bytes(n).len() == HEADER_SIZE,
        be_u32(be_bytes(n)) == n,
{
}

/// A framed chunk is read back whole, whatever follows it.
pub proof fn lemma_framed_chunk(chunk: Seq<u8>, rest: Seq<u8>)
    requires
        chunk.len() <= u32::MAX,
    ensures
        header_len(framed(chunk) + rest) == Some(chunk.len()),
        cipher_chunk(framed(chunk) + rest) == Some(chunk),
        (framed(chunk) + rest).skip(HEADER_SIZE + chunk.len()) == rest,
        framed(chunk).len() == HEADER_SIZE + chunk.len(),
{
    lemma_be_round_trip(chunk.len());
    let wire = framed(chunk) + rest;
    assert(wire[0] == be_bytes(chunk.len())[0]);
    assert(wire[1] == be_bytes(chunk.len())[1]);
    assert(wire[2] == be_bytes(chunk.len())[2]);
    assert(wire[3] == be_bytes(chunk.len())[3]);
    assert(wire.subrange(HEADER_SIZE as int, HEADER_SIZE + chunk.len()) =~= chunk);
    assert(wire.skip(HEADER_SIZE + chunk.len()) =~= rest);
}

/// The length that the unread bytes announce for their first chunk, or
/// `None` while fewer than four bytes have arrived.
pub fn peek_chunk_len(buf: &HelperBuf) -> (r: Option<usize>)
    requires
        buf.wf(),
    ensures
        r matches Some(n) ==> header_len(buf@.data()) == Some(n as nat),
        r is None ==> header_len(buf@.data()) is None,
{
    let data = buf.data();
    if data.len() < HEADER_SIZE {
        return None;
    }
    let n: u32 = (data[0] as u32) * 0x100_0000 + (data[1] as u32) * 0x1_0000 + (data[2] as u32)
        * 0x100 + (data[3] as u32);
    Some(n as usize)
}

/// The first sealed chunk among the unread bytes, without its length prefix,
/// or `None` while it has not arrived in full.
pub fn peek_cipher_chunk(buf: &HelperBuf) -> (r: Option<&[u8]>)
    requires
        buf.wf(),
    ensures
        r matches Some(chunk) ==> cipher_chunk(buf@.data()) == Some(chunk@),
        r is None ==> cipher_chunk(buf@.data()) is None,
{
    let data = buf.data();
    match peek_chunk_len(buf) {
        None => None,
        Some(n) => {
            if data.len() - HEADER_SIZE < n {
                None
            } else {
                Some(vstd::slice::slice_subrange(data, HEADER_SIZE, HEADER_SIZE + n))
            }
        },
    }
}

/// The length prefix for a sealed chunk of `len` bytes.
pub fn header_bytes(len: usize) -> (r: [u8; 4])
    requires
        len <= u32::MAX,
    ensures
        r@ == be_bytes(len as nat),
{
    let r: [u8; 4] = [
        (len / 0x100_0000) as u8,
        (len / 0x1_0000 % 0x100) as u8,
        (len / 0x100 % 0x100) as u8,
        (len % 0x100) as u8,
    ];
    assert(r@ =~= be_bytes(len as nat));
    r
}

} // verus!
