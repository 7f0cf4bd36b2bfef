//! The messages of the rendezvous protocol, and how an encoded message is
//! put on the wire: a two-byte big-endian length, then the message.
//!
//! Turning a message into bytes and back is not done here: the library
//! frames and unframes the bytes.

use crate::contact::{FullContact, SocketAddr};
use crate::error::Error;
use crate::global_state::RoomId;
use vstd::prelude::*;

verus! {

/// Bytes in the length prefix of a message.
pub const LENGTH_SIZE: usize = 2;

/// What a client tells the server.
#[derive(Clone, Copy, Debug, PartialEq, Eq)]
pub enum ClientMessage {
    /// Make a room.
    CreateRoom,
    /// One address of the sender: the room, whether the sender created the
    /// room, the address, and whether this is the sender's last address.
    SendContact(RoomId, bool, SocketAddr, bool),
}

/// What the server tells a client.
#[derive(Clone, Copy, Debug, PartialEq, Eq)]
pub enum ServerMessage {
    /// The room was made, under this identifier.
    RoomCreated(RoomId),
    /// Everything known of how to reach the other peer.
    SharePeerContacts(FullContact),
    /// The client's message could not be understood.
    SyntaxError,
    /// There is no room under the identifier that the client gave.
    NoSuchRoomPasswordError,
}

/// The two bytes that spell `n`, most significant byte first.
pub open spec fn be_bytes_u16(n: nat) -> Seq<u8> {
    seq![(n / 0x100) as u8, (n % 0x100) as u8]
}

/// The number that the first two bytes of `b` spell, most significant byte
/// first.
pub open spec fn be_u16(b: Seq<u8>) -> nat {
    (b[0] as nat) * 0x100 + (b[1] as nat)
}

/// An encoded message as it goes on the wire.
pub open spec fn framed_message(msg: Seq<u8>) -> Seq<u8> {
    be_bytes_u16(msg.len()) + msg
}

/// The first encoded message in `stream`, once all of it has arrived.
pub open spec fn first_message(stream: Seq<u8>) -> Option<Seq<u8>> {
    if stream.len() >= LENGTH_SIZE && stream.len() >= LENGTH_SIZE + be_u16(stream) {
        Some(stream.subrange(LENGTH_SIZE as int, LENGTH_SIZE + be_u16(stream)))
    } else {
        None
    }
}

/// The length that `stream` announces for its first message, or `None`
/// while fewer than two bytes have arrived.
pub fn message_len(stream: &[u8]) -> (r: Option<usize>)
    ensures
        r == if stream@.len() >= LENGTH_SIZE {
            Some(be_u16(stream@) as usize)
        } else {
            None
        },
{
    if stream.len() < LENGTH_SIZE {
        None
    } else {
        Some((stream[0] as usize) * 0x100 + (stream[1] as usize))
    }
}

/// The first encoded message in `stream`, without its length prefix, or
/// `None` while it has not arrived in full.
pub fn deserialize_from(stream: &[u8]) -> (r: Option<&[u8]>)
    ensures
        r matches Some(msg) ==> first_message(stream@) == Some(msg@),
        r is None ==> first_message(stream@) is None,
{
    match message_len(stream) {
        None => None,
        Some(len) => {
            if stream.len() - LENGTH_SIZE < len {
                None
            } else {
                Some(vstd::slice::slice_subrange(stream, LENGTH_SIZE, LENGTH_SIZE + len))
            }
        },
    }
}

/// Puts the encoded message `msg` on `stream`, behind its length. A message
/// of more than 65535 bytes is turned down, and `stream` is left as it was.
pub fn serialize_into(stream: &mut Vec<u8>, msg: &[u8]) -> (r: Result<(), Error>)
    ensures
        r is Ok <==> msg@.len() <= u16::MAX,
        r is Ok ==> final(stream)@ == old(stream)@ + framed_message(msg@),
        r is Err ==> r == Err::<(), Error>(Error::MessageTooLong) && final(stream)@ == old(
            stream,
        )@,
{
    let len: usize = msg.len();
    if len > 0xffff {
        return Err(Error::MessageTooLong);
    }
    stream.push((len / 0x100) as u8);
    stream.push((len % 0x100) as u8);
    stream.extend_from_slice(msg);
    assert(stream@ =~= old(stream)@ + framed_message(msg@));
    Ok(())
}

/// A framed message is read back whole, whatever follows it.
pub proof fn lemma_framed_message(msg: Seq<u8>, rest: Seq<u8>)
    requires
        msg.len() <= u16::MAX,
    ensures
        first_message(framed_message(msg) + rest) == Some(msg),
        framed_message(msg).len() == LENGTH_SIZE + msg.len(),
{
    let stream = framed_message(msg) + rest;
    assert(stream[0] == be_bytes_u16(msg.len())[0]);
    assert(stream[1] == be_bytes_u16(msg.len())[1]);
    assert(stream.subrange(LENGTH_SIZE as int, LENGTH_SIZE + msg.len()) =~= msg);
}

} // verus!
