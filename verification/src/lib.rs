//! Private, authenticated byte streams between two peers, and the rendezvous
//! rooms through which the peers find each other.
//!
//! Nothing in this crate touches a socket, a clock or a scheduler. The
//! transport halves ([`reader::EncryptedReader`], [`writer::Writer`]) and the
//! room registry ([`global_state::State`]) are state machines: the caller
//! performs the reads, writes and waits and reports what happened.
//! [`round_trip`] drives both halves over a whole plaintext in memory.

pub mod chunk;
pub mod cipher;
pub mod contact;
pub mod error;
pub mod global_state;
pub mod helper_buf;
pub mod messages;
pub mod reader;
pub mod round_trip;
pub mod stream;
pub mod writer;

pub use error::Error;
