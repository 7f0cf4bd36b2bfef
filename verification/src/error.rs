//! What can go wrong inside the library.

use vstd::prelude::*;

verus! {

/// The failures that the transport and the rendezvous registry report.
///
/// Failures of the underlying connection never reach the library: whoever
/// performs the reads and writes sees them first and hands them on unchanged.
#[derive(Clone, Copy, Debug, PartialEq, Eq, Structural)]
pub enum Error {
    /// A message does not fit behind a two-byte length prefix.
    MessageTooLong,
    /// A chunk failed authentication or was malformed. The stream is out of
    /// step from here on and has to be torn down.
    DecryptionFailed,
    /// A chunk could not be sealed: the stream has used up its chunk counter.
    EncryptionFailed,
    /// The room does not exist: it never did, it was matched, or it expired.
    NoSuchRoom,
}

} // verus!
