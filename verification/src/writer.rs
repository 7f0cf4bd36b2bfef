//! The sending half of the transport: plaintext goes in, and framed, sealed
//! chunks wait to be handed to the connection.
//!
//! The writer never touches the connection. Its caller offers
//! [`Writer::pending`] to the connection and reports how much of it the
//! connection took.

use crate::chunk::{framed, header_bytes, HEADER_SIZE, MAX_CHUNK_SIZE, MAX_PLAINTEXT_SIZE};
use crate::cipher::{StreamEncryptor, StreamState, COUNTER_MAX, NONCE_SIZE};
use crate::error::Error;
use crate::helper_buf::{HelperBuf, HelperBufView};
use crate::stream::{carries, lemma_wire_of_push, wire_of};
use vstd::prelude::*;

verus! {

/// The most bytes that can wait for the connection at once: one chunk and
/// its length prefix.
pub const PENDING_CAPACITY: usize = HEADER_SIZE + MAX_CHUNK_SIZE;

/// One thing that happens to a writer: the caller offers plaintext, or the
/// connection takes some of the bytes that wait.
pub enum WriterOp {
    Write(Seq<u8>),
    Flushed(nat),
}

/// What a [`Writer`] holds: where the stream stands, and the bytes that the
/// connection has yet to take.
pub struct WriterView {
    pub stream: StreamState,
    pub pending: HelperBufView,
}

impl WriterView {
    /// The queue of waiting bytes is well formed and has the capacity it was
    /// made with.
    pub open spec fn wf(self) -> bool {
        &&& self.pending.wf()
        &&& self.pending.capacity == PENDING_CAPACITY
    }

    /// A writer that has sealed nothing: the session nonce waits to be sent
    /// ahead of the first chunk.
    pub open spec fn fresh(key: Seq<u8>, nonce: Seq<u8>) -> WriterView {
        WriterView {
            stream: StreamState::start(key, nonce),
            pending: HelperBufView::empty(PENDING_CAPACITY as nat).extend(nonce),
        }
    }

    /// How much of a plaintext of `len` bytes goes into one chunk.
    pub open spec fn chunk_len(len: nat) -> nat {
        if len < MAX_PLAINTEXT_SIZE {
            len
        } else {
            MAX_PLAINTEXT_SIZE as nat
        }
    }

    /// The writer after it was offered `buf`, and how many bytes of it the
    /// writer took. While earlier bytes wait for the connection nothing is
    /// taken. Otherwise the front of `buf`, up to [`MAX_PLAINTEXT_SIZE`]
    /// bytes, is sealed as the next chunk and queued behind its length
    /// prefix; this fails once the stream's counter is used up.
    pub open spec fn poll_write(self, buf: Seq<u8>) -> (WriterView, Result<usize, Error>) {
        if self.pending.data().len() > 0 {
            (self, Ok(0))
        } else if !self.stream.has_room() {
            (self, Err(Error::EncryptionFailed))
        } else {
            let taken = Self::chunk_len(buf.len());
            let chunk = self.stream.sealed(buf.take(taken as int));
            (
                WriterView {
                    stream: self.stream.next(),
                    pending: HelperBufView::empty(PENDING_CAPACITY as nat).extend(framed(chunk)),
                },
                Ok(taken as usize),
            )
        }
    }

    /// The writer after the connection took `bytes_written` of the waiting
    /// bytes.
    pub open spec fn flush_local_buffer(self, bytes_written: nat) -> WriterView {
        WriterView { pending: self.pending.advance(bytes_written), ..self }
    }

    /// Whether offering `buf` seals a chunk: nothing waits, and the counter
    /// has a position left.
    pub open spec fn seals(self) -> bool {
        self.pending.data().len() == 0 && self.stream.has_room()
    }

    /// Whether `op` may be applied: the connection cannot take more than
    /// waits.
    pub open spec fn allows(self, op: WriterOp) -> bool {
        match op {
            WriterOp::Write(buf) => true,
            WriterOp::Flushed(bytes_written) => bytes_written <= self.pending.data().len(),
        }
    }

    /// The writer after `op`.
    pub open spec fn step(self, op: WriterOp) -> WriterView {
        match op {
            WriterOp::Write(buf) => self.poll_write(buf).0,
            WriterOp::Flushed(bytes_written) => self.flush_local_buffer(bytes_written),
        }
    }
}

/// Calls `rand::random::<[u8; 8]>`. Nothing is promised of the bytes.
#[verifier::external_body]
fn random_nonce() -> (r: [u8; 8]) {
    rand::random()
}

/// Seals the plaintext of one direction of a connection into framed chunks,
/// and keeps every sealed byte until the connection has taken it.
pub struct Writer {
    encryptor: StreamEncryptor,
    encryption_space: Vec<u8>,
    ciphertext: HelperBuf,
}

impl View for Writer {
    type V = WriterView;

    closed spec fn view(&self) -> WriterView {
        WriterView { stream: self.encryptor@, pending: self.ciphertext@ }
    }
}

impl Writer {
    /// See [`WriterView::wf`].
    pub open spec fn wf(&self) -> bool {
        self@.wf()
    }

    /// A writer for a new stream under `key`, with a session nonce drawn at
    /// random. The nonce is the first thing that waits for the connection.
    pub fn new(key: [u8; 32]) -> (r: Writer)
        ensures
            r.wf(),
            r@ == WriterView::fresh(key@, r@.stream.nonce),
            r@.stream.nonce.len() == NONCE_SIZE,
    {
        Writer::with_nonce(key, random_nonce())
    }

    /// A writer for a new stream under `key` and `nonce`. The nonce is the
    /// first thing that waits for the connection.
    pub fn with_nonce(key: [u8; 32], nonce: [u8; 8]) -> (r: Writer)
        ensures
            r.wf(),
            r@ == WriterView::fresh(key@, nonce@),
    {
        let mut ciphertext = HelperBuf::with_capacity(PENDING_CAPACITY);
        ciphertext.extend_from_slice(nonce.as_slice());
        Writer {
            encryptor: StreamEncryptor::new(key, nonce),
            encryption_space: Vec::new(),
            ciphertext,
        }
    }

    /// The sealed bytes that the connection has yet to take, in the order in
    /// which it must take them.
    pub fn pending(&self) -> (r: &[u8])
        requires
            self.wf(),
        ensures
            r@ == self@.pending.data(),
    {
        self.ciphertext.data()
    }

    /// Records that the connection took the first `bytes_written` of the
    /// waiting bytes; the rest keeps waiting. Returns whether nothing waits
    /// any more.
    pub fn flush_local_buffer(&mut self, bytes_written: usize) -> (r: bool)
        requires
            old(self).wf(),
            bytes_written <= old(self)@.pending.data().len(),
        ensures
            final(self).wf(),
            final(self)@ == old(self)@.flush_local_buffer(bytes_written as nat),
            r <==> final(self)@.pending.data().len() == 0,
    {
        self.ciphertext.advance_cursor(bytes_written);
        self.ciphertext.data_len() == 0
    }

    /// Offers `buf` to the writer and returns how many bytes of it the
    /// writer took.
    ///
    /// While earlier bytes wait for the connection, nothing is taken and
    /// nothing is sealed. Otherwise the front of `buf`, up to
    /// [`MAX_PLAINTEXT_SIZE`] bytes, is sealed as the next chunk and queued
    /// behind its length prefix; that chunk opens, at its position, to the
    /// plaintext it was sealed from. Fails, and changes nothing, once the
    /// stream's counter is used up.
    pub fn poll_write(&mut self, buf: &[u8]) -> (r: Result<usize, Error>)
        requires
            old(self).wf(),
        ensures
            final(self).wf(),
            final(self)@ == old(self)@.poll_write(buf@).0,
            r == old(self)@.poll_write(buf@).1,
            old(self)@.seals() ==> old(self)@.stream.opens_what_it_seals(
                buf@.take(WriterView::chunk_len(buf@.len()) as int),
            ),
    {
        if self.ciphertext.data_len() > 0 {
            return Ok(0);
        }
        let taken: usize = if buf.len() < MAX_PLAINTEXT_SIZE {
            buf.len()
        } else {
            MAX_PLAINTEXT_SIZE
        };
        self.encryption_space.clear();
        self.encryption_space.extend_from_slice(vstd::slice::slice_subrange(buf, 0, taken));
        assert(self.encryption_space@ =~= buf@.take(taken as int));
        match self.encryptor.encrypt_next_in_place(&mut self.encryption_space) {
            Err(_) => {
                return Err(Error::EncryptionFailed);
            },
            Ok(()) => {},
        }
        let header = header_bytes(self.encryption_space.len());
        assert(self.ciphertext@.bytes =~= Seq::<u8>::empty());
        self.ciphertext.extend_from_slice(header.as_slice());
        self.ciphertext.extend_from_slice(self.encryption_space.as_slice());
        assert(self.ciphertext@.bytes =~= framed(self.encryption_space@));
        self.encryption_space.clear();
        Ok(taken)
    }

    /// Whether everything that was sealed has been handed to the connection,
    /// so that the connection itself may now be flushed or shut down.
    pub fn poll_flush(&self) -> (r: bool)
        requires
            self.wf(),
        ensures
            r <==> self@.pending.data().len() == 0,
    {
        self.ciphertext.data_len() == 0
    }
}

/// The history of a writer: where it stands, the bytes that the connection
/// took, the plaintexts that were sealed, one chunk each, and whether every
/// step was one that the writer allows.
pub struct WriterRun {
    pub writer: WriterView,
    pub sent: Seq<u8>,
    pub accepted: Seq<Seq<u8>>,
    pub allowed: bool,
}

/// The history of the writer `start` after `ops`, in order.
pub open spec fn run_writer(start: WriterView, ops: Seq<WriterOp>) -> WriterRun
    decreases ops.len(),
{
    if ops.len() == 0 {
        WriterRun { writer: start, sent: Seq::empty(), accepted: Seq::empty(), allowed: true }
    } else {
        let before = run_writer(start, ops.drop_last());
        let op = ops.last();
        WriterRun {
            writer: before.writer.step(op),
            sent: match op {
                WriterOp::Write(buf) => before.sent,
                WriterOp::Flushed(bytes_written) => before.sent + before.writer.pending.data().take(
                    bytes_written as int,
                ),
            },
            accepted: match op {
                WriterOp::Write(buf) if before.writer.seals() => before.accepted.push(
                    buf.take(WriterView::chunk_len(buf.len()) as int),
                ),
                _ => before.accepted,
            },
            allowed: before.allowed && before.writer.allows(op),
        }
    }
}

/// Whether every plaintext opens, at its position from `stream` on, to what
/// it was sealed from.
pub open spec fn all_open(stream: StreamState, plaintexts: Seq<Seq<u8>>) -> bool {
    forall|i: int|
        0 <= i < plaintexts.len() ==> stream.skip(i as nat).opens_what_it_seals(
            #[trigger] plaintexts[i],
        )
}

/// No sealed byte is lost and none is sent twice: whatever the connection
/// takes and whenever, the bytes it has taken followed by the bytes that
/// still wait are the session nonce followed, chunk by chunk and in order,
/// by the plaintexts that the writer accepted.
///
/// This is stated of the chunks that open to what they were sealed from,
/// which is what [`Writer::poll_write`] promises of each chunk it seals.
pub proof fn lemma_writer_keeps_every_byte(key: Seq<u8>, nonce: Seq<u8>, ops: Seq<WriterOp>)
    requires
        nonce.len() == NONCE_SIZE,
        run_writer(WriterView::fresh(key, nonce), ops).allowed,
        all_open(
            StreamState::start(key, nonce),
            run_writer(WriterView::fresh(key, nonce), ops).accepted,
        ),
    ensures
        ({
            let r = run_writer(WriterView::fresh(key, nonce), ops);
            let start = StreamState::start(key, nonce);
            &&& r.writer.wf()
            &&& r.writer.stream == start.skip(r.accepted.len())
            &&& r.accepted.len() <= COUNTER_MAX
            &&& r.sent + r.writer.pending.data() == nonce + wire_of(start, r.accepted)
            &&& carries(start, r.accepted)
        }),
    decreases ops.len(),
{
    let first = WriterView::fresh(key, nonce);
    let start = StreamState::start(key, nonce);
    let r = run_writer(first, ops);
    if ops.len() == 0 {
        assert(first.pending.data() =~= nonce);
        assert(r.sent + r.writer.pending.data() =~= nonce + wire_of(start, r.accepted));
        assert(start.skip(0) == start);
    } else {
        let before = run_writer(first, ops.drop_last());
        assert forall|i: int| 0 <= i < before.accepted.len() implies start.skip(
            i as nat,
        ).opens_what_it_seals(#[trigger] before.accepted[i]) by {
            assert(r.accepted[i] == before.accepted[i]);
        }
        lemma_writer_keeps_every_byte(key, nonce, ops.drop_last());
        let waiting = before.writer.pending.data();
        match ops.last() {
            WriterOp::Flushed(bytes_written) => {
                assert(r.writer.pending.data() =~= waiting.skip(bytes_written as int));
                assert(r.sent + r.writer.pending.data() =~= before.sent + waiting);
            },
            WriterOp::Write(buf) => {
                if before.writer.seals() {
                    let plaintext = buf.take(WriterView::chunk_len(buf.len()) as int);
                    let chunk = before.writer.stream.sealed(plaintext);
                    assert(r.accepted[before.accepted.len() as int] == plaintext);
                    assert(start.skip(before.accepted.len()).opens_what_it_seals(plaintext));
                    lemma_wire_of_push(start, before.accepted, plaintext);
                    lemma_carries_push(start, before.accepted, plaintext);
                    assert(waiting =~= Seq::<u8>::empty());
                    assert(r.writer.pending.data() =~= framed(chunk));
                    assert(r.sent + r.writer.pending.data() =~= nonce + wire_of(
                        start,
                        r.accepted,
                    ));
                    assert(start.skip(before.accepted.len()).next() == start.skip(
                        r.accepted.len(),
                    ));
                }
            },
        }
    }
}

/// A stream that carries some plaintexts carries one more, if there is
/// a position for it, it fits in a chunk, and it opens to what it was
/// sealed from.
proof fn lemma_carries_push(stream: StreamState, plaintexts: Seq<Seq<u8>>, last: Seq<u8>)
    requires
        carries(stream, plaintexts),
        stream.position + plaintexts.len() < COUNTER_MAX,
        last.len() <= MAX_PLAINTEXT_SIZE,
        stream.skip(plaintexts.len()).opens_what_it_seals(last),
    ensures
        carries(stream, plaintexts.push(last)),
    decreases plaintexts.len(),
{
    let all = plaintexts.push(last);
    if plaintexts.len() == 0 {
        assert(stream.skip(0) == stream);
        assert(all.drop_first() =~= Seq::<Seq<u8>>::empty());
        assert(carries(stream.next(), all.drop_first()));
    } else {
        assert(all.drop_first() =~= plaintexts.drop_first().push(last));
        assert(stream.next().skip(plaintexts.drop_first().len()) == stream.skip(
            plaintexts.len(),
        ));
        lemma_carries_push(stream.next(), plaintexts.drop_first(), last);
    }
}

} // verus!
