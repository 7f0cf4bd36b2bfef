//! The receiving half of the transport: framed, sealed chunks go in as they
//! arrive, plaintext comes out in order.
//!
//! The reader never touches the connection. Its caller performs each read
//! that [`EncryptedReader::read_if_necessary`] asks for and reports back what
//! the connection did.

use crate::chunk::{
    cipher_chunk, header_len, peek_chunk_len, peek_cipher_chunk, HEADER_SIZE, MAX_CHUNK_SIZE,
};
use crate::cipher::{StreamDecryptor, StreamState};
use crate::error::Error;
use crate::helper_buf::{HelperBuf, HelperBufView};
use crate::stream::{decode, Decoded};
use vstd::prelude::*;

verus! {

/// What the connection did since the reader last asked for bytes.
pub enum ReadEvent<'a> {
    /// Nothing yet: a read is about to begin.
    Start,
    /// The connection delivered these bytes. None at all means that it has
    /// ended.
    Received(&'a [u8]),
    /// The connection has nothing to deliver right now.
    WouldBlock,
}

/// What the caller of [`EncryptedReader::read_if_necessary`] is to do next.
#[derive(Clone, Copy, Debug, PartialEq, Eq, Structural)]
pub enum ReadStep {
    /// Read up to this many bytes from the connection and report the outcome.
    Fill(usize),
    /// Plaintext is waiting: take it.
    Ready,
    /// The connection has ended and everything it carried was delivered.
    Eof,
    /// Nothing can be delivered until the connection has more: come back
    /// when it does.
    Pending,
}

/// One thing that happens to a reader: bytes arrive from the connection, or
/// the caller takes plaintext that waits.
pub enum ReaderOp {
    Receive(Seq<u8>),
    Take(nat),
}

/// What an [`EncryptedReader`] holds: where the stream stands, the plaintext
/// waiting to be taken, and the sealed bytes waiting to be opened.
pub struct ReaderView {
    pub stream: StreamState,
    pub cleartext: HelperBufView,
    pub ciphertext: HelperBufView,
}

impl ReaderView {
    /// Both buffers are well formed and have the capacities they were made
    /// with: one chunk of plaintext, two chunks of sealed bytes.
    pub open spec fn wf(self) -> bool {
        &&& self.cleartext.wf()
        &&& self.ciphertext.wf()
        &&& self.cleartext.capacity == MAX_CHUNK_SIZE
        &&& self.ciphertext.capacity == 2 * MAX_CHUNK_SIZE
    }

    /// A reader that has not received anything.
    pub open spec fn fresh(key: Seq<u8>, nonce: Seq<u8>) -> ReaderView {
        ReaderView {
            stream: StreamState::start(key, nonce),
            cleartext: HelperBufView::empty(MAX_CHUNK_SIZE as nat),
            ciphertext: HelperBufView::empty((2 * MAX_CHUNK_SIZE) as nat),
        }
    }

    /// The bytes that the two buffers hold, read or unread.
    pub open spec fn footprint(self) -> nat {
        self.cleartext.bytes.len() + self.ciphertext.bytes.len()
    }

    /// The unread bytes that the two buffers hold.
    pub open spec fn held(self) -> nat {
        self.cleartext.data().len() + self.ciphertext.data().len()
    }

    /// The reader after every chunk that has arrived in full, and for whose
    /// plaintext there is room, was opened in order; and whether all of
    /// them were sound. The first chunk that announces more than
    /// [`MAX_CHUNK_SIZE`] bytes or does not authenticate at its position
    /// stops the reader for good: it stays in front.
    pub open spec fn drain(self) -> (ReaderView, bool)
        decreases self.ciphertext.data().len(),
        when self.ciphertext.wf()
    {
        let data = self.ciphertext.data();
        match header_len(data) {
            None => (self, true),
            Some(n) => if n > MAX_CHUNK_SIZE {
                (self, false)
            } else {
                match cipher_chunk(data) {
                    None => (self, true),
                    Some(chunk) => if self.cleartext.spare() < n {
                        (self, true)
                    } else if !self.stream.has_room() {
                        (self, false)
                    } else {
                        match self.stream.opened(chunk) {
                            None => (self, false),
                            Some(plaintext) => ReaderView {
                                stream: self.stream.next(),
                                cleartext: self.cleartext.extend(plaintext),
                                ciphertext: self.ciphertext.advance(HEADER_SIZE as nat + n),
                            }.drain(),
                        }
                    },
                }
            },
        }
    }

    /// The reader after [`drain`](Self::drain) and, where that left sealed
    /// bytes up against the end of their buffer with no whole chunk among
    /// them, after those bytes were moved to the front.
    pub open spec fn decrypt_all_full_chunks(self) -> (ReaderView, bool) {
        let (drained, sound) = self.drain();
        if sound && cipher_chunk(drained.ciphertext.data()) is None && drained.ciphertext.spare()
            == 0 {
            (ReaderView { ciphertext: drained.ciphertext.wrap(), ..drained }, true)
        } else {
            (drained, sound)
        }
    }

    /// The reader after `received` arrived and was worked through.
    pub open spec fn inner_read(self, received: Seq<u8>) -> (ReaderView, bool) {
        ReaderView {
            ciphertext: self.ciphertext.extend(received),
            ..self
        }.decrypt_all_full_chunks()
    }

    /// The plaintext that a read for `max_bytes` aims to have waiting: all
    /// that the buffer can still come to hold, or as much as was asked for.
    pub open spec fn target(self, max_bytes: Option<usize>) -> nat {
        let room = self.cleartext.data().len() + self.cleartext.spare();
        match max_bytes {
            Some(m) if m < room => m as nat,
            _ => room,
        }
    }

    /// Whether a read for `max_bytes` should ask the connection for more:
    /// less plaintext is waiting than it aims for, and there is room for
    /// sealed bytes.
    pub open spec fn wants_more(self, max_bytes: Option<usize>) -> bool {
        self.target(max_bytes) > self.cleartext.data().len() && self.ciphertext.spare() != 0
    }

    /// What a read for `max_bytes` does next when the connection is neither
    /// ended nor blocked.
    pub open spec fn next_step(self, max_bytes: Option<usize>) -> ReadStep {
        if self.wants_more(max_bytes) {
            ReadStep::Fill(self.ciphertext.spare() as usize)
        } else {
            ReadStep::Ready
        }
    }

    /// The reader after `event`, and what the caller is to do next.
    ///
    /// Plaintext that waits at the start of a read satisfies the read: the
    /// reader stays as it is and the connection is left alone. Otherwise,
    /// and whenever bytes arrive, the reader opens what it can and then asks
    /// for more while it [wants more](Self::wants_more). When the connection blocks, the reader
    /// hands over what waits, or has the caller wait if nothing does. When
    /// the connection has ended, the reader hands over what waits; with
    /// nothing waiting, the end is clean if no sealed bytes are left, and a
    /// failure if the stream broke off inside a chunk.
    pub open spec fn read_if_necessary(
        self,
        max_bytes: Option<usize>,
        event: ReadEvent,
    ) -> (ReaderView, Result<ReadStep, Error>) {
        match event {
            ReadEvent::WouldBlock => if self.cleartext.data().len() == 0 {
                (self, Ok(ReadStep::Pending))
            } else {
                (self, Ok(ReadStep::Ready))
            },
            ReadEvent::Start => if self.cleartext.data().len() > 0 {
                (self, Ok(ReadStep::Ready))
            } else {
                let (after, sound) = self.decrypt_all_full_chunks();
                if sound {
                    (after, Ok(after.next_step(max_bytes)))
                } else {
                    (after, Err(Error::DecryptionFailed))
                }
            },
            ReadEvent::Received(bytes) => {
                let (after, sound) = self.inner_read(bytes@);
                if !sound {
                    (after, Err(Error::DecryptionFailed))
                } else if bytes@.len() > 0 {
                    (after, Ok(after.next_step(max_bytes)))
                } else if after.cleartext.data().len() > 0 {
                    (after, Ok(ReadStep::Ready))
                } else if after.ciphertext.data().len() > 0 {
                    (after, Err(Error::DecryptionFailed))
                } else {
                    (after, Ok(ReadStep::Eof))
                }
            },
        }
    }

    /// What the reader will have delivered from now on, once `future` has
    /// arrived as well: the plaintext that waits, then what the sealed bytes
    /// that wait read as together with `future`.
    pub open spec fn promised(self, future: Seq<u8>) -> Decoded {
        decode(self.stream, self.ciphertext.data() + future).after(self.cleartext.data())
    }

    /// Whether `op` may be applied: the bytes that arrive fit, and the bytes
    /// that are taken are there.
    pub open spec fn allows(self, op: ReaderOp) -> bool {
        match op {
            ReaderOp::Receive(bytes) => bytes.len() <= self.ciphertext.spare(),
            ReaderOp::Take(amt) => amt <= self.cleartext.data().len(),
        }
    }

    /// The reader after `op`, and whether the chunks it opened were sound.
    pub open spec fn step(self, op: ReaderOp) -> (ReaderView, bool) {
        match op {
            ReaderOp::Receive(bytes) => self.inner_read(bytes),
            ReaderOp::Take(amt) => (self.consume(amt), true),
        }
    }

    /// What the reader hands over in `op`.
    pub open spec fn hands_over(self, op: ReaderOp) -> Seq<u8> {
        match op {
            ReaderOp::Receive(bytes) => Seq::empty(),
            ReaderOp::Take(amt) => self.cleartext.data().take(amt as int),
        }
    }

    /// How many bytes a caller with room for `remaining` takes.
    pub open spec fn take_len(self, remaining: usize) -> nat {
        if remaining < self.cleartext.data().len() {
            remaining as nat
        } else {
            self.cleartext.data().len()
        }
    }

    /// The reader after `amt` bytes of plaintext were taken.
    pub open spec fn consume(self, amt: nat) -> ReaderView {
        ReaderView { cleartext: self.cleartext.advance(amt), ..self }
    }
}

/// Turns the sealed chunks of one direction of a connection back into the
/// plaintext that was written, with two buffers of fixed capacity.
pub struct EncryptedReader {
    decryptor: StreamDecryptor,
    decryption_space: Vec<u8>,
    cleartext: HelperBuf,
    ciphertext: HelperBuf,
}

/// The reader, under the name that pairs with [`crate::writer::Writer`].
pub type Reader = EncryptedReader;

impl View for EncryptedReader {
    type V = ReaderView;

    closed spec fn view(&self) -> ReaderView {
        ReaderView {
            stream: self.decryptor@,
            cleartext: self.cleartext@,
            ciphertext: self.ciphertext@,
        }
    }
}

impl EncryptedReader {
    /// The reader's buffers are well formed, and no chunk is half opened.
    pub closed spec fn wf(&self) -> bool {
        &&& self@.wf()
        &&& self.decryption_space@.len() == 0
    }

    /// A well-formed reader has a well-formed view.
    pub proof fn lemma_wf(&self)
        requires
            self.wf(),
        ensures
            self@.wf(),
    {
    }

    /// A reader for the stream that is keyed by `shared_key` and by the
    /// session nonce that the writing side sent ahead of its first chunk.
    pub fn new(shared_key: [u8; 32], nonce: [u8; 8]) -> (r: EncryptedReader)
        ensures
            r.wf(),
            r@ == ReaderView::fresh(shared_key@, nonce@),
    {
        EncryptedReader {
            decryptor: StreamDecryptor::new(shared_key, nonce),
            decryption_space: Vec::new(),
            cleartext: HelperBuf::with_capacity(MAX_CHUNK_SIZE),
            ciphertext: HelperBuf::with_capacity(2 * MAX_CHUNK_SIZE),
        }
    }

    /// Opens, in order, every chunk that has arrived in full and for whose
    /// plaintext there is room, then makes room for more sealed bytes where
    /// the rest is up against the end of its buffer.
    ///
    /// Fails at the first chunk that announces more than [`MAX_CHUNK_SIZE`]
    /// bytes, that the counter has no position for, or that does not
    /// authenticate. That chunk stays in front, so the failure is final:
    /// whatever arrives later, taking it in fails as well.
    pub fn decrypt_all_full_chunks(&mut self) -> (r: Result<(), Error>)
        requires
            old(self).wf(),
        ensures
            final(self).wf(),
            final(self)@ == old(self)@.decrypt_all_full_chunks().0,
            r is Ok <==> old(self)@.decrypt_all_full_chunks().1,
            r is Err ==> r == Err::<(), Error>(Error::DecryptionFailed),
            r is Err ==> forall|received: Seq<u8>|
                received.len() <= final(self)@.ciphertext.spare() ==> !(
                #[trigger] final(self)@.inner_read(received)).1,
    {
        proof {
            self.lemma_wf();
        }
        loop
            invariant
                self.wf(),
                old(self)@.wf(),
                self@.drain() == old(self)@.drain(),
            ensures
                self.wf(),
                old(self)@.drain() == (self@, true),
            decreases self@.ciphertext.data().len(),
        {
            let announced = peek_chunk_len(&self.ciphertext);
            let n: usize = match announced {
                None => {
                    break ;
                },
                Some(n) => n,
            };
            if n > MAX_CHUNK_SIZE {
                proof {
                    assert forall|received: Seq<u8>|
                        received.len() <= self@.ciphertext.spare() implies !(
                    #[trigger] self@.inner_read(received)).1 by {
                        lemma_failure_is_final(old(self)@, received);
                    }
                }
                return Err(Error::DecryptionFailed);
            }
            match peek_cipher_chunk(&self.ciphertext) {
                None => {
                    break ;
                },
                Some(msg) => {
                    if self.cleartext.spare_capacity_len() < n {
                        break ;
                    }
                    self.decryption_space.extend_from_slice(msg);
                    assert(self.decryption_space@ =~= msg@);
                },
            }
            match self.decryptor.decrypt_next_in_place(&mut self.decryption_space) {
                Err(_) => {
                    self.decryption_space.clear();
                    proof {
                        assert forall|received: Seq<u8>|
                            received.len() <= self@.ciphertext.spare() implies !(
                        #[trigger] self@.inner_read(received)).1 by {
                            lemma_failure_is_final(old(self)@, received);
                        }
                    }
                    return Err(Error::DecryptionFailed);
                },
                Ok(()) => {},
            }
            self.ciphertext.advance_cursor(HEADER_SIZE + n);
            self.cleartext.extend_from_slice(self.decryption_space.as_slice());
            self.decryption_space.clear();
        }
        if peek_cipher_chunk(&self.ciphertext).is_none() && self.ciphertext.spare_capacity_len()
            == 0 {
            self.ciphertext.wrap();
        }
        Ok(())
    }

    /// Takes in the bytes that the connection delivered and opens what has
    /// become whole.
    pub fn inner_read(&mut self, received: &[u8]) -> (r: Result<(), Error>)
        requires
            old(self).wf(),
            received@.len() <= old(self)@.ciphertext.spare(),
        ensures
            final(self).wf(),
            final(self)@ == old(self)@.inner_read(received@).0,
            r is Ok <==> old(self)@.inner_read(received@).1,
            r is Err ==> r == Err::<(), Error>(Error::DecryptionFailed),
    {
        self.ciphertext.extend_from_slice(received);
        self.decrypt_all_full_chunks()
    }

    /// How many sealed bytes the reader can take in right now.
    pub fn spare_capacity_len(&self) -> (r: usize)
        requires
            self.wf(),
        ensures
            r == self@.ciphertext.spare(),
    {
        self.ciphertext.spare_capacity_len()
    }

    /// One step of a read that wants up to `max_bytes` of plaintext
    /// (`None`: as much as there is room for).
    ///
    /// A read begins with [`ReadEvent::Start`]. Where plaintext waits, the
    /// answer is [`ReadStep::Ready`] at once and nothing else happens.
    /// Whenever the answer is [`ReadStep::Fill`], the caller reads from the
    /// connection and calls again with what happened. Any other answer ends
    /// the read.
    ///
    /// Fails where a chunk is not sound, and where the connection ends
    /// inside a chunk with no plaintext left to hand over.
    pub fn read_if_necessary(&mut self, max_bytes: Option<usize>, event: ReadEvent) -> (r: Result<
        ReadStep,
        Error,
    >)
        requires
            old(self).wf(),
            event matches ReadEvent::Received(bytes) ==> bytes@.len() <= old(
                self,
            )@.ciphertext.spare(),
        ensures
            final(self).wf(),
            final(self)@ == old(self)@.read_if_necessary(max_bytes, event).0,
            r == old(self)@.read_if_necessary(max_bytes, event).1,
    {
        match event {
            ReadEvent::WouldBlock => {
                if self.cleartext.data_len() == 0 {
                    Ok(ReadStep::Pending)
                } else {
                    Ok(ReadStep::Ready)
                }
            },
            ReadEvent::Start => {
                if self.cleartext.data_len() > 0 {
                    return Ok(ReadStep::Ready);
                }
                match self.decrypt_all_full_chunks() {
                    Err(_) => Err(Error::DecryptionFailed),
                    Ok(()) => Ok(self.next_step(max_bytes)),
                }
            },
            ReadEvent::Received(bytes) => {
                match self.inner_read(bytes) {
                    Err(_) => Err(Error::DecryptionFailed),
                    Ok(()) => {
                        if bytes.len() > 0 {
                            Ok(self.next_step(max_bytes))
                        } else if self.cleartext.data_len() > 0 {
                            Ok(ReadStep::Ready)
                        } else if self.ciphertext.data_len() > 0 {
                            Err(Error::DecryptionFailed)
                        } else {
                            Ok(ReadStep::Eof)
                        }
                    },
                }
            },
        }
    }

    fn next_step(&self, max_bytes: Option<usize>) -> (r: ReadStep)
        requires
            self.wf(),
        ensures
            r == self@.next_step(max_bytes),
    {
        let waiting: usize = self.cleartext.data_len();
        let room: usize = waiting + self.cleartext.spare_capacity_len();
        let target: usize = match max_bytes {
            Some(m) => if m < room {
                m
            } else {
                room
            },
            None => room,
        };
        let spare: usize = self.ciphertext.spare_capacity_len();
        if target > waiting && spare != 0 {
            ReadStep::Fill(spare)
        } else {
            ReadStep::Ready
        }
    }

    /// Hands over waiting plaintext: as much as there is, but no more than
    /// `remaining` bytes. The bytes are appended to `buf`; their number is
    /// returned.
    pub fn poll_read(&mut self, buf: &mut Vec<u8>, remaining: usize) -> (r: usize)
        requires
            old(self).wf(),
        ensures
            final(self).wf(),
            r == old(self)@.take_len(remaining),
            final(buf)@ == old(buf)@ + old(self)@.cleartext.data().take(r as int),
            final(self)@ == old(self)@.consume(r as nat),
    {
        let chunk = self.cleartext.data();
        let num_bytes: usize = if remaining < chunk.len() {
            remaining
        } else {
            chunk.len()
        };
        buf.extend_from_slice(vstd::slice::slice_subrange(chunk, 0, num_bytes));
        assert(buf@ =~= old(buf)@ + old(self)@.cleartext.data().take(num_bytes as int));
        self.cleartext.advance_cursor(num_bytes);
        num_bytes
    }

    /// The plaintext that is waiting.
    pub fn poll_fill_buf(&self) -> (r: &[u8])
        requires
            self.wf(),
        ensures
            r@ == self@.cleartext.data(),
    {
        self.cleartext.data()
    }

    /// Marks `amt` bytes of the waiting plaintext as taken.
    pub fn consume(&mut self, amt: usize)
        requires
            old(self).wf(),
            amt <= old(self)@.cleartext.data().len(),
        ensures
            final(self).wf(),
            final(self)@ == old(self)@.consume(amt as nat),
    {
        self.cleartext.advance_cursor(amt);
    }
}

/// The history of a reader: where it stands, all the bytes that arrived,
/// all the plaintext that was taken, whether every chunk that was opened was
/// sound, and whether every step was one that the reader allows.
pub struct Run {
    pub reader: ReaderView,
    pub received: Seq<u8>,
    pub taken: Seq<u8>,
    pub sound: bool,
    pub allowed: bool,
}

/// The history of the reader `start` after `ops`, in order.
pub open spec fn run(start: ReaderView, ops: Seq<ReaderOp>) -> Run
    decreases ops.len(),
{
    if ops.len() == 0 {
        Run { reader: start, received: Seq::empty(), taken: Seq::empty(), sound: true, allowed: true }
    } else {
        let before = run(start, ops.drop_last());
        let op = ops.last();
        let (reader, sound) = before.reader.step(op);
        Run {
            reader,
            received: match op {
                ReaderOp::Receive(bytes) => before.received + bytes,
                ReaderOp::Take(amt) => before.received,
            },
            taken: before.taken + before.reader.hands_over(op),
            sound: before.sound && sound,
            allowed: before.allowed && before.reader.allows(op),
        }
    }
}

/// A reader is never larger than three chunks: the two buffers together
/// hold at most `3 * MAX_CHUNK_SIZE` bytes, consumed ones included.
pub proof fn lemma_bounded_memory(reader: ReaderView)
    requires
        reader.wf(),
    ensures
        reader.footprint() <= 3 * MAX_CHUNK_SIZE,
{
}

/// Opening the chunks that have arrived changes nothing of what the reader
/// will deliver, whatever arrives later; and a chunk that is not sound
/// stays unsound whatever arrives later.
pub proof fn lemma_drain_keeps_promise(reader: ReaderView, future: Seq<u8>)
    requires
        reader.wf(),
    ensures
        reader.drain().0.wf(),
        reader.drain().0.promised(future) == reader.promised(future),
        !reader.drain().1 ==> !reader.promised(future).sound,
        reader.drain().0.held() <= reader.held(),
    decreases reader.ciphertext.data().len(),
{
    let data = reader.ciphertext.data();
    let wire = data + future;
    if let Some(n) = header_len(data) {
        assert(wire[0] == data[0] && wire[1] == data[1] && wire[2] == data[2] && wire[3]
            == data[3]);
        assert(header_len(wire) == Some(n));
        if n <= MAX_CHUNK_SIZE {
            if let Some(chunk) = cipher_chunk(data) {
                assert(wire.subrange(HEADER_SIZE as int, HEADER_SIZE + n) =~= chunk);
                assert(cipher_chunk(wire) == Some(chunk));
                if reader.cleartext.spare() >= n && reader.stream.has_room() {
                    if let Some(plaintext) = reader.stream.opened(chunk) {
                        let next = ReaderView {
                            stream: reader.stream.next(),
                            cleartext: reader.cleartext.extend(plaintext),
                            ciphertext: reader.ciphertext.advance(HEADER_SIZE as nat + n),
                        };
                        assert(next.ciphertext.data() =~= data.skip(HEADER_SIZE + n));
                        assert(next.ciphertext.data() + future =~= wire.skip(HEADER_SIZE + n));
                        assert(next.cleartext.data() =~= reader.cleartext.data() + plaintext);
                        lemma_drain_keeps_promise(next, future);
                        assert(next.promised(future).plaintext =~= reader.promised(
                            future,
                        ).plaintext);
                    }
                }
            }
        }
    }
}

/// Taking in bytes and opening what has become whole keeps the reader well
/// formed and changes nothing of what it will deliver: the bytes that
/// arrived now read as if they arrived later.
pub proof fn lemma_inner_read_keeps_promise(
    reader: ReaderView,
    received: Seq<u8>,
    future: Seq<u8>,
)
    requires
        reader.wf(),
        received.len() <= reader.ciphertext.spare(),
    ensures
        reader.inner_read(received).0.wf(),
        reader.inner_read(received).0.promised(future) == reader.promised(received + future),
        !reader.inner_read(received).1 ==> !reader.promised(received + future).sound,
        reader.inner_read(received).0.held() <= reader.held() + received.len(),
{
    let fed = ReaderView { ciphertext: reader.ciphertext.extend(received), ..reader };
    assert(fed.ciphertext.data() =~= reader.ciphertext.data() + received);
    assert(fed.ciphertext.data() + future =~= reader.ciphertext.data() + (received + future));
    lemma_drain_keeps_promise(fed, future);
    let (drained, sound) = fed.drain();
    let after = fed.decrypt_all_full_chunks().0;
    assert(after.ciphertext.data() =~= drained.ciphertext.data());
}

/// A reader that has opened what it could and has no plaintext left holds no
/// whole chunk: everything that has arrived in full has been delivered.
pub proof fn lemma_nothing_left_behind(reader: ReaderView)
    requires
        reader.wf(),
        reader.drain().1,
        reader.drain().0.cleartext.data().len() == 0,
    ensures
        reader.drain().0.promised(Seq::empty()) == (Decoded {
            plaintext: Seq::empty(),
            rest: reader.drain().0.ciphertext.data(),
            sound: true,
        }),
        reader.promised(Seq::empty()) == reader.drain().0.promised(Seq::empty()),
    decreases reader.ciphertext.data().len(),
{
    let data = reader.ciphertext.data();
    assert(data + Seq::<u8>::empty() =~= data);
    lemma_drain_keeps_promise(reader, Seq::empty());
    if let Some(n) = header_len(data) {
        if n <= MAX_CHUNK_SIZE {
            if let Some(chunk) = cipher_chunk(data) {
                if reader.cleartext.spare() >= n && reader.stream.has_room() {
                    if let Some(plaintext) = reader.stream.opened(chunk) {
                        let next = ReaderView {
                            stream: reader.stream.next(),
                            cleartext: reader.cleartext.extend(plaintext),
                            ciphertext: reader.ciphertext.advance(HEADER_SIZE as nat + n),
                        };
                        lemma_drain_keeps_promise(next, Seq::empty());
                        lemma_nothing_left_behind(next);
                    }
                }
            }
        }
    }
}

/// Where opening stops without a failure, it stops for a reason: no length
/// has arrived, or the chunk has not arrived in full, or there is no room
/// for its plaintext.
pub proof fn lemma_drain_stops(reader: ReaderView)
    requires
        reader.wf(),
        reader.drain().1,
    ensures
        ({
            let after = reader.drain().0;
            match header_len(after.ciphertext.data()) {
                None => true,
                Some(n) => n <= MAX_CHUNK_SIZE && (cipher_chunk(after.ciphertext.data()) is None
                    || after.cleartext.spare() < n),
            }
        }),
    decreases reader.ciphertext.data().len(),
{
    let data = reader.ciphertext.data();
    if let Some(n) = header_len(data) {
        if n <= MAX_CHUNK_SIZE {
            if let Some(chunk) = cipher_chunk(data) {
                if reader.cleartext.spare() >= n && reader.stream.has_room() {
                    if let Some(plaintext) = reader.stream.opened(chunk) {
                        let next = ReaderView {
                            stream: reader.stream.next(),
                            cleartext: reader.cleartext.extend(plaintext),
                            ciphertext: reader.ciphertext.advance(HEADER_SIZE as nat + n),
                        };
                        lemma_drain_keeps_promise(reader, Seq::empty());
                        lemma_drain_stops(next);
                    }
                }
            }
        }
    }
}

/// Every answer of a read means what it says. `Fill` asks for at least one
/// byte and for no more than there is room for. `Ready` comes with
/// plaintext, unless the caller asked for none. `Eof` comes only when the
/// connection has ended and both buffers are empty. `Pending` comes only
/// when the connection blocks and no plaintext waits.
pub proof fn lemma_answers_mean_what_they_say(
    reader: ReaderView,
    max_bytes: Option<usize>,
    event: ReadEvent,
)
    requires
        reader.wf(),
        event matches ReadEvent::Received(bytes) ==> bytes@.len() <= reader.ciphertext.spare(),
    ensures
        ({
            let (after, answer) = reader.read_if_necessary(max_bytes, event);
            &&& after.wf()
            &&& answer matches Ok(ReadStep::Fill(n)) ==> 0 < n == after.ciphertext.spare()
            &&& answer == Ok::<ReadStep, Error>(ReadStep::Ready) ==> after.cleartext.data().len()
                > 0 || max_bytes == Some(0usize)
            &&& answer == Ok::<ReadStep, Error>(ReadStep::Eof) ==> {
                &&& event matches ReadEvent::Received(bytes) && bytes@.len() == 0
                &&& after.cleartext.data().len() == 0
                &&& after.ciphertext.data().len() == 0
            }
            &&& answer == Ok::<ReadStep, Error>(ReadStep::Pending) ==> {
                &&& event is WouldBlock
                &&& after == reader
                &&& after.cleartext.data().len() == 0
            }
        }),
{
    let fed = match event {
        ReadEvent::Received(bytes) => ReaderView {
            ciphertext: reader.ciphertext.extend(bytes@),
            ..reader
        },
        _ => reader,
    };
    let untouched = event is WouldBlock || (event is Start && reader.cleartext.data().len() > 0);
    if !untouched {
        lemma_drain_keeps_promise(fed, Seq::empty());
        if fed.drain().1 {
            lemma_drain_stops(fed);
        }
    }
}

/// A chunk that is not sound is the end of the stream: once the reader has
/// met one, it fails again at every later arrival, whatever the bytes, and
/// never opens anything behind that chunk.
pub proof fn lemma_failure_is_final(reader: ReaderView, received: Seq<u8>)
    requires
        reader.wf(),
        !reader.drain().1,
        received.len() <= reader.drain().0.ciphertext.spare(),
    ensures
        !reader.drain().0.inner_read(received).1,
        reader.drain().0.inner_read(received).0.stream == reader.drain().0.stream,
        reader.drain().0.inner_read(received).0.cleartext == reader.drain().0.cleartext,
    decreases reader.ciphertext.data().len(),
{
    let data = reader.ciphertext.data();
    if let Some(n) = header_len(data) {
        let stuck = ReaderView { ciphertext: reader.ciphertext.extend(received), ..reader };
        let wire = stuck.ciphertext.data();
        assert(wire =~= data + received);
        assert(wire[0] == data[0] && wire[1] == data[1] && wire[2] == data[2] && wire[3]
            == data[3]);
        if n <= MAX_CHUNK_SIZE {
            if let Some(chunk) = cipher_chunk(data) {
                assert(wire.subrange(HEADER_SIZE as int, HEADER_SIZE + n) =~= chunk);
                if reader.cleartext.spare() >= n && reader.stream.has_room() {
                    if let Some(plaintext) = reader.stream.opened(chunk) {
                        let next = ReaderView {
                            stream: reader.stream.next(),
                            cleartext: reader.cleartext.extend(plaintext),
                            ciphertext: reader.ciphertext.advance(HEADER_SIZE as nat + n),
                        };
                        lemma_failure_is_final(next, received);
                    }
                }
            }
        }
    }
}

/// Whatever way the bytes are cut up on arrival, and whatever way the
/// plaintext is taken, the reader delivers what the bytes read as: at every
/// moment, and whatever arrives later, the plaintext taken so far followed
/// by what the reader will still deliver is what all the bytes read as from
/// the start. A step that reports an unsound chunk means that the bytes
/// themselves are unsound, whatever arrives later.
pub proof fn lemma_run_delivers(start: ReaderView, ops: Seq<ReaderOp>, future: Seq<u8>)
    requires
        start.wf(),
        run(start, ops).allowed,
    ensures
        run(start, ops).reader.wf(),
        run(start, ops).reader.promised(future).after(run(start, ops).taken) == start.promised(
            run(start, ops).received + future,
        ),
        !run(start, ops).sound ==> !start.promised(run(start, ops).received + future).sound,
    decreases ops.len(),
{
    if ops.len() == 0 {
        assert(Seq::<u8>::empty() + future =~= future);
        assert(start.promised(future).after(Seq::empty()).plaintext =~= start.promised(
            future,
        ).plaintext);
    } else {
        let before = run(start, ops.drop_last());
        let after = run(start, ops);
        match ops.last() {
            ReaderOp::Receive(bytes) => {
                lemma_run_delivers(start, ops.drop_last(), bytes + future);
                lemma_inner_read_keeps_promise(before.reader, bytes, future);
                assert(before.received + (bytes + future) =~= after.received + future);
                assert(before.reader.hands_over(ops.last()) =~= Seq::<u8>::empty());
                assert(after.taken =~= before.taken);
            },
            ReaderOp::Take(amt) => {
                lemma_run_delivers(start, ops.drop_last(), future);
                let waiting = before.reader.cleartext.data();
                assert(after.reader.cleartext.data() =~= waiting.skip(amt as int));
                assert(after.reader.promised(future).after(after.taken).plaintext
                    =~= before.reader.promised(future).after(before.taken).plaintext);
            },
        }
    }
}

} // verus!
