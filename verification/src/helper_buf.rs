//! A fixed-capacity byte buffer with a read cursor.

use vstd::prelude::*;

verus! {

/// What a [`HelperBuf`] holds: every byte written since the last reset, how
/// many of them have been consumed, and the most it may ever hold.
pub struct HelperBufView {
    pub bytes: Seq<u8>,
    pub cursor: nat,
    pub capacity: nat,
}

impl HelperBufView {
    /// The cursor never passes the filled length, the filled length never
    /// passes the capacity, and a drained buffer has been rewound.
    pub open spec fn wf(self) -> bool {
        &&& self.cursor <= self.bytes.len() <= self.capacity
        &&& self.cursor == self.bytes.len() ==> self.cursor == 0
    }

    /// The bytes not yet consumed.
    pub open spec fn data(self) -> Seq<u8> {
        self.bytes.subrange(self.cursor as int, self.bytes.len() as int)
    }

    /// How many more bytes fit behind the filled region.
    pub open spec fn spare(self) -> nat {
        (self.capacity - self.bytes.len()) as nat
    }

    /// An empty buffer of the given capacity.
    pub open spec fn empty(capacity: nat) -> HelperBufView {
        HelperBufView { bytes: Seq::empty(), cursor: 0, capacity }
    }

    /// The buffer after `n` bytes were consumed from the front: once nothing
    /// is left unread, the storage is reclaimed.
    pub open spec fn advance(self, n: nat) -> HelperBufView {
        if self.cursor + n == self.bytes.len() {
            HelperBufView::empty(self.capacity)
        } else {
            HelperBufView { cursor: self.cursor + n, ..self }
        }
    }

    /// The buffer after the unread bytes were moved to the front.
    pub open spec fn wrap(self) -> HelperBufView {
        HelperBufView { bytes: self.data(), cursor: 0, capacity: self.capacity }
    }

    /// The buffer after `more` was written behind the filled region.
    pub open spec fn extend(self, more: Seq<u8>) -> HelperBufView {
        HelperBufView { bytes: self.bytes + more, ..self }
    }
}

/// A reusable byte buffer: bytes are appended at the end and consumed from
/// the front, and the storage never grows past the capacity it was made with.
pub struct HelperBuf {
    buf: Vec<u8>,
    cursor: usize,
    capacity: usize,
}

impl View for HelperBuf {
    type V = HelperBufView;

    closed spec fn view(&self) -> HelperBufView {
        HelperBufView {
            bytes: self.buf@,
            cursor: self.cursor as nat,
            capacity: self.capacity as nat,
        }
    }
}

impl HelperBuf {
    /// See [`HelperBufView::wf`].
    pub open spec fn wf(&self) -> bool {
        self@.wf()
    }

    /// An empty buffer that will hold at most `capacity` bytes.
    pub fn with_capacity(capacity: usize) -> (r: HelperBuf)
        ensures
            r@ == HelperBufView::empty(capacity as nat),
            r.wf(),
    {
        HelperBuf { buf: Vec::with_capacity(capacity), cursor: 0, capacity }
    }

    /// The most this buffer may hold.
    pub fn capacity(&self) -> (r: usize)
        ensures
            r == self@.capacity,
    {
        self.capacity
    }

    /// The unread bytes.
    pub fn data(&self) -> (r: &[u8])
        requires
            self.wf(),
        ensures
            r@ == self@.data(),
    {
        vstd::slice::slice_subrange(self.buf.as_slice(), self.cursor, self.buf.len())
    }

    /// How many unread bytes there are.
    pub fn data_len(&self) -> (r: usize)
        requires
            self.wf(),
        ensures
            r == self@.data().len(),
    {
        self.buf.len() - self.cursor
    }

    /// How many more bytes can be appended before the buffer is full.
    pub fn spare_capacity_len(&self) -> (r: usize)
        requires
            self.wf(),
        ensures
            r == self@.spare(),
    {
        self.capacity - self.buf.len()
    }

    /// Consumes `num_bytes` unread bytes. A buffer that is drained by this is
    /// rewound, so that its whole capacity is free again.
    pub fn advance_cursor(&mut self, num_bytes: usize)
        requires
            old(self).wf(),
            num_bytes <= old(self)@.data().len(),
        ensures
            final(self)@ == old(self)@.advance(num_bytes as nat),
            final(self).wf(),
    {
        self.cursor = self.cursor + num_bytes;
        if self.cursor == self.buf.len() {
            self.buf.clear();
            self.cursor = 0;
        }
    }

    /// Moves the unread bytes to the front of the storage, which frees the
    /// room that consumed bytes were still taking.
    pub fn wrap(&mut self)
        requires
            old(self).wf(),
        ensures
            final(self)@ == old(self)@.wrap(),
            final(self).wf(),
    {
        let n: usize = self.buf.len() - self.cursor;
        let mut i: usize = 0;
        while i < n
            invariant
                i <= n,
                n + self.cursor == self.buf.len(),
                self.cursor == old(self).cursor,
                self.capacity == old(self).capacity,
                self.buf@.len() == old(self).buf@.len(),
                forall|j: int| 0 <= j < i ==> self.buf@[j] == old(self).buf@[j + self.cursor],
                forall|j: int| i <= j < self.buf@.len() ==> self.buf@[j] == old(self).buf@[j],
            decreases n - i,
        {
            let b: u8 = self.buf[i + self.cursor];
            self.buf.set(i, b);
            i = i + 1;
        }
        self.buf.truncate(n);
        self.cursor = 0;
        assert(self.buf@ =~= old(self)@.data());
    }

    /// Appends `bytes` behind the filled region.
    pub fn extend_from_slice(&mut self, bytes: &[u8])
        requires
            old(self).wf(),
            bytes@.len() <= old(self)@.spare(),
        ensures
            final(self)@ == old(self)@.extend(bytes@),
            final(self).wf(),
            final(self)@.data() == old(self)@.data() + bytes@,
    {
        self.buf.extend_from_slice(bytes);
        assert(self.buf@ =~= old(self).buf@ + bytes@);
        assert(self@.data() =~= old(self)@.data() + bytes@);
    }
}

} // verus!
