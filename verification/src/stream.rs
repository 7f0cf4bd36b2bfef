//! What a stream of chunks means: the bytes that a sequence of plaintexts is
//! written as, and the plaintext that a run of bytes reads as.

use crate::chunk::{
    cipher_chunk, framed, header_len, lemma_framed_chunk, HEADER_SIZE, MAX_CHUNK_SIZE,
    MAX_PLAINTEXT_SIZE,
};
use crate::cipher::{StreamState, TAG_SIZE};
use vstd::prelude::*;

verus! {

/// What a run of bytes reads as: the plaintext of its whole chunks, in
/// order, the bytes behind the last chunk that was read, and whether each
/// chunk was sound.
pub struct Decoded {
    pub plaintext: Seq<u8>,
    pub rest: Seq<u8>,
    pub sound: bool,
}

impl Decoded {
    /// The same reading behind `earlier` plaintext.
    pub open spec fn after(self, earlier: Seq<u8>) -> Decoded {
        Decoded { plaintext: earlier + self.plaintext, ..self }
    }

    /// Whether the bytes were whole chunks, all of them sound, and nothing
    /// else.
    pub open spec fn complete(self) -> bool {
        self.sound && self.rest.len() == 0
    }
}

/// Reads `wire` from the stream's position on. Reading ends where the next
/// chunk has not arrived in full. It ends as unsound at the first chunk
/// that announces more than [`MAX_CHUNK_SIZE`] bytes, that the counter has
/// no position for, or that does not authenticate at its position. What
/// was not read is the rest.
pub open spec fn decode(stream: StreamState, wire: Seq<u8>) -> Decoded
    decreases wire.len(),
{
    match header_len(wire) {
        None => Decoded { plaintext: Seq::empty(), rest: wire, sound: true },
        Some(n) => if n > MAX_CHUNK_SIZE {
            Decoded { plaintext: Seq::empty(), rest: wire, sound: false }
        } else {
            match cipher_chunk(wire) {
                None => Decoded { plaintext: Seq::empty(), rest: wire, sound: true },
                Some(chunk) => if !stream.has_room() {
                    Decoded { plaintext: Seq::empty(), rest: wire, sound: false }
                } else {
                    match stream.opened(chunk) {
                        None => Decoded { plaintext: Seq::empty(), rest: wire, sound: false },
                        Some(plaintext) => decode(
                            stream.next(),
                            wire.skip(HEADER_SIZE + n),
                        ).after(plaintext),
                    }
                },
            }
        },
    }
}

/// The plaintexts one after the other.
pub open spec fn concat(plaintexts: Seq<Seq<u8>>) -> Seq<u8>
    decreases plaintexts.len(),
{
    if plaintexts.len() == 0 {
        Seq::empty()
    } else {
        plaintexts[0] + concat(plaintexts.drop_first())
    }
}

/// The bytes that the plaintexts are written as, one chunk each, from the
/// stream's position on.
pub open spec fn wire_of(stream: StreamState, plaintexts: Seq<Seq<u8>>) -> Seq<u8>
    decreases plaintexts.len(),
{
    if plaintexts.len() == 0 {
        Seq::empty()
    } else {
        framed(stream.sealed(plaintexts[0])) + wire_of(stream.next(), plaintexts.drop_first())
    }
}

/// The plaintext cut into the pieces that it is sealed in: full chunks of
/// [`MAX_PLAINTEXT_SIZE`] bytes as long as there are that many bytes, then
/// what is left, if anything.
pub open spec fn cut(plaintext: Seq<u8>) -> Seq<Seq<u8>>
    decreases plaintext.len(),
{
    if plaintext.len() == 0 {
        Seq::empty()
    } else if plaintext.len() <= MAX_PLAINTEXT_SIZE {
        seq![plaintext]
    } else {
        seq![plaintext.take(MAX_PLAINTEXT_SIZE as int)] + cut(
            plaintext.skip(MAX_PLAINTEXT_SIZE as int),
        )
    }
}

/// Behind full chunks, one more piece is one more chunk.
pub proof fn lemma_cut_push(full: Seq<u8>, piece: Seq<u8>)
    requires
        full.len() % (MAX_PLAINTEXT_SIZE as nat) == 0,
        0 < piece.len() <= MAX_PLAINTEXT_SIZE,
    ensures
        cut(full + piece) == cut(full).push(piece),
    decreases full.len(),
{
    let whole = full + piece;
    if full.len() == 0 {
        assert(whole =~= piece);
        assert(cut(full).push(piece) =~= seq![piece]);
    } else {
        assert(MAX_PLAINTEXT_SIZE == 0xffef);
        assert(full.len() >= 0xffef && (full.len() - 0xffef) % 0xffef == 0);
        let head = full.take(MAX_PLAINTEXT_SIZE as int);
        let tail = full.skip(MAX_PLAINTEXT_SIZE as int);
        assert(whole.take(MAX_PLAINTEXT_SIZE as int) =~= head);
        assert(whole.skip(MAX_PLAINTEXT_SIZE as int) =~= tail + piece);
        lemma_cut_push(tail, piece);
        if full.len() == MAX_PLAINTEXT_SIZE {
            assert(head =~= full);
            assert(tail =~= Seq::<u8>::empty());
            assert(cut(tail) =~= Seq::<Seq<u8>>::empty());
        }
        assert(cut(full) =~= seq![head] + cut(tail));
        assert(cut(whole) =~= cut(full).push(piece));
    }
}

/// Whether the stream can carry the plaintexts, one chunk each: the counter
/// has a position for each, each fits in a chunk, and each chunk opens to
/// what it was sealed from.
pub open spec fn carries(stream: StreamState, plaintexts: Seq<Seq<u8>>) -> bool
    decreases plaintexts.len(),
{
    plaintexts.len() == 0 || {
        &&& stream.has_room()
        &&& plaintexts[0].len() <= MAX_PLAINTEXT_SIZE
        &&& stream.opens_what_it_seals(plaintexts[0])
        &&& carries(stream.next(), plaintexts.drop_first())
    }
}

/// What was written is what is read: the bytes that a sequence of
/// plaintexts is written as read back, soundly, as those plaintexts one
/// after the other.
pub proof fn lemma_decode_wire(stream: StreamState, plaintexts: Seq<Seq<u8>>)
    requires
        carries(stream, plaintexts),
    ensures
        decode(stream, wire_of(stream, plaintexts)) == (Decoded {
            plaintext: concat(plaintexts),
            rest: Seq::empty(),
            sound: true,
        }),
    decreases plaintexts.len(),
{
    if plaintexts.len() > 0 {
        let chunk = stream.sealed(plaintexts[0]);
        let rest = wire_of(stream.next(), plaintexts.drop_first());
        assert(chunk.len() == plaintexts[0].len() + TAG_SIZE);
        lemma_framed_chunk(chunk, rest);
        lemma_decode_wire(stream.next(), plaintexts.drop_first());
    }
}

/// One more plaintext at the end is one more chunk at the end.
pub proof fn lemma_wire_of_push(stream: StreamState, plaintexts: Seq<Seq<u8>>, last: Seq<u8>)
    requires
        stream.position + plaintexts.len() <= u32::MAX,
    ensures
        wire_of(stream, plaintexts.push(last)) == wire_of(stream, plaintexts) + framed(
            stream.skip(plaintexts.len()).sealed(last),
        ),
        concat(plaintexts.push(last)) == concat(plaintexts) + last,
    decreases plaintexts.len(),
{
    if plaintexts.len() == 0 {
        let tail = plaintexts.push(last).drop_first();
        assert(tail =~= Seq::<Seq<u8>>::empty());
        assert(wire_of(stream.next(), tail) =~= Seq::<u8>::empty());
        assert(concat(tail) =~= Seq::<u8>::empty());
        assert(stream.skip(0) == stream);
        assert(wire_of(stream, plaintexts.push(last)) =~= framed(stream.sealed(last)));
        assert(concat(plaintexts.push(last)) =~= last);
    } else {
        assert(plaintexts.push(last).drop_first() =~= plaintexts.drop_first().push(last));
        lemma_wire_of_push(stream.next(), plaintexts.drop_first(), last);
        assert(stream.next().skip(plaintexts.drop_first().len()) == stream.skip(
            plaintexts.len(),
        ));
        assert(wire_of(stream, plaintexts.push(last)) =~= wire_of(stream, plaintexts) + framed(
            stream.skip(plaintexts.len()).sealed(last),
        ));
        assert(concat(plaintexts.push(last)) =~= concat(plaintexts) + last);
    }
}

} // verus!
