//! Sealing and opening a whole plaintext in memory: the writer and the
//! reader, each driven from start to end.

use crate::chunk::MAX_PLAINTEXT_SIZE;
use crate::cipher::{StreamState, COUNTER_MAX, NONCE_SIZE};
use crate::error::Error;
use crate::reader::{
    lemma_answers_mean_what_they_say, lemma_inner_read_keeps_promise, lemma_nothing_left_behind,
    lemma_run_delivers, run, EncryptedReader, ReadEvent, ReadStep, ReaderOp, ReaderView,
};
use crate::stream::{
    concat, cut, decode, lemma_cut_push, lemma_decode_wire, lemma_wire_of_push, wire_of, Decoded,
};
use crate::writer::{
    all_open, lemma_writer_keeps_every_byte, run_writer, Writer, WriterOp, WriterView,
};
use vstd::prelude::*;

verus! {

/// Seals `plaintext` into one stream under `key` and `nonce` and returns
/// the bytes for the wire: the nonce, then the chunks.
///
/// The plaintext is sealed in full chunks as long as it lasts, then in one
/// chunk for what is left. What follows the nonce reads back, soundly and
/// with nothing left over, as `plaintext`. Fails only where the plaintext
/// needs more chunks than the stream's counter has positions.
pub fn seal_all(key: [u8; 32], nonce: [u8; 8], plaintext: &[u8]) -> (r: Result<Vec<u8>, Error>)
    ensures
        r is Ok <==> plaintext@.len() <= MAX_PLAINTEXT_SIZE * COUNTER_MAX,
        r matches Ok(wire) ==> {
            &&& wire@ == nonce@ + wire_of(StreamState::start(key@, nonce@), cut(plaintext@))
            &&& decode(StreamState::start(key@, nonce@), wire@.skip(NONCE_SIZE as int)) == (Decoded {
                plaintext: plaintext@,
                rest: Seq::empty(),
                sound: true,
            })
        },
        r is Err ==> r == Err::<Vec<u8>, Error>(Error::EncryptionFailed),
{
    let ghost first = WriterView::fresh(key@, nonce@);
    let ghost start = StreamState::start(key@, nonce@);
    let ghost mut ops: Seq<WriterOp> = Seq::empty();
    let mut writer = Writer::with_nonce(key, nonce);
    let mut wire: Vec<u8> = Vec::new();
    let mut offset: usize = 0;
    assert(MAX_PLAINTEXT_SIZE == 0xffef && MAX_PLAINTEXT_SIZE * COUNTER_MAX == 0xffef * 0x0fff_ffff);
    assert(plaintext@.take(0) =~= Seq::<u8>::empty());
    loop
        invariant
            first == WriterView::fresh(key@, nonce@),
            start == StreamState::start(key@, nonce@),
            writer.wf(),
            offset <= plaintext@.len(),
            run_writer(first, ops).allowed,
            run_writer(first, ops).writer == writer@,
            run_writer(first, ops).sent == wire@,
            all_open(start, run_writer(first, ops).accepted),
            concat(run_writer(first, ops).accepted) == plaintext@.take(offset as int),
            run_writer(first, ops).accepted == cut(plaintext@.take(offset as int)),
            offset <= 0xffef * run_writer(first, ops).accepted.len(),
            offset < plaintext@.len() ==> offset == 0xffef * run_writer(first, ops).accepted.len(),
        decreases plaintext@.len() - offset,
    {
        let waiting: usize = writer.pending().len();
        wire.extend_from_slice(writer.pending());
        writer.flush_local_buffer(waiting);
        proof {
            let before = run_writer(first, ops);
            let flushed = ops.push(WriterOp::Flushed(waiting as nat));
            assert(flushed.drop_last() =~= ops);
            assert(before.writer.pending.data().take(waiting as int)
                =~= before.writer.pending.data());
            assert(wire@ =~= before.sent + before.writer.pending.data());
            ops = flushed;
            lemma_writer_keeps_every_byte(key@, nonce@, ops);
        }
        if offset == plaintext.len() {
            proof {
                let run = run_writer(first, ops);
                assert(run.sent + run.writer.pending.data() =~= wire@);
                lemma_decode_wire(start, run.accepted);
                assert(wire@ =~= nonce@ + wire_of(start, run.accepted));
                assert(wire@.skip(NONCE_SIZE as int) =~= wire_of(start, run.accepted));
                assert(plaintext@.take(offset as int) =~= plaintext@);
            }
            return Ok(wire);
        }
        let rest = vstd::slice::slice_subrange(plaintext, offset, plaintext.len());
        let ghost before = run_writer(first, ops);
        match writer.poll_write(rest) {
            Err(_) => {
                return Err(Error::EncryptionFailed);
            },
            Ok(taken) => {
                proof {
                    let sealed = rest@.take(taken as int);
                    let written = ops.push(WriterOp::Write(rest@));
                    assert(written.drop_last() =~= ops);
                    assert(before.writer.seals());
                    lemma_wire_of_push(start, before.accepted, sealed);
                    ops = written;
                    let after = run_writer(first, ops);
                    assert(after.accepted == before.accepted.push(sealed));
                    assert forall|i: int| 0 <= i < after.accepted.len() implies start.skip(
                        i as nat,
                    ).opens_what_it_seals(#[trigger] after.accepted[i]) by {
                        if i < before.accepted.len() {
                            assert(after.accepted[i] == before.accepted[i]);
                        }
                    }
                    assert(plaintext@.take(offset as int) + sealed =~= plaintext@.take(
                        offset + taken,
                    ));
                    lemma_cut_push(plaintext@.take(offset as int), sealed);
                }
                offset = offset + taken;
            },
        }
    }
}

/// Whether `ops` is the history of a reader that stands at `reader`, has
/// received the first `offset` bytes of `wire`, and has handed over `taken`.
spec fn history(
    first: ReaderView,
    ops: Seq<ReaderOp>,
    reader: ReaderView,
    wire: Seq<u8>,
    offset: int,
    taken: Seq<u8>,
) -> bool {
    &&& run(first, ops).allowed
    &&& run(first, ops).reader == reader
    &&& run(first, ops).received == wire.take(offset)
    &&& run(first, ops).taken == taken
}

/// One more arrival in a history.
proof fn lemma_history_receive(
    first: ReaderView,
    ops: Seq<ReaderOp>,
    reader: ReaderView,
    wire: Seq<u8>,
    offset: int,
    end: int,
    taken: Seq<u8>,
)
    requires
        history(first, ops, reader, wire, offset, taken),
        0 <= offset <= end <= wire.len(),
        end - offset <= reader.ciphertext.spare(),
    ensures
        history(
            first,
            ops.push(ReaderOp::Receive(wire.subrange(offset, end))),
            reader.inner_read(wire.subrange(offset, end)).0,
            wire,
            end,
            taken,
        ),
        run(first, ops.push(ReaderOp::Receive(wire.subrange(offset, end)))).sound == (run(
            first,
            ops,
        ).sound && reader.inner_read(wire.subrange(offset, end)).1),
{
    let op = ReaderOp::Receive(wire.subrange(offset, end));
    assert(ops.push(op).drop_last() =~= ops);
    assert(wire.take(offset) + wire.subrange(offset, end) =~= wire.take(end));
    assert(taken + reader.hands_over(op) =~= taken);
}

/// Opens a whole stream: `wire` is everything that followed the nonce, up
/// to the end of the connection. Returns the plaintext of its chunks, in
/// order.
///
/// Succeeds exactly where `wire` is whole chunks and nothing else, each of
/// them sound at its position. Bytes that break off inside a chunk are a
/// failure, like a chunk that does not open. A stream that ends between
/// two chunks is whole as far as it goes: the chunks carry no mark of
/// being the last.
pub fn open_all(key: [u8; 32], nonce: [u8; 8], wire: &[u8]) -> (r: Result<Vec<u8>, Error>)
    ensures
        r is Ok <==> decode(StreamState::start(key@, nonce@), wire@).complete(),
        r matches Ok(plaintext) ==> plaintext@ == decode(
            StreamState::start(key@, nonce@),
            wire@,
        ).plaintext,
        r is Err ==> r == Err::<Vec<u8>, Error>(Error::DecryptionFailed),
{
    let ghost first = ReaderView::fresh(key@, nonce@);
    let ghost whole = decode(StreamState::start(key@, nonce@), wire@);
    let ghost mut ops: Seq<ReaderOp> = Seq::empty();
    let mut reader = EncryptedReader::new(key, nonce);
    let mut out: Vec<u8> = Vec::new();
    let mut offset: usize = 0;
    proof {
        assert(first.ciphertext.data() + wire@ =~= wire@);
        assert(first.promised(wire@).plaintext =~= whole.plaintext);
        assert(wire@.take(0) =~= Seq::<u8>::empty());
    }
    loop
        invariant
            first == ReaderView::fresh(key@, nonce@),
            first.promised(wire@) == whole,
            reader.wf(),
            offset <= wire@.len(),
            reader@.cleartext.data().len() == 0,
            history(first, ops, reader@, wire@, offset as int, out@),
            run(first, ops).sound,
        decreases (wire@.len() - offset) + reader@.ciphertext.data().len(),
    {
        let ghost round = (wire@.len() - offset) + reader@.held();
        let ghost before = reader@;
        proof {
            reader.lemma_wf();
            assert(before.ciphertext.extend(Seq::empty()).bytes =~= before.ciphertext.bytes);
            assert(wire@.subrange(offset as int, offset as int) =~= Seq::<u8>::empty());
            lemma_history_receive(first, ops, before, wire@, offset as int, offset as int, out@);
            lemma_inner_read_keeps_promise(before, Seq::empty(), Seq::empty());
            lemma_answers_mean_what_they_say(before, None, ReadEvent::Start);
            ops = ops.push(ReaderOp::Receive(Seq::empty()));
            assert(first.wf());
            lemma_run_delivers(first, ops, wire@.skip(offset as int));
            assert(wire@.take(offset as int) + wire@.skip(offset as int) =~= wire@);
        }
        let mut answer = reader.read_if_necessary(None, ReadEvent::Start);
        let mut filling = true;
        while filling
            invariant
                first == ReaderView::fresh(key@, nonce@),
                first.promised(wire@) == whole,
                reader.wf(),
                offset <= wire@.len(),
                history(first, ops, reader@, wire@, offset as int, out@),
                answer is Ok ==> run(first, ops).sound,
                answer is Err ==> answer == Err::<ReadStep, Error>(Error::DecryptionFailed)
                    && !whole.complete(),
                answer matches Ok(ReadStep::Fill(n)) ==> 0 < n == reader@.ciphertext.spare(),
                answer == Ok::<ReadStep, Error>(ReadStep::Ready) ==> reader@.cleartext.data().len()
                    > 0,
                answer == Ok::<ReadStep, Error>(ReadStep::Eof) ==> offset == wire@.len()
                    && reader@.held() == 0,
                answer != Ok::<ReadStep, Error>(ReadStep::Pending),
                !filling ==> !(answer matches Ok(ReadStep::Fill(_))),
                (wire@.len() - offset) + reader@.held() <= round,
            decreases (wire@.len() - offset) + (if answer matches Ok(ReadStep::Fill(_)) {
                    1int
                } else {
                    0int
                }) + (if filling {
                    1int
                } else {
                    0int
                }),
        {
            match answer {
                Ok(ReadStep::Fill(n)) => {
                    let end: usize = if wire.len() - offset < n {
                        wire.len()
                    } else {
                        offset + n
                    };
                    let piece = vstd::slice::slice_subrange(wire, offset, end);
                    let ghost before = reader@;
                    proof {
                        reader.lemma_wf();
                        let later = wire@.skip(end as int);
                        lemma_history_receive(
                            first,
                            ops,
                            before,
                            wire@,
                            offset as int,
                            end as int,
                            out@,
                        );
                        lemma_inner_read_keeps_promise(before, piece@, later);
                        lemma_answers_mean_what_they_say(
                            before,
                            None,
                            ReadEvent::Received(piece),
                        );
                        ops = ops.push(ReaderOp::Receive(piece@));
                        lemma_run_delivers(first, ops, later);
                        assert(wire@.take(end as int) + later =~= wire@);
                        let fed = ReaderView {
                            ciphertext: before.ciphertext.extend(piece@),
                            ..before
                        };
                        let after = before.inner_read(piece@).0;
                        if before.inner_read(piece@).1 && piece@.len() == 0
                            && after.cleartext.data().len() == 0 {
                            lemma_nothing_left_behind(fed);
                            assert(after.ciphertext.data() =~= fed.drain().0.ciphertext.data());
                            assert(later =~= Seq::<u8>::empty());
                            assert(after.promised(later).rest == after.ciphertext.data());
                        }
                    }
                    answer = reader.read_if_necessary(None, ReadEvent::Received(piece));
                    offset = end;
                },
                _ => {
                    filling = false;
                },
            }
        }
        match answer {
            Err(_) => {
                return Err(Error::DecryptionFailed);
            },
            Ok(ReadStep::Eof) => {
                proof {
                    let later = wire@.skip(offset as int);
                    lemma_run_delivers(first, ops, later);
                    assert(wire@.take(offset as int) + later =~= wire@);
                    assert(reader@.ciphertext.data() + later =~= Seq::<u8>::empty());
                    assert(whole.plaintext =~= out@);
                }
                return Ok(out);
            },
            Ok(_) => {
                let ghost before = reader@;
                let ghost taken = out@;
                proof {
                    reader.lemma_wf();
                }
                let amount = reader.poll_read(&mut out, usize::MAX);
                proof {
                    let op = ReaderOp::Take(amount as nat);
                    assert(ops.push(op).drop_last() =~= ops);
                    ops = ops.push(op);
                    assert(reader@.cleartext.data() =~= Seq::<u8>::empty());
                }
            },
        }
    }
}

} // verus!
