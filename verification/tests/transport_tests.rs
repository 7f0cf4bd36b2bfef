use chacha20poly1305::aead::stream::{DecryptorLE31, EncryptorLE31};
use chacha20poly1305::ChaCha20Poly1305;
use gday::chunk::{MAX_CHUNK_SIZE, MAX_PLAINTEXT_SIZE};
use gday::cipher::{StreamDecryptor, StreamEncryptor, COUNTER_MAX, KEY_SIZE, NONCE_SIZE, TAG_SIZE};
use gday::reader::{EncryptedReader, ReadEvent, ReadStep, Reader};
use gday::round_trip::{open_all, seal_all};
use gday::writer::{Writer, PENDING_CAPACITY};
use gday::Error;

const KEY: [u8; 32] = [
    1, 2, 3, 4, 5, 6, 7, 8, 9, 10, 11, 12, 13, 14, 15, 16, 17, 18, 19, 20, 21, 22, 23, 24, 25, 26,
    27, 28, 29, 30, 31, 32,
];
const NONCE: [u8; 8] = [100, 101, 102, 103, 104, 105, 106, 107];

fn pattern(len: usize) -> Vec<u8> {
    (0..len).map(|i| (i * 31 + i / 255) as u8).collect()
}

/// Offers the plaintext to the writer until all of it is taken; the
/// connection takes at most `accept` bytes at a time.
fn write_all(writer: &mut Writer, plaintext: &[u8], accept: usize) -> Vec<u8> {
    let mut wire = Vec::new();
    let mut offset = 0;
    loop {
        while !writer.poll_flush() {
            let n = writer.pending().len().min(accept);
            wire.extend_from_slice(&writer.pending()[..n]);
            writer.flush_local_buffer(n);
        }
        if offset == plaintext.len() {
            return wire;
        }
        offset += writer.poll_write(&plaintext[offset..]).unwrap();
    }
}

/// Reads until the end of the stream; the connection delivers at most
/// `piece` bytes at a time, and the caller takes at most `want`.
fn read_all(
    reader: &mut EncryptedReader,
    wire: &[u8],
    piece: usize,
    want: usize,
) -> Result<Vec<u8>, Error> {
    let mut out = Vec::new();
    let mut offset = 0;
    loop {
        let mut step = reader.read_if_necessary(Some(want), ReadEvent::Start)?;
        while let ReadStep::Fill(n) = step {
            assert!(n > 0);
            assert!(n <= 2 * MAX_CHUNK_SIZE);
            let end = (offset + n.min(piece)).min(wire.len());
            step = reader.read_if_necessary(Some(want), ReadEvent::Received(&wire[offset..end]))?;
            offset = end;
        }
        assert!(reader.poll_fill_buf().len() <= MAX_CHUNK_SIZE);
        assert!(reader.spare_capacity_len() <= 2 * MAX_CHUNK_SIZE);
        match step {
            ReadStep::Ready => {
                let before = out.len();
                let n = reader.poll_read(&mut out, want);
                assert_eq!(out.len(), before + n);
                assert!(n > 0);
                assert!(n <= want);
            }
            ReadStep::Eof => return Ok(out),
            _ => panic!("the connection never blocks here"),
        }
    }
}

fn round_trip(len: usize, accept: usize, piece: usize, want: usize) {
    let plaintext = pattern(len);
    let mut writer = Writer::with_nonce(KEY, NONCE);
    let wire = write_all(&mut writer, &plaintext, accept);
    assert_eq!(&wire[..8], &NONCE);
    let mut reader = EncryptedReader::new(KEY, NONCE);
    assert_eq!(read_all(&mut reader, &wire[8..], piece, want), Ok(plaintext));
}

#[test]
fn cipher_constants() {
    assert_eq!(KEY_SIZE, 32);
    assert_eq!(NONCE_SIZE, 8);
    assert_eq!(TAG_SIZE, 16);
    assert_eq!(COUNTER_MAX, 0x0fff_ffff);
    assert_eq!(PENDING_CAPACITY, 65539);
}

#[test]
fn sealing_matches_the_stream_cipher() {
    let mut theirs = EncryptorLE31::<ChaCha20Poly1305>::new((&KEY).into(), (&NONCE).into());
    let mut ours = StreamEncryptor::new(KEY, NONCE);
    assert_eq!(ours.nonce(), &NONCE);
    for len in [0usize, 1, 15, 16, 17, 1000] {
        let plaintext = pattern(len);
        let mut expected = plaintext.clone();
        theirs.encrypt_next_in_place(&[], &mut expected).unwrap();
        let mut sealed = plaintext.clone();
        assert_eq!(ours.encrypt_next_in_place(&mut sealed), Ok(()));
        assert_eq!(sealed.len(), len + 16);
        assert_eq!(sealed, expected);
        if len >= 16 {
            assert_ne!(&sealed[..len], &plaintext[..]);
        }
    }
}

#[test]
fn opening_matches_the_stream_cipher() {
    let mut theirs = EncryptorLE31::<ChaCha20Poly1305>::new((&KEY).into(), (&NONCE).into());
    let mut ours = StreamDecryptor::new(KEY, NONCE);
    for len in [0usize, 1, 16, 300] {
        let plaintext = pattern(len);
        let mut buffer = plaintext.clone();
        theirs.encrypt_next_in_place(&[], &mut buffer).unwrap();
        assert_eq!(ours.decrypt_next_in_place(&mut buffer), Ok(()));
        assert_eq!(buffer, plaintext);
    }
}

#[test]
fn the_stream_cipher_opens_what_we_seal() {
    let mut ours = StreamEncryptor::new(KEY, NONCE);
    let mut theirs = DecryptorLE31::<ChaCha20Poly1305>::new((&KEY).into(), (&NONCE).into());
    for len in [5usize, 0, 70] {
        let plaintext = pattern(len);
        let mut buffer = plaintext.clone();
        ours.encrypt_next_in_place(&mut buffer).unwrap();
        theirs.decrypt_next_in_place(&[], &mut buffer).unwrap();
        assert_eq!(buffer, plaintext);
    }
}

#[test]
fn same_plaintext_seals_differently_at_each_position() {
    let mut ours = StreamEncryptor::new(KEY, NONCE);
    let mut first = vec![9u8; 40];
    let mut second = vec![9u8; 40];
    ours.encrypt_next_in_place(&mut first).unwrap();
    ours.encrypt_next_in_place(&mut second).unwrap();
    assert_ne!(first, second);
}

#[test]
fn failed_opening_changes_nothing() {
    let mut sealer = StreamEncryptor::new(KEY, NONCE);
    let mut sealed = pattern(50);
    sealer.encrypt_next_in_place(&mut sealed).unwrap();
    let mut tampered = sealed.clone();
    tampered[10] ^= 1;
    let kept = tampered.clone();
    let mut opener = StreamDecryptor::new(KEY, NONCE);
    assert_eq!(opener.decrypt_next_in_place(&mut tampered), Err(Error::DecryptionFailed));
    assert_eq!(tampered, kept);
    // the position did not move: the untampered chunk still opens
    assert_eq!(opener.decrypt_next_in_place(&mut sealed), Ok(()));
    assert_eq!(sealed, pattern(50));
}

#[test]
fn chunk_shorter_than_a_tag_does_not_open() {
    let mut opener = StreamDecryptor::new(KEY, NONCE);
    let mut short = vec![1u8; 15];
    assert_eq!(opener.decrypt_next_in_place(&mut short), Err(Error::DecryptionFailed));
    assert_eq!(short, vec![1u8; 15]);
}

#[test]
fn wrong_key_or_nonce_does_not_open() {
    let mut sealer = StreamEncryptor::new(KEY, NONCE);
    let mut sealed = pattern(20);
    sealer.encrypt_next_in_place(&mut sealed).unwrap();
    let mut other_key = KEY;
    other_key[0] ^= 1;
    let mut other_nonce = NONCE;
    other_nonce[7] ^= 1;
    let mut copy = sealed.clone();
    assert_eq!(
        StreamDecryptor::new(other_key, NONCE).decrypt_next_in_place(&mut copy),
        Err(Error::DecryptionFailed)
    );
    assert_eq!(
        StreamDecryptor::new(KEY, other_nonce).decrypt_next_in_place(&mut copy),
        Err(Error::DecryptionFailed)
    );
    assert_eq!(StreamDecryptor::new(KEY, NONCE).decrypt_next_in_place(&mut copy), Ok(()));
}

#[test]
fn new_writer_queues_its_nonce_first() {
    let writer = Writer::with_nonce(KEY, NONCE);
    assert_eq!(writer.pending(), &NONCE);
    assert!(!writer.poll_flush());
    let random = Writer::new(KEY);
    assert_eq!(random.pending().len(), 8);
}

#[test]
fn random_nonces_vary() {
    let first = Writer::new(KEY).pending().to_vec();
    let mut differs = false;
    for _ in 0..20 {
        if Writer::new(KEY).pending() != &first[..] {
            differs = true;
        }
    }
    assert!(differs);
}

#[test]
fn writer_takes_nothing_while_bytes_wait() {
    let mut writer = Writer::with_nonce(KEY, NONCE);
    assert_eq!(writer.poll_write(&[1, 2, 3]), Ok(0));
    assert_eq!(writer.pending(), &NONCE);
    assert!(!writer.flush_local_buffer(5));
    assert_eq!(writer.pending(), &NONCE[5..]);
    assert_eq!(writer.poll_write(&[1, 2, 3]), Ok(0));
    assert!(writer.flush_local_buffer(3));
    assert!(writer.poll_flush());
    assert_eq!(writer.poll_write(&[1, 2, 3]), Ok(3));
    assert_eq!(writer.pending().len(), 4 + 3 + 16);
}

#[test]
fn writer_frames_each_chunk_with_its_length() {
    let mut theirs = EncryptorLE31::<ChaCha20Poly1305>::new((&KEY).into(), (&NONCE).into());
    let mut writer = Writer::with_nonce(KEY, NONCE);
    assert!(writer.flush_local_buffer(8));
    for len in [3usize, 0, 300] {
        let plaintext = pattern(len);
        let mut expected = plaintext.clone();
        theirs.encrypt_next_in_place(&[], &mut expected).unwrap();
        assert_eq!(writer.poll_write(&plaintext), Ok(len));
        let pending = writer.pending().to_vec();
        assert_eq!(&pending[..4], &((len + 16) as u32).to_be_bytes());
        assert_eq!(&pending[4..], &expected[..]);
        assert!(writer.flush_local_buffer(pending.len()));
    }
}

#[test]
fn writer_keeps_what_the_connection_did_not_take() {
    let mut writer = Writer::with_nonce(KEY, NONCE);
    assert!(writer.flush_local_buffer(8));
    assert_eq!(writer.poll_write(&pattern(100)), Ok(100));
    let whole = writer.pending().to_vec();
    assert_eq!(whole.len(), 120);
    assert!(!writer.flush_local_buffer(0));
    assert_eq!(writer.pending(), &whole[..]);
    assert!(!writer.flush_local_buffer(1));
    assert_eq!(writer.pending(), &whole[1..]);
    assert!(!writer.flush_local_buffer(118));
    assert_eq!(writer.pending(), &whole[119..]);
    assert!(writer.flush_local_buffer(1));
    assert_eq!(writer.pending().len(), 0);
}

#[test]
fn writer_cuts_long_plaintext_into_chunks() {
    let mut writer = Writer::with_nonce(KEY, NONCE);
    assert!(writer.flush_local_buffer(8));
    let plaintext = pattern(MAX_PLAINTEXT_SIZE + 10);
    assert_eq!(writer.poll_write(&plaintext), Ok(MAX_PLAINTEXT_SIZE));
    assert_eq!(writer.pending().len(), 4 + MAX_CHUNK_SIZE);
    assert_eq!(&writer.pending()[..4], &[0, 0, 0xff, 0xff]);
    assert!(writer.flush_local_buffer(4 + MAX_CHUNK_SIZE));
    assert_eq!(writer.poll_write(&plaintext[MAX_PLAINTEXT_SIZE..]), Ok(10));
    assert_eq!(writer.pending().len(), 4 + 10 + 16);
}

#[test]
fn round_trip_of_nothing() {
    round_trip(0, usize::MAX, usize::MAX, 1000);
}

#[test]
fn round_trip_single_shot() {
    for len in [1usize, 2, 100, 65519, 65520, 131038, 200_000] {
        round_trip(len, usize::MAX, usize::MAX, 1 << 20);
    }
}

#[test]
fn round_trip_one_byte_at_a_time() {
    for len in [1usize, 100, 65519, 70_000] {
        round_trip(len, 1, 1, 1 << 20);
    }
}

#[test]
fn round_trip_long_stream_in_odd_pieces() {
    round_trip(5 * MAX_CHUNK_SIZE + 123, 7777, 4099, 1 << 20);
    round_trip(5 * MAX_CHUNK_SIZE + 123, 65539, 131070, 65535);
}

#[test]
fn round_trip_with_a_caller_that_takes_little() {
    round_trip(3000, usize::MAX, usize::MAX, 1);
    round_trip(70_000, 1000, 1000, 17);
}

#[test]
fn one_byte_delivery_and_single_shot_give_the_same_plaintext() {
    let plaintext = pattern(150_000);
    let mut writer = Writer::with_nonce(KEY, NONCE);
    let wire = write_all(&mut writer, &plaintext, usize::MAX);
    let mut single = EncryptedReader::new(KEY, NONCE);
    let mut bytewise = EncryptedReader::new(KEY, NONCE);
    let a = read_all(&mut single, &wire[8..], usize::MAX, 1 << 20).unwrap();
    let b = read_all(&mut bytewise, &wire[8..], 1, 1 << 20).unwrap();
    assert_eq!(a, plaintext);
    assert_eq!(b, plaintext);
}

#[test]
fn writer_output_does_not_depend_on_how_the_connection_takes_it() {
    let plaintext = pattern(70_000);
    let a = write_all(&mut Writer::with_nonce(KEY, NONCE), &plaintext, usize::MAX);
    let b = write_all(&mut Writer::with_nonce(KEY, NONCE), &plaintext, 1);
    let c = write_all(&mut Writer::with_nonce(KEY, NONCE), &plaintext, 4096);
    assert_eq!(a, b);
    assert_eq!(a, c);
    assert_eq!(a.len(), 8 + 2 * (4 + 16) + 70_000);
}

#[test]
fn reader_of_an_empty_stream_sees_the_end() {
    let mut reader = EncryptedReader::new(KEY, NONCE);
    assert_eq!(
        reader.read_if_necessary(Some(10), ReadEvent::Start),
        Ok(ReadStep::Fill(2 * MAX_CHUNK_SIZE))
    );
    assert_eq!(reader.read_if_necessary(Some(10), ReadEvent::Received(&[])), Ok(ReadStep::Eof));
}

#[test]
fn reader_waits_when_the_connection_blocks_and_nothing_is_there() {
    let mut reader = EncryptedReader::new(KEY, NONCE);
    assert_eq!(
        reader.read_if_necessary(None, ReadEvent::Start),
        Ok(ReadStep::Fill(2 * MAX_CHUNK_SIZE))
    );
    assert_eq!(reader.read_if_necessary(None, ReadEvent::WouldBlock), Ok(ReadStep::Pending));
}

#[test]
fn reader_hands_over_what_it_has_when_the_connection_blocks() {
    let mut writer = Writer::with_nonce(KEY, NONCE);
    let wire = write_all(&mut writer, &pattern(10), usize::MAX);
    let mut reader = EncryptedReader::new(KEY, NONCE);
    assert!(matches!(reader.read_if_necessary(Some(100), ReadEvent::Start), Ok(ReadStep::Fill(_))));
    // ten bytes are there, a hundred were asked for: the reader asks for more
    assert!(matches!(
        reader.read_if_necessary(Some(100), ReadEvent::Received(&wire[8..])),
        Ok(ReadStep::Fill(_))
    ));
    assert_eq!(reader.read_if_necessary(Some(100), ReadEvent::WouldBlock), Ok(ReadStep::Ready));
    assert_eq!(reader.poll_fill_buf(), &pattern(10)[..]);
    let mut out = Vec::new();
    assert_eq!(reader.poll_read(&mut out, 100), 10);
    assert_eq!(out, pattern(10));
}

#[test]
fn reader_is_ready_once_enough_is_there() {
    let mut writer = Writer::with_nonce(KEY, NONCE);
    let wire = write_all(&mut writer, &pattern(10), usize::MAX);
    let mut reader = EncryptedReader::new(KEY, NONCE);
    assert!(matches!(reader.read_if_necessary(Some(4), ReadEvent::Start), Ok(ReadStep::Fill(_))));
    assert_eq!(
        reader.read_if_necessary(Some(4), ReadEvent::Received(&wire[8..])),
        Ok(ReadStep::Ready)
    );
    let mut out = vec![0xee];
    assert_eq!(reader.poll_read(&mut out, 4), 4);
    assert_eq!(out, vec![0xee, 0, 31, 62, 93]);
    assert_eq!(reader.read_if_necessary(Some(6), ReadEvent::Start), Ok(ReadStep::Ready));
    reader.consume(6);
    assert_eq!(reader.poll_fill_buf().len(), 0);
}

#[test]
fn reader_asked_for_nothing_is_ready_at_once() {
    let mut reader = EncryptedReader::new(KEY, NONCE);
    assert_eq!(reader.read_if_necessary(Some(0), ReadEvent::Start), Ok(ReadStep::Ready));
    let mut out = Vec::new();
    assert_eq!(reader.poll_read(&mut out, 0), 0);
}

#[test]
fn reader_serves_the_rest_before_it_reports_the_end() {
    let mut writer = Writer::with_nonce(KEY, NONCE);
    let wire = write_all(&mut writer, &pattern(10), usize::MAX);
    let mut reader = EncryptedReader::new(KEY, NONCE);
    reader.read_if_necessary(Some(100), ReadEvent::Start).unwrap();
    reader.read_if_necessary(Some(100), ReadEvent::Received(&wire[8..])).unwrap();
    assert_eq!(reader.read_if_necessary(Some(100), ReadEvent::Received(&[])), Ok(ReadStep::Ready));
    reader.consume(10);
    assert!(matches!(reader.read_if_necessary(Some(100), ReadEvent::Start), Ok(ReadStep::Fill(_))));
    assert_eq!(reader.read_if_necessary(Some(100), ReadEvent::Received(&[])), Ok(ReadStep::Eof));
}

#[test]
fn truncated_stream_is_an_error_not_an_end() {
    let mut writer = Writer::with_nonce(KEY, NONCE);
    let wire = write_all(&mut writer, &pattern(100), usize::MAX);
    for cut in [1usize, 3, 4, 5, 60, wire.len() - 9] {
        let mut reader = EncryptedReader::new(KEY, NONCE);
        assert_eq!(
            read_all(&mut reader, &wire[8..8 + cut], usize::MAX, 1000),
            Err(Error::DecryptionFailed)
        );
    }
}

#[test]
fn flipped_bit_in_the_ciphertext_is_detected() {
    let plaintext = pattern(200);
    let mut writer = Writer::with_nonce(KEY, NONCE);
    let wire = write_all(&mut writer, &plaintext, usize::MAX)[8..].to_vec();
    for index in 4..wire.len() {
        let mut tampered = wire.clone();
        tampered[index] ^= 1 << (index % 8);
        for piece in [usize::MAX, 1] {
            let mut reader = EncryptedReader::new(KEY, NONCE);
            assert_eq!(
                read_all(&mut reader, &tampered, piece, 1000),
                Err(Error::DecryptionFailed)
            );
        }
    }
}

#[test]
fn flipped_bit_in_the_length_is_detected() {
    let mut writer = Writer::with_nonce(KEY, NONCE);
    let mut plaintext = pattern(200);
    plaintext.extend_from_slice(&pattern(70_000));
    assert!(writer.flush_local_buffer(8));
    let mut wire = Vec::new();
    for part in [&plaintext[..200], &plaintext[200..65_000], &plaintext[65_000..]] {
        assert_eq!(writer.poll_write(part), Ok(part.len()));
        wire.extend_from_slice(writer.pending());
        let n = writer.pending().len();
        writer.flush_local_buffer(n);
    }
    let mut reader = EncryptedReader::new(KEY, NONCE);
    assert_eq!(read_all(&mut reader, &wire, usize::MAX, 1 << 20), Ok(plaintext));
    for byte in 0..4 {
        for bit in 0..8 {
            let mut tampered = wire.clone();
            tampered[byte] ^= 1 << bit;
            let mut reader = EncryptedReader::new(KEY, NONCE);
            assert_eq!(
                read_all(&mut reader, &tampered, 5000, 1 << 20),
                Err(Error::DecryptionFailed)
            );
        }
    }
}

#[test]
fn oversized_length_is_turned_down_at_once() {
    let mut reader = EncryptedReader::new(KEY, NONCE);
    reader.read_if_necessary(None, ReadEvent::Start).unwrap();
    assert_eq!(
        reader.read_if_necessary(None, ReadEvent::Received(&[0, 1, 0, 0])),
        Err(Error::DecryptionFailed)
    );
    let mut edge = EncryptedReader::new(KEY, NONCE);
    edge.read_if_necessary(None, ReadEvent::Start).unwrap();
    assert!(matches!(
        edge.read_if_necessary(None, ReadEvent::Received(&[0, 0, 0xff, 0xff])),
        Ok(ReadStep::Fill(_))
    ));
}

fn three_chunks() -> Vec<Vec<u8>> {
    let mut writer = Writer::with_nonce(KEY, NONCE);
    assert!(writer.flush_local_buffer(8));
    let mut chunks = Vec::new();
    for len in [30usize, 30, 50] {
        assert_eq!(writer.poll_write(&pattern(len)), Ok(len));
        chunks.push(writer.pending().to_vec());
        let n = writer.pending().len();
        writer.flush_local_buffer(n);
    }
    chunks
}

#[test]
fn replayed_chunk_is_detected() {
    let chunks = three_chunks();
    let wire = [&chunks[0][..], &chunks[0][..], &chunks[1][..]].concat();
    let mut reader = EncryptedReader::new(KEY, NONCE);
    assert_eq!(read_all(&mut reader, &wire, usize::MAX, 1000), Err(Error::DecryptionFailed));
}

#[test]
fn swapped_chunks_are_detected() {
    let chunks = three_chunks();
    let wire = [&chunks[1][..], &chunks[0][..], &chunks[2][..]].concat();
    let mut reader = EncryptedReader::new(KEY, NONCE);
    assert_eq!(read_all(&mut reader, &wire, usize::MAX, 1000), Err(Error::DecryptionFailed));
    let later = [&chunks[0][..], &chunks[2][..], &chunks[1][..]].concat();
    let mut reader = EncryptedReader::new(KEY, NONCE);
    assert_eq!(read_all(&mut reader, &later, 1, 1000), Err(Error::DecryptionFailed));
}

#[test]
fn dropped_chunk_is_detected() {
    let chunks = three_chunks();
    let wire = [&chunks[0][..], &chunks[2][..]].concat();
    let mut reader = EncryptedReader::new(KEY, NONCE);
    assert_eq!(read_all(&mut reader, &wire, usize::MAX, 1000), Err(Error::DecryptionFailed));
}

#[test]
fn failure_is_final() {
    let chunks = three_chunks();
    let mut bad = chunks[1].clone();
    bad[10] ^= 0x80;
    let mut reader = EncryptedReader::new(KEY, NONCE);
    reader.read_if_necessary(None, ReadEvent::Start).unwrap();
    let wire = [&chunks[0][..], &bad[..]].concat();
    assert_eq!(
        reader.read_if_necessary(None, ReadEvent::Received(&wire)),
        Err(Error::DecryptionFailed)
    );
    // what came before the bad chunk was opened; nothing behind it ever is
    assert_eq!(reader.poll_fill_buf(), &pattern(30)[..]);
    assert_eq!(reader.decrypt_all_full_chunks(), Err(Error::DecryptionFailed));
    assert_eq!(reader.inner_read(&chunks[2]), Err(Error::DecryptionFailed));
    // the plaintext that waits is still handed over; then the failure shows again
    assert_eq!(reader.read_if_necessary(None, ReadEvent::Start), Ok(ReadStep::Ready));
    assert_eq!(reader.poll_fill_buf(), &pattern(30)[..]);
    reader.consume(30);
    assert_eq!(
        reader.read_if_necessary(None, ReadEvent::Start),
        Err(Error::DecryptionFailed)
    );
    assert_eq!(reader.poll_fill_buf().len(), 0);
}

#[test]
fn reader_stays_within_three_chunks_on_a_long_stream() {
    let plaintext = pattern(20 * MAX_CHUNK_SIZE);
    let mut writer = Writer::with_nonce(KEY, NONCE);
    let wire = write_all(&mut writer, &plaintext, usize::MAX);
    let mut reader = EncryptedReader::new(KEY, NONCE);
    assert_eq!(read_all(&mut reader, &wire[8..], 100_000, 3), Ok(plaintext));
}

#[test]
fn reader_makes_room_when_sealed_bytes_reach_the_end_of_their_buffer() {
    // chunks of 40000 bytes: three of them do not fit in the sealed buffer at once
    let plaintext = pattern(10 * 40_000);
    let mut writer = Writer::with_nonce(KEY, NONCE);
    assert!(writer.flush_local_buffer(8));
    let mut wire = Vec::new();
    for part in plaintext.chunks(40_000) {
        assert_eq!(writer.poll_write(part), Ok(40_000));
        wire.extend_from_slice(writer.pending());
        let n = writer.pending().len();
        writer.flush_local_buffer(n);
    }
    let mut reader = EncryptedReader::new(KEY, NONCE);
    assert_eq!(read_all(&mut reader, &wire, usize::MAX, 1 << 20), Ok(plaintext.clone()));
    let mut reader = EncryptedReader::new(KEY, NONCE);
    assert_eq!(read_all(&mut reader, &wire, 50_001, 999), Ok(plaintext));
}

#[test]
fn empty_chunk_is_not_the_end() {
    let mut writer = Writer::with_nonce(KEY, NONCE);
    assert!(writer.flush_local_buffer(8));
    assert_eq!(writer.poll_write(&[]), Ok(0));
    let empty = writer.pending().to_vec();
    assert_eq!(empty.len(), 20);
    assert!(writer.flush_local_buffer(20));
    assert_eq!(writer.poll_write(&[42]), Ok(1));
    let one = writer.pending().to_vec();
    let mut reader = EncryptedReader::new(KEY, NONCE);
    reader.read_if_necessary(Some(5), ReadEvent::Start).unwrap();
    assert!(matches!(
        reader.read_if_necessary(Some(5), ReadEvent::Received(&empty)),
        Ok(ReadStep::Fill(_))
    ));
    assert!(matches!(
        reader.read_if_necessary(Some(5), ReadEvent::Received(&one)),
        Ok(ReadStep::Fill(_))
    ));
    assert_eq!(reader.read_if_necessary(Some(5), ReadEvent::Received(&[])), Ok(ReadStep::Ready));
    assert_eq!(reader.poll_fill_buf(), &[42]);
}

#[test]
fn reader_goes_by_its_short_name_too() {
    let plaintext = pattern(1000);
    let mut writer = Writer::with_nonce(KEY, NONCE);
    let wire = write_all(&mut writer, &plaintext, 100);
    let mut reader: Reader = Reader::new(KEY, NONCE);
    assert_eq!(read_all(&mut reader, &wire[8..], 100, 100), Ok(plaintext));
}

#[test]
fn reader_with_another_key_fails() {
    let mut writer = Writer::with_nonce(KEY, NONCE);
    let wire = write_all(&mut writer, &pattern(10), usize::MAX);
    let mut key = KEY;
    key[31] ^= 0x10;
    let mut reader = EncryptedReader::new(key, NONCE);
    assert_eq!(read_all(&mut reader, &wire[8..], usize::MAX, 100), Err(Error::DecryptionFailed));
}

#[test]
fn waiting_plaintext_satisfies_the_read_without_the_connection() {
    let mut writer = Writer::with_nonce(KEY, NONCE);
    let wire = write_all(&mut writer, &[7], usize::MAX);
    let mut reader = EncryptedReader::new(KEY, NONCE);
    reader.read_if_necessary(Some(1), ReadEvent::Start).unwrap();
    assert_eq!(
        reader.read_if_necessary(Some(1), ReadEvent::Received(&wire[8..])),
        Ok(ReadStep::Ready)
    );
    // one byte waits, five are asked for: the read is satisfied as it is
    let spare = reader.spare_capacity_len();
    assert_eq!(reader.read_if_necessary(Some(5), ReadEvent::Start), Ok(ReadStep::Ready));
    assert_eq!(reader.read_if_necessary(None, ReadEvent::Start), Ok(ReadStep::Ready));
    assert_eq!(reader.spare_capacity_len(), spare);
    let mut out = Vec::new();
    assert_eq!(reader.poll_read(&mut out, 5), 1);
    assert_eq!(out, vec![7]);
    assert!(matches!(reader.read_if_necessary(Some(5), ReadEvent::Start), Ok(ReadStep::Fill(_))));
}

#[test]
fn waiting_plaintext_is_served_before_later_chunks_are_opened() {
    let chunks = three_chunks();
    let mut reader = EncryptedReader::new(KEY, NONCE);
    reader.read_if_necessary(Some(10), ReadEvent::Start).unwrap();
    assert_eq!(
        reader.read_if_necessary(Some(10), ReadEvent::Received(&chunks[0])),
        Ok(ReadStep::Ready)
    );
    assert_eq!(reader.inner_read(&[]), Ok(()));
    let mut out = Vec::new();
    assert_eq!(reader.poll_read(&mut out, 10), 10);
    assert_eq!(reader.read_if_necessary(Some(100), ReadEvent::Start), Ok(ReadStep::Ready));
    assert_eq!(reader.poll_read(&mut out, 100), 20);
    assert_eq!(out, pattern(30));
}

#[test]
fn seal_all_writes_what_the_writer_writes() {
    for len in [0usize, 1, 65519, 65520, 200_000] {
        let plaintext = pattern(len);
        let wire = seal_all(KEY, NONCE, &plaintext).unwrap();
        assert_eq!(wire, write_all(&mut Writer::with_nonce(KEY, NONCE), &plaintext, 4096));
        assert_eq!(&wire[..8], &NONCE);
    }
}

#[test]
fn open_all_gives_back_what_seal_all_took() {
    for len in [0usize, 1, 16, 65519, 65520, 131038, 4 * MAX_CHUNK_SIZE] {
        let plaintext = pattern(len);
        let wire = seal_all(KEY, NONCE, &plaintext).unwrap();
        assert_eq!(open_all(KEY, NONCE, &wire[8..]), Ok(plaintext));
    }
}

#[test]
fn open_all_reads_what_the_stream_cipher_wrote() {
    let mut theirs = EncryptorLE31::<ChaCha20Poly1305>::new((&KEY).into(), (&NONCE).into());
    let mut wire = Vec::new();
    let mut plaintext = Vec::new();
    for len in [10usize, 0, 3000] {
        let part = pattern(len);
        let mut chunk = part.clone();
        theirs.encrypt_next_in_place(&[], &mut chunk).unwrap();
        wire.extend_from_slice(&(chunk.len() as u32).to_be_bytes());
        wire.extend_from_slice(&chunk);
        plaintext.extend_from_slice(&part);
    }
    assert_eq!(open_all(KEY, NONCE, &wire), Ok(plaintext));
}

#[test]
fn open_all_of_nothing_is_nothing() {
    assert_eq!(open_all(KEY, NONCE, &[]), Ok(Vec::new()));
}

#[test]
fn open_all_fails_on_a_stream_that_breaks_off_or_was_changed() {
    let wire = seal_all(KEY, NONCE, &pattern(70_000)).unwrap()[8..].to_vec();
    for cut in [1usize, 4, 20, 65538, 65540, wire.len() - 1] {
        assert_eq!(open_all(KEY, NONCE, &wire[..cut]), Err(Error::DecryptionFailed));
    }
    // a stream that ends between two chunks is whole as far as it goes
    assert_eq!(open_all(KEY, NONCE, &wire[..65539]), Ok(pattern(70_000)[..65519].to_vec()));
    for index in [0usize, 3, 4, 1000, 65538, 65539, 65543, wire.len() - 1] {
        let mut changed = wire.clone();
        changed[index] ^= 0x04;
        assert_eq!(open_all(KEY, NONCE, &changed), Err(Error::DecryptionFailed));
    }
    let mut longer = wire.clone();
    longer.push(0);
    assert_eq!(open_all(KEY, NONCE, &longer), Err(Error::DecryptionFailed));
}
