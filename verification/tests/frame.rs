use dmds::buf::IoErrorKind;
use dmds::world::frame::{header_size, read_word, split_frames, write_frame};
use dmds::world::{Chunk, Slot};
use dmds::Error;

fn kind<T>(r: Result<T, Error>) -> Option<IoErrorKind> {
    match r {
        Ok(_) => None,
        Err(error) => error.io_kind(),
    }
}

#[test]
fn frame_layout() {
    let mut stream = vec![0xffu8];
    write_frame(&mut stream, &[0x0102u64, 3], b"hi");
    let expected: Vec<u8> = vec![
        0xff, 0x02, 0x01, 0, 0, 0, 0, 0, 0, 3, 0, 0, 0, 0, 0, 0, 0, 2, 0, 0, 0, 0, 0, 0, 0, b'h',
        b'i',
    ];
    assert_eq!(stream, expected);
    assert_eq!(header_size::<2>(), Some(24));
    assert_eq!(read_word(&stream, 1), 0x0102);
    assert_eq!(read_word(&stream, 17), 2);
}

#[test]
fn stream_splits_into_its_frames() {
    let mut stream = Vec::new();
    write_frame(&mut stream, &[5u64, 3], b"abc");
    write_frame(&mut stream, &[6u64, 4], b"");
    write_frame(&mut stream, &[7u64, 5], b"z");
    let spans = split_frames::<2>(&stream).unwrap();
    assert_eq!(spans.len(), 3);
    assert_eq!(spans[0].dims, [5, 3]);
    assert_eq!(&stream[spans[0].start..spans[0].end], b"abc");
    assert_eq!(spans[1].dims, [6, 4]);
    assert_eq!(spans[1].start, spans[1].end);
    assert_eq!(spans[2].dims, [7, 5]);
    assert_eq!(&stream[spans[2].start..spans[2].end], b"z");
    assert_eq!(spans[2].end, stream.len());
}

#[test]
fn empty_stream_is_an_empty_chunk() {
    let chunk: Chunk<[u64; 2], 2> = Chunk::from_stream(7, &[]).unwrap();
    assert_eq!(chunk.len(), 0);
    assert_eq!(chunk.version(), 7);
}

#[test]
fn chunk_keeps_payloads_as_they_stand() {
    let mut stream = Vec::new();
    write_frame(&mut stream, &[5u64, 3], b"abc");
    write_frame(&mut stream, &[6u64, 4], b"defg");
    let chunk: Chunk<[u64; 2], 2> = Chunk::from_stream(1, &stream).unwrap();
    assert_eq!(chunk.len(), 2);
    assert_eq!(chunk.entry(0).dims, [5, 3]);
    match &chunk.entry(0).slot {
        Slot::Pending(payload) => assert_eq!(&payload[..], b"abc"),
        Slot::Record(_) => panic!("the payload was decoded"),
    }
    match &chunk.entry(1).slot {
        Slot::Pending(payload) => assert_eq!(&payload[..], b"defg"),
        Slot::Record(_) => panic!("the payload was decoded"),
    }
}

#[test]
fn stream_that_breaks_off_in_a_header_is_short() {
    let mut stream = Vec::new();
    write_frame(&mut stream, &[5u64, 3], b"abc");
    stream.extend_from_slice(&[1, 2, 3]);
    assert_eq!(kind(split_frames::<2>(&stream)), Some(IoErrorKind::UnexpectedEof));
    assert_eq!(
        kind(Chunk::<[u64; 2], 2>::from_stream(0, &stream)),
        Some(IoErrorKind::UnexpectedEof)
    );
}

#[test]
fn stream_that_breaks_off_in_a_payload_is_short() {
    let mut stream = Vec::new();
    write_frame(&mut stream, &[5u64, 3], b"abcdef");
    stream.truncate(stream.len() - 1);
    assert_eq!(
        kind(Chunk::<[u64; 2], 2>::from_stream(0, &stream)),
        Some(IoErrorKind::UnexpectedEof)
    );
}

#[test]
fn stream_with_a_key_twice_is_invalid() {
    let mut stream = Vec::new();
    write_frame(&mut stream, &[5u64, 3], b"a");
    write_frame(&mut stream, &[6u64, 3], b"b");
    write_frame(&mut stream, &[5u64, 4], b"c");
    assert_eq!(
        kind(Chunk::<[u64; 2], 2>::from_stream(0, &stream)),
        Some(IoErrorKind::InvalidData)
    );
}
