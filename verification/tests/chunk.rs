use dmds::world::frame::write_frame;
use dmds::world::{Chunk, Entry, Slot};
use dmds::Error;

fn record(dims: [u64; 2]) -> Entry<[u64; 2], 2> {
    Entry { dims, slot: Slot::Record(dims) }
}

#[test]
fn put_files_under_the_first_dimension() {
    let mut chunk: Chunk<[u64; 2], 2> = Chunk::new(3);
    assert_eq!(chunk.version(), 3);
    assert_eq!(chunk.len(), 0);
    assert!(!chunk.put(record([5, 3])));
    assert!(!chunk.put(record([6, 3])));
    assert_eq!(chunk.len(), 2);
    assert_eq!(chunk.position(5), Some(0));
    assert_eq!(chunk.position(6), Some(1));
    assert_eq!(chunk.position(7), None);
    assert_eq!(*chunk.get(5).unwrap(), [5, 3]);
}

#[test]
fn put_replaces_the_entry_with_the_same_key() {
    let mut chunk: Chunk<[u64; 2], 2> = Chunk::new(0);
    chunk.put(record([5, 3]));
    chunk.put(record([6, 3]));
    assert!(chunk.put(record([5, 4])));
    assert_eq!(chunk.len(), 2);
    assert_eq!(chunk.position(5), Some(0));
    assert_eq!(chunk.entry(0).dims, [5, 4]);
    assert_eq!(*chunk.get(5).unwrap(), [5, 4]);
}

#[test]
fn remove_keeps_the_order_of_the_others() {
    let mut chunk: Chunk<[u64; 2], 2> = Chunk::new(0);
    chunk.put(record([1, 0]));
    chunk.put(record([2, 0]));
    chunk.put(record([3, 0]));
    assert!(chunk.remove(2));
    assert!(!chunk.remove(2));
    assert_eq!(chunk.len(), 2);
    assert_eq!(chunk.entry(0).dims, [1, 0]);
    assert_eq!(chunk.entry(1).dims, [3, 0]);
    assert!(matches!(chunk.get(2), Err(Error::ValueNotFound)));
}

#[test]
fn missing_key_is_not_found() {
    let chunk: Chunk<[u64; 2], 2> = Chunk::new(0);
    assert!(matches!(chunk.get(1), Err(Error::ValueNotFound)));
}

#[test]
fn record_whose_key_changed_has_moved() {
    let mut chunk: Chunk<[u64; 2], 2> = Chunk::new(0);
    chunk.put(Entry { dims: [5, 3], slot: Slot::Record([6, 3]) });
    assert!(matches!(chunk.get(5), Err(Error::ValueMoved)));
    assert!(matches!(chunk.get(6), Err(Error::ValueNotFound)));
}

#[test]
fn payload_is_no_record_yet() {
    let mut stream = Vec::new();
    write_frame(&mut stream, &[5u64, 3], b"abc");
    let chunk: Chunk<[u64; 2], 2> = Chunk::from_stream(0, &stream).unwrap();
    assert_eq!(chunk.position(5), Some(0));
    assert!(matches!(chunk.get(5), Err(Error::ValueNotFound)));
}
