use dmds::world::frame::write_frame;
use dmds::world::{Chunk, Chunks, Entry, Load, Slot};
use dmds::Error;

fn chunk_with(dims: [u64; 2]) -> Chunk<[u64; 2], 2> {
    let mut chunk = Chunk::new(0);
    chunk.put(Entry { dims, slot: Slot::Record(dims) });
    chunk
}

#[test]
fn many_callers_one_fetch() {
    let mut chunks: Chunks<[u64; 2], 2> = Chunks::new();
    let pos = [3usize, 4];
    let mut fetches = 0;
    let mut waits = 0;
    for caller in 0..10 {
        match chunks.load(&pos, caller % 2 == 0) {
            Load::Fetch => fetches += 1,
            Load::Wait => waits += 1,
            Load::Hit => panic!("nothing is in memory yet"),
        }
    }
    assert_eq!(fetches, 1);
    assert_eq!(waits, 9);
    assert_eq!(chunks.generation(), 0);
    assert!(chunks.chunk(&pos).is_none());
}

#[test]
fn other_coordinates_are_not_held_up() {
    let mut chunks: Chunks<[u64; 2], 2> = Chunks::new();
    assert_eq!(chunks.load(&[0, 0], true), Load::Fetch);
    assert_eq!(chunks.load(&[0, 1], true), Load::Fetch);
    assert_eq!(chunks.load(&[0, 0], true), Load::Wait);
    chunks.install(&[0, 1], chunk_with([1, 8]));
    assert_eq!(chunks.load(&[0, 1], true), Load::Hit);
    assert_eq!(chunks.load(&[0, 0], true), Load::Wait);
}

#[test]
fn install_moves_the_generation_on() {
    let mut chunks: Chunks<[u64; 2], 2> = Chunks::new();
    let pos = [0usize, 0];
    assert_eq!(chunks.load(&pos, true), Load::Fetch);
    chunks.install(&pos, chunk_with([5, 3]));
    assert_eq!(chunks.generation(), 1);
    assert_eq!(chunks.load(&pos, true), Load::Hit);
    assert_eq!(chunks.generation(), 1);
    assert_eq!(*chunks.get(&pos, 5).unwrap(), [5, 3]);
    assert_eq!(chunks.chunk(&pos).unwrap().len(), 1);
}

#[test]
fn failed_fetch_installs_nothing_and_can_be_tried_again() {
    let mut chunks: Chunks<[u64; 2], 2> = Chunks::new();
    let pos = [0usize, 0];
    assert_eq!(chunks.load(&pos, true), Load::Fetch);
    chunks.fail(&pos);
    assert_eq!(chunks.generation(), 0);
    assert!(chunks.chunk(&pos).is_none());
    assert_eq!(chunks.load(&pos, true), Load::Fetch);
}

#[test]
fn failed_fetch_leaves_a_chunk_in_memory_alone() {
    let mut chunks: Chunks<[u64; 2], 2> = Chunks::new();
    let pos = [0usize, 0];
    chunks.install(&pos, chunk_with([5, 3]));
    chunks.fail(&pos);
    assert_eq!(chunks.load(&pos, true), Load::Hit);
}

#[test]
fn stale_hint_fetches_again() {
    let mut chunks: Chunks<[u64; 2], 2> = Chunks::new();
    let pos = [0usize, 0];
    chunks.install(&pos, chunk_with([5, 3]));
    assert_eq!(chunks.load(&pos, false), Load::Fetch);
    assert_eq!(chunks.load(&pos, false), Load::Wait);
    assert!(matches!(chunks.get(&pos, 5), Err(Error::ValueNotFound)));
    assert_eq!(chunks.generation(), 1);
    chunks.install(&pos, chunk_with([5, 3]));
    assert_eq!(chunks.generation(), 2);
}

#[test]
fn invalidate_lets_go_and_moves_the_generation_on() {
    let mut chunks: Chunks<[u64; 2], 2> = Chunks::new();
    let pos = [0usize, 0];
    chunks.install(&pos, chunk_with([5, 3]));
    chunks.invalidate(&pos);
    assert_eq!(chunks.generation(), 2);
    assert!(chunks.chunk(&pos).is_none());
    assert_eq!(chunks.load(&pos, true), Load::Fetch);
    chunks.invalidate(&[9, 9]);
    assert_eq!(chunks.generation(), 3);
    assert_eq!(chunks.load(&pos, true), Load::Wait);
}

#[test]
fn insert_needs_the_chunk_in_memory() {
    let mut chunks: Chunks<[u64; 2], 2> = Chunks::new();
    let pos = [0usize, 0];
    let back = chunks.insert(&pos, Entry { dims: [5, 3], slot: Slot::Record([5, 3]) });
    assert!(back.is_some());
    assert_eq!(chunks.generation(), 0);
    chunks.install(&pos, Chunk::new(0));
    let back = chunks.insert(&pos, Entry { dims: [5, 3], slot: Slot::Record([5, 3]) });
    assert!(back.is_none());
    assert_eq!(chunks.generation(), 2);
    assert_eq!(*chunks.get(&pos, 5).unwrap(), [5, 3]);
}

#[test]
fn remove_from_the_cache() {
    let mut chunks: Chunks<[u64; 2], 2> = Chunks::new();
    let pos = [0usize, 0];
    assert!(!chunks.remove(&pos, 5));
    chunks.install(&pos, chunk_with([5, 3]));
    assert!(!chunks.remove(&pos, 6));
    assert_eq!(chunks.generation(), 1);
    assert!(chunks.remove(&pos, 5));
    assert_eq!(chunks.generation(), 2);
    assert!(matches!(chunks.get(&pos, 5), Err(Error::ValueNotFound)));
}

#[test]
fn lookup_distinguishes_not_found_and_moved() {
    let mut chunks: Chunks<[u64; 2], 2> = Chunks::new();
    let pos = [0usize, 0];
    assert!(matches!(chunks.get(&pos, 5), Err(Error::ValueNotFound)));
    let mut chunk = Chunk::new(0);
    chunk.put(Entry { dims: [5, 3], slot: Slot::Record([6u64, 3]) });
    chunks.install(&pos, chunk);
    assert!(matches!(chunks.get(&pos, 5), Err(Error::ValueMoved)));
    assert!(matches!(chunks.get(&pos, 7), Err(Error::ValueNotFound)));
    assert!(matches!(chunks.get(&[1, 0], 5), Err(Error::ValueNotFound)));
}

#[test]
fn generation_wraps_around() {
    assert_eq!(usize::MAX.wrapping_add(1), 0);
    let mut chunks: Chunks<[u64; 2], 2> = Chunks::new();
    for expected in 1..=5usize {
        chunks.invalidate(&[0, 0]);
        assert_eq!(chunks.generation(), expected);
    }
}

#[test]
fn pending_payload_in_the_cache() {
    let mut stream = Vec::new();
    write_frame(&mut stream, &[5u64, 3], b"abc");
    let mut chunks: Chunks<[u64; 2], 2> = Chunks::new();
    chunks.install(&[0, 0], Chunk::from_stream(0, &stream).unwrap());
    assert!(matches!(chunks.get(&[0, 0], 5), Err(Error::ValueNotFound)));
    assert_eq!(dmds::world::cache::same_pos(&[1usize, 2], &[1usize, 2]), true);
    assert_eq!(dmds::world::cache::same_pos(&[1usize, 2], &[1usize, 3]), false);
}
