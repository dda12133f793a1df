use dmds::buf::IoErrorKind;
use dmds::world::frame::write_frame;
use dmds::world::iter::{Error as IterError, Step};
use dmds::world::Load;
use dmds::{Data, Dim, Error, IoHandle, World};
use std::sync::atomic::{AtomicBool, Ordering};
use std::sync::Arc;

struct Storage {
    valid: AtomicBool,
}

impl IoHandle for Storage {
    fn hint_is_valid(&self, _pos: &[usize]) -> bool {
        self.valid.load(Ordering::SeqCst)
    }
}

struct Trusting;

impl IoHandle for Trusting {}

fn world() -> World<[u64; 2], 2, Arc<Storage>> {
    World::new(
        [
            Dim { range: 0..1024, items_per_chunk: 16 },
            Dim { range: 0..128, items_per_chunk: 8 },
        ],
        Arc::new(Storage { valid: AtomicBool::new(true) }),
    )
}

fn query(world: &World<[u64; 2], 2, Arc<Storage>>, filter: [Option<std::ops::Range<u64>>; 2]) -> Vec<[u64; 2]> {
    let select = world.select(&filter);
    let mut iter = world.iter(select);
    let mut found = Vec::new();
    loop {
        match iter.next() {
            Step::Yield(mut lazy) => {
                found.push(*lazy.get_or_init(world.chunks(), Some(world.generation())).unwrap());
            }
            Step::Load(pos) => {
                if let Some(chunk) = world.chunks().chunk(&pos) {
                    iter.feed(&pos, chunk);
                }
            }
            Step::Done => break,
        }
    }
    found
}

#[test]
fn insert_then_query_boxes() {
    let mut world = world();
    let pos = world.chunk_of(&[5, 3]).unwrap();
    assert_eq!(pos, [0, 0]);
    assert_eq!(world.load(&pos), Load::Fetch);
    world.install(&pos, 0, &[]).unwrap();
    assert!(matches!(world.insert([5, 3]), Ok(None)));
    assert_eq!(query(&world, [Some(0..10), Some(0..10)]), vec![[5, 3]]);
    assert_eq!(query(&world, [Some(20..30), None]), Vec::<[u64; 2]>::new());
    assert_eq!(*world.get(&[5, 3]).unwrap(), [5, 3]);
}

#[test]
fn query_returns_exactly_the_records_in_the_box() {
    let mut world = world();
    let records: Vec<[u64; 2]> =
        vec![[5, 3], [9, 9], [10, 3], [15, 7], [16, 0], [40, 20], [100, 100], [1023, 127]];
    for record in &records {
        let pos = world.chunk_of(record).unwrap();
        if world.load(&pos) == Load::Fetch {
            world.install(&pos, 0, &[]).unwrap();
        }
        assert!(matches!(world.insert(*record), Ok(None)));
    }
    let filters: Vec<[Option<std::ops::Range<u64>>; 2]> = vec![
        [Some(0..10), Some(0..10)],
        [Some(0..17), None],
        [None, Some(3..8)],
        [None, None],
        [Some(10..11), Some(3..4)],
        [Some(1000..2000), Some(100..1000)],
        [Some(50..60), None],
    ];
    for filter in filters {
        let mut found = query(&world, filter.clone());
        let mut expected: Vec<[u64; 2]> = records
            .iter()
            .filter(|r| (0..2).all(|i| filter[i].as_ref().map_or(true, |f| f.contains(&r[i]))))
            .cloned()
            .collect();
        found.sort();
        expected.sort();
        assert_eq!(found, expected);
    }
}

#[test]
fn reload_after_invalid_hint_reads_once_more() {
    let mut world = world();
    let pos = world.chunk_of(&[5, 3]).unwrap();
    let mut stored = Vec::new();
    write_frame(&mut stored, &[5u64, 3], b"");
    let mut reads = 0;
    if world.load(&pos) == Load::Fetch {
        reads += 1;
        world.install(&pos, 0, &stored).unwrap();
    }
    assert_eq!(reads, 1);
    assert_eq!(query(&world, [None, None]), vec![[5, 3]]);

    world.io().valid.store(false, Ordering::SeqCst);
    for _ in 0..3 {
        match world.load(&pos) {
            Load::Fetch => {
                reads += 1;
            }
            Load::Wait => {}
            Load::Hit => panic!("a chunk hinted invalid was used"),
        }
    }
    world.install(&pos, 0, &stored).unwrap();
    world.io().valid.store(true, Ordering::SeqCst);
    assert_eq!(reads, 2);
    assert_eq!(world.load(&pos), Load::Hit);
    assert_eq!(query(&world, [None, None]), vec![[5, 3]]);
}

#[test]
fn handles_of_a_scan_go_stale_when_the_world_changes() {
    let mut world = world();
    let pos = [0usize, 0];
    let mut stored = Vec::new();
    write_frame(&mut stored, &[5u64, 3], b"");
    write_frame(&mut stored, &[6u64, 3], b"");
    world.load(&pos);
    world.install(&pos, 0, &stored).unwrap();

    let select = world.select(&[None, None]);
    let iter = world.iter(select);
    let mut handles = iter.scan(&pos, world.chunks().chunk(&pos).unwrap());
    assert_eq!(handles.len(), 2);
    let expected = world.generation();
    let (first, rest) = handles.split_at_mut(1);
    let early = *first[0].get_or_init(world.chunks(), Some(expected)).unwrap();
    assert_eq!(early, [5, 3]);

    let other = world.chunk_of(&[500, 100]).unwrap();
    let mut changed = World::<[u64; 2], 2, Trusting>::new(
        [
            Dim { range: 0..1024, items_per_chunk: 16 },
            Dim { range: 0..128, items_per_chunk: 8 },
        ],
        Trusting,
    );
    changed.install(&other, 0, &[]).unwrap();
    changed.install(&other, 0, &[]).unwrap();
    assert_ne!(changed.generation(), expected);
    let current = changed.generation();
    match rest[0].get_or_init(world.chunks(), Some(current)) {
        Err(IterError::IterUpdated { expected: e, current: c }) => {
            assert_eq!(e, expected);
            assert_eq!(c, Some(current));
        }
        _ => panic!("a stale handle resolved"),
    }
    assert_eq!(*first[0].get_or_init(world.chunks(), Some(current)).unwrap(), [5, 3]);
}

#[test]
fn values_outside_the_grid_are_refused_before_anything_else() {
    let mut world = world();
    let generation = world.generation();
    match world.chunk_of(&[5, 128]) {
        Err(Error::ValueOutOfRange { range, value }) => {
            assert_eq!(range, (0, 128));
            assert_eq!(value, 128);
        }
        _ => panic!("expected an out of range error"),
    }
    match world.insert([1024, 500]) {
        Err(Error::ValueOutOfRange { range, value }) => {
            assert_eq!(range, (0, 1024));
            assert_eq!(value, 1024);
        }
        _ => panic!("expected an out of range error"),
    }
    assert!(matches!(world.get(&[0, 999]), Err(Error::ValueOutOfRange { .. })));
    assert!(matches!(world.remove(&[2000, 0]), Err(Error::ValueOutOfRange { .. })));
    assert_eq!(world.generation(), generation);
    assert!(world.chunks().chunk(&[0, 0]).is_none());
    assert_eq!(world.load(&[0, 0]), Load::Fetch);
}

#[test]
fn world_insert_needs_the_chunk_in_memory() {
    let mut world = world();
    assert!(matches!(world.insert([5, 3]), Ok(Some([5, 3]))));
    assert!(matches!(world.get(&[5, 3]), Err(Error::ValueNotFound)));
    assert_eq!(world.generation(), 0);
}

#[test]
fn remove_takes_the_record_out() {
    let mut world = world();
    world.install(&[0, 0], 0, &[]).unwrap();
    world.insert([5, 3]).unwrap();
    let generation = world.generation();
    assert!(matches!(world.remove(&[6, 3]), Ok(false)));
    assert_eq!(world.generation(), generation);
    assert!(matches!(world.remove(&[5, 3]), Ok(true)));
    assert_eq!(world.generation(), generation + 1);
    assert!(matches!(world.get(&[5, 3]), Err(Error::ValueNotFound)));
    assert_eq!(query(&world, [None, None]), Vec::<[u64; 2]>::new());
}

#[test]
fn record_filed_under_other_dimensions_has_moved() {
    let mut world = world();
    world.install(&[0, 0], 0, &[]).unwrap();
    assert!(matches!(world.insert_at([5, 3], [6, 3]), Ok(None)));
    assert!(matches!(world.get(&[5, 3]), Err(Error::ValueMoved)));
}

#[test]
fn stream_with_a_record_of_another_chunk_is_not_installed() {
    let mut world = world();
    let mut stored = Vec::new();
    write_frame(&mut stored, &[5u64, 3], b"");
    write_frame(&mut stored, &[16u64, 3], b"");
    assert_eq!(world.load(&[0, 0]), Load::Fetch);
    match world.install(&[0, 0], 0, &stored) {
        Err(error) => {
            assert_eq!(error.io_kind(), Some(IoErrorKind::InvalidData));
            match error {
                Error::Io(inner) => assert_eq!(
                    inner.to_string(),
                    "a record of the stream cannot be filed in the chunk"
                ),
                _ => panic!("expected an I/O error"),
            }
        }
        Ok(()) => panic!("a record of another chunk was installed"),
    }
    assert_eq!(world.generation(), 0);
    assert!(world.chunks().chunk(&[0, 0]).is_none());
    assert_eq!(world.load(&[0, 0]), Load::Fetch);

    let mut outside = Vec::new();
    write_frame(&mut outside, &[5u64, 300], b"");
    match world.install(&[0, 0], 0, &outside) {
        Err(error) => assert_eq!(error.io_kind(), Some(IoErrorKind::InvalidData)),
        Ok(()) => panic!("a record outside the grid was installed"),
    }
}

#[test]
fn short_stream_is_not_installed_and_spoils_no_other_chunk() {
    let mut world = world();
    world.install(&[1, 0], 0, &[]).unwrap();
    world.insert([16, 0]).unwrap();
    let generation = world.generation();
    assert_eq!(world.load(&[0, 0]), Load::Fetch);
    match world.install(&[0, 0], 0, &[1, 2, 3]) {
        Err(error) => assert_eq!(error.io_kind(), Some(IoErrorKind::UnexpectedEof)),
        Ok(()) => panic!("a short stream was installed"),
    }
    assert_eq!(world.generation(), generation);
    assert_eq!(*world.get(&[16, 0]).unwrap(), [16, 0]);
    assert_eq!(world.load(&[0, 0]), Load::Fetch);
    world.fail(&[0, 0]);
    assert_eq!(world.load(&[0, 0]), Load::Fetch);
}

#[test]
fn world_accessors() {
    let world = world();
    assert_eq!(world.dim(1).items_per_chunk, 8);
    assert_eq!(world.dim(0).range, 0..1024);
    assert_eq!(world.generation(), 0);
    assert!(world.io().valid.load(Ordering::SeqCst));
}

#[test]
fn array_records() {
    let value = [7u64, 8, 9];
    assert_eq!(<[u64; 3] as Data>::DIMS, 3);
    assert_eq!(<[u64; 3] as Data>::VERSION, 0);
    assert_eq!(value.dim(0), 7);
    assert_eq!(value.dim(2), 9);
    let decoded =
        <[u64; 3] as Data>::decode(0, &[1, 2, 3], bytes::Bytes::from_static(b"ignored")).unwrap();
    assert_eq!(decoded, [1, 2, 3]);
    let mut out = Vec::new();
    value.encode(&mut out).unwrap();
    assert!(out.is_empty());
}

#[test]
fn world_needs_a_grid_that_can_be_used() {
    let good = World::<[u64; 2], 2, Trusting>::try_new(
        [Dim { range: 0..1024, items_per_chunk: 16 }, Dim { range: 0..128, items_per_chunk: 8 }],
        Trusting,
    );
    assert!(good.is_some());
    let no_step = World::<[u64; 2], 2, Trusting>::try_new(
        [Dim { range: 0..1024, items_per_chunk: 0 }, Dim { range: 0..128, items_per_chunk: 8 }],
        Trusting,
    );
    assert!(no_step.is_none());
    let no_values = World::<[u64; 2], 2, Trusting>::try_new(
        [Dim { range: 0..1024, items_per_chunk: 16 }, Dim { range: 9..9, items_per_chunk: 8 }],
        Trusting,
    );
    assert!(no_values.is_none());
    let other_count =
        World::<[u64; 3], 1, Trusting>::try_new([Dim { range: 0..4, items_per_chunk: 1 }], Trusting);
    assert!(other_count.is_none());
}

#[test]
fn scan_drains_a_chunk_before_it_asks_for_the_next() {
    let mut world = world();
    for record in [[1u64, 0], [2, 0], [17, 0], [3, 0]] {
        let pos = world.chunk_of(&record).unwrap();
        if world.load(&pos) == Load::Fetch {
            world.install(&pos, 0, &[]).unwrap();
        }
        world.insert(record).unwrap();
    }
    let select = world.select(&[Some(0..32), Some(0..8)]);
    let mut iter = world.iter(select);
    let mut trace = Vec::new();
    loop {
        match iter.next() {
            Step::Yield(lazy) => trace.push(format!("record {:?}", lazy.dims())),
            Step::Load(pos) => {
                trace.push(format!("chunk {:?}", pos));
                iter.feed(&pos, world.chunks().chunk(&pos).unwrap());
            }
            Step::Done => break,
        }
    }
    assert_eq!(
        trace,
        vec![
            "chunk [0, 0]",
            "record [1, 0]",
            "record [2, 0]",
            "record [3, 0]",
            "chunk [1, 0]",
            "record [17, 0]",
        ]
    );
    assert!(matches!(iter.next(), Step::Done));
}
