//! The world: dimension descriptors, the chunk grid and the chunk cache.

use std::ops::Range;
use vstd::prelude::*;

use crate::buf::{io_error_kind, IoErrorKind};
use crate::range::spec_contains;
use crate::world::frame::{frame_keys, frames_of, holds, misfiled_record};
use crate::world::iter::{admitted, lemma_admitted, Iter, Lazy};
use crate::world::select::{grid_wf, in_grid, spec_chunk_of};
use crate::{Data, Error, IoHandle};

pub mod cache;
pub mod chunk;
pub mod frame;
pub mod iter;
pub mod select;

pub use cache::{fail_step, invalidate_step, load_step, next_generation, Chunks, Load, State};
pub use chunk::{Chunk, Entry, Slot};
pub use select::{RawShapeIter, Select, Shape};

verus! {

/// Describes a single dimension: the values it takes and how many of them one chunk
/// spans along it.
#[derive(Debug)]
pub struct Dim {
    /// Half-open range of the values of this dimension.
    pub range: Range<u64>,
    /// Count of values per chunk along this dimension.
    pub items_per_chunk: usize,
}

impl Dim {
    /// A chunk spans at least one value, the dimension has a value, and the index of
    /// its last chunk leaves room for an exclusive bound.
    pub open spec fn wf(&self) -> bool {
        &&& self.items_per_chunk > 0
        &&& self.range.start < self.range.end
        &&& (self.range.end - 1 - self.range.start) / (self.items_per_chunk as int) < usize::MAX
    }

    /// Whether `value` is a value of this dimension.
    pub open spec fn in_domain(&self, value: u64) -> bool {
        self.range.start <= value < self.range.end
    }

    /// Index of the chunk that holds `value` along this dimension.
    pub open spec fn coordinate(&self, value: u64) -> int {
        (value - self.range.start) / (self.items_per_chunk as int)
    }

    /// Number of chunks along this dimension.
    pub open spec fn chunks(&self) -> int {
        self.coordinate((self.range.end - 1) as u64) + 1
    }

    /// Whether the descriptor can be used.
    pub fn is_valid(&self) -> (r: bool)
        ensures
            r == self.wf(),
    {
        if self.items_per_chunk == 0 || self.range.start >= self.range.end {
            return false;
        }
        let last = (self.range.end - 1 - self.range.start) / (self.items_per_chunk as u64);
        last < usize::MAX as u64
    }

    /// Index of the chunk that holds `value` along this dimension. A value outside the
    /// dimension is refused.
    pub fn coordinate_of(&self, value: u64) -> (r: Result<usize, Error>)
        requires
            self.wf(),
        ensures
            self.in_domain(value) ==> r == Ok::<usize, Error>(self.coordinate(value) as usize),
            self.in_domain(value) ==> self.coordinate(value) < self.chunks(),
            !self.in_domain(value) ==> r == Err::<usize, Error>(
                Error::ValueOutOfRange { range: (self.range.start, self.range.end), value },
            ),
    {
        if value < self.range.start || value >= self.range.end {
            return Err(
                Error::ValueOutOfRange { range: (self.range.start, self.range.end), value },
            );
        }
        let step = self.items_per_chunk as u64;
        proof {
            self.lemma_coordinate_monotone(value, (self.range.end - 1) as u64);
        }
        Ok(((value - self.range.start) / step) as usize)
    }

    /// The values of this dimension that the chunk with the index `coordinate` holds,
    /// as a half-open range: the range is empty where the dimension has no such chunk.
    pub open spec fn spec_value_range(&self, coordinate: usize) -> Range<u64> {
        let first = self.range.start + coordinate * self.items_per_chunk;
        let next = first + self.items_per_chunk;
        Range {
            start: if first < self.range.end {
                first as u64
            } else {
                self.range.end
            },
            end: if next < self.range.end {
                next as u64
            } else {
                self.range.end
            },
        }
    }

    /// The values of this dimension that the chunk with the index `coordinate` holds:
    /// the inverse of [`Dim::coordinate_of`].
    pub fn value_range_of(&self, coordinate: usize) -> (r: Range<u64>)
        requires
            self.wf(),
        ensures
            r == self.spec_value_range(coordinate),
            forall|value: u64|
                spec_contains(r, value) <==> self.in_domain(value) && self.coordinate(value)
                    == coordinate,
    {
        let end = self.range.end;
        let step = self.items_per_chunk as u64;
        proof {
            self.lemma_value_range(coordinate);
        }
        let first = match (coordinate as u64).checked_mul(step) {
            Some(offset) => match self.range.start.checked_add(offset) {
                Some(first) => first,
                None => {
                    return end..end;
                },
            },
            None => {
                return end..end;
            },
        };
        if first >= end {
            return end..end;
        }
        let next = match first.checked_add(step) {
            Some(next) => if next < end {
                next
            } else {
                end
            },
            None => end,
        };
        first..next
    }

    /// A chunk holds the values from its first one up to the first of the next chunk.
    pub proof fn lemma_value_range(&self, coordinate: usize)
        requires
            self.items_per_chunk > 0,
        ensures
            forall|value: u64|
                spec_contains(self.spec_value_range(coordinate), value) <==> self.in_domain(
                    value,
                ) && self.coordinate(value) == coordinate,
    {
        let s = self.range.start as int;
        let g = self.items_per_chunk as int;
        let c = coordinate as int;
        assert forall|value: u64|
            spec_contains(self.spec_value_range(coordinate), value) <==> self.in_domain(value)
                && self.coordinate(value) == coordinate by {
            let v = value as int;
            if s <= v {
                assert((v - s) / g == c <==> s + c * g <= v < s + c * g + g) by (nonlinear_arith)
                    requires
                        g > 0,
                        v - s >= 0,
                        c >= 0,
                ;
            }
            assert(c * g >= 0) by (nonlinear_arith)
                requires
                    c >= 0,
                    g > 0,
            ;
        }
    }

    /// A larger value never lies in an earlier chunk.
    pub proof fn lemma_coordinate_monotone(&self, a: u64, b: u64)
        requires
            self.items_per_chunk > 0,
            self.range.start <= a <= b,
        ensures
            0 <= self.coordinate(a) <= self.coordinate(b),
    {
        let s = self.range.start as int;
        let g = self.items_per_chunk as int;
        assert(0 <= (a - s) / g <= (b - s) / g) by (nonlinear_arith)
            requires
                0 <= a - s <= b - s,
                g > 0,
        ;
    }
}

/// Whether dimension `i` is the first of which `values` gives no value of the grid.
pub open spec fn first_outside(dims: Seq<Dim>, values: Seq<u64>, i: int) -> bool {
    &&& 0 <= i < dims.len()
    &&& !dims[i].in_domain(values[i])
    &&& forall|j: int| 0 <= j < i ==> (#[trigger] dims[j]).in_domain(values[j])
}

/// Whether every one of `entries` belongs to the chunk at `pos` of the grid `dims`.
pub open spec fn placed<T, const DIMS: usize>(
    dims: Seq<Dim>,
    pos: Seq<usize>,
    entries: Seq<Entry<T, DIMS>>,
) -> bool {
    forall|i: int|
        0 <= i < entries.len() ==> in_grid(dims, (#[trigger] entries[i]).dims@) && spec_chunk_of(
            dims,
            entries[i].dims@,
        ) == pos
}

/// Whether `stream` can be installed as the chunk at `pos` of the grid `dims`: it is
/// made of whole frames, gives no key twice, and every record belongs to the chunk.
pub open spec fn installable(dims: Seq<Dim>, pos: Seq<usize>, stream: Seq<u8>) -> bool {
    &&& frames_of(stream, dims.len()) matches Some(frames)
    &&& frame_keys(frames).no_duplicates()
    &&& forall|i: int|
        0 <= i < frames.len() ==> in_grid(dims, (#[trigger] frames[i]).dims) && spec_chunk_of(
            dims,
            frames[i].dims,
        ) == pos
}

/// A world: the grid of its dimensions, the chunks it holds in memory, and the
/// storage that the chunks come from.
pub struct World<T, const DIMS: usize, Io> {
    dims: [Dim; DIMS],
    chunks: Chunks<T, DIMS>,
    io: Io,
}

impl<T, const DIMS: usize, Io> World<T, DIMS, Io> {
    /// The descriptors of the dimensions.
    pub closed spec fn dims(&self) -> Seq<Dim> {
        self.dims@
    }

    /// The chunk cache.
    pub closed spec fn cache(&self) -> Chunks<T, DIMS> {
        self.chunks
    }

    /// The storage.
    pub closed spec fn storage(&self) -> Io {
        self.io
    }

    /// The grid can be used, the cache is well formed, and every chunk in memory
    /// holds only records that belong to it.
    pub open spec fn wf(&self) -> bool {
        &&& DIMS > 0
        &&& self.dims().len() == DIMS
        &&& grid_wf(self.dims())
        &&& self.cache().wf()
        &&& forall|pos: Seq<usize>| #[trigger]
            self.cache().state(pos) matches State::Loaded(chunk) ==> placed(
                self.dims(),
                pos,
                chunk.entries(),
            )
    }

    /// Whether `other` is this world with, possibly, another chunk cache.
    pub open spec fn same_grid(&self, other: &Self) -> bool {
        self.dims() == other.dims() && self.storage() == other.storage()
    }

    /// Whether filing `value` under the dimension values `dims` makes `after` of this
    /// world, with the answer `r`. Values outside the grid are refused and nothing
    /// changes. Where the chunk that the values map to is in memory, the record is
    /// filed there, in the place of a record with the same key if there is one, and
    /// the generation counter moves on. Where it is not, the value comes back and
    /// nothing changes.
    pub open spec fn files(
        &self,
        dims: [u64; DIMS],
        value: T,
        after: &Self,
        r: Result<Option<T>, Error>,
    ) -> bool {
        &&& after.same_grid(self)
        &&& !in_grid(self.dims(), dims@) ==> {
            &&& r matches Err(Error::ValueOutOfRange { range, value: refused })
            &&& exists|i: int|
                {
                    &&& first_outside(self.dims(), dims@, i)
                    &&& range == (self.dims()[i].range.start, self.dims()[i].range.end)
                    &&& refused == dims@[i]
                }
            &&& after.cache() == self.cache()
        }
        &&& in_grid(self.dims(), dims@) ==> {
            let pos = spec_chunk_of(self.dims(), dims@);
            &&& forall|other: Seq<usize>|
                other != pos ==> #[trigger] after.cache().state(other) == self.cache().state(other)
            &&& match self.cache().state(pos) {
                State::Loaded(chunk) => {
                    &&& r == Ok::<Option<T>, Error>(None)
                    &&& after.cache().spec_generation() == next_generation(
                        self.cache().spec_generation(),
                    )
                    &&& after.cache().state(pos) matches State::Loaded(held)
                    &&& held.spec_version() == chunk.spec_version()
                    &&& held.entries() == match chunk.find(dims@[0]) {
                        Some(i) => chunk.entries().update(
                            i,
                            Entry { dims, slot: Slot::Record(value) },
                        ),
                        None => chunk.entries().push(Entry { dims, slot: Slot::Record(value) }),
                    }
                },
                _ => r == Ok::<Option<T>, Error>(Some(value)) && after.cache() == self.cache(),
            }
        }
    }

    /// The chunk cache.
    pub fn chunks(&self) -> (chunks: &Chunks<T, DIMS>)
        ensures
            *chunks == self.cache(),
    {
        &self.chunks
    }

    /// The storage.
    pub fn io(&self) -> (io: &Io)
        ensures
            *io == self.storage(),
    {
        &self.io
    }

    /// The descriptor of dimension `i`.
    pub fn dim(&self, i: usize) -> (dim: &Dim)
        requires
            i < DIMS,
        ensures
            *dim == self.dims()[i as int],
    {
        &self.dims[i]
    }

    /// The generation counter: it moves on with every change of what the world holds.
    pub fn generation(&self) -> (generation: usize)
        ensures
            generation == self.cache().spec_generation(),
    {
        self.chunks.generation()
    }

    /// The coordinate of the chunk that holds a record with the dimension values
    /// `values`. Values outside the grid are refused, with the first dimension that
    /// they miss.
    pub fn chunk_of(&self, values: &[u64; DIMS]) -> (r: Result<[usize; DIMS], Error>)
        requires
            self.wf(),
        ensures
            in_grid(self.dims(), values@) ==> (r matches Ok(pos) && pos@ == spec_chunk_of(
                self.dims(),
                values@,
            )),
            !in_grid(self.dims(), values@) ==> (r matches Err(
                Error::ValueOutOfRange { range, value },
            ) && exists|i: int|
                {
                    &&& first_outside(self.dims(), values@, i)
                    &&& range == (self.dims()[i].range.start, self.dims()[i].range.end)
                    &&& value == values@[i]
                }),
    {
        let mut pos = [0usize; DIMS];
        let mut i: usize = 0;
        while i < DIMS
            invariant
                i <= DIMS,
                self.wf(),
                forall|j: int| 0 <= j < i ==> (#[trigger] self.dims()[j]).in_domain(values@[j]),
                forall|j: int|
                    0 <= j < i ==> #[trigger] pos@[j] == self.dims()[j].coordinate(values@[j]),
            decreases DIMS - i,
        {
            assert(self.dims()[i as int].wf());
            match self.dims[i].coordinate_of(values[i]) {
                Ok(c) => {
                    let ghost before = pos@;
                    pos[i] = c;
                    assert(pos@ == before.update(i as int, c));
                },
                Err(error) => {
                    assert(first_outside(self.dims(), values@, i as int));
                    return Err(error);
                },
            }
            i += 1;
        }
        assert(pos@ =~= spec_chunk_of(self.dims(), values@));
        Ok(pos)
    }

    /// Plans the selection that `filter` makes: a filter of `None` leaves a dimension
    /// unrestricted.
    pub fn select(&self, filter: &[Option<Range<u64>>; DIMS]) -> (select: Select<DIMS>)
        requires
            self.wf(),
        ensures
            select.plans(self.dims(), filter@),
    {
        Select::plan(&self.dims, filter)
    }

    /// Begins a scan of `select`. The scan remembers the generation counter of now.
    pub fn iter<'a>(&self, select: Select<DIMS>) -> (iter: Iter<'a, T, DIMS>)
        ensures
            iter.wf(),
            iter.select() == select,
            iter.expected() == self.cache().spec_generation(),
            iter.position() == 0,
            iter.pending() == Seq::<Lazy<'a, T, DIMS>>::empty(),
    {
        Iter::new(select, self.chunks.generation())
    }

    /// Asks for the chunk at `pos`, given what storage hints of the chunk held.
    pub fn load_hinted(&mut self, pos: &[usize; DIMS], hint_valid: bool) -> (r: Load)
        requires
            old(self).wf(),
        ensures
            final(self).wf(),
            final(self).same_grid(old(self)),
            final(self).cache().spec_generation() == old(self).cache().spec_generation(),
            (r, final(self).cache().state(pos@)) == load_step(
                old(self).cache().state(pos@),
                hint_valid,
            ),
            forall|other: Seq<usize>|
                other != pos@ ==> #[trigger] final(self).cache().state(other) == old(
                    self,
                ).cache().state(other),
    {
        self.chunks.load(pos, hint_valid)
    }

    /// Takes note that the fetch for `pos` failed: no chunk is installed, and the next
    /// caller fetches again.
    pub fn fail(&mut self, pos: &[usize; DIMS])
        requires
            old(self).wf(),
        ensures
            final(self).wf(),
            final(self).same_grid(old(self)),
            final(self).cache().spec_generation() == old(self).cache().spec_generation(),
            final(self).cache().state(pos@) == fail_step(old(self).cache().state(pos@)),
            forall|other: Seq<usize>|
                other != pos@ ==> #[trigger] final(self).cache().state(other) == old(
                    self,
                ).cache().state(other),
    {
        self.chunks.fail(pos);
    }

    /// Lets go of the chunk at `pos`, so that the next caller fetches it again. The
    /// generation counter moves on.
    pub fn invalidate(&mut self, pos: &[usize; DIMS])
        requires
            old(self).wf(),
        ensures
            final(self).wf(),
            final(self).same_grid(old(self)),
            final(self).cache().spec_generation() == next_generation(
                old(self).cache().spec_generation(),
            ),
            final(self).cache().state(pos@) == invalidate_step(old(self).cache().state(pos@)),
            forall|other: Seq<usize>|
                other != pos@ ==> #[trigger] final(self).cache().state(other) == old(
                    self,
                ).cache().state(other),
    {
        self.chunks.invalidate(pos);
    }
}

impl<T: Data, const DIMS: usize, Io: IoHandle> World<T, DIMS, Io> {
    /// A world over the grid `dims` that holds no chunk in memory yet.
    pub fn new(dims: [Dim; DIMS], io: Io) -> (world: Self)
        requires
            DIMS > 0,
            T::DIMS == DIMS,
            grid_wf(dims@),
        ensures
            world.wf(),
            world.dims() == dims@,
            world.storage() == io,
            world.cache().spec_generation() == 0,
            forall|pos: Seq<usize>| #[trigger] world.cache().state(pos) == State::<T, DIMS>::Unloaded,
    {
        World { dims, chunks: Chunks::new(), io }
    }

    /// A world over the grid `dims`, if there can be one: the world and its records
    /// have the same number of dimensions, at least one, and every descriptor can be
    /// used.
    pub fn try_new(dims: [Dim; DIMS], io: Io) -> (r: Option<Self>)
        ensures
            r is Some <==> DIMS > 0 && T::DIMS == DIMS && grid_wf(dims@),
            r matches Some(world) ==> {
                &&& world.wf()
                &&& world.dims() == dims@
                &&& world.storage() == io
                &&& world.cache().spec_generation() == 0
                &&& forall|pos: Seq<usize>| #[trigger]
                    world.cache().state(pos) == State::<T, DIMS>::Unloaded
            },
    {
        if DIMS == 0 || T::DIMS != DIMS {
            return None;
        }
        let mut i: usize = 0;
        while i < DIMS
            invariant
                i <= DIMS,
                forall|j: int| 0 <= j < i ==> (#[trigger] dims@[j]).wf(),
            decreases DIMS - i,
        {
            if !dims[i].is_valid() {
                return None;
            }
            i += 1;
        }
        Some(World::new(dims, io))
    }

    /// Asks for the chunk at `pos`. Storage is asked for its hint on the chunk; the
    /// hint matters only where the chunk is in memory.
    pub fn load(&mut self, pos: &[usize; DIMS]) -> (r: Load)
        requires
            old(self).wf(),
        ensures
            final(self).wf(),
            final(self).same_grid(old(self)),
            final(self).cache().spec_generation() == old(self).cache().spec_generation(),
            exists|hint_valid: bool|
                (r, final(self).cache().state(pos@)) == load_step(
                    old(self).cache().state(pos@),
                    hint_valid,
                ),
            forall|other: Seq<usize>|
                other != pos@ ==> #[trigger] final(self).cache().state(other) == old(
                    self,
                ).cache().state(other),
    {
        let hint_valid = self.io.hint_is_valid(pos.as_slice());
        self.load_hinted(pos, hint_valid)
    }

    /// Takes in the stream that was fetched for the chunk at `pos`, in the storage
    /// format `version`. A stream that cannot be installed counts as a failed fetch:
    /// no chunk is installed and the error says why.
    pub fn install(&mut self, pos: &[usize; DIMS], version: u32, stream: &[u8]) -> (r: Result<
        (),
        Error,
    >)
        requires
            old(self).wf(),
        ensures
            final(self).wf(),
            final(self).same_grid(old(self)),
            forall|other: Seq<usize>|
                other != pos@ ==> #[trigger] final(self).cache().state(other) == old(
                    self,
                ).cache().state(other),
            installable(old(self).dims(), pos@, stream@) ==> {
                &&& r is Ok
                &&& final(self).cache().spec_generation() == next_generation(
                    old(self).cache().spec_generation(),
                )
                &&& final(self).cache().state(pos@) matches State::Loaded(chunk)
                &&& chunk.spec_version() == version
                &&& chunk.entries().len() == frames_of(stream@, DIMS as nat).unwrap().len()
                &&& forall|i: int|
                    0 <= i < chunk.entries().len() ==> holds(
                        #[trigger] chunk.entries()[i],
                        frames_of(stream@, DIMS as nat).unwrap()[i],
                    )
            },
            !installable(old(self).dims(), pos@, stream@) ==> {
                &&& r matches Err(Error::Io(e))
                &&& io_error_kind(e) == if frames_of(stream@, DIMS as nat) is None {
                    IoErrorKind::UnexpectedEof
                } else {
                    IoErrorKind::InvalidData
                }
                &&& final(self).cache().spec_generation() == old(self).cache().spec_generation()
                &&& final(self).cache().state(pos@) == fail_step(old(self).cache().state(pos@))
            },
    {
        let chunk: Chunk<T, DIMS> = match Chunk::from_stream(version, stream) {
            Ok(chunk) => chunk,
            Err(error) => {
                self.chunks.fail(pos);
                return Err(error);
            },
        };
        let ghost frames = frames_of(stream@, DIMS as nat).unwrap();
        let mut i: usize = 0;
        while i < chunk.len()
            invariant
                i <= chunk.entries().len(),
                self.wf(),
                *self == *old(self),
                frames_of(stream@, DIMS as nat) == Some(frames),
                chunk.entries().len() == frames.len(),
                forall|j: int| 0 <= j < frames.len() ==> holds(#[trigger] chunk.entries()[j], frames[j]),
                forall|j: int|
                    0 <= j < i ==> in_grid(self.dims(), (#[trigger] frames[j]).dims)
                        && spec_chunk_of(self.dims(), frames[j].dims) == pos@,
            decreases chunk.entries().len() - i,
        {
            let entry = chunk.entry(i);
            assert(holds(chunk.entries()[i as int], frames[i as int]));
            let belongs = match self.chunk_of(&entry.dims) {
                Ok(at) => crate::world::cache::same_pos(&at, pos),
                Err(_) => false,
            };
            if !belongs {
                assert(!(in_grid(self.dims(), frames[i as int].dims) && spec_chunk_of(
                    self.dims(),
                    frames[i as int].dims,
                ) == pos@));
                self.chunks.fail(pos);
                return Err(Error::Io(misfiled_record()));
            }
            i += 1;
        }
        proof {
            assert forall|j: int| 0 <= j < chunk.entries().len() implies in_grid(
                self.dims(),
                (#[trigger] chunk.entries()[j]).dims@,
            ) && spec_chunk_of(self.dims(), chunk.entries()[j].dims@) == pos@ by {
                assert(holds(chunk.entries()[j], frames[j]));
                assert(in_grid(self.dims(), frames[j].dims));
            }
        }
        self.chunks.install(pos, chunk);
        Ok(())
    }

    /// Files `value` under the dimension values `dims`, which have to be values of
    /// the grid, in the chunk that they map to, which has to be in memory: otherwise
    /// the value comes back and nothing changes. A record filed under the same key
    /// gives way. Filing changes the world: the generation counter moves on.
    pub fn insert_at(&mut self, dims: [u64; DIMS], value: T) -> (r: Result<Option<T>, Error>)
        requires
            old(self).wf(),
        ensures
            final(self).wf(),
            old(self).files(dims, value, final(self), r),
    {
        let pos = match self.chunk_of(&dims) {
            Ok(pos) => pos,
            Err(error) => {
                return Err(error);
            },
        };
        let ghost before = *self;
        proof {
            before.cache().lemma_loaded_wf(pos@);
            match before.cache().state(pos@) {
                State::Loaded(held) => {
                    held.lemma_find(dims@[0]);
                },
                _ => {},
            }
        }
        let entry = Entry { dims, slot: Slot::Record(value) };
        match self.chunks.insert(&pos, entry) {
            None => {
                proof {
                    let chunk = before.cache().state(pos@)->Loaded_0;
                    let after = self.cache().state(pos@)->Loaded_0;
                    assert(placed(self.dims(), pos@, chunk.entries()));
                    assert forall|i: int| 0 <= i < after.entries().len() implies in_grid(
                        self.dims(),
                        (#[trigger] after.entries()[i]).dims@,
                    ) && spec_chunk_of(self.dims(), after.entries()[i].dims@) == pos@ by {
                        if after.entries()[i] != entry {
                            assert(after.entries()[i] == chunk.entries()[i]);
                        }
                    }
                }
                Ok(None)
            },
            Some(back) => match back.slot {
                Slot::Record(value) => Ok(Some(value)),
                Slot::Pending(_) => Ok(None),
            },
        }
    }

    /// Files `value` in the chunk that its dimension values map to. The record is
    /// asked for each of its dimension values, and is then filed under them.
    pub fn insert(&mut self, value: T) -> (r: Result<Option<T>, Error>)
        requires
            old(self).wf(),
            T::DIMS == DIMS,
        ensures
            final(self).wf(),
            exists|dims: [u64; DIMS]| old(self).files(dims, value, final(self), r),
    {
        let mut dims = [0u64; DIMS];
        let mut i: usize = 0;
        while i < DIMS
            invariant
                i <= DIMS,
                T::DIMS == DIMS,
            decreases DIMS - i,
        {
            dims[i] = value.dim(i);
            i += 1;
        }
        self.insert_at(dims, value)
    }

    /// Takes the record with the dimension values `values` out of its chunk. Returns
    /// whether there was one in memory; if so the generation counter moves on.
    pub fn remove(&mut self, values: &[u64; DIMS]) -> (r: Result<bool, Error>)
        requires
            old(self).wf(),
        ensures
            final(self).wf(),
            final(self).same_grid(old(self)),
            !in_grid(old(self).dims(), values@) ==> {
                &&& r matches Err(Error::ValueOutOfRange { range, value })
                &&& exists|i: int|
                    {
                        &&& first_outside(old(self).dims(), values@, i)
                        &&& range == (old(self).dims()[i].range.start, old(self).dims()[i].range.end)
                        &&& value == values@[i]
                    }
                &&& final(self).cache() == old(self).cache()
            },
            in_grid(old(self).dims(), values@) ==> {
                let pos = spec_chunk_of(old(self).dims(), values@);
                &&& forall|other: Seq<usize>|
                    other != pos ==> #[trigger] final(self).cache().state(other) == old(
                        self,
                    ).cache().state(other)
                &&& match old(self).cache().state(pos) {
                    State::Loaded(chunk) => match chunk.find(values@[0]) {
                        Some(i) => {
                            &&& r == Ok::<bool, Error>(true)
                            &&& final(self).cache().spec_generation() == next_generation(
                                old(self).cache().spec_generation(),
                            )
                            &&& final(self).cache().state(pos) matches State::Loaded(after)
                            &&& after.spec_version() == chunk.spec_version()
                            &&& after.entries() == chunk.entries().remove(i)
                        },
                        None => r == Ok::<bool, Error>(false) && final(self).cache() == old(
                            self,
                        ).cache(),
                    },
                    _ => r == Ok::<bool, Error>(false) && final(self).cache() == old(self).cache(),
                }
            },
    {
        let pos = match self.chunk_of(values) {
            Ok(pos) => pos,
            Err(error) => {
                return Err(error);
            },
        };
        let ghost before = *self;
        proof {
            before.cache().lemma_loaded_wf(pos@);
            match before.cache().state(pos@) {
                State::Loaded(held) => {
                    held.lemma_find(values@[0]);
                },
                _ => {},
            }
        }
        let removed = self.chunks.remove(&pos, values[0]);
        proof {
            if removed {
                let chunk = before.cache().state(pos@)->Loaded_0;
                let after = self.cache().state(pos@)->Loaded_0;
                let at = chunk.find(values@[0]).unwrap();
                assert(placed(self.dims(), pos@, chunk.entries()));
                assert forall|i: int| 0 <= i < after.entries().len() implies in_grid(
                    self.dims(),
                    (#[trigger] after.entries()[i]).dims@,
                ) && spec_chunk_of(self.dims(), after.entries()[i].dims@) == pos@ by {
                    let i0 = if i < at { i } else { i + 1 };
                    assert(after.entries()[i] == chunk.entries()[i0]);
                }
            }
        }
        Ok(removed)
    }

    /// The record with the dimension values `values`, looked up in the chunk that
    /// they map to under their first value.
    pub fn get(&self, values: &[u64; DIMS]) -> (r: Result<&T, Error>)
        requires
            self.wf(),
            T::DIMS == DIMS,
        ensures
            !in_grid(self.dims(), values@) ==> (r matches Err(
                Error::ValueOutOfRange { range, value },
            ) && exists|i: int|
                {
                    &&& first_outside(self.dims(), values@, i)
                    &&& range == (self.dims()[i].range.start, self.dims()[i].range.end)
                    &&& value == values@[i]
                }),
            in_grid(self.dims(), values@) ==> match self.cache().state(
                spec_chunk_of(self.dims(), values@),
            ) {
                State::Loaded(chunk) => match chunk.find(values@[0]) {
                    Some(i) => match chunk.entries()[i].slot {
                        Slot::Record(value) => r == Ok::<&T, Error>(&value) || r == Err::<
                            &T,
                            Error,
                        >(Error::ValueMoved),
                        Slot::Pending(_) => r == Err::<&T, Error>(Error::ValueNotFound),
                    },
                    None => r == Err::<&T, Error>(Error::ValueNotFound),
                },
                _ => r == Err::<&T, Error>(Error::ValueNotFound),
            },
    {
        let pos = match self.chunk_of(values) {
            Ok(pos) => pos,
            Err(error) => {
                return Err(error);
            },
        };
        self.chunks.get(&pos, values[0])
    }
}

/// Soundness and completeness of a scan. Of the records that the chunks in memory
/// hold, a scan finds exactly those whose dimension values every filter admits: such
/// a record lies in a chunk that the scan visits and is among the records that it
/// takes from that chunk, and no other record is. The scan comes to a chunk that it
/// visits at the step that is the chunk's place in odometer order.
pub proof fn law_scan_exact<T, const DIMS: usize, Io>(
    world: World<T, DIMS, Io>,
    filter: Seq<Option<Range<u64>>>,
    select: Select<DIMS>,
    pos: Seq<usize>,
    chunk: Chunk<T, DIMS>,
    entry: Entry<T, DIMS>,
)
    requires
        world.wf(),
        select.plans(world.dims(), filter),
        world.cache().state(pos) == State::Loaded(chunk),
        chunk.entries().contains(entry),
    ensures
        (select.spec_shape().contains(pos) && admitted(
            chunk.entries(),
            select,
            chunk.entries().len(),
        ).contains(entry)) <==> (forall|i: int|
            0 <= i < DIMS ==> (#[trigger] filter[i] matches Some(range) ==> spec_contains(
                range,
                entry.dims@[i],
            ))),
        select.spec_shape().contains(pos) ==> {
            let step = select.spec_shape().index_of(pos);
            step < select.spec_shape().count() && select.spec_shape().nth(step) == pos
        },
{
    select.spec_shape().law_each_coordinate_once(pos, 0);
    let k = choose|k: int| 0 <= k < chunk.entries().len() && chunk.entries()[k] == entry;
    assert(placed(world.dims(), pos, chunk.entries()));
    assert(in_grid(world.dims(), chunk.entries()[k].dims@));
    lemma_admitted(chunk.entries(), select, chunk.entries().len(), entry);
    select.lemma_admits(world.dims(), filter, entry.dims@);
    if select.admits(entry.dims@) {
        select.lemma_visits(world.dims(), filter, entry.dims@);
    }
}

} // verus!
