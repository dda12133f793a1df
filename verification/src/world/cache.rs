//! The chunk cache: which chunks are in memory, which are being fetched, and the
//! generation counter that scans compare against.

use vstd::prelude::*;

use crate::world::chunk::{Chunk, Entry};
use crate::{Data, Error};

verus! {

/// What the cache knows of one coordinate.
pub enum State<T, const DIMS: usize> {
    /// Nothing is held and nothing is on its way.
    Unloaded,
    /// One fetch from storage is in flight.
    Loading,
    /// The chunk is in memory.
    Loaded(Chunk<T, DIMS>),
}

/// What a caller who asked for a chunk has to do.
#[derive(Clone, Copy, Debug, PartialEq, Eq, Structural)]
pub enum Load {
    /// The chunk is in memory and may be used.
    Hit,
    /// Somebody else fetches the chunk: wait for that fetch.
    Wait,
    /// Fetch the chunk from storage, then hand it to the cache.
    Fetch,
}

/// The counter after one more change.
pub open spec fn next_generation(generation: usize) -> usize {
    if generation == usize::MAX {
        0
    } else {
        (generation + 1) as usize
    }
}

/// What asking for a chunk does to the state of its coordinate, given what storage
/// hints of the chunk held: the answer to the caller and the state afterwards.
pub open spec fn load_step<T, const DIMS: usize>(state: State<T, DIMS>, hint_valid: bool) -> (
    Load,
    State<T, DIMS>,
) {
    match state {
        State::Loaded(_) => if hint_valid {
            (Load::Hit, state)
        } else {
            (Load::Fetch, State::Loading)
        },
        State::Loading => (Load::Wait, state),
        State::Unloaded => (Load::Fetch, State::Loading),
    }
}

/// What a failed fetch does to the state of its coordinate: nothing is installed,
/// and the next caller fetches again.
pub open spec fn fail_step<T, const DIMS: usize>(state: State<T, DIMS>) -> State<T, DIMS> {
    match state {
        State::Loading => State::Unloaded,
        _ => state,
    }
}

/// What invalidating does to the state of a coordinate: a chunk in memory is let go.
pub open spec fn invalidate_step<T, const DIMS: usize>(state: State<T, DIMS>) -> State<T, DIMS> {
    match state {
        State::Loaded(_) => State::Unloaded,
        _ => state,
    }
}

/// Number of callers that are told to fetch when callers ask for one coordinate one
/// after the other, no fetch ending in between: the coordinate starts in `state`, and
/// `hints` holds what storage hints at each caller's turn.
pub open spec fn fetches<T, const DIMS: usize>(state: State<T, DIMS>, hints: Seq<bool>) -> nat
    decreases hints.len(),
{
    if hints.len() == 0 {
        0
    } else {
        let (answer, next) = load_step(state, hints[0]);
        let fetch: nat = if answer == Load::Fetch {
            1
        } else {
            0
        };
        fetch + fetches(next, hints.drop_first())
    }
}

/// While a fetch is in flight nobody else is told to fetch.
pub proof fn law_wait_while_loading<T, const DIMS: usize>(hints: Seq<bool>)
    ensures
        fetches(State::<T, DIMS>::Loading, hints) == 0,
    decreases hints.len(),
{
    if hints.len() > 0 {
        law_wait_while_loading::<T, DIMS>(hints.drop_first());
    }
}

/// Load coalescing: however many callers ask for a coordinate before a fetch ends,
/// at most one of them is told to fetch; and exactly one where the coordinate was
/// not in memory.
pub proof fn law_load_coalescing<T, const DIMS: usize>(state: State<T, DIMS>, hints: Seq<bool>)
    ensures
        fetches(state, hints) <= 1,
        state is Unloaded && hints.len() > 0 ==> fetches(state, hints) == 1,
    decreases hints.len(),
{
    if hints.len() > 0 {
        let (answer, next) = load_step(state, hints[0]);
        if answer == Load::Fetch {
            law_wait_while_loading::<T, DIMS>(hints.drop_first());
        } else {
            law_load_coalescing(next, hints.drop_first());
        }
    }
}

/// The counter after `changes` more changes.
pub open spec fn later_generation(generation: usize, changes: nat) -> usize
    decreases changes,
{
    if changes == 0 {
        generation
    } else {
        next_generation(later_generation(generation, (changes - 1) as nat))
    }
}

/// The counter counts modulo the number of values of a `usize`.
pub proof fn lemma_later_generation(generation: usize, changes: nat)
    ensures
        later_generation(generation, changes) == (generation + changes) % (usize::MAX + 1),
    decreases changes,
{
    let m = usize::MAX + 1;
    if changes == 0 {
        vstd::arithmetic::div_mod::lemma_small_mod(generation as nat, m as nat);
    } else {
        lemma_later_generation(generation, (changes - 1) as nat);
        let before = later_generation(generation, (changes - 1) as nat);
        let x = generation + changes - 1;
        assert(before == x % m);
        vstd::arithmetic::div_mod::lemma_fundamental_div_mod(x, m);
        let q = x / m;
        if before == usize::MAX {
            assert(x + 1 == (q + 1) * m) by (nonlinear_arith)
                requires
                    x == m * q + (m - 1),
            ;
            vstd::arithmetic::div_mod::lemma_fundamental_div_mod_converse(x + 1, m, q + 1, 0);
        } else {
            assert(x + 1 == q * m + (before + 1)) by (nonlinear_arith)
                requires
                    x == m * q + before,
            ;
            vstd::arithmetic::div_mod::lemma_fundamental_div_mod_converse(
                x + 1,
                m,
                q,
                before + 1,
            );
        }
    }
}

/// A change of the world shows in the counter: after one change, and after any
/// number of changes that a `usize` can count, the counter differs from what it was.
pub proof fn law_generation_moves(generation: usize, changes: nat)
    requires
        0 < changes <= usize::MAX,
    ensures
        next_generation(generation) != generation,
        later_generation(generation, changes) != generation,
{
    let m = usize::MAX + 1;
    lemma_later_generation(generation, changes);
    let x = generation + changes;
    if x % m == generation {
        vstd::arithmetic::div_mod::lemma_fundamental_div_mod(x, m);
        let q = x / m;
        assert(false) by (nonlinear_arith)
            requires
                changes == m * q,
                0 < changes < m,
        ;
    }
}

/// Whether two coordinates are the same.
pub fn same_pos<const DIMS: usize>(a: &[usize; DIMS], b: &[usize; DIMS]) -> (r: bool)
    ensures
        r == (a@ == b@),
{
    let mut i: usize = 0;
    while i < DIMS
        invariant
            i <= DIMS,
            forall|j: int| 0 <= j < i ==> a@[j] == b@[j],
        decreases DIMS - i,
    {
        if a[i] != b[i] {
            return false;
        }
        i += 1;
    }
    assert(a@ =~= b@);
    true
}

struct Cell<T, const DIMS: usize> {
    pos: [usize; DIMS],
    state: State<T, DIMS>,
}

/// The chunk cache of a world.
pub struct Chunks<T, const DIMS: usize> {
    cells: Vec<Cell<T, DIMS>>,
    generation: usize,
}

/// Looking a key up after one more key came last.
proof fn lemma_lookup_push<K>(keys: Seq<K>, last: K, key: K)
    ensures
        keys.push(last).index_of_first(key) == if keys.index_of_first(key) is Some {
            keys.index_of_first(key)
        } else if key == last {
            Some(keys.len() as int)
        } else {
            None
        },
{
    let more = keys.push(last);
    keys.index_of_first_ensures(key);
    more.index_of_first_ensures(key);
    match keys.index_of_first(key) {
        Some(i) => {
            assert(more[i] == key);
            let j = more.index_of_first(key).unwrap();
            if j < i {
                assert(keys[j] == more[j]);
            } else if i < j {
            }
        },
        None => {
            if key == last {
                assert(more[keys.len() as int] == key);
                let j = more.index_of_first(key).unwrap();
                if j < keys.len() {
                    assert(keys[j] == more[j]);
                    assert(keys.contains(key));
                }
            } else {
                if more.index_of_first(key) is Some {
                    let j = more.index_of_first(key).unwrap();
                    assert(keys[j] == more[j]);
                    assert(keys.contains(key));
                }
            }
        },
    }
}

impl<T, const DIMS: usize> Chunks<T, DIMS> {
    spec fn positions(&self) -> Seq<Seq<usize>> {
        Seq::new(self.cells@.len(), |i: int| self.cells@[i].pos@)
    }

    /// What the cache knows of the coordinate `pos`.
    pub closed spec fn state(&self, pos: Seq<usize>) -> State<T, DIMS> {
        match self.positions().index_of_first(pos) {
            Some(i) => self.cells@[i].state,
            None => State::Unloaded,
        }
    }

    /// The generation counter: it moves on with every change of what the world holds.
    pub closed spec fn spec_generation(&self) -> usize {
        self.generation
    }

    /// Records have a key, and every chunk in memory is well formed.
    pub closed spec fn wf(&self) -> bool {
        &&& DIMS > 0
        &&& forall|i: int|
            0 <= i < self.cells@.len() ==> (#[trigger] self.cells@[i].state matches State::Loaded(
                chunk,
            ) ==> chunk.wf())
    }

    /// A chunk that the cache holds is well formed.
    pub proof fn lemma_loaded_wf(&self, pos: Seq<usize>)
        requires
            self.wf(),
        ensures
            DIMS > 0,
            self.state(pos) matches State::Loaded(chunk) ==> chunk.wf(),
    {
        self.positions().index_of_first_ensures(pos);
    }

    /// A cache that knows of no chunk.
    pub fn new() -> (chunks: Self)
        requires
            DIMS > 0,
        ensures
            chunks.wf(),
            chunks.spec_generation() == 0,
            forall|pos: Seq<usize>| #[trigger] chunks.state(pos) == State::<T, DIMS>::Unloaded,
    {
        let chunks = Chunks { cells: Vec::new(), generation: 0 };
        assert forall|pos: Seq<usize>| #[trigger]
            chunks.state(pos) == State::<T, DIMS>::Unloaded by {
            chunks.positions().index_of_first_ensures(pos);
        }
        chunks
    }

    /// The generation counter.
    pub fn generation(&self) -> (generation: usize)
        ensures
            generation == self.spec_generation(),
    {
        self.generation
    }

    fn slot(&self, pos: &[usize; DIMS]) -> (r: Option<usize>)
        ensures
            match r {
                Some(i) => {
                    &&& self.positions().index_of_first(pos@) == Some(i as int)
                    &&& i < self.cells@.len()
                    &&& self.cells@[i as int].pos@ == pos@
                },
                None => self.positions().index_of_first(pos@) is None,
            },
    {
        let mut i: usize = 0;
        while i < self.cells.len()
            invariant
                i <= self.cells@.len(),
                forall|j: int| 0 <= j < i ==> self.cells@[j].pos@ != pos@,
            decreases self.cells@.len() - i,
        {
            if same_pos(&self.cells[i].pos, pos) {
                proof {
                    let keys = self.positions();
                    keys.index_of_first_ensures(pos@);
                    assert(keys[i as int] == pos@);
                    let found = keys.index_of_first(pos@).unwrap();
                    if found < i {
                        assert(keys[found] == self.cells@[found].pos@);
                    }
                }
                return Some(i);
            }
            i += 1;
        }
        proof {
            let keys = self.positions();
            keys.index_of_first_ensures(pos@);
            if keys.index_of_first(pos@) is Some {
                let found = keys.index_of_first(pos@).unwrap();
                assert(keys[found] == self.cells@[found].pos@);
            }
        }
        None
    }

    /// Puts `state` in the place of what the cache knew of `pos`.
    fn set(&mut self, pos: &[usize; DIMS], state: State<T, DIMS>)
        requires
            old(self).wf(),
            state matches State::Loaded(chunk) ==> chunk.wf(),
        ensures
            final(self).wf(),
            final(self).spec_generation() == old(self).spec_generation(),
            final(self).state(pos@) == state,
            forall|other: Seq<usize>|
                other != pos@ ==> #[trigger] final(self).state(other) == old(self).state(other),
    {
        let ghost before = *self;
        match self.slot(pos) {
            Some(i) => {
                let at = self.cells[i].pos;
                self.cells[i] = Cell { pos: at, state };
                assert(self.positions() =~= before.positions());
                assert forall|other: Seq<usize>| other != pos@ implies #[trigger] self.state(other)
                    == before.state(other) by {
                    before.positions().index_of_first_ensures(other);
                }
            },
            None => {
                self.cells.push(Cell { pos: *pos, state });
                assert(self.positions() =~= before.positions().push(pos@));
                assert forall|other: Seq<usize>| #[trigger]
                    self.state(other) == if other == pos@ {
                        state
                    } else {
                        before.state(other)
                    } by {
                    lemma_lookup_push(before.positions(), pos@, other);
                    before.positions().index_of_first_ensures(other);
                }
            },
        }
    }

    fn bump(&mut self)
        ensures
            final(self).cells == old(self).cells,
            final(self).generation == next_generation(old(self).generation),
    {
        self.generation = self.generation.wrapping_add(1);
    }

    /// Asks for the chunk at `pos`. `hint_valid` is what storage hints of a chunk that
    /// the cache holds already. The first caller for a coordinate that is not in
    /// memory, or no longer valid, is told to fetch; callers who come while that fetch
    /// is in flight are told to wait for it.
    pub fn load(&mut self, pos: &[usize; DIMS], hint_valid: bool) -> (r: Load)
        requires
            old(self).wf(),
        ensures
            final(self).wf(),
            final(self).spec_generation() == old(self).spec_generation(),
            (r, final(self).state(pos@)) == load_step(old(self).state(pos@), hint_valid),
            forall|other: Seq<usize>|
                other != pos@ ==> #[trigger] final(self).state(other) == old(self).state(other),
    {
        match self.slot(pos) {
            Some(i) => match &self.cells[i].state {
                State::Loaded(_) => if hint_valid {
                    Load::Hit
                } else {
                    self.set(pos, State::Loading);
                    Load::Fetch
                },
                State::Loading => Load::Wait,
                State::Unloaded => {
                    self.set(pos, State::Loading);
                    Load::Fetch
                },
            },
            None => {
                self.set(pos, State::Loading);
                Load::Fetch
            },
        }
    }

    /// Takes in the chunk that was fetched for `pos`. The world has changed: the
    /// generation counter moves on.
    pub fn install(&mut self, pos: &[usize; DIMS], chunk: Chunk<T, DIMS>)
        requires
            old(self).wf(),
            chunk.wf(),
        ensures
            final(self).wf(),
            final(self).spec_generation() == next_generation(old(self).spec_generation()),
            final(self).state(pos@) == State::Loaded(chunk),
            forall|other: Seq<usize>|
                other != pos@ ==> #[trigger] final(self).state(other) == old(self).state(other),
    {
        self.set(pos, State::Loaded(chunk));
        let ghost mid = *self;
        self.bump();
        assert(self.positions() =~= mid.positions());
        assert forall|other: Seq<usize>| #[trigger] self.state(other) == mid.state(other) by {}
    }

    /// Takes note that the fetch for `pos` failed: no chunk is installed, the
    /// generation counter stays, and the next caller fetches again.
    pub fn fail(&mut self, pos: &[usize; DIMS])
        requires
            old(self).wf(),
        ensures
            final(self).wf(),
            final(self).spec_generation() == old(self).spec_generation(),
            final(self).state(pos@) == fail_step(old(self).state(pos@)),
            forall|other: Seq<usize>|
                other != pos@ ==> #[trigger] final(self).state(other) == old(self).state(other),
    {
        match self.slot(pos) {
            Some(i) => match &self.cells[i].state {
                State::Loading => {
                    self.set(pos, State::Unloaded);
                },
                _ => {},
            },
            None => {},
        }
    }

    /// Lets go of the chunk at `pos`, so that the next caller fetches it again. The
    /// generation counter moves on.
    pub fn invalidate(&mut self, pos: &[usize; DIMS])
        requires
            old(self).wf(),
        ensures
            final(self).wf(),
            final(self).spec_generation() == next_generation(old(self).spec_generation()),
            final(self).state(pos@) == invalidate_step(old(self).state(pos@)),
            forall|other: Seq<usize>|
                other != pos@ ==> #[trigger] final(self).state(other) == old(self).state(other),
    {
        match self.slot(pos) {
            Some(i) => match &self.cells[i].state {
                State::Loaded(_) => {
                    self.set(pos, State::Unloaded);
                },
                _ => {},
            },
            None => {},
        }
        let ghost mid = *self;
        self.bump();
        assert(self.positions() =~= mid.positions());
        assert forall|other: Seq<usize>| #[trigger] self.state(other) == mid.state(other) by {}
    }

    /// The chunk at `pos`, if it is in memory.
    pub fn chunk(&self, pos: &[usize; DIMS]) -> (r: Option<&Chunk<T, DIMS>>)
        ensures
            match self.state(pos@) {
                State::Loaded(chunk) => r == Some(&chunk),
                _ => r is None,
            },
    {
        match self.slot(pos) {
            Some(i) => match &self.cells[i].state {
                State::Loaded(chunk) => Some(chunk),
                _ => None,
            },
            None => None,
        }
    }
}

impl<T, const DIMS: usize> Chunks<T, DIMS> {
    /// Files `entry` in the chunk at `pos`, which has to be in memory: otherwise the
    /// entry comes back and nothing changes. Filing changes the world: the generation
    /// counter moves on.
    pub fn insert(&mut self, pos: &[usize; DIMS], entry: Entry<T, DIMS>) -> (r: Option<
        Entry<T, DIMS>,
    >)
        requires
            old(self).wf(),
        ensures
            final(self).wf(),
            forall|other: Seq<usize>|
                other != pos@ ==> #[trigger] final(self).state(other) == old(self).state(other),
            match old(self).state(pos@) {
                State::Loaded(chunk) => {
                    &&& r is None
                    &&& final(self).spec_generation() == next_generation(
                        old(self).spec_generation(),
                    )
                    &&& final(self).state(pos@) matches State::Loaded(after)
                    &&& after.spec_version() == chunk.spec_version()
                    &&& after.entries() == match chunk.find(entry.key()) {
                        Some(i) => chunk.entries().update(i, entry),
                        None => chunk.entries().push(entry),
                    }
                },
                _ => r == Some(entry) && *final(self) == *old(self),
            },
    {
        let ghost before = *self;
        proof {
            before.lemma_loaded_wf(pos@);
        }
        match self.slot(pos) {
            Some(i) => {
                let loaded = match &self.cells[i].state {
                    State::Loaded(_) => true,
                    _ => false,
                };
                if !loaded {
                    return Some(entry);
                }
                match &mut self.cells[i].state {
                    State::Loaded(chunk) => {
                        chunk.put(entry);
                    },
                    _ => {},
                }
                assert(self.cells@.len() == before.cells@.len());
                assert(self.cells@[i as int].pos == before.cells@[i as int].pos);
                assert(forall|j: int|
                    0 <= j < self.cells@.len() && j != i ==> self.cells@[j] == before.cells@[j]);
                assert(self.positions() =~= before.positions());
                assert forall|other: Seq<usize>| other != pos@ implies #[trigger] self.state(other)
                    == before.state(other) by {
                    before.positions().index_of_first_ensures(other);
                }
                let ghost mid = *self;
                self.bump();
                assert(self.positions() =~= mid.positions());
                assert forall|other: Seq<usize>| #[trigger] self.state(other) == mid.state(other) by {}
                None
            },
            None => Some(entry),
        }
    }
}

impl<T, const DIMS: usize> Chunks<T, DIMS> {
    /// Takes the entry filed under `key` out of the chunk at `pos`. Returns whether
    /// there was one; if so the world has changed and the generation counter moves on.
    pub fn remove(&mut self, pos: &[usize; DIMS], key: u64) -> (removed: bool)
        requires
            old(self).wf(),
        ensures
            final(self).wf(),
            forall|other: Seq<usize>|
                other != pos@ ==> #[trigger] final(self).state(other) == old(self).state(other),
            removed == (old(self).state(pos@) matches State::Loaded(chunk) && chunk.find(key)
                is Some),
            match old(self).state(pos@) {
                State::Loaded(chunk) => match chunk.find(key) {
                    Some(i) => {
                        &&& final(self).spec_generation() == next_generation(
                            old(self).spec_generation(),
                        )
                        &&& final(self).state(pos@) matches State::Loaded(after)
                        &&& after.spec_version() == chunk.spec_version()
                        &&& after.entries() == chunk.entries().remove(i)
                    },
                    None => *final(self) == *old(self),
                },
                _ => *final(self) == *old(self),
            },
    {
        let ghost before = *self;
        proof {
            before.lemma_loaded_wf(pos@);
        }
        match self.slot(pos) {
            Some(i) => {
                let found = match &self.cells[i].state {
                    State::Loaded(chunk) => chunk.position(key).is_some(),
                    _ => false,
                };
                if !found {
                    return false;
                }
                match &mut self.cells[i].state {
                    State::Loaded(chunk) => {
                        chunk.remove(key);
                    },
                    _ => {},
                }
                assert(self.cells@.len() == before.cells@.len());
                assert(self.cells@[i as int].pos == before.cells@[i as int].pos);
                assert(forall|j: int|
                    0 <= j < self.cells@.len() && j != i ==> self.cells@[j] == before.cells@[j]);
                assert(self.positions() =~= before.positions());
                assert forall|other: Seq<usize>| other != pos@ implies #[trigger] self.state(other)
                    == before.state(other) by {
                    before.positions().index_of_first_ensures(other);
                }
                let ghost mid = *self;
                self.bump();
                assert(self.positions() =~= mid.positions());
                assert forall|other: Seq<usize>| #[trigger] self.state(other) == mid.state(other) by {}
                true
            },
            None => false,
        }
    }
}

impl<T: Data, const DIMS: usize> Chunks<T, DIMS> {
    /// The record filed under `key` in the chunk at `pos`. There is none where the
    /// chunk is not in memory, where it has no entry under the key, and where the
    /// entry still holds a payload. A record that no longer says of itself that `key`
    /// is its key has moved, and is not handed out.
    pub fn get(&self, pos: &[usize; DIMS], key: u64) -> (r: Result<&T, Error>)
        requires
            self.wf(),
            T::DIMS == DIMS,
        ensures
            match self.state(pos@) {
                State::Loaded(chunk) => match chunk.find(key) {
                    Some(i) => match chunk.entries()[i].slot {
                        crate::world::chunk::Slot::Record(value) => r == Ok::<&T, Error>(&value)
                            || r == Err::<&T, Error>(Error::ValueMoved),
                        crate::world::chunk::Slot::Pending(_) => r == Err::<&T, Error>(
                            Error::ValueNotFound,
                        ),
                    },
                    None => r == Err::<&T, Error>(Error::ValueNotFound),
                },
                _ => r == Err::<&T, Error>(Error::ValueNotFound),
            },
    {
        proof {
            self.lemma_loaded_wf(pos@);
        }
        match self.chunk(pos) {
            Some(chunk) => chunk.get(key),
            None => Err(Error::ValueNotFound),
        }
    }
}

} // verus!
