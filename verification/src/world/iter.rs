//! Lazy resolution of the records that a scan finds: a handle per record, which
//! looks the record up or decodes its payload only when it is asked for it.

use std::collections::VecDeque;
use vstd::prelude::*;

use crate::buf::{
    buffer_freeze, buffer_put_bytes, buffer_view, buffer_with_capacity, bytes_as_slice,
    bytes_clone, bytes_read_into, bytes_view, io_error, io_error_kind, io_error_kind_of, short_read_message,
    IoErrorKind,
};
use crate::world::cache::{later_generation, law_generation_moves, Chunks, State};
use crate::world::chunk::{Chunk, Entry, Slot};
use crate::world::select::{RawShapeIter, Select};
use crate::Data;

verus! {

/// Where a handle gets its record from.
#[derive(Clone, Copy, Debug)]
pub enum ReadType<const DIMS: usize> {
    /// From the chunk at this coordinate, which holds the record in memory.
    Mem([usize; DIMS]),
    /// From a payload of this many bytes, which has to be read and decoded.
    Io(usize),
}

/// Represents error variants produced by resolving a lazy value.
#[derive(Debug)]
pub enum Error {
    /// IO Error.
    Io(std::io::Error),
    /// The payload of the required value has been taken by an earlier attempt.
    ValueTaken,
    /// The required value was not found.
    ValueNotFound,
    /// The world has changed since the scan began.
    IterUpdated {
        /// The generation counter when the scan began.
        expected: usize,
        /// The generation counter now, if the world is still there.
        current: Option<usize>,
    },
}

impl Error {
    /// The kind of the I/O error, if this is one.
    pub fn io_kind(&self) -> (kind: Option<IoErrorKind>)
        ensures
            kind == match *self {
                Error::Io(error) => Some(io_error_kind(error)),
                _ => None,
            },
    {
        match self {
            Error::Io(error) => Some(io_error_kind_of(error)),
            _ => None,
        }
    }
}

/// The error of a read that brought `act_len` bytes where `len` were expected.
pub fn short_read(act_len: usize, len: usize) -> (error: std::io::Error)
    ensures
        io_error_kind(error) == IoErrorKind::UnexpectedEof,
{
    io_error(IoErrorKind::UnexpectedEof, short_read_message(act_len, len))
}

/// A bounded read: exactly `len` bytes from the front of a reader, to be decoded
/// as the payload of the record with the dimension values `dims`.
pub struct FromBytes<const DIMS: usize> {
    read: bytes::Bytes,
    dims: [u64; DIMS],
    version: u32,
    len: usize,
}

impl<const DIMS: usize> FromBytes<DIMS> {
    /// The bytes that the reader can still give.
    pub closed spec fn source(&self) -> Seq<u8> {
        bytes_view(self.read)
    }

    /// The dimension values of the record.
    pub closed spec fn dims(&self) -> Seq<u64> {
        self.dims@
    }

    /// The format version of the storage that the payload comes from.
    pub closed spec fn version(&self) -> u32 {
        self.version
    }

    /// Number of bytes to read.
    pub closed spec fn len(&self) -> usize {
        self.len
    }

    /// Whether the reader can give all the bytes of the payload, and a buffer can
    /// hold them.
    pub open spec fn complete(&self) -> bool {
        self.len() <= self.source().len() && self.len() <= isize::MAX
    }

    /// A read of `len` bytes from `read`, for the record with the dimension values
    /// `dims` in the storage format `version`.
    pub fn new(read: bytes::Bytes, dims: [u64; DIMS], version: u32, len: usize) -> (r: Self)
        ensures
            r.source() == bytes_view(read),
            r.dims() == dims@,
            r.version() == version,
            r.len() == len,
    {
        FromBytes { read, dims, version, len }
    }

    /// Reads the payload: a zeroed buffer of `len` bytes is filled from the front of
    /// the reader. A read that brings fewer bytes is refused as short.
    pub fn read(self) -> (r: Result<bytes::Bytes, std::io::Error>)
        ensures
            self.complete() ==> (r matches Ok(data) && bytes_view(data) == self.source().take(
                self.len() as int,
            )),
            !self.complete() ==> (r matches Err(e) && io_error_kind(e)
                == IoErrorKind::UnexpectedEof),
    {
        let mut read = self.read;
        let available = bytes_as_slice(&read).len();
        if self.len > isize::MAX as usize {
            return Err(short_read(available, self.len));
        }
        let mut buf = buffer_with_capacity(self.len);
        buffer_put_bytes(&mut buf, 0, self.len);
        let act_len = if available < self.len {
            available
        } else {
            self.len
        };
        bytes_read_into(&mut read, &mut buf, act_len);
        if act_len != self.len {
            return Err(short_read(act_len, self.len));
        }
        assert(buffer_view(buf) =~= self.source().take(self.len() as int));
        Ok(buffer_freeze(buf))
    }

    /// Reads the payload and decodes the record from it. Where the read is short
    /// nothing is decoded; otherwise the outcome is that of decoding.
    pub fn decode<T: Data>(self) -> (r: Result<T, std::io::Error>)
        requires
            T::DIMS == DIMS,
        ensures
            !self.complete() ==> (r matches Err(e) && io_error_kind(e)
                == IoErrorKind::UnexpectedEof),
    {
        let version = self.version;
        let dims = self.dims;
        match self.read() {
            Ok(data) => T::decode(version, dims.as_slice(), data),
            Err(error) => Err(error),
        }
    }
}

/// The record that a handle has resolved to.
pub enum Value<'a, T> {
    /// A record that a chunk holds in memory.
    Ref(&'a T),
    /// A record that was decoded for this handle.
    Direct(T),
}

impl<'a, T> Value<'a, T> {
    /// The record.
    pub open spec fn target(&self) -> T {
        match self {
            Value::Ref(value) => **value,
            Value::Direct(value) => *value,
        }
    }

    /// The record.
    pub fn get(&self) -> (r: &T)
        ensures
            *r == self.target(),
    {
        match self {
            Value::Ref(value) => *value,
            Value::Direct(value) => value,
        }
    }
}

/// A type polls value lazily and immutably.
///
/// A handle starts out unresolved. It resolves once, to a record that a chunk holds
/// in memory or to a record decoded from its payload, and from then on hands out
/// that record. A handle on a payload whose reader was taken without a record
/// coming of it has failed for good.
pub struct Lazy<'a, T, const DIMS: usize> {
    dims: [u64; DIMS],
    read_type: ReadType<DIMS>,
    value: Option<Value<'a, T>>,
    read: Option<bytes::Bytes>,
    version: u32,
    expected: usize,
}

impl<'a, T, const DIMS: usize> Lazy<'a, T, DIMS> {
    /// The dimension values of the record.
    pub closed spec fn spec_dims(&self) -> Seq<u64> {
        self.dims@
    }

    /// Where the handle gets its record from.
    pub closed spec fn read_type(&self) -> ReadType<DIMS> {
        self.read_type
    }

    /// The record, once the handle has resolved.
    pub closed spec fn value(&self) -> Option<T> {
        match self.value {
            Some(value) => Some(value.target()),
            None => None,
        }
    }

    /// The bytes that the reader of the payload can give, until the reader is taken.
    pub closed spec fn reader(&self) -> Option<Seq<u8>> {
        match self.read {
            Some(read) => Some(bytes_view(read)),
            None => None,
        }
    }

    /// The format version of the storage that the payload comes from.
    pub closed spec fn version(&self) -> u32 {
        self.version
    }

    /// The generation counter of the world when the scan began.
    pub closed spec fn expected(&self) -> usize {
        self.expected
    }

    /// The record has a key.
    pub open spec fn wf(&self) -> bool {
        DIMS > 0
    }

    /// The key of the record within its chunk.
    pub open spec fn key(&self) -> u64 {
        self.spec_dims()[0]
    }

    /// Whether `other` is this handle but for what it has resolved to and whether its
    /// reader is still there.
    pub open spec fn same_record(&self, other: &Self) -> bool {
        &&& self.spec_dims() == other.spec_dims()
        &&& self.read_type() == other.read_type()
        &&& self.version() == other.version()
        &&& self.expected() == other.expected()
    }

    /// Why a handle that has not resolved is refused before anything is read: the
    /// world has changed since the scan began, or the reader of the payload is gone.
    /// A handle on a record in memory is never refused.
    pub open spec fn refusal(&self, current: Option<usize>) -> Option<Error> {
        match self.read_type() {
            ReadType::Mem(_) => None,
            ReadType::Io(_) => if current != Some(self.expected()) {
                Some(Error::IterUpdated { expected: self.expected(), current })
            } else if self.reader() is None {
                Some(Error::ValueTaken)
            } else {
                None
            },
        }
    }

    /// Whether `after` and `r` are what asking a handle that has resolved gives: the
    /// record that it resolved to, and the handle as it was.
    pub open spec fn hands_out(&self, after: &Self, r: Result<&T, Error>) -> bool {
        self.value() matches Some(value) && r == Ok::<&T, Error>(&value) && *after == *self
    }

    /// Idempotence: a handle that has resolved gives the same record every time it is
    /// asked, and asking changes nothing of it, so that nothing is read again.
    pub proof fn law_resolved_stays(
        &self,
        second: &Self,
        third: &Self,
        r1: Result<&T, Error>,
        r2: Result<&T, Error>,
    )
        requires
            self.hands_out(second, r1),
            second.hands_out(third, r2),
        ensures
            r1 == r2,
            r1 matches Ok(value) && Some(*value) == self.value(),
            *third == *self,
            third.reader() == self.reader(),
    {
    }

    /// Staleness: a handle on a payload that has not resolved is refused as soon as the
    /// world has changed since its scan began, whether its reader is still there or
    /// not; a handle on a record in memory is not refused.
    pub proof fn law_stale_handle_refused(&self, changes: nat)
        requires
            0 < changes <= usize::MAX,
        ensures
            self.read_type() is Io ==> self.refusal(
                Some(later_generation(self.expected(), changes)),
            ) == Some(
                Error::IterUpdated {
                    expected: self.expected(),
                    current: Some(later_generation(self.expected(), changes)),
                },
            ),
            self.read_type() is Io ==> self.refusal(None) == Some(
                Error::IterUpdated { expected: self.expected(), current: None },
            ),
            self.read_type() is Mem ==> self.refusal(
                Some(later_generation(self.expected(), changes)),
            ) is None,
    {
        law_generation_moves(self.expected(), changes);
    }

    /// A handle on the record with the dimension values `dims` that the chunk at
    /// `chunk` holds in memory.
    pub fn mem(dims: [u64; DIMS], chunk: [usize; DIMS], expected: usize) -> (lazy: Self)
        requires
            DIMS > 0,
        ensures
            lazy.wf(),
            lazy.spec_dims() == dims@,
            lazy.read_type() == ReadType::Mem(chunk),
            lazy.value() is None,
            lazy.reader() is None,
            lazy.expected() == expected,
    {
        Lazy {
            dims,
            read_type: ReadType::Mem(chunk),
            value: None,
            read: None,
            version: 0,
            expected,
        }
    }

    /// A handle on the record with the dimension values `dims` whose payload are the
    /// first `len` bytes that `read` gives, in the storage format `version`.
    pub fn io(dims: [u64; DIMS], len: usize, read: bytes::Bytes, version: u32, expected: usize) -> (lazy:
        Self)
        requires
            DIMS > 0,
        ensures
            lazy.wf(),
            lazy.spec_dims() == dims@,
            lazy.read_type() == ReadType::<DIMS>::Io(len),
            lazy.value() is None,
            lazy.reader() == Some(bytes_view(read)),
            lazy.version() == version,
            lazy.expected() == expected,
    {
        Lazy { dims, read_type: ReadType::Io(len), value: None, read: Some(read), version, expected }
    }

    /// Gets info of dimensions of the value.
    #[inline]
    pub fn dims(&self) -> (dims: &[u64; DIMS])
        ensures
            dims@ == self.spec_dims(),
    {
        &self.dims
    }

    /// The record, if the handle has resolved.
    pub fn get(&self) -> (r: Option<&T>)
        ensures
            match self.value() {
                Some(value) => r == Some(&value),
                None => r is None,
            },
    {
        match &self.value {
            Some(value) => Some(value.get()),
            None => None,
        }
    }

    /// Takes what a lookup in memory found for a handle that has not resolved: the
    /// record, or that there is none.
    pub fn resolve_ref(&mut self, found: Result<&'a T, crate::Error>) -> (r: Result<(), Error>)
        requires
            old(self).value() is None,
        ensures
            final(self).same_record(old(self)),
            final(self).reader() == old(self).reader(),
            match found {
                Ok(value) => r is Ok && final(self).value() == Some(*value),
                Err(_) => r == Err::<(), Error>(Error::ValueNotFound) && final(self).value() is None,
            },
    {
        match found {
            Ok(value) => {
                self.value = Some(Value::Ref(value));
                Ok(())
            },
            Err(_) => Err(Error::ValueNotFound),
        }
    }

    /// Takes what decoding the payload gave for a handle that has not resolved: the
    /// record, or the error.
    pub fn resolve_direct(&mut self, decoded: Result<T, std::io::Error>) -> (r: Result<(), Error>)
        requires
            old(self).value() is None,
        ensures
            final(self).same_record(old(self)),
            final(self).reader() == old(self).reader(),
            match decoded {
                Ok(value) => r is Ok && final(self).value() == Some(value),
                Err(error) => r == Err::<(), Error>(Error::Io(error)) && final(self).value()
                    is None,
            },
    {
        match decoded {
            Ok(value) => {
                self.value = Some(Value::Direct(value));
                Ok(())
            },
            Err(error) => Err(Error::Io(error)),
        }
    }
}

impl<'a, T: Data, const DIMS: usize> Lazy<'a, T, DIMS> {
    /// Gets the value inside this initializer or initialize it
    /// if uninitialized.
    ///
    /// A handle that has resolved hands out its record, whatever `chunks` and
    /// `current` are, and stays as it is. A handle on a record in memory looks it up
    /// in `chunks`. A handle on a payload first compares `current`, the generation
    /// counter of the world now, with the counter when the scan began, then takes
    /// its reader, reads the payload and decodes it.
    pub fn get_or_init(&mut self, chunks: &'a Chunks<T, DIMS>, current: Option<usize>) -> (r:
        Result<&T, Error>)
        requires
            old(self).wf(),
            chunks.wf(),
            T::DIMS == DIMS,
        ensures
            final(self).same_record(old(self)),
            old(self).value() is Some ==> old(self).hands_out(final(self), r),
            old(self).value() is None ==> match old(self).read_type() {
                ReadType::Mem(chunk) => {
                    &&& final(self).reader() == old(self).reader()
                    &&& (r matches Ok(value) && final(self).value() == Some(*value)) || (r
                        == Err::<&T, Error>(Error::ValueNotFound) && final(self).value() is None)
                    &&& r is Ok ==> (chunks.state(chunk@) matches State::Loaded(held)
                        && held.find(old(self).key()) matches Some(i)
                        && held.entries()[i].slot == Slot::Record(final(self).value().unwrap()))
                },
                ReadType::Io(len) => match old(self).refusal(current) {
                    Some(error) => r == Err::<&T, Error>(error) && *final(self) == *old(self),
                    None => {
                        &&& final(self).reader() is None
                        &&& (r matches Ok(value) && final(self).value() == Some(*value)) || (r
                            matches Err(Error::Io(_)) && final(self).value() is None)
                        &&& r is Ok ==> len <= old(self).reader().unwrap().len()
                        &&& len > old(self).reader().unwrap().len() ==> (r matches Err(
                            Error::Io(e),
                        ) && io_error_kind(e) == IoErrorKind::UnexpectedEof)
                    },
                },
            },
    {
        if self.value.is_none() {
            match self.read_type {
                ReadType::Mem(chunk) => {
                    let found = chunks.get(&chunk, self.dims[0]);
                    proof {
                        chunks.lemma_loaded_wf(chunk@);
                    }
                    match self.resolve_ref(found) {
                        Ok(()) => {},
                        Err(error) => {
                            return Err(error);
                        },
                    }
                },
                ReadType::Io(len) => {
                    if current != Some(self.expected) {
                        return Err(Error::IterUpdated { expected: self.expected, current });
                    }
                    let read = match self.read.take() {
                        Some(read) => read,
                        None => {
                            return Err(Error::ValueTaken);
                        },
                    };
                    let decoded = FromBytes::new(read, self.dims, self.version, len).decode::<T>();
                    match self.resolve_direct(decoded) {
                        Ok(()) => {},
                        Err(error) => {
                            return Err(error);
                        },
                    }
                },
            }
        }
        match &self.value {
            Some(value) => Ok(value.get()),
            None => Err(Error::ValueNotFound),
        }
    }
}

/// The entries among the first `n` of `entries` that `select` admits, in their order.
pub open spec fn admitted<T, const DIMS: usize>(
    entries: Seq<Entry<T, DIMS>>,
    select: Select<DIMS>,
    n: nat,
) -> Seq<Entry<T, DIMS>>
    decreases n,
{
    if n == 0 {
        Seq::empty()
    } else {
        let before = admitted(entries, select, (n - 1) as nat);
        if select.admits(entries[n - 1].dims@) {
            before.push(entries[n - 1])
        } else {
            before
        }
    }
}

/// An entry is among the admitted ones exactly if it is one of the first `n`
/// entries and the selection admits it.
pub proof fn lemma_admitted<T, const DIMS: usize>(
    entries: Seq<Entry<T, DIMS>>,
    select: Select<DIMS>,
    n: nat,
    entry: Entry<T, DIMS>,
)
    requires
        n <= entries.len(),
    ensures
        admitted(entries, select, n).contains(entry) <==> select.admits(entry.dims@) && exists|
            i: int,
        |
            0 <= i < n && entries[i] == entry,
    decreases n,
{
    if n > 0 {
        let before = admitted(entries, select, (n - 1) as nat);
        let all = admitted(entries, select, n);
        lemma_admitted(entries, select, (n - 1) as nat, entry);
        let last = entries[n - 1];
        if all.contains(entry) {
            let k = choose|k: int| 0 <= k < all.len() && all[k] == entry;
            if select.admits(last.dims@) && k == before.len() {
                assert(entries[n - 1] == entry);
            } else {
                assert(before[k] == entry);
                assert(before.contains(entry));
                let i = choose|i: int| 0 <= i < n - 1 && entries[i] == entry;
                assert(0 <= i < n && entries[i] == entry);
            }
        }
        if select.admits(entry.dims@) && exists|i: int| 0 <= i < n && entries[i] == entry {
            let i = choose|i: int| 0 <= i < n && entries[i] == entry;
            if i == n - 1 {
                assert(all[before.len() as int] == entry);
            } else {
                assert(before.contains(entry));
                let k = choose|k: int| 0 <= k < before.len() && before[k] == entry;
                assert(all[k] == entry);
            }
        }
    }
}

/// Whether `lazy` is the handle that a scan which began at the generation
/// `expected` makes for `entry` of a chunk at `pos` with the storage version
/// `version`: a handle that has not resolved, on the record in memory or on its
/// payload.
pub open spec fn handle_of<'a, T, const DIMS: usize>(
    lazy: Lazy<'a, T, DIMS>,
    entry: Entry<T, DIMS>,
    pos: Seq<usize>,
    version: u32,
    expected: usize,
) -> bool {
    &&& lazy.spec_dims() == entry.dims@
    &&& lazy.value() is None
    &&& lazy.expected() == expected
    &&& match entry.slot {
        Slot::Record(_) => lazy.read_type() matches ReadType::Mem(chunk) && chunk@ == pos,
        Slot::Pending(payload) => {
            &&& lazy.read_type() == ReadType::<DIMS>::Io(bytes_view(payload).len() as usize)
            &&& lazy.reader() == Some(bytes_view(payload))
            &&& lazy.version() == version
        },
    }
}

/// What a scan asks of its caller next.
pub enum Step<'a, T, const DIMS: usize> {
    /// Here is the handle of the next record.
    Yield(Lazy<'a, T, DIMS>),
    /// The chunk at this coordinate comes next: see that it is in memory, and feed
    /// it to the scan.
    Load([usize; DIMS]),
    /// The scan is over.
    Done,
}

/// A scan: walks the chunk coordinates of a selection, finds in each chunk the
/// records that the selection admits, and hands out the handles of one chunk before
/// it goes on to the next.
pub struct Iter<'a, T, const DIMS: usize> {
    select: Select<DIMS>,
    shape_iter: RawShapeIter<DIMS>,
    expected: usize,
    found: VecDeque<Lazy<'a, T, DIMS>>,
}

impl<'a, T, const DIMS: usize> Iter<'a, T, DIMS> {
    /// The selection that is scanned.
    pub closed spec fn select(&self) -> Select<DIMS> {
        self.select
    }

    /// The generation counter of the world when the scan began.
    pub closed spec fn expected(&self) -> usize {
        self.expected
    }

    /// Number of chunk coordinates that the scan has asked for so far.
    pub closed spec fn position(&self) -> nat {
        self.shape_iter.position()
    }

    /// The handles that were found and not handed out yet, the next one first.
    pub closed spec fn pending(&self) -> Seq<Lazy<'a, T, DIMS>> {
        self.found@
    }

    /// The scan walks the chunks of its selection.
    pub closed spec fn wf(&self) -> bool {
        self.shape_iter.wf() && self.shape_iter.shape() == self.select.spec_shape()
    }

    /// A scan of `select` that begins now, at the generation `expected` of the world.
    pub fn new(select: Select<DIMS>, expected: usize) -> (iter: Self)
        ensures
            iter.wf(),
            iter.select() == select,
            iter.expected() == expected,
            iter.position() == 0,
            iter.pending() == Seq::<Lazy<'a, T, DIMS>>::empty(),
    {
        Iter { select, shape_iter: select.shape().iter(), expected, found: VecDeque::new() }
    }

    /// What comes next. While handles of the chunk that was fed last are left, the
    /// first of them is handed out. After that the scan asks for the next chunk of its
    /// selection, in odometer order, each chunk once; and after the last chunk it is
    /// over.
    pub fn next(&mut self) -> (r: Step<'a, T, DIMS>)
        requires
            old(self).wf(),
        ensures
            final(self).wf(),
            final(self).select() == old(self).select(),
            final(self).expected() == old(self).expected(),
            if old(self).pending().len() > 0 {
                &&& r == Step::Yield(old(self).pending()[0])
                &&& final(self).pending() == old(self).pending().skip(1)
                &&& final(self).position() == old(self).position()
            } else if old(self).position() < old(self).select().spec_shape().count() {
                &&& r matches Step::Load(pos)
                &&& pos@ == old(self).select().spec_shape().nth(old(self).position())
                &&& final(self).position() == old(self).position() + 1
                &&& final(self).pending() == old(self).pending()
            } else {
                &&& r is Done
                &&& final(self).position() == old(self).position()
                &&& final(self).pending() == old(self).pending()
            },
    {
        match self.found.pop_front() {
            Some(lazy) => {
                assert(self.found@ =~= old(self).found@.skip(1));
                Step::Yield(lazy)
            },
            None => match self.shape_iter.next() {
                Some(pos) => Step::Load(pos),
                None => Step::Done,
            },
        }
    }

    /// Takes in the chunk at `pos`, which the scan has asked for: the handles of the
    /// records that the selection admits are lined up behind those that are still to
    /// be handed out, in the order of the chunk's entries.
    pub fn feed(&mut self, pos: &[usize; DIMS], chunk: &Chunk<T, DIMS>)
        requires
            old(self).wf(),
            chunk.wf(),
        ensures
            final(self).wf(),
            final(self).select() == old(self).select(),
            final(self).expected() == old(self).expected(),
            final(self).position() == old(self).position(),
            final(self).pending().len() == old(self).pending().len() + admitted(
                chunk.entries(),
                old(self).select(),
                chunk.entries().len(),
            ).len(),
            forall|k: int|
                0 <= k < old(self).pending().len() ==> #[trigger] final(self).pending()[k]
                    == old(self).pending()[k],
            forall|k: int|
                0 <= k < admitted(chunk.entries(), old(self).select(), chunk.entries().len()).len()
                    ==> (#[trigger] final(self).pending()[old(self).pending().len() + k]).wf()
                    && handle_of(
                    final(self).pending()[old(self).pending().len() + k],
                    admitted(chunk.entries(), old(self).select(), chunk.entries().len())[k],
                    pos@,
                    chunk.spec_version(),
                    old(self).expected(),
                ),
    {
        let mut handles = self.scan(pos, chunk);
        let ghost all = handles@;
        let mut lined: VecDeque<Lazy<'a, T, DIMS>> = VecDeque::new();
        while handles.len() > 0
            invariant
                handles@.len() <= all.len(),
                handles@ == all.take(handles@.len() as int),
                lined@ == all.skip(handles@.len() as int),
            decreases handles@.len(),
        {
            let last = handles.pop();
            match last {
                Some(lazy) => {
                    lined.push_front(lazy);
                    assert(handles@ =~= all.take(handles@.len() as int));
                    assert(lined@ =~= all.skip(handles@.len() as int));
                },
                None => {},
            }
        }
        assert(lined@ =~= all);
        self.found.append(&mut lined);
    }

    /// Scans the chunk at `pos`: one handle for every record that the selection
    /// admits, in the order of the chunk's entries. No record is looked up or
    /// decoded.
    pub fn scan(&self, pos: &[usize; DIMS], chunk: &Chunk<T, DIMS>) -> (handles: Vec<
        Lazy<'a, T, DIMS>,
    >)
        requires
            chunk.wf(),
        ensures
            handles@.len() == admitted(chunk.entries(), self.select(), chunk.entries().len()).len(),
            forall|k: int|
                0 <= k < handles@.len() ==> (#[trigger] handles@[k]).wf() && handle_of(
                    handles@[k],
                    admitted(chunk.entries(), self.select(), chunk.entries().len())[k],
                    pos@,
                    chunk.spec_version(),
                    self.expected(),
                ),
    {
        let mut handles: Vec<Lazy<'a, T, DIMS>> = Vec::new();
        let mut i: usize = 0;
        while i < chunk.len()
            invariant
                DIMS > 0,
                i <= chunk.entries().len(),
                handles@.len() == admitted(chunk.entries(), self.select(), i as nat).len(),
                forall|k: int|
                    0 <= k < handles@.len() ==> (#[trigger] handles@[k]).wf() && handle_of(
                        handles@[k],
                        admitted(chunk.entries(), self.select(), i as nat)[k],
                        pos@,
                        chunk.spec_version(),
                        self.expected(),
                    ),
            decreases chunk.entries().len() - i,
        {
            let entry = chunk.entry(i);
            if self.select.matches(&entry.dims) {
                let lazy = match &entry.slot {
                    Slot::Record(_) => Lazy::mem(entry.dims, *pos, self.expected),
                    Slot::Pending(payload) => Lazy::io(
                        entry.dims,
                        bytes_as_slice(payload).len(),
                        bytes_clone(payload),
                        chunk.version(),
                        self.expected,
                    ),
                };
                handles.push(lazy);
            }
            i += 1;
        }
        handles
    }
}

} // verus!
