//! The layout of a chunk in storage: one frame per record, each made of the
//! record's dimension values, the length of its payload, and the payload. Every
//! number is a `u64` in eight bytes, least significant byte first.

use vstd::bytes::{
    lemma_auto_spec_u64_to_from_le_bytes, spec_u64_from_le_bytes, spec_u64_to_le_bytes,
    u64_from_le_bytes, u64_to_le_bytes,
};
use vstd::prelude::*;
use vstd::slice::slice_subrange;

use crate::buf::{
    buffer_as_slice, buffer_with_capacity, bytes_as_slice, bytes_clone, bytes_copy_from_slice,
    bytes_view, io_error, io_error_kind, IoErrorKind,
};
use crate::world::iter::short_read;
use crate::world::chunk::{Chunk, Entry, Slot};
use crate::{Data, Error};

verus! {

/// What one frame says: the dimension values of a record and its payload.
pub struct Frame {
    /// The dimension values of the record.
    pub dims: Seq<u64>,
    /// The payload of the record.
    pub payload: Seq<u8>,
}

/// Number of bytes of a frame that come before its payload.
pub open spec fn header_len(dims: nat) -> nat {
    8 * dims + 8
}

/// The number written in the eight bytes of `stream` from `at` on.
pub open spec fn word_at(stream: Seq<u8>, at: int) -> u64 {
    spec_u64_from_le_bytes(stream.subrange(at, at + 8))
}

/// The length that the frame at `at` gives for its payload.
pub open spec fn payload_len(stream: Seq<u8>, at: int, dims: nat) -> nat {
    word_at(stream, at + 8 * dims) as nat
}

/// The frame that starts at `at`, if the stream holds all of it.
pub open spec fn frame_at(stream: Seq<u8>, at: int, dims: nat) -> Option<Frame> {
    let start = at + header_len(dims);
    if start <= stream.len() && start + payload_len(stream, at, dims) <= stream.len() {
        Some(
            Frame {
                dims: Seq::new(dims, |i: int| word_at(stream, at + 8 * i)),
                payload: stream.subrange(start, start + payload_len(stream, at, dims)),
            },
        )
    } else {
        None
    }
}

/// The frames of `stream` from `at` to its end, if it ends with a whole frame.
pub open spec fn frames_from(stream: Seq<u8>, at: int, dims: nat) -> Option<Seq<Frame>>
    decreases stream.len() - at,
{
    if at >= stream.len() {
        Some(Seq::empty())
    } else {
        match frame_at(stream, at, dims) {
            None => None,
            Some(frame) => match frames_from(
                stream,
                at + header_len(dims) + payload_len(stream, at, dims),
                dims,
            ) {
                None => None,
                Some(rest) => Some(seq![frame] + rest),
            },
        }
    }
}

/// The frames of a whole chunk stream.
pub open spec fn frames_of(stream: Seq<u8>, dims: nat) -> Option<Seq<Frame>> {
    frames_from(stream, 0, dims)
}

/// `rest` with the frames `done` in front of it.
pub open spec fn after(done: Seq<Frame>, rest: Option<Seq<Frame>>) -> Option<Seq<Frame>> {
    match rest {
        None => None,
        Some(rest) => Some(done + rest),
    }
}

/// The keys of `frames`, in their order.
pub open spec fn frame_keys(frames: Seq<Frame>) -> Seq<u64> {
    Seq::new(frames.len(), |i: int| frames[i].dims[0])
}

/// Whether `entry` is what a chunk holds for `frame`: its dimension values, and its
/// payload not decoded.
pub open spec fn holds<T, const DIMS: usize>(entry: Entry<T, DIMS>, frame: Frame) -> bool {
    &&& entry.dims@ == frame.dims
    &&& entry.slot matches Slot::Pending(payload)
    &&& bytes_view(payload) == frame.payload
}

/// The bytes of one frame.
pub open spec fn frame_bytes(dims: Seq<u64>, payload: Seq<u8>) -> Seq<u8>
    decreases dims.len(),
{
    if dims.len() == 0 {
        spec_u64_to_le_bytes(payload.len() as u64) + payload
    } else {
        spec_u64_to_le_bytes(dims[0]) + frame_bytes(dims.drop_first(), payload)
    }
}

/// The bytes of a stream that holds `frames`, one after the other.
pub open spec fn frames_bytes(frames: Seq<Frame>) -> Seq<u8>
    decreases frames.len(),
{
    if frames.len() == 0 {
        Seq::empty()
    } else {
        frames_bytes(frames.drop_last()) + frame_bytes(frames.last().dims, frames.last().payload)
    }
}

/// Where the parts of a frame stand in its bytes.
pub proof fn lemma_frame_bytes(dims: Seq<u64>, payload: Seq<u8>)
    ensures
        frame_bytes(dims, payload).len() == header_len(dims.len()) + payload.len(),
        forall|i: int|
            0 <= i < dims.len() ==> #[trigger] frame_bytes(dims, payload).subrange(
                8 * i,
                8 * i + 8,
            ) == spec_u64_to_le_bytes(dims[i]),
        frame_bytes(dims, payload).subrange(8 * dims.len() as int, 8 * dims.len() + 8 as int)
            == spec_u64_to_le_bytes(payload.len() as u64),
        frame_bytes(dims, payload).subrange(
            header_len(dims.len()) as int,
            header_len(dims.len()) + payload.len() as int,
        ) == payload,
    decreases dims.len(),
{
    lemma_auto_spec_u64_to_from_le_bytes();
    let all = frame_bytes(dims, payload);
    if dims.len() == 0 {
        let word = spec_u64_to_le_bytes(payload.len() as u64);
        assert(all.subrange(0, 8) =~= word);
        assert(all.subrange(8, 8 + payload.len() as int) =~= payload);
    } else {
        let word = spec_u64_to_le_bytes(dims[0]);
        let rest = frame_bytes(dims.drop_first(), payload);
        let n = dims.len() as int;
        lemma_frame_bytes(dims.drop_first(), payload);
        assert(all == word + rest);
        assert forall|i: int| 0 <= i < n implies #[trigger] all.subrange(8 * i, 8 * i + 8)
            == spec_u64_to_le_bytes(dims[i]) by {
            if i == 0 {
                assert(all.subrange(0, 8) =~= word);
            } else {
                assert(all.subrange(8 * i, 8 * i + 8) =~= rest.subrange(
                    8 * (i - 1),
                    8 * (i - 1) + 8,
                ));
                assert(dims.drop_first()[i - 1] == dims[i]);
            }
        }
        assert(all.subrange(8 * n, 8 * n + 8) =~= rest.subrange(8 * (n - 1), 8 * (n - 1) + 8));
        assert(all.subrange(8 * n + 8, 8 * n + 8 + payload.len()) =~= rest.subrange(
            8 * (n - 1) + 8,
            8 * (n - 1) + 8 + payload.len(),
        ));
    }
}

/// A frame that was written behind `before` is the one frame that is read from
/// there on.
pub proof fn lemma_read_written_frame(before: Seq<u8>, frame: Frame)
    requires
        frame.payload.len() <= u64::MAX,
    ensures
        frames_from(
            before + frame_bytes(frame.dims, frame.payload),
            before.len() as int,
            frame.dims.len(),
        ) == Some(seq![frame]),
{
    lemma_auto_spec_u64_to_from_le_bytes();
    lemma_frame_bytes(frame.dims, frame.payload);
    let bytes = frame_bytes(frame.dims, frame.payload);
    let stream = before + bytes;
    let at = before.len() as int;
    let n = frame.dims.len() as int;
    assert forall|i: int| 0 <= i < n implies word_at(stream, at + 8 * i) == frame.dims[i] by {
        assert(stream.subrange(at + 8 * i, at + 8 * i + 8) =~= bytes.subrange(8 * i, 8 * i + 8));
    }
    assert(stream.subrange(at + 8 * n, at + 8 * n + 8) =~= bytes.subrange(8 * n, 8 * n + 8));
    assert(payload_len(stream, at, n as nat) == frame.payload.len());
    let start = at + header_len(n as nat);
    assert(stream.subrange(start, start + frame.payload.len()) =~= bytes.subrange(
        header_len(n as nat) as int,
        header_len(n as nat) + frame.payload.len() as int,
    ));
    let read = frame_at(stream, at, n as nat).unwrap();
    assert(read.dims =~= frame.dims);
    assert(read == frame);
    assert(frames_from(stream, start + frame.payload.len(), n as nat) == Some(
        Seq::<Frame>::empty(),
    ));
    assert(seq![frame] + Seq::<Frame>::empty() =~= seq![frame]);
}

/// The frames of a stream are read the same when more bytes follow the stream,
/// and reading goes on with those bytes.
pub proof fn lemma_read_on(stream: Seq<u8>, more: Seq<u8>, at: int, dims: nat)
    requires
        0 <= at <= stream.len(),
        frames_from(stream, at, dims) is Some,
    ensures
        frames_from(stream + more, at, dims) == after(
            frames_from(stream, at, dims).unwrap(),
            frames_from(stream + more, stream.len() as int, dims),
        ),
    decreases stream.len() - at,
{
    let longer = stream + more;
    if at >= stream.len() {
        let rest = frames_from(longer, stream.len() as int, dims);
        if rest is Some {
            assert(Seq::<Frame>::empty() + rest.unwrap() =~= rest.unwrap());
        }
    } else {
        let frame = frame_at(stream, at, dims).unwrap();
        let start = at + header_len(dims);
        let len = payload_len(stream, at, dims);
        assert(longer.subrange(at + 8 * dims, at + 8 * dims + 8) =~= stream.subrange(
            at + 8 * dims,
            at + 8 * dims + 8,
        ));
        assert(payload_len(longer, at, dims) == len);
        assert(longer.subrange(start, start + len) =~= stream.subrange(start, start + len));
        let read = frame_at(longer, at, dims).unwrap();
        assert forall|i: int| 0 <= i < dims implies read.dims[i] == frame.dims[i] by {
            assert(longer.subrange(at + 8 * i, at + 8 * i + 8) =~= stream.subrange(
                at + 8 * i,
                at + 8 * i + 8,
            ));
        }
        assert(read.dims =~= frame.dims);
        assert(read == frame);
        lemma_read_on(stream, more, start + len, dims);
        let tail = frames_from(stream, start + len, dims).unwrap();
        let rest = frames_from(longer, stream.len() as int, dims);
        if rest is Some {
            assert(seq![frame] + (tail + rest.unwrap()) =~= (seq![frame] + tail) + rest.unwrap());
        }
    }
}

/// Reading is the inverse of writing: the frames that were written to a stream are
/// the frames that are read from it.
pub proof fn law_read_written(frames: Seq<Frame>, dims: nat)
    requires
        forall|i: int|
            0 <= i < frames.len() ==> (#[trigger] frames[i]).dims.len() == dims
                && frames[i].payload.len() <= u64::MAX,
    ensures
        frames_of(frames_bytes(frames), dims) == Some(frames),
    decreases frames.len(),
{
    if frames.len() > 0 {
        let before = frames_bytes(frames.drop_last());
        let last = frames.last();
        law_read_written(frames.drop_last(), dims);
        lemma_read_written_frame(before, last);
        lemma_read_on(before, frame_bytes(last.dims, last.payload), 0, dims);
        assert(frames.drop_last() + seq![last] =~= frames);
    }
}

/// The error of a stream with a record that cannot be filed in the chunk that the
/// stream is read for.
pub fn misfiled_record() -> (error: std::io::Error)
    ensures
        io_error_kind(error) == IoErrorKind::InvalidData,
{
    io_error(
        IoErrorKind::InvalidData,
        "a record of the stream cannot be filed in the chunk".to_owned(),
    )
}

/// Number of bytes of a frame that come before its payload, if a `usize` can hold it.
pub fn header_size<const DIMS: usize>() -> (r: Option<usize>)
    ensures
        match r {
            Some(n) => n == header_len(DIMS as nat),
            None => header_len(DIMS as nat) > usize::MAX,
        },
{
    match DIMS.checked_mul(8) {
        Some(n) => n.checked_add(8),
        None => None,
    }
}

/// Reads the number written in the eight bytes of `stream` from `at` on.
pub fn read_word(stream: &[u8], at: usize) -> (r: u64)
    requires
        at + 8 <= stream@.len(),
    ensures
        r == word_at(stream@, at as int),
{
    let total = stream.len();
    assert(at + 8 <= total);
    u64_from_le_bytes(slice_subrange(stream, at, at + 8))
}

/// Appends the frame of a record with the dimension values `dims` and the payload
/// `payload` to `stream`.
pub fn write_frame<const DIMS: usize>(stream: &mut Vec<u8>, dims: &[u64; DIMS], payload: &[u8])
    ensures
        final(stream)@ == old(stream)@ + frame_bytes(dims@, payload@),
{
    let ghost before = stream@;
    let mut i: usize = 0;
    assert(dims@.skip(0) =~= dims@);
    while i < DIMS
        invariant
            i <= DIMS,
            stream@ + frame_bytes(dims@.skip(i as int), payload@) == before + frame_bytes(
                dims@,
                payload@,
            ),
        decreases DIMS - i,
    {
        let mut word = u64_to_le_bytes(dims[i]);
        proof {
            let rest = dims@.skip(i as int);
            assert(rest.drop_first() =~= dims@.skip(i + 1));
            assert(rest[0] == dims@[i as int]);
            assert(stream@ + (word@ + frame_bytes(rest.drop_first(), payload@)) =~= (stream@
                + word@) + frame_bytes(rest.drop_first(), payload@));
        }
        stream.append(&mut word);
        i += 1;
    }
    let mut word = u64_to_le_bytes(payload.len() as u64);
    proof {
        assert(dims@.skip(DIMS as int).len() == 0);
        assert(stream@ + (word@ + payload@) =~= (stream@ + word@) + payload@);
    }
    stream.append(&mut word);
    stream.extend_from_slice(payload);
}

/// Where one frame of a stream stands: the dimension values it gives, and the
/// bytes `start..end` of the stream that are its payload.
pub struct Span<const DIMS: usize> {
    /// The dimension values that the frame gives.
    pub dims: [u64; DIMS],
    /// Where the payload begins in the stream.
    pub start: usize,
    /// Where the payload ends in the stream.
    pub end: usize,
}

impl<const DIMS: usize> Span<DIMS> {
    /// Whether the span marks `frame` in `stream`.
    pub open spec fn marks(&self, stream: Seq<u8>, frame: Frame) -> bool {
        &&& self.dims@ == frame.dims
        &&& self.start <= self.end <= stream.len()
        &&& stream.subrange(self.start as int, self.end as int) == frame.payload
    }
}

/// Finds the frames of a chunk stream. A stream that breaks off inside a frame is
/// refused as short.
pub fn split_frames<const DIMS: usize>(stream: &[u8]) -> (r: Result<Vec<Span<DIMS>>, Error>)
    ensures
        match frames_of(stream@, DIMS as nat) {
            None => r matches Err(Error::Io(e)) && io_error_kind(e) == IoErrorKind::UnexpectedEof,
            Some(frames) => {
                &&& r matches Ok(spans)
                &&& spans@.len() == frames.len()
                &&& forall|i: int|
                    0 <= i < frames.len() ==> (#[trigger] spans@[i]).marks(stream@, frames[i])
            },
        },
{
    let total = stream.len();
    let mut spans: Vec<Span<DIMS>> = Vec::new();
    let mut at: usize = 0;
    let ghost mut done: Seq<Frame> = Seq::empty();
    proof {
        if frames_of(stream@, DIMS as nat) is Some {
            assert(done + frames_of(stream@, DIMS as nat).unwrap() =~= frames_of(
                stream@,
                DIMS as nat,
            ).unwrap());
        }
    }
    while at < total
        invariant
            total == stream@.len(),
            at <= total,
            frames_of(stream@, DIMS as nat) == after(
                done,
                frames_from(stream@, at as int, DIMS as nat),
            ),
            spans@.len() == done.len(),
            forall|i: int| 0 <= i < done.len() ==> (#[trigger] spans@[i]).marks(stream@, done[i]),
        decreases total - at,
    {
        let header = match header_size::<DIMS>() {
            Some(header) => header,
            None => {
                return Err(Error::Io(short_read(total - at, usize::MAX)));
            },
        };
        if total - at < header {
            return Err(Error::Io(short_read(total - at, header)));
        }
        let mut dims = [0u64; DIMS];
        let mut i: usize = 0;
        while i < DIMS
            invariant
                i <= DIMS,
                at + header <= total,
                total == stream@.len(),
                header == header_len(DIMS as nat),
                forall|j: int| 0 <= j < i ==> dims@[j] == word_at(stream@, at + 8 * j),
            decreases DIMS - i,
        {
            dims[i] = read_word(stream, at + 8 * i);
            i += 1;
        }
        let len = read_word(stream, at + 8 * DIMS);
        let start = at + header;
        if len > (total - start) as u64 {
            return Err(Error::Io(short_read(total - start, usize::MAX)));
        }
        let end = start + len as usize;
        proof {
            let frame = frame_at(stream@, at as int, DIMS as nat).unwrap();
            let rest = frames_from(stream@, end as int, DIMS as nat);
            assert(frame.dims =~= dims@);
            if rest is Some {
                assert(done + (seq![frame] + rest.unwrap()) =~= done.push(frame) + rest.unwrap());
            }
            done = done.push(frame);
        }
        spans.push(Span { dims, start, end });
        at = end;
    }
    proof {
        assert(frames_of(stream@, DIMS as nat).unwrap() =~= done);
    }
    Ok(spans)
}

impl<T, const DIMS: usize> Chunk<T, DIMS> {
    /// Reads a chunk from its stream. Every record is filed with its payload as it
    /// stands in the stream: nothing is decoded. A stream that breaks off inside a
    /// frame is refused as short, and one that gives a key twice as invalid.
    pub fn from_stream(version: u32, stream: &[u8]) -> (r: Result<Self, Error>)
        requires
            DIMS > 0,
        ensures
            match frames_of(stream@, DIMS as nat) {
                None => r matches Err(Error::Io(e)) && io_error_kind(e)
                    == IoErrorKind::UnexpectedEof,
                Some(frames) => if frame_keys(frames).no_duplicates() {
                    &&& r matches Ok(chunk)
                    &&& chunk.wf()
                    &&& chunk.spec_version() == version
                    &&& chunk.entries().len() == frames.len()
                    &&& forall|i: int|
                        0 <= i < frames.len() ==> holds(#[trigger] chunk.entries()[i], frames[i])
                } else {
                    r matches Err(Error::Io(e)) && io_error_kind(e) == IoErrorKind::InvalidData
                },
            },
    {
        let spans = match split_frames::<DIMS>(stream) {
            Ok(spans) => spans,
            Err(error) => {
                return Err(error);
            },
        };
        let ghost frames = frames_of(stream@, DIMS as nat).unwrap();
        let mut chunk: Chunk<T, DIMS> = Chunk::new(version);
        let mut i: usize = 0;
        while i < spans.len()
            invariant
                DIMS > 0,
                i <= spans@.len(),
                frames_of(stream@, DIMS as nat) == Some(frames),
                spans@.len() == frames.len(),
                forall|j: int|
                    0 <= j < frames.len() ==> (#[trigger] spans@[j]).marks(stream@, frames[j]),
                chunk.wf(),
                chunk.spec_version() == version,
                chunk.entries().len() == i,
                forall|j: int| 0 <= j < i ==> holds(#[trigger] chunk.entries()[j], frames[j]),
            decreases spans@.len() - i,
        {
            let span = &spans[i];
            assert(span.marks(stream@, frames[i as int]));
            let key = span.dims[0];
            if chunk.position(key).is_some() {
                proof {
                    chunk.lemma_find(key);
                    let k = chunk.find(key).unwrap();
                    assert(holds(chunk.entries()[k], frames[k]));
                    let keys = frame_keys(frames);
                    assert(keys[k] == chunk.entries()[k].key());
                    assert(keys[i as int] == key);
                    assert(0 <= k < keys.len() && 0 <= i < keys.len() && k != i && keys[k]
                        == keys[i as int]);
                    assert(!keys.no_duplicates());
                }
                return Err(Error::Io(misfiled_record()));
            }
            let payload = bytes_copy_from_slice(slice_subrange(stream, span.start, span.end));
            proof {
                chunk.lemma_find(key);
            }
            chunk.put(Entry { dims: span.dims, slot: Slot::Pending(payload) });
            i += 1;
        }
        proof {
            assert forall|a: int, b: int|
                0 <= a < frames.len() && 0 <= b < frames.len() && a != b implies frame_keys(
                frames,
            )[a] != frame_keys(frames)[b] by {
                assert(holds(chunk.entries()[a], frames[a]));
                assert(holds(chunk.entries()[b], frames[b]));
                assert(chunk.keys()[a] != chunk.keys()[b]);
            }
        }
        Ok(chunk)
    }
}

impl<T, const DIMS: usize> Chunk<T, DIMS> {
    /// Whether `frames` can be what the chunk writes to a stream in the format
    /// `version`: a frame for every entry, in scan order, with the entry's dimension
    /// values. Where the chunk was read in that format, the frame of a payload that
    /// was never decoded holds that payload.
    pub open spec fn writes(&self, frames: Seq<Frame>, version: u32) -> bool {
        &&& frames.len() == self.entries().len()
        &&& forall|i: int|
            0 <= i < frames.len() ==> {
                &&& (#[trigger] frames[i]).dims == self.entries()[i].dims@
                &&& frames[i].payload.len() <= usize::MAX
                &&& self.spec_version() == version ==> (self.entries()[i].slot matches Slot::Pending(
                    payload,
                ) ==> frames[i].payload == bytes_view(payload))
            }
    }

    /// Whether nothing has to be encoded to write the chunk in the format `version`:
    /// every entry holds a payload, in that format.
    pub open spec fn written_as_read(&self, version: u32) -> bool {
        &&& self.spec_version() == version
        &&& forall|i: int|
            0 <= i < self.entries().len() ==> (#[trigger] self.entries()[i]).slot is Pending
    }

    /// What a chunk writes can be read back: the stream is made of whole frames, one
    /// per entry, with the keys of the entries.
    pub proof fn law_written_reads_back(&self, frames: Seq<Frame>, version: u32)
        requires
            self.wf(),
            self.writes(frames, version),
        ensures
            frames_of(frames_bytes(frames), DIMS as nat) == Some(frames),
            frame_keys(frames).no_duplicates(),
    {
        law_read_written(frames, DIMS as nat);
        assert forall|a: int, b: int|
            0 <= a < frames.len() && 0 <= b < frames.len() && a != b implies frame_keys(frames)[a]
            != frame_keys(frames)[b] by {
            assert(frames[a].dims == self.entries()[a].dims@);
            assert(frames[b].dims == self.entries()[b].dims@);
            assert(self.keys()[a] != self.keys()[b]);
        }
    }
}

impl<T: Data, const DIMS: usize> Chunk<T, DIMS> {
    /// Writes the chunk to a stream in the current format of its records: a frame for
    /// every entry, in scan order. A record is asked to encode its payload. A payload
    /// that was never decoded is written as it stands where the chunk was read in
    /// the current format, and is decoded and encoded again where it was not. Only
    /// decoding and encoding can fail.
    pub fn to_stream(&self) -> (r: Result<Vec<u8>, Error>)
        requires
            T::DIMS == DIMS,
        ensures
            match r {
                Ok(stream) => exists|frames: Seq<Frame>|
                    self.writes(frames, T::VERSION) && stream@ == frames_bytes(frames),
                Err(error) => error is Io && !self.written_as_read(T::VERSION),
            },
    {
        let mut stream: Vec<u8> = Vec::new();
        let ghost mut done: Seq<Frame> = Seq::empty();
        let mut i: usize = 0;
        while i < self.len()
            invariant
                T::DIMS == DIMS,
                i <= self.entries().len(),
                done.len() == i,
                stream@ == frames_bytes(done),
                forall|j: int|
                    0 <= j < i ==> {
                        &&& (#[trigger] done[j]).dims == self.entries()[j].dims@
                        &&& done[j].payload.len() <= usize::MAX
                        &&& self.spec_version() == T::VERSION ==> (
                        self.entries()[j].slot matches Slot::Pending(payload) ==> done[j].payload
                            == bytes_view(payload))
                    },
            decreases self.entries().len() - i,
        {
            let entry = self.entry(i);
            let ghost frame;
            match &entry.slot {
                Slot::Pending(held) if self.version() == T::VERSION => {
                    let payload = bytes_as_slice(held);
                    let len: usize = payload.len();
                    proof {
                        assert(payload@.len() == len);
                        frame = Frame { dims: entry.dims@, payload: payload@ };
                    }
                    write_frame(&mut stream, &entry.dims, payload);
                },
                slot => {
                    let mut buf = buffer_with_capacity(0);
                    let encoded = match slot {
                        Slot::Record(value) => value.encode(&mut buf),
                        Slot::Pending(held) => match T::decode(
                            self.version(),
                            entry.dims.as_slice(),
                            bytes_clone(held),
                        ) {
                            Ok(value) => value.encode(&mut buf),
                            Err(error) => Err(error),
                        },
                    };
                    match encoded {
                        Ok(()) => {},
                        Err(error) => {
                            assert(!(self.entries()[i as int].slot is Pending && self.spec_version()
                                == T::VERSION));
                            return Err(Error::Io(error));
                        },
                    }
                    let payload = buffer_as_slice(&buf);
                    let len: usize = payload.len();
                    proof {
                        assert(payload@.len() == len);
                        frame = Frame { dims: entry.dims@, payload: payload@ };
                    }
                    write_frame(&mut stream, &entry.dims, payload);
                },
            }
            proof {
                assert(done.push(frame).drop_last() =~= done);
                done = done.push(frame);
            }
            i += 1;
        }
        assert(self.writes(done, T::VERSION));
        Ok(stream)
    }
}

} // verus!
