//! Multi-dimensional database core: records carry a fixed number of numeric
//! dimensions and are partitioned into a regular grid of chunks.

use std::ops::Deref;
use vstd::prelude::*;

use crate::buf::{io_error_kind, io_error_kind_of, IoErrorKind};

pub mod buf;
pub mod range;
pub mod world;

pub use world::{iter::Iter, iter::Lazy, Chunk, Chunks, Dim, Select, World};

verus! {

/// Represents types stored directly in a dimensional world.
pub trait Data: Sized + Send + Sync {
    /// Count of dimensions.
    const DIMS: usize;

    /// The current version of this data type.
    const VERSION: u32;

    /// Gets the value of required dimension.
    ///
    /// Dimension index starts from 0, which should be
    /// a unique data such as the only id.
    fn dim(&self, dim: usize) -> u64
        requires
            dim < Self::DIMS,
    ;

    /// Decode this type from given buffer and dimensional values,
    /// in the given data version.
    ///
    /// The buffer holds the payload that [`Data::encode`] wrote, in the given or an
    /// older version; the dimensional values are handed in beside it.
    fn decode<B: bytes::Buf>(version: u32, dims: &[u64], buf: B) -> Result<Self, std::io::Error>
        requires
            dims@.len() == Self::DIMS,
    ;

    /// Encode this type into bytes buffer, in latest data version.
    ///
    /// Dimensional values are not part of the payload: the world keeps them.
    fn encode<B: bytes::BufMut>(&self, buf: B) -> Result<(), std::io::Error>;
}

impl<const DIMS: usize> Data for [u64; DIMS] {
    const DIMS: usize = DIMS;

    const VERSION: u32 = 0;

    #[inline]
    fn dim(&self, dim: usize) -> (value: u64)
        ensures
            value == self@[dim as int],
    {
        self[dim]
    }

    #[inline]
    fn decode<B: bytes::Buf>(_version: u32, dims: &[u64], _buf: B) -> (r: Result<
        Self,
        std::io::Error,
    >)
        ensures
            r is Ok,
            r.unwrap()@ == dims@,
    {
        let mut this = [0u64; DIMS];
        let mut i: usize = 0;
        while i < DIMS
            invariant
                i <= DIMS,
                dims@.len() == DIMS,
                forall|j: int| 0 <= j < i ==> this@[j] == dims@[j],
            decreases DIMS - i,
        {
            this[i] = dims[i];
            i += 1;
        }
        assert(this@ =~= dims@);
        Ok(this)
    }

    #[inline]
    fn encode<B: bytes::BufMut>(&self, _buf: B) -> (r: Result<(), std::io::Error>)
        ensures
            r is Ok,
    {
        Ok(())
    }
}

/// Trait representing IO handlers for dimensional worlds.
pub trait IoHandle: Send + Sync {
    /// Hints if the chunk with given position is valid.
    ///
    /// The world asks before it trusts a chunk that it holds already: when the answer
    /// is `false` it fetches the chunk again. A handler that does not say otherwise
    /// hints that every chunk is valid.
    #[inline]
    fn hint_is_valid(&self, pos: &[usize]) -> (valid: bool)
        default_ensures
            valid,
    {
        let _ = pos;
        true
    }
}

/// Represents error variants produced by this crate.
#[derive(Debug)]
pub enum Error {
    /// IO Error.
    Io(std::io::Error),
    /// Requesting value not found.
    ValueNotFound,
    /// Requesting value was moved to another chunk buffer.
    ///
    /// This is usually due to the target data was not suitable
    /// in the chunk after its modification.
    ValueMoved,
    /// Given value out of range.
    ValueOutOfRange {
        /// The expected range.
        range: (u64, u64),
        /// The value.
        value: u64,
    },
}

impl Error {
    /// The kind of the I/O error, if this is one.
    pub fn io_kind(&self) -> (kind: Option<IoErrorKind>)
        ensures
            kind == match *self {
                Error::Io(error) => Some(io_error_kind(error)),
                _ => None,
            },
    {
        match self {
            Error::Io(error) => Some(io_error_kind_of(error)),
            _ => None,
        }
    }
}

impl<P, T> IoHandle for P where T: IoHandle + 'static, P: Deref<Target = T> + Send + Sync {
    #[inline]
    fn hint_is_valid(&self, pos: &[usize]) -> bool {
        self.deref().hint_is_valid(pos)
    }
}

} // verus!
