//! The byte buffers and I/O errors that the library passes through, and what it
//! relies on of the outside functions that make them.

use vstd::prelude::*;

verus! {

/// `std::io::Error`: carried through as it is, nothing is known of what it holds.
#[verifier::external_type_specification]
#[verifier::external_body]
pub struct ExIoError(std::io::Error);

/// `bytes::Bytes`: an immutable run of bytes that handles share.
#[verifier::external_type_specification]
#[verifier::external_body]
pub struct ExBytes(bytes::Bytes);

/// `bytes::BytesMut`: a run of bytes that can grow.
#[verifier::external_type_specification]
#[verifier::external_body]
pub struct ExBytesMut(bytes::BytesMut);

/// The bytes that a `bytes::Bytes` holds, first to last.
pub uninterp spec fn bytes_view(data: bytes::Bytes) -> Seq<u8>;

/// The bytes that a `bytes::BytesMut` holds, first to last. Spare capacity is no
/// part of them.
pub uninterp spec fn buffer_view(buf: bytes::BytesMut) -> Seq<u8>;

/// The kinds of I/O error that the library tells apart.
#[derive(Clone, Copy, Debug, PartialEq, Eq, Structural)]
pub enum IoErrorKind {
    /// Fewer bytes were there than were asked for.
    UnexpectedEof,
    /// The bytes do not have the layout they should have.
    InvalidData,
    /// Any other kind.
    Other,
}

/// The kind that `std::io::Error::kind` reports of an error, as far as the library
/// tells kinds apart.
pub uninterp spec fn io_error_kind(error: std::io::Error) -> IoErrorKind;

/// `bytes::BytesMut::with_capacity`: a buffer that holds no byte yet. The outside
/// function allocates through `Vec`, which refuses more than `isize::MAX` bytes.
#[verifier::external_body]
pub(crate) fn buffer_with_capacity(capacity: usize) -> (buf: bytes::BytesMut)
    requires
        capacity <= isize::MAX,
    ensures
        buffer_view(buf) == Seq::<u8>::empty(),
{
    bytes::BytesMut::with_capacity(capacity)
}

/// `bytes::BufMut::put_bytes` on a `BytesMut`: appends `cnt` bytes of value `val`,
/// growing the buffer as needed.
#[verifier::external_body]
pub(crate) fn buffer_put_bytes(buf: &mut bytes::BytesMut, val: u8, cnt: usize)
    requires
        buffer_view(*old(buf)).len() + cnt <= isize::MAX,
    ensures
        buffer_view(*final(buf)) == buffer_view(*old(buf)) + Seq::new(cnt as nat, |i: int| val),
{
    bytes::BufMut::put_bytes(buf, val, cnt)
}

/// `bytes::BytesMut::freeze`: the same bytes, now immutable.
#[verifier::external_body]
pub(crate) fn buffer_freeze(buf: bytes::BytesMut) -> (data: bytes::Bytes)
    ensures
        bytes_view(data) == buffer_view(buf),
{
    buf.freeze()
}

/// `bytes::Bytes::copy_from_slice`: a `Bytes` that holds a copy of `data`.
#[verifier::external_body]
pub(crate) fn bytes_copy_from_slice(data: &[u8]) -> (bytes: bytes::Bytes)
    ensures
        bytes_view(bytes) == data@,
{
    bytes::Bytes::copy_from_slice(data)
}

/// `AsRef<[u8]>` of `bytes::Bytes`: the bytes held, as a slice.
#[verifier::external_body]
pub(crate) fn bytes_as_slice(data: &bytes::Bytes) -> (slice: &[u8])
    ensures
        slice@ == bytes_view(*data),
{
    data.as_ref()
}

/// `AsRef<[u8]>` of `bytes::BytesMut`: the bytes held, as a slice.
#[verifier::external_body]
pub(crate) fn buffer_as_slice(buf: &bytes::BytesMut) -> (slice: &[u8])
    ensures
        slice@ == buffer_view(*buf),
{
    buf.as_ref()
}

/// `Clone` of `bytes::Bytes`: another handle on the same bytes.
#[verifier::external_body]
pub(crate) fn bytes_clone(data: &bytes::Bytes) -> (copy: bytes::Bytes)
    ensures
        bytes_view(copy) == bytes_view(*data),
{
    data.clone()
}

/// `bytes::Buf::copy_to_slice` from a `Bytes` into the first `cnt` bytes of a
/// `BytesMut`: the bytes move from the front of `source` over the front of `buf`.
/// The outside function panics when `source` holds fewer than `cnt` bytes, and the
/// slice of `buf` does when `buf` holds fewer.
#[verifier::external_body]
pub(crate) fn bytes_read_into(source: &mut bytes::Bytes, buf: &mut bytes::BytesMut, cnt: usize)
    requires
        cnt <= bytes_view(*old(source)).len(),
        cnt <= buffer_view(*old(buf)).len(),
    ensures
        bytes_view(*final(source)) == bytes_view(*old(source)).skip(cnt as int),
        buffer_view(*final(buf)) == bytes_view(*old(source)).take(cnt as int) + buffer_view(
            *old(buf),
        ).skip(cnt as int),
{
    bytes::Buf::copy_to_slice(source, &mut buf[..cnt])
}

/// `std::io::Error::new`: an error of the given kind that carries `message`.
#[verifier::external_body]
pub(crate) fn io_error(kind: IoErrorKind, message: String) -> (error: std::io::Error)
    ensures
        io_error_kind(error) == kind,
{
    let kind = match kind {
        IoErrorKind::UnexpectedEof => std::io::ErrorKind::UnexpectedEof,
        IoErrorKind::InvalidData => std::io::ErrorKind::InvalidData,
        IoErrorKind::Other => std::io::ErrorKind::Other,
    };
    std::io::Error::new(kind, message)
}

/// `format!`: the words for a read that brought `act_len` bytes where `len` were
/// expected. Nothing is claimed of them.
#[verifier::external_body]
pub(crate) fn short_read_message(act_len: usize, len: usize) -> String {
    format!("read {act_len} bytes, expected {len} bytes")
}

/// `std::io::Error::kind`, told apart as far as the library needs.
#[verifier::external_body]
pub(crate) fn io_error_kind_of(error: &std::io::Error) -> (kind: IoErrorKind)
    ensures
        kind == io_error_kind(*error),
{
    match error.kind() {
        std::io::ErrorKind::UnexpectedEof => IoErrorKind::UnexpectedEof,
        std::io::ErrorKind::InvalidData => IoErrorKind::InvalidData,
        _ => IoErrorKind::Other,
    }
}

} // verus!
