//! The calls into the standard library's I/O traits that the buffer and the reader make.
//!
//! Nothing is stated of what a source hands back beyond what Rust's types guarantee: the
//! results depend on the source, which is outside this library.

use crate::error::ReadError;
use vstd::prelude::*;
use vstd::utf8::{encode_utf8, valid_utf8};

verus! {

/// A position to seek to, as in `std::io::SeekFrom`.
#[derive(Clone, Copy, Debug, PartialEq, Eq, Structural)]
pub enum SeekPos {
    Start(u64),
    End(i64),
    Current(i64),
}

/// `std::io::Read::read` into `buf`; an error of kind `Interrupted` comes back as
/// `ReadError::Interrupted`, any other as `ReadError::Io`. The slice keeps its length (a
/// slice cannot change length); nothing is stated of the count or of the bytes written.
#[verifier::external_body]
pub(crate) fn read_into<R: std::io::Read>(src: &mut R, buf: &mut [u8]) -> (res: Result<usize, ReadError>)
    ensures
        final(buf)@.len() == old(buf)@.len(),
        res matches Err(e) ==> e is Interrupted || e is Io,
{
    match src.read(buf) {
        Ok(n) => Ok(n),
        Err(e) => if e.kind() == std::io::ErrorKind::Interrupted {
            Err(ReadError::Interrupted(e))
        } else {
            Err(ReadError::Io(e))
        },
    }
}

/// `std::io::Read::read_vectored` into the given buffers, each handed over through
/// `std::io::IoSliceMut::new`; an error of kind `Interrupted` comes back as
/// `ReadError::Interrupted`, any other as `ReadError::Io`. `IoSliceMut::new` panics on Windows
/// for a slice longer than `u32::MAX` bytes, so no buffer may be longer. The buffers keep their
/// number and lengths (they are handed over as slices); nothing is stated of the count or of
/// the bytes written.
#[verifier::external_body]
pub(crate) fn read_vectored_into<R: std::io::Read>(src: &mut R, bufs: &mut Vec<Vec<u8>>) -> (res: Result<usize, ReadError>)
    requires
        forall|i: int| 0 <= i < old(bufs)@.len() ==> #[trigger] old(bufs)@[i]@.len() <= u32::MAX,
    ensures
        final(bufs)@.len() == old(bufs)@.len(),
        forall|i: int| 0 <= i < old(bufs)@.len() ==> #[trigger] final(bufs)@[i]@.len() == old(bufs)@[i]@.len(),
        res matches Err(e) ==> e is Interrupted || e is Io,
{
    let mut slices: Vec<std::io::IoSliceMut<'_>> =
        bufs.iter_mut().map(|b| std::io::IoSliceMut::new(b.as_mut_slice())).collect();
    match src.read_vectored(&mut slices) {
        Ok(n) => Ok(n),
        Err(e) => if e.kind() == std::io::ErrorKind::Interrupted {
            Err(ReadError::Interrupted(e))
        } else {
            Err(ReadError::Io(e))
        },
    }
}

/// `std::io::Read::read_to_end`: per its documentation, every byte read is appended to `buf`
/// and the bytes already in `buf` stay, also on error; on success the count is the number of
/// bytes appended. Its error comes back as `ReadError::Io`.
#[verifier::external_body]
pub(crate) fn read_to_end_into<R: std::io::Read>(src: &mut R, buf: &mut Vec<u8>) -> (res: Result<usize, ReadError>)
    ensures
        final(buf)@.len() >= old(buf)@.len(),
        final(buf)@.subrange(0, old(buf)@.len() as int) == old(buf)@,
        res matches Ok(n) ==> final(buf)@.len() == old(buf)@.len() + n,
        res matches Err(e) ==> e is Io,
{
    src.read_to_end(buf).map_err(|e| ReadError::Io(e))
}

/// `std::io::Seek::seek`; its error comes back as `ReadError::Io`. Nothing is stated of the new
/// position: it depends on the source.
#[verifier::external_body]
pub(crate) fn seek_to<R: std::io::Seek>(src: &mut R, pos: SeekPos) -> (res: Result<u64, ReadError>)
    ensures
        res matches Err(e) ==> e is Io,
{
    let from = match pos {
        SeekPos::Start(n) => std::io::SeekFrom::Start(n),
        SeekPos::End(n) => std::io::SeekFrom::End(n),
        SeekPos::Current(n) => std::io::SeekFrom::Current(n),
    };
    src.seek(from).map_err(|e| ReadError::Io(e))
}

/// `std::io::Seek::stream_position`; its error comes back as `ReadError::Io`. Nothing is stated
/// of the position: it depends on the source.
#[verifier::external_body]
pub(crate) fn stream_position_of<R: std::io::Seek>(src: &mut R) -> (res: Result<u64, ReadError>)
    ensures
        res matches Err(e) ==> e is Io,
{
    src.stream_position().map_err(|e| ReadError::Io(e))
}

/// `std::str::from_utf8`: per its documentation it succeeds exactly when the bytes are valid
/// UTF-8, and the string it returns is those bytes.
#[verifier::external_body]
pub(crate) fn utf8_str(bytes: &[u8]) -> (res: Option<&str>)
    ensures
        res is Some <==> valid_utf8(bytes@),
        res matches Some(s) ==> encode_utf8(s@) == bytes@,
{
    std::str::from_utf8(bytes).ok()
}

/// `Vec::shrink_to_fit`, which per its documentation releases spare allocation and leaves the
/// contents unchanged.
#[verifier::external_body]
pub(crate) fn shrink_to_fit(v: &mut Vec<u8>)
    ensures
        final(v)@ == old(v)@,
{
    v.shrink_to_fit()
}

} // verus!
