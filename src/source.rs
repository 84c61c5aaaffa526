//! The one operation the reader asks of its source: read some bytes.

use vstd::prelude::*;

verus! {

#[verifier::external_type_specification]
#[verifier::external_body]
pub struct ExIoError(std::io::Error);

/// Relies on `std::io::Read::read` on `buf[start..]`, called again for as long
/// as it fails with `ErrorKind::Interrupted`, as its documentation advises.
/// The bytes before `start` are not handed to the source, and a successful
/// read reports at most as many bytes as it was given room for (the trait
/// documentation requires `n <= buf.len()` of every implementation).
///
/// The retry stands here rather than in the reader: a source may be
/// interrupted any number of times, so no measure shows such a loop to end.
#[verifier::external_body]
pub(crate) fn read_into<R: std::io::Read>(src: &mut R, buf: &mut Vec<u8>, start: usize) -> (r:
    Result<usize, std::io::Error>)
    requires
        start < old(buf)@.len(),
    ensures
        final(buf)@.len() == old(buf)@.len(),
        final(buf)@.subrange(0, start as int) == old(buf)@.subrange(0, start as int),
        r matches Ok(n) ==> n <= old(buf)@.len() - start,
{
    loop {
        match src.read(&mut buf[start..]) {
            Err(e) if e.kind() == std::io::ErrorKind::Interrupted => {},
            other => return other,
        }
    }
}

} // verus!
