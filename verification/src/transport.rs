//! The byte-stream boundary the core runs over. Connection establishment,
//! TLS and blocking behaviour are the implementor's concern; the core only
//! writes whole buffers and reads exact counts of bytes.

use vstd::prelude::*;
use crate::error::MgError;

verus! {

/// A blocking byte stream. Implementations must either transfer exactly what
/// was asked or fail; short reads and writes are handled below this boundary.
///
/// `stream_bound` is the ghost model of the stream's finiteness: an upper
/// bound on the bytes the transport will still deliver. Every successful read
/// consumes from it and a write never replenishes it, which is what makes
/// the core's receive loops terminate: a transport either keeps delivering
/// from a finite stream or eventually fails.
pub trait Transport {
    /// Ghost bound on the bytes this transport will still deliver.
    open spec fn stream_bound(&self) -> nat {
        0
    }

    /// Writes all of `data`, or fails.
    fn write_all(&mut self, data: &[u8]) -> (r: Result<(), MgError>)
        ensures
            final(self).stream_bound() <= old(self).stream_bound(),
    ;

    /// Reads exactly `n` bytes, or fails (also on a clean end of stream).
    fn read_exact(&mut self, n: usize) -> (r: Result<Vec<u8>, MgError>)
        ensures
            final(self).stream_bound() <= old(self).stream_bound(),
            r matches Ok(b) ==> b@.len() == n,
            (r is Ok && n > 0) ==> final(self).stream_bound() < old(self).stream_bound(),
    ;
}

} // verus!
