//! The write capability that carries report packets to the panel.
//!
//! The protocol logic is written against the small `HidAdapter` trait; the
//! crate supplies `MemSink`, an in-memory recorder that keeps every write for
//! inspection, and an adapter over the real transport can implement the same
//! trait outside the verified core.

use vstd::prelude::*;
use vstd::slice::slice_to_vec;

verus! {

/// The failures the screen surfaces to its callers.
///
/// `DeviceNotFound`: no enumerated device matches the requested identity.
/// `DeviceOpenFailure`: the transport failed while opening a device.
/// `WriteFailure`: the transport failed while writing a report.
/// `DecodeFailure`: an image or font collaborator could not decode its input.
#[derive(Debug, Clone, Copy, PartialEq, Eq, Structural)]
pub enum ScreenError {
    DeviceNotFound,
    DeviceOpenFailure,
    WriteFailure,
    DecodeFailure,
}

/// A sink that accepts byte blocks and reports how many bytes it took, or a
/// failure. `log()` is the sequence of blocks accepted so far: a successful
/// write appends its block, a failed write appends nothing. A sink whose
/// `infallible()` holds promises that no write of it ever fails.
pub trait HidAdapter: Sized {
    spec fn log(&self) -> Seq<Seq<u8>>;

    spec fn infallible() -> bool;

    fn write(&mut self, data: &[u8]) -> (r: Result<usize, ScreenError>)
        ensures
            r is Ok ==> final(self).log() == old(self).log().push(data@),
            r is Err ==> final(self).log() == old(self).log(),
            Self::infallible() ==> r is Ok,
    ;
}

/// An in-memory sink that records every write and never fails.
pub struct MemSink {
    writes: Vec<Vec<u8>>,
}

impl MemSink {
    /// A recorder with an empty log.
    pub fn new() -> (r: MemSink)
        ensures
            r.log().len() == 0,
    {
        MemSink { writes: Vec::new() }
    }

    /// How many writes the recorder has accepted.
    pub open spec fn write_count(&self) -> nat {
        self.log().len()
    }

    /// The number of recorded writes.
    pub fn count_writes(&self) -> (r: usize)
        ensures
            r == self.write_count(),
    {
        self.writes.len()
    }

    /// The bytes of the recorded write at `i`.
    pub fn write_at(&self, i: usize) -> (r: &Vec<u8>)
        requires
            i < self.write_count(),
        ensures
            r@ == self.log()[i as int],
    {
        &self.writes[i]
    }
}

/// A sink that refuses every write with `WriteFailure` and records nothing,
/// for exercising the failure paths of the send protocol.
pub struct FailingSink;

impl HidAdapter for FailingSink {
    open spec fn log(&self) -> Seq<Seq<u8>> {
        Seq::empty()
    }

    open spec fn infallible() -> bool {
        false
    }

    fn write(&mut self, _data: &[u8]) -> (r: Result<usize, ScreenError>) {
        Err(ScreenError::WriteFailure)
    }
}

impl HidAdapter for MemSink {
    closed spec fn log(&self) -> Seq<Seq<u8>> {
        self.writes@.map_values(|w: Vec<u8>| w@)
    }

    open spec fn infallible() -> bool {
        true
    }

    fn write(&mut self, data: &[u8]) -> (r: Result<usize, ScreenError>) {
        let block = slice_to_vec(data);
        self.writes.push(block);
        proof {
            assert(self.log() =~= old(self).log().push(data@));
        }
        Ok(data.len())
    }
}

} // verus!
