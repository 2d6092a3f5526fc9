//! The failure conditions of the codec. All failures are surfaced
//! synchronously to the caller; none is recovered from internally.

use vstd::prelude::*;

verus! {

/// Why an encode or decode operation failed.
#[derive(Clone, Copy, Debug, PartialEq, Eq, Structural)]
pub enum StegoError {
    /// The slot allocator ran out of bit planes: every bit of every channel
    /// byte has been used and more slots were requested. Writes already made
    /// are not rolled back; the caller must discard the buffer.
    CapacityExhausted,
    /// A pre-flight capacity check failed before anything was written; the
    /// carrier is unchanged and a retry with a larger carrier is safe.
    CarrierTooSmall,
    /// A framing value does not fit its fixed bit width.
    Overflow,
    /// A decode ran, or would run, past the end of the carrier: the stream
    /// claims more payload than the carrier can hold.
    MalformedStream,
}

} // verus!
