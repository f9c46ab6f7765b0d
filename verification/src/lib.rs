//! Adaptive re-buffering and playback scheduling for streamed PCM audio.
//!
//! Arriving packets of interleaved signed 16-bit samples are queued,
//! coalesced into one contiguous buffer, cut at the quietest frame inside an
//! allowed window, and the leading piece is scheduled against a monotonically
//! advancing playback cursor measured in sample frames.

use vstd::prelude::*;

pub mod audio;
pub mod codec;
pub mod schedule;
pub mod session;

verus! {

/// Why the stream core refused to act on an input.
#[derive(Clone, Copy, Debug, PartialEq, Eq, Structural)]
pub enum StreamError {
    /// A packet's byte length is not a whole number of frames, so it was
    /// rejected before entering the pending queue.
    MalformedPacket,
    /// Scheduling the chunk would push the playback cursor past the largest
    /// representable frame position.
    ScheduleOverflow,
}

} // verus!
