//! Turning a ready chunk into per-channel data with a scheduled start.
//!
//! Time is measured in sample frames of the session's rate: a chunk of `n`
//! frames lasts exactly `n` units, so `start + n` is the first frame at
//! which the next chunk may begin.

use crate::StreamError;
use vstd::prelude::*;

verus! {

/// Samples of channel `c` in de-interleaved order: sample `i` of channel
/// `c` sits at interleaved index `i * channels + c`.
pub open spec fn channel_samples(data: Seq<i16>, channels: int, c: int) -> Seq<i16> {
    Seq::new((data.len() as int / channels) as nat, |i: int| data[i * channels + c])
}

/// Scheduled start of a chunk: never earlier than the running cursor and
/// never earlier than the device clock's current position.
pub open spec fn start_frame_spec(cursor: int, now: int) -> int {
    vstd::math::max(cursor, now)
}

/// The cursor after a chunk plays: its start plus its duration, the number
/// of sample frames it holds.
pub open spec fn cursor_after_spec(cursor: int, now: int, samples: int) -> int {
    start_frame_spec(cursor, now) + samples
}

/// A chunk ready for the output device: one sample vector per channel, the
/// frame position at which playback begins, and its length in frames.
pub struct ScheduledChunk {
    pub channel_data: Vec<Vec<i16>>,
    pub start_frame: u64,
    pub samples_per_channel: u64,
}

/// Pick the start frame for the next chunk from the playback cursor and the
/// device clock's current frame position.
pub fn next_start_frame(cursor: u64, now: u64) -> (start: u64)
    ensures
        start == start_frame_spec(cursor as int, now as int),
{
    if cursor >= now {
        cursor
    } else {
        now
    }
}

/// De-interleave a chunk into one sample vector per channel.
pub fn deinterleave(data: &Vec<i16>, channels: u32) -> (r: Vec<Vec<i16>>)
    requires
        channels >= 1,
        data@.len() as int % (channels as int) == 0,
    ensures
        r@.len() == channels as int,
        forall|c: int|
            0 <= c < channels as int ==> r@[c]@ == channel_samples(data@, channels as int, c),
{
    let len: usize = data.len();
    let ch: usize = channels as usize;
    let samples: usize = len / ch;
    proof {
        vstd::arithmetic::div_mod::lemma_fundamental_div_mod(len as int, ch as int);
        assert(len as int == (ch as int) * (samples as int));
    }
    let mut r: Vec<Vec<i16>> = Vec::new();
    let mut c: usize = 0;
    while c < ch
        invariant
            c <= ch,
            ch == channels as usize,
            ch >= 1,
            len == data@.len(),
            len as int == (ch as int) * (samples as int),
            samples as int == data@.len() as int / (ch as int),
            r@.len() == c,
            forall|cc: int| 0 <= cc < c ==> r@[cc]@ == channel_samples(data@, ch as int, cc),
        decreases ch - c,
    {
        let mut chan: Vec<i16> = Vec::new();
        let mut i: usize = 0;
        while i < samples
            invariant
                i <= samples,
                c < ch,
                ch >= 1,
                len == data@.len(),
                len as int == (ch as int) * (samples as int),
                samples as int == data@.len() as int / (ch as int),
                chan@.len() == i,
                forall|k: int| 0 <= k < i ==> chan@[k] == data@[k * (ch as int) + c],
            decreases samples - i,
        {
            proof {
                assert(i * (ch as int) + c < len && 0 <= i * (ch as int)) by (nonlinear_arith)
                    requires
                        0 <= i < samples,
                        0 <= c < ch,
                        len as int == (ch as int) * (samples as int),
                ;
            }
            chan.push(data[i * ch + c]);
            i = i + 1;
        }
        proof {
            assert(chan@ =~= channel_samples(data@, ch as int, c as int)) by {
                assert(samples as int == data@.len() as int / (ch as int));
            }
        }
        r.push(chan);
        c = c + 1;
    }
    r
}

/// Turn a ready chunk into de-interleaved per-channel data scheduled at the
/// later of the cursor and the device clock, and advance the cursor to the
/// chunk's end; refused only when that end would not fit in a frame count.
pub fn schedule_chunk(chunk: &Vec<i16>, channels: u32, cursor: u64, now: u64) -> (r: Result<
    (ScheduledChunk, u64),
    StreamError,
>)
    requires
        channels >= 1,
        chunk@.len() as int % (channels as int) == 0,
    ensures
        ({
            let samples = chunk@.len() as int / (channels as int);
            match r {
                Ok(p) => {
                    &&& cursor_after_spec(cursor as int, now as int, samples) <= u64::MAX
                    &&& p.0.start_frame == start_frame_spec(cursor as int, now as int)
                    &&& p.0.samples_per_channel == samples
                    &&& p.1 == cursor_after_spec(cursor as int, now as int, samples)
                    &&& p.1 >= cursor && p.1 >= now && p.0.start_frame >= cursor
                        && p.0.start_frame >= now
                    &&& p.0.channel_data@.len() == channels as int
                    &&& forall|c: int|
                        0 <= c < channels as int ==> p.0.channel_data@[c]@ == channel_samples(
                            chunk@,
                            channels as int,
                            c,
                        )
                },
                Err(e) => {
                    &&& e == StreamError::ScheduleOverflow
                    &&& cursor_after_spec(cursor as int, now as int, samples) > u64::MAX
                },
            }
        }),
{
    let samples: usize = chunk.len() / (channels as usize);
    let start: u64 = next_start_frame(cursor, now);
    let samples64: u64 = samples as u64;
    if samples64 > u64::MAX - start {
        return Err(StreamError::ScheduleOverflow);
    }
    let channel_data = deinterleave(chunk, channels);
    Ok(
        (
            ScheduledChunk { channel_data, start_frame: start, samples_per_channel: samples64 },
            start + samples64,
        ),
    )
}

/// The playback host normalizes each sample by dividing it by 32768; this
/// is the integer heart of that convention: a sample's magnitude reaches
/// the divisor only at the most negative sample, which therefore maps to
/// exactly minus one, while every other sample, the most positive
/// included, maps strictly inside the unit range.
pub proof fn lemma_normalization_asymmetric(s: i16)
    ensures
        vstd::math::abs(s as int) <= 32768,
        vstd::math::abs(s as int) == 32768 <==> s == i16::MIN,
{
}

/// Starts and cursor positions of a whole session: for each chunk, paired
/// with the device clock reading and frame count at its scheduling, the
/// start it is given and the cursor after it.
pub open spec fn schedule_trace(cursor0: int, events: Seq<(int, int)>) -> Seq<(int, int)>
    decreases events.len(),
{
    if events.len() == 0 {
        Seq::empty()
    } else {
        let prev = schedule_trace(cursor0, events.drop_last());
        let cur = if events.len() == 1 {
            cursor0
        } else {
            prev.last().1
        };
        let e = events.last();
        prev.push((start_frame_spec(cur, e.0), cursor_after_spec(cur, e.0, e.1)))
    }
}

/// Chunks scheduled in order play back to back without gaps being forced or
/// overlap: each start is no earlier than the device clock at its
/// scheduling, each chunk ends exactly its duration after it starts, the
/// next chunk starts no earlier than that end, and the cursor never moves
/// backwards.
pub proof fn lemma_schedule_trace_ordered(cursor0: int, events: Seq<(int, int)>)
    requires
        forall|i: int| 0 <= i < events.len() ==> (#[trigger] events[i]).1 >= 0,
    ensures
        ({
            let trace = schedule_trace(cursor0, events);
            &&& trace.len() == events.len()
            &&& forall|k: int| 0 <= k < trace.len() ==> (#[trigger] trace[k]).0 >= events[k].0
            &&& forall|k: int|
                0 <= k < trace.len() ==> (#[trigger] trace[k]).1 == trace[k].0 + events[k].1
            &&& forall|k: int|
                0 <= k < trace.len() - 1 ==> (#[trigger] trace[k + 1]).0 >= trace[k].1
            &&& forall|k: int|
                0 <= k < trace.len() - 1 ==> (#[trigger] trace[k + 1]).1 >= trace[k].1
            &&& trace.len() > 0 ==> trace[0].0 >= cursor0
        }),
    decreases events.len(),
{
    if events.len() > 0 {
        lemma_schedule_trace_ordered(cursor0, events.drop_last());
    }
}

} // verus!
