//! One streaming session: the pending packet queue, the fixed channel
//! configuration and the playback cursor, driven one packet at a time.

use crate::StreamError;
use crate::audio::{
    concat_all, join_packets, lemma_concat_all_frames, lemma_deque_deep_view_index,
    lemma_split_shape, lemma_vec_deep_view, split_packet, split_spec,
};
use crate::codec::{decode_packet, decoded_samples, valid_payload_len};
use crate::schedule::{
    ScheduledChunk, channel_samples, cursor_after_spec, schedule_chunk, start_frame_spec,
};
use std::collections::VecDeque;
use vstd::prelude::*;

verus! {

/// The fixed audio format of one session.
#[derive(Clone, Copy, Debug, PartialEq, Eq, Structural)]
pub struct ChannelConfig {
    pub channels: u32,
    pub sample_rate: u32,
    pub bytes_per_sample: u32,
}

impl ChannelConfig {
    /// A usable configuration: at least one channel, a positive sample rate
    /// and a positive sample width.
    pub open spec fn wf(self) -> bool {
        self.channels >= 1 && self.sample_rate >= 1 && self.bytes_per_sample >= 1
    }

    /// Whether the configuration is usable; callers outside verified code
    /// test this before starting a session.
    pub fn valid(&self) -> (b: bool)
        ensures
            b == self.wf(),
    {
        self.channels >= 1 && self.sample_rate >= 1 && self.bytes_per_sample >= 1
    }
}

/// One session's owned state: the queue of buffers awaiting coalescing, the
/// session's format, and the playback cursor in sample frames.
pub struct StreamSession {
    pub config: ChannelConfig,
    pub pending: VecDeque<Vec<i16>>,
    pub cursor: u64,
}

impl StreamSession {
    /// The session invariant: a usable format, and every queued buffer
    /// holding a whole number of frames of it.
    pub open spec fn wf(self) -> bool {
        &&& self.config.wf()
        &&& forall|i: int|
            0 <= i < self.pending@.len() ==> (#[trigger] self.pending@[i])@.len() as int % (
            self.config.channels as int) == 0
    }

    /// Start a session: an empty pending queue and a cursor at zero.
    pub fn new(config: ChannelConfig) -> (s: StreamSession)
        requires
            config.wf(),
        ensures
            s.wf(),
            s.config == config,
            s.pending@.len() == 0,
            s.cursor == 0,
    {
        StreamSession { config, pending: VecDeque::new(), cursor: 0 }
    }

    /// Handle one arriving packet. A payload that is not a whole number of
    /// frames is rejected untouched. Otherwise it is decoded, queued,
    /// coalesced with everything pending and re-cut: when no cut is found
    /// the whole coalesced buffer stays pending and nothing plays yet; when
    /// a cut is found the piece before it is de-interleaved and scheduled at
    /// the later of the cursor and the device clock, the cursor advances to
    /// that chunk's end, and the remainder becomes the new pending queue.
    /// A chunk whose end would overflow the frame counter is left queued in
    /// full and reported, so no samples are lost.
    pub fn handle_message(&mut self, payload: &Vec<u8>, now: u64) -> (r: Result<
        Option<ScheduledChunk>,
        StreamError,
    >)
        requires
            old(self).wf(),
        ensures
            final(self).wf(),
            final(self).config == old(self).config,
            final(self).cursor >= old(self).cursor,
            ({
                let ch = old(self).config.channels as int;
                let rate = old(self).config.sample_rate as int;
                let bps = old(self).config.bytes_per_sample as int;
                if !valid_payload_len(payload@.len() as int, ch, bps) {
                    &&& r matches Err(StreamError::MalformedPacket)
                    &&& *final(self) == *old(self)
                } else {
                    let queued = old(self).pending.deep_view().push(decoded_samples(payload@));
                    let parts = split_spec(concat_all(queued), ch, rate);
                    if parts.len() == 1 {
                        &&& r matches Ok(None)
                        &&& final(self).pending.deep_view() == parts
                        &&& final(self).cursor == old(self).cursor
                    } else {
                        let samples = parts[0].len() as int / ch;
                        if cursor_after_spec(old(self).cursor as int, now as int, samples)
                            > u64::MAX {
                            &&& r matches Err(StreamError::ScheduleOverflow)
                            &&& final(self).pending.deep_view() == parts
                            &&& final(self).cursor == old(self).cursor
                        } else {
                            &&& r matches Ok(Some(sc)) && {
                                &&& sc.start_frame == start_frame_spec(
                                    old(self).cursor as int,
                                    now as int,
                                )
                                &&& sc.samples_per_channel == samples
                                &&& sc.channel_data@.len() == ch
                                &&& forall|c: int|
                                    0 <= c < ch ==> (#[trigger] sc.channel_data@[c])@
                                        == channel_samples(parts[0], ch, c)
                            }
                            &&& final(self).pending.deep_view() == parts.skip(1)
                            &&& final(self).cursor == cursor_after_spec(
                                old(self).cursor as int,
                                now as int,
                                samples,
                            )
                        }
                    }
                }
            }),
    {
        let channels = self.config.channels;
        let rate = self.config.sample_rate;
        let bytes = self.config.bytes_per_sample;
        let packet = match decode_packet(payload, channels, bytes) {
            Ok(p) => p,
            Err(e) => {
                return Err(e);
            },
        };
        let ghost q0 = self.pending.deep_view();
        let ghost queued = q0.push(decoded_samples(payload@));
        let mut work: VecDeque<Vec<i16>> = VecDeque::new();
        core::mem::swap(&mut work, &mut self.pending);
        work.push_back(packet);
        proof {
            assert forall|i: int| 0 <= i < work.deep_view().len() implies work.deep_view()[i]
                == queued[i] by {
                lemma_deque_deep_view_index(work, i);
                if i < q0.len() {
                    lemma_deque_deep_view_index(old(self).pending, i);
                }
                lemma_vec_deep_view(work@[i]);
            }
            assert(work.deep_view() =~= queued);
            assert forall|i: int| 0 <= i < work@.len() implies (#[trigger] work@[i])@.len() as int
                % (channels as int) == 0 by {
                lemma_deque_deep_view_index(work, i);
            }
        }
        let ghost qview = work.deep_view();
        let joined = join_packets(work);
        let data = joined.unwrap();
        proof {
            lemma_concat_all_frames(qview, channels as int);
            lemma_split_shape(concat_all(qview), channels as int, rate as int);
        }
        let ghost partsview = split_spec(concat_all(queued), channels as int, rate as int);
        let mut parts = split_packet(data, channels, rate, bytes);
        proof {
            assert(parts.deep_view() == partsview);
            assert(parts@.len() == partsview.len());
        }
        if parts.len() > 1 {
            let chunk = parts.pop_front().unwrap();
            proof {
                lemma_vec_deep_view(chunk);
                assert(chunk@ == partsview[0]);
                assert forall|i: int| 0 <= i < parts.deep_view().len() implies parts.deep_view()[i]
                    == partsview.skip(1)[i] by {
                    lemma_deque_deep_view_index(parts, i);
                }
                assert(parts.deep_view() =~= partsview.skip(1));
            }
            match schedule_chunk(&chunk, channels, self.cursor, now) {
                Ok(p) => {
                    let (sc, new_cursor) = p;
                    self.pending = parts;
                    self.cursor = new_cursor;
                    proof {
                        assert forall|i: int| 0 <= i < self.pending@.len() implies (
                        #[trigger] self.pending@[i])@.len() as int % (channels as int) == 0 by {
                            lemma_deque_deep_view_index(self.pending, i);
                        }
                    }
                    Ok(Some(sc))
                },
                Err(e) => {
                    parts.push_front(chunk);
                    proof {
                        assert forall|i: int| 0 <= i < parts.deep_view().len() implies
                            parts.deep_view()[i] == partsview[i] by {
                            lemma_deque_deep_view_index(parts, i);
                        }
                        assert(parts.deep_view() =~= partsview);
                        assert forall|i: int| 0 <= i < parts@.len() implies (
                        #[trigger] parts@[i])@.len() as int % (channels as int) == 0 by {
                            lemma_deque_deep_view_index(parts, i);
                        }
                    }
                    self.pending = parts;
                    Err(e)
                },
            }
        } else {
            proof {
                assert forall|i: int| 0 <= i < parts@.len() implies (#[trigger] parts@[i])@.len()
                    as int % (channels as int) == 0 by {
                    lemma_deque_deep_view_index(parts, i);
                }
            }
            self.pending = parts;
            Ok(None)
        }
    }
}

} // verus!
