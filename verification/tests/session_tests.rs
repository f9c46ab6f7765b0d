use pcm_stream::StreamError;
use pcm_stream::session::{ChannelConfig, StreamSession};
use std::collections::VecDeque;

// One channel of 16-bit samples at rate 100: the guard is 2 frames, so a
// buffer of n samples is scanned from sample max(2, n - 2) onward.
fn mono_config() -> ChannelConfig {
    ChannelConfig { channels: 1, sample_rate: 100, bytes_per_sample: 2 }
}

fn encode(samples: &[i16]) -> Vec<u8> {
    let mut bytes = Vec::new();
    for s in samples {
        let le = s.to_le_bytes();
        bytes.push(le[0]);
        bytes.push(le[1]);
    }
    bytes
}

#[test]
fn config_validity() {
    assert!(mono_config().valid());
    assert!(!ChannelConfig { channels: 0, sample_rate: 100, bytes_per_sample: 2 }.valid());
    assert!(!ChannelConfig { channels: 1, sample_rate: 0, bytes_per_sample: 2 }.valid());
    assert!(!ChannelConfig { channels: 1, sample_rate: 100, bytes_per_sample: 0 }.valid());
}

#[test]
fn session_starts_empty_at_cursor_zero() {
    let s = StreamSession::new(mono_config());
    assert_eq!(s.pending.len(), 0);
    assert_eq!(s.cursor, 0);
}

#[test]
fn session_rejects_malformed_packet_untouched() {
    let mut s = StreamSession::new(mono_config());
    let r = s.handle_message(&vec![1u8, 2, 3], 0);
    assert!(matches!(r, Err(StreamError::MalformedPacket)));
    assert_eq!(s.pending.len(), 0);
    assert_eq!(s.cursor, 0);
}

#[test]
fn session_buffers_until_a_cut_is_found() {
    let mut s = StreamSession::new(mono_config());
    // A constant buffer ties everywhere, the last frame wins the tie, and a
    // cut after the last frame is no cut: nothing is scheduled yet.
    let r = s.handle_message(&encode(&[5, 5, 5, 5]), 0).unwrap();
    assert!(r.is_none());
    assert_eq!(s.pending, VecDeque::from(vec![vec![5i16, 5, 5, 5]]));
    assert_eq!(s.cursor, 0);
}

#[test]
fn session_schedules_first_piece_and_requeues_remainder() {
    let mut s = StreamSession::new(mono_config());
    let chunk = s.handle_message(&encode(&[10, 20, 30, 40, 0, 50]), 7).unwrap().unwrap();
    assert_eq!(chunk.channel_data, vec![vec![10i16, 20, 30, 40, 0]]);
    assert_eq!(chunk.start_frame, 7);
    assert_eq!(chunk.samples_per_channel, 5);
    assert_eq!(s.cursor, 12);
    assert_eq!(s.pending, VecDeque::from(vec![vec![50i16]]));
}

#[test]
fn session_coalesces_remainder_with_next_packet() {
    let mut s = StreamSession::new(mono_config());
    s.handle_message(&encode(&[10, 20, 30, 40, 0, 50]), 7).unwrap().unwrap();
    // The queued remainder [50] is coalesced in front of the new packet;
    // the scan of the seven samples covers the last two and cuts before the
    // loudest tail sample.
    let chunk = s.handle_message(&encode(&[60, 70, 0, 80, 90, 100]), 10).unwrap().unwrap();
    assert_eq!(chunk.channel_data, vec![vec![50i16, 60, 70, 0, 80, 90]]);
    // The cursor was ahead of the device clock, so this chunk starts
    // exactly at the previous chunk's end: no gap and no overlap.
    assert_eq!(chunk.start_frame, 12);
    assert_eq!(s.cursor, 18);
    assert_eq!(s.pending, VecDeque::from(vec![vec![100i16]]));
}

#[test]
fn session_cursor_never_moves_backwards() {
    let mut s = StreamSession::new(mono_config());
    let mut last_cursor = 0u64;
    let mut last_end: Option<u64> = None;
    for now in [3u64, 0, 50, 2] {
        let r = s.handle_message(&encode(&[10, 20, 30, 40, 0, 50]), now).unwrap();
        assert!(s.cursor >= last_cursor);
        last_cursor = s.cursor;
        if let Some(chunk) = r {
            assert!(chunk.start_frame >= now);
            if let Some(end) = last_end {
                assert!(chunk.start_frame >= end);
            }
            last_end = Some(chunk.start_frame + chunk.samples_per_channel);
        }
    }
}

#[test]
fn session_overflow_keeps_all_samples_queued() {
    let mut s = StreamSession::new(mono_config());
    s.cursor = u64::MAX;
    let r = s.handle_message(&encode(&[10, 20, 30, 40, 0, 50]), 0);
    assert!(matches!(r, Err(StreamError::ScheduleOverflow)));
    assert_eq!(s.cursor, u64::MAX);
    let queued: usize = s.pending.iter().map(|b| b.len()).sum();
    assert_eq!(queued, 6);
    assert_eq!(s.pending, VecDeque::from(vec![vec![10i16, 20, 30, 40, 0], vec![50i16]]));
}
