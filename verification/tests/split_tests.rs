use pcm_stream::audio::{join_packets, split_packet};
use std::collections::VecDeque;

// A stereo buffer at 48 kHz: guard = 960 frames, so for 2000 frames per
// channel the scan window starts at sample index
// max(2 * 960, 2 * (2000 - 960)) = 2080.
const CHANNELS: u32 = 2;
const RATE: u32 = 48000;
const BYTES: u32 = 2;

fn loud_stereo(frames: usize) -> Vec<i16> {
    vec![100i16; frames * 2]
}

#[test]
fn split_short_buffer_returns_whole() {
    // 900 frames per channel is under the 960-frame guard, so the window
    // starts at sample 1920, past the 1800-sample buffer: no split.
    let data = loud_stereo(900);
    let parts = split_packet(data.clone(), CHANNELS, RATE, BYTES);
    assert_eq!(parts, VecDeque::from(vec![data]));
}

#[test]
fn split_constant_buffer_returns_whole() {
    // Every scanned frame ties; the latest wins, and a cut just after the
    // last frame means no split.
    let data = loud_stereo(2000);
    let parts = split_packet(data.clone(), CHANNELS, RATE, BYTES);
    assert_eq!(parts, VecDeque::from(vec![data]));
}

#[test]
fn split_picks_quietest_frame_in_window() {
    let mut data = loud_stereo(2000);
    data[3000] = 0;
    data[3001] = 0;
    let parts = split_packet(data.clone(), CHANNELS, RATE, BYTES);
    assert_eq!(parts.len(), 2);
    assert_eq!(parts[0], data[..3002].to_vec());
    assert_eq!(parts[1], data[3002..].to_vec());
}

#[test]
fn split_ignores_quiet_frames_before_window() {
    let mut data = loud_stereo(2000);
    // Quietest frame of all sits at sample 1000, before the window at 2080,
    // so the scan must not see it; the quietest frame inside the window is
    // at sample 3000.
    data[1000] = 0;
    data[1001] = 0;
    data[3000] = 1;
    data[3001] = 1;
    let parts = split_packet(data, CHANNELS, RATE, BYTES);
    assert_eq!(parts.len(), 2);
    assert_eq!(parts[0].len(), 3002);
}

#[test]
fn split_window_boundary_is_inclusive() {
    let mut data = loud_stereo(2000);
    // Sample 2080 is the first scanned candidate; a silent frame there is
    // found, while one two samples earlier would not be.
    data[2080] = 0;
    data[2081] = 0;
    let parts = split_packet(data, CHANNELS, RATE, BYTES);
    assert_eq!(parts.len(), 2);
    assert_eq!(parts[0].len(), 2082);
}

#[test]
fn split_just_before_window_is_not_scanned() {
    let mut data = loud_stereo(2000);
    data[2078] = 0;
    data[2079] = 0;
    data[3000] = 1;
    data[3001] = 1;
    let parts = split_packet(data, CHANNELS, RATE, BYTES);
    assert_eq!(parts.len(), 2);
    assert_eq!(parts[0].len(), 3002);
}

#[test]
fn split_tie_prefers_later_frame() {
    let mut data = loud_stereo(2000);
    data[3000] = 0;
    data[3001] = 0;
    data[3500] = 0;
    data[3501] = 0;
    let parts = split_packet(data, CHANNELS, RATE, BYTES);
    assert_eq!(parts.len(), 2);
    assert_eq!(parts[0].len(), 3502);
}

#[test]
fn split_pieces_sum_and_stay_frame_aligned() {
    let mut data = loud_stereo(2000);
    data[2500] = -2;
    data[2501] = 3;
    let parts = split_packet(data.clone(), CHANNELS, RATE, BYTES);
    assert_eq!(parts.len(), 2);
    assert_eq!(parts[0].len() + parts[1].len(), data.len());
    assert!(parts[0].len() > 0);
    assert!(parts[0].len() < data.len());
    assert_eq!(parts[0].len() % CHANNELS as usize, 0);
    assert_eq!(parts[1].len() % CHANNELS as usize, 0);
}

#[test]
fn split_then_join_roundtrip() {
    let mut data = loud_stereo(2000);
    for (i, s) in data.iter_mut().enumerate() {
        *s = ((i * 37) % 200) as i16 - 100;
    }
    let parts = split_packet(data.clone(), CHANNELS, RATE, BYTES);
    assert_eq!(join_packets(parts), Some(data));
}

#[test]
fn split_between_guard_and_twice_guard_still_scans_tail() {
    // 1000 frames per channel: the window starts at sample
    // max(2 * 960, 2 * (1000 - 960)) = 1920, inside the 2000-sample buffer,
    // so the tail is scanned and a quiet frame there is cut at.
    let mut data = loud_stereo(1000);
    data[1950] = 0;
    data[1951] = 0;
    let parts = split_packet(data, CHANNELS, RATE, BYTES);
    assert_eq!(parts.len(), 2);
    assert_eq!(parts[0].len(), 1952);
}

#[test]
fn split_mono_scans_tail_guard_of_buffer() {
    // One channel at rate 100: guard = 2 frames, so a 6-sample buffer is
    // scanned from sample max(2, 6 - 2) = 4 onward.
    let data = vec![10i16, 20, 30, 40, 0, 50];
    let parts = split_packet(data, 1, 100, 2);
    assert_eq!(parts.len(), 2);
    assert_eq!(parts[0], vec![10i16, 20, 30, 40, 0]);
    assert_eq!(parts[1], vec![50i16]);
}
