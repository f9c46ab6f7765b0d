use pcm_stream::StreamError;
use pcm_stream::schedule::{deinterleave, next_start_frame, schedule_chunk};

#[test]
fn deinterleave_splits_channels() {
    let data = vec![1i16, -1, 2, -2, 3, -3];
    let chans = deinterleave(&data, 2);
    assert_eq!(chans.len(), 2);
    assert_eq!(chans[0], vec![1i16, 2, 3]);
    assert_eq!(chans[1], vec![-1i16, -2, -3]);
}

#[test]
fn deinterleave_single_channel_is_identity() {
    let data = vec![4i16, 5, 6];
    let chans = deinterleave(&data, 1);
    assert_eq!(chans, vec![vec![4i16, 5, 6]]);
}

#[test]
fn next_start_uses_cursor_when_device_clock_lags() {
    assert_eq!(next_start_frame(100, 40), 100);
}

#[test]
fn next_start_uses_device_clock_when_cursor_lags() {
    assert_eq!(next_start_frame(40, 100), 100);
}

#[test]
fn schedule_sets_start_and_advances_cursor() {
    let chunk = vec![7i16, -7, 8, -8];
    let (sc, cursor) = schedule_chunk(&chunk, 2, 10, 5).unwrap();
    assert_eq!(sc.start_frame, 10);
    assert_eq!(sc.samples_per_channel, 2);
    assert_eq!(sc.channel_data, vec![vec![7i16, 8], vec![-7i16, -8]]);
    assert_eq!(cursor, 12);
}

#[test]
fn schedule_never_starts_in_the_past() {
    let chunk = vec![1i16, 1];
    let (sc, cursor) = schedule_chunk(&chunk, 2, 3, 50).unwrap();
    assert_eq!(sc.start_frame, 50);
    assert_eq!(cursor, 51);
}

#[test]
fn chunks_scheduled_in_order_do_not_overlap() {
    let chunk_a = vec![1i16; 6];
    let chunk_b = vec![2i16; 4];
    let chunk_c = vec![3i16; 8];
    let mut cursor: u64 = 0;
    let (sa, c1) = schedule_chunk(&chunk_a, 2, cursor, 10).unwrap();
    cursor = c1;
    let (sb, c2) = schedule_chunk(&chunk_b, 2, cursor, 11).unwrap();
    cursor = c2;
    let (sc, c3) = schedule_chunk(&chunk_c, 2, cursor, 40).unwrap();
    // Each start is at or after the previous chunk's end and never in the
    // device clock's past; the cursor never moves backwards.
    assert_eq!(sa.start_frame, 10);
    assert_eq!(c1, 13);
    assert!(sb.start_frame >= sa.start_frame + sa.samples_per_channel);
    assert!(sb.start_frame >= 11);
    assert_eq!(sb.start_frame, 13);
    assert_eq!(c2, 15);
    assert!(sc.start_frame >= sb.start_frame + sb.samples_per_channel);
    assert!(sc.start_frame >= 40);
    assert_eq!(c3, 44);
    assert!(c1 <= c2 && c2 <= c3);
}

#[test]
fn schedule_reports_frame_counter_overflow() {
    let chunk = vec![1i16, 2];
    let r = schedule_chunk(&chunk, 1, u64::MAX, 0);
    assert!(matches!(r, Err(StreamError::ScheduleOverflow)));
}
