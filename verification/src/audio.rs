//! Packet coalescing and split-point selection on interleaved PCM buffers.

use std::collections::VecDeque;
use vstd::prelude::*;

verus! {

/// In-order concatenation of a sequence of sample buffers.
pub open spec fn concat_all(bufs: Seq<Seq<i16>>) -> Seq<i16>
    decreases bufs.len(),
{
    if bufs.len() == 0 {
        Seq::empty()
    } else {
        concat_all(bufs.drop_last()) + bufs.last()
    }
}

/// What coalescing a pending queue yields: nothing for an empty queue,
/// otherwise the in-order concatenation of every queued buffer.
pub open spec fn join_spec(bufs: Seq<Seq<i16>>) -> Option<Seq<i16>> {
    if bufs.len() == 0 {
        None
    } else {
        Some(concat_all(bufs))
    }
}

/// Concatenate the queued packets into one contiguous buffer, preserving
/// order; an empty queue yields `None`.
pub fn join_packets(packets: VecDeque<Vec<i16>>) -> (r: Option<Vec<i16>>)
    ensures
        match r {
            Option::None => packets@.len() == 0,
            Option::Some(v) => packets@.len() > 0 && v@ == concat_all(packets.deep_view()),
        },
{
    if packets.len() == 0 {
        return None;
    }
    let n = packets.len();
    let mut out: Vec<i16> = Vec::new();
    let mut i: usize = 0;
    while i < n
        invariant
            i <= n,
            n == packets@.len(),
            out@ == concat_all(packets.deep_view().take(i as int)),
        decreases n - i,
    {
        let buf = &packets[i];
        let m = buf.len();
        let mut j: usize = 0;
        proof {
            assert(buf@ == packets.deep_view()[i as int]);
            assert(out@ + buf@.take(0) =~= out@);
        }
        while j < m
            invariant
                j <= m,
                i < n,
                n == packets@.len(),
                buf@ == packets.deep_view()[i as int],
                m == buf@.len(),
                out@ == concat_all(packets.deep_view().take(i as int)) + buf@.take(j as int),
            decreases m - j,
        {
            out.push(buf[j]);
            proof {
                assert(buf@.take(j as int + 1) =~= buf@.take(j as int).push(buf@[j as int]));
                assert(concat_all(packets.deep_view().take(i as int)) + buf@.take(j as int + 1)
                    =~= (concat_all(packets.deep_view().take(i as int)) + buf@.take(j as int)).push(
                    buf@[j as int]));
            }
            j = j + 1;
        }
        proof {
            let bufs = packets.deep_view();
            assert(bufs.take(i as int + 1).drop_last() =~= bufs.take(i as int));
            assert(buf@.take(m as int) =~= buf@);
            assert(bufs.take(i as int + 1).last() == buf@);
        }
        i = i + 1;
    }
    proof {
        assert(packets.deep_view().take(n as int) =~= packets.deep_view());
    }
    Some(out)
}

/// Frames per channel that the cut scan keeps clear of the buffer edges:
/// 20 ms of audio at the given sample rate.
pub open spec fn guard_frames(rate: int) -> int {
    rate / 50
}

/// Loudness of the frame that starts at sample index `offset`: the sum of
/// the absolute sample values across all `channels` channels of that frame.
pub open spec fn frame_loudness(data: Seq<i16>, offset: int, channels: int) -> int
    decreases channels,
{
    if channels <= 0 {
        0
    } else {
        frame_loudness(data, offset, channels - 1) + vstd::math::abs(
            data[offset + channels - 1] as int,
        )
    }
}

/// First sample index the cut scan considers: the later of `guard` frames
/// into the buffer and `guard` frames before its end, in interleaved sample
/// units. It may lie at or past the end of the buffer, in which case no cut
/// is possible.
pub open spec fn window_start(len: int, channels: int, rate: int) -> int {
    let samples = len / channels;
    let g = guard_frames(rate);
    vstd::math::max(channels * g, channels * (samples - g))
}

/// The scan's state machine: starting at `offset`, with `min_v` the quietest
/// loudness seen so far and `opt` the cut recorded for it, visit every frame
/// up to the end of the buffer and return the final pair. A frame at least
/// as quiet as the current minimum replaces it, so ties prefer later frames;
/// the recorded cut lies one frame past the frame that produced the minimum.
pub open spec fn scan_cut(data: Seq<i16>, channels: int, offset: int, min_v: int, opt: int) -> (
    int,
    int,
)
    decreases data.len() + channels - offset,
    when channels >= 1
{
    if offset >= data.len() {
        (min_v, opt)
    } else {
        let t = frame_loudness(data, offset, channels);
        if t <= min_v {
            scan_cut(data, channels, offset + channels, t, offset + channels)
        } else {
            scan_cut(data, channels, offset + channels, min_v, opt)
        }
    }
}

/// Sample index at which the selector cuts the buffer; equal to the buffer
/// length when no cut is chosen.
pub open spec fn split_cut(data: Seq<i16>, channels: int, rate: int) -> int {
    scan_cut(
        data,
        channels,
        window_start(data.len() as int, channels, rate),
        u64::MAX as int,
        data.len() as int,
    ).1
}

/// The selector's result: the whole buffer alone when no cut is chosen,
/// otherwise the two pieces either side of the cut, in order.
pub open spec fn split_spec(data: Seq<i16>, channels: int, rate: int) -> Seq<Seq<i16>> {
    let cut = split_cut(data, channels, rate);
    if cut == data.len() {
        seq![data]
    } else {
        seq![data.subrange(0, cut), data.subrange(cut, data.len() as int)]
    }
}

/// Cut the buffer at the quietest frame inside the allowed scan window,
/// preferring the latest of equally quiet frames, and return first piece
/// then remainder; a buffer whose window admits no cut is returned whole.
/// The cut index is in sample units; `bytes` records the host's sample
/// width and plays no part in choosing the cut.
#[allow(unused_variables)]
pub fn split_packet(data: Vec<i16>, channels: u32, rate: u32, bytes: u32) -> (r: VecDeque<Vec<i16>>)
    requires
        channels >= 1,
        data@.len() as int % (channels as int) == 0,
    ensures
        r.deep_view() == split_spec(data@, channels as int, rate as int),
{
    let len: usize = data.len();
    let ch: usize = channels as usize;
    let guard: u32 = rate / 50;
    let samples: usize = len / ch;
    proof {
        assert((channels as int) * (guard as int) <= 0xffff_ffff * 0xffff_ffff && 0 <= (
        channels as int) * (guard as int)) by (nonlinear_arith)
            requires
                0 <= channels as int <= 0xffff_ffff,
                0 <= guard as int <= 0xffff_ffff,
        ;
        assert((channels as int) * (samples as int - guard as int) <= 0xffff_ffff
            * 0xffff_ffff_ffff_ffff && (channels as int) * (samples as int - guard as int) >= -(
        0xffff_ffff * 0xffff_ffff)) by (nonlinear_arith)
            requires
                0 <= channels as int <= 0xffff_ffff,
                0 <= samples as int <= 0xffff_ffff_ffff_ffff,
                0 <= guard as int <= 0xffff_ffff,
        ;
    }
    let a: i128 = (channels as i128) * (guard as i128);
    let b: i128 = (channels as i128) * (samples as i128 - guard as i128);
    let start_i: i128 = if a >= b {
        a
    } else {
        b
    };
    let ghost ws = window_start(len as int, channels as int, rate as int);
    proof {
        assert(a == channels as int * guard_frames(rate as int));
        assert(b == channels as int * (len as int / channels as int - guard_frames(rate as int)));
        assert(start_i as int == ws);
    }
    let mut min_value: u64 = u64::MAX;
    let mut optimal: usize = len;
    if start_i < len as i128 {
        proof {
            vstd::arithmetic::mul::lemma_mul_nonnegative(channels as int, guard as int);
            assert(0 <= start_i < len);
            vstd::arithmetic::mul::lemma_mul_is_commutative(channels as int, guard as int);
            vstd::arithmetic::mul::lemma_mul_is_commutative(
                channels as int,
                len as int / channels as int - guard as int,
            );
            vstd::arithmetic::div_mod::lemma_mod_multiples_basic(guard as int, channels as int);
            vstd::arithmetic::div_mod::lemma_mod_multiples_basic(
                len as int / channels as int - guard as int,
                channels as int,
            );
            assert(ws % (channels as int) == 0);
        }
        let mut offset: usize = start_i as usize;
        while offset < len
            invariant
                1 <= channels,
                ch == channels as usize,
                len == data@.len(),
                len as int % (channels as int) == 0,
                offset as int % (channels as int) == 0,
                offset <= len,
                optimal <= len,
                scan_cut(data@, channels as int, offset as int, min_value as int, optimal as int)
                    == scan_cut(data@, channels as int, ws, u64::MAX as int, len as int),
            decreases len - offset,
        {
            proof {
                lemma_multiple_step(offset as int, len as int, channels as int);
                assert(offset + ch <= len);
            }
            let mut total: u64 = 0;
            let mut c: usize = 0;
            while c < ch
                invariant
                    c <= ch,
                    ch == channels as usize,
                    ch >= 1,
                    offset + ch <= len,
                    len == data@.len(),
                    total == frame_loudness(data@, offset as int, c as int),
                    total <= c as int * 32768,
                decreases ch - c,
            {
                let v: i16 = data[offset + c];
                let av: u64 = if v < 0 {
                    (-(v as i32)) as u64
                } else {
                    v as u64
                };
                proof {
                    assert(av as int == vstd::math::abs(v as int));
                    assert(c as int * 32768 + 32768 == (c as int + 1) * 32768);
                }
                total = total + av;
                c = c + 1;
            }
            if total <= min_value {
                optimal = offset + ch;
                min_value = total;
            }
            proof {
                vstd::arithmetic::div_mod::lemma_mod_add_multiples_vanish(
                    offset as int,
                    channels as int,
                );
            }
            offset = offset + ch;
        }
    }
    proof {
        assert(optimal as int == split_cut(data@, channels as int, rate as int));
    }
    let mut result: VecDeque<Vec<i16>> = VecDeque::new();
    if optimal == len {
        result.push_back(data);
        proof {
            assert(result.deep_view() =~~= split_spec(data@, channels as int, rate as int));
        }
        return result;
    }
    let ghost orig = data@;
    let mut first = data;
    let second = first.split_off(optimal);
    result.push_back(first);
    result.push_back(second);
    proof {
        assert(result.deep_view() =~~= split_spec(orig, channels as int, rate as int));
    }
    result
}

/// `o` is a sample index that a scan beginning at `from` visits: inside the
/// buffer and a whole number of frames past `from`.
pub open spec fn scanned(data: Seq<i16>, channels: int, from: int, o: int) -> bool {
    from <= o < data.len() && (o - from) % channels == 0
}

/// A frame's loudness is non-negative and at most `channels` times the
/// largest absolute sample value.
proof fn lemma_frame_loudness_bounds(data: Seq<i16>, offset: int, channels: int)
    requires
        channels >= 0,
    ensures
        0 <= frame_loudness(data, offset, channels),
        frame_loudness(data, offset, channels) <= channels * 32768,
    decreases channels,
{
    if channels == 0 {
        assert(frame_loudness(data, offset, channels) == 0);
    } else {
        lemma_frame_loudness_bounds(data, offset, channels - 1);
        assert(vstd::math::abs(data[offset + channels - 1] as int) <= 32768);
        assert((channels - 1) * 32768 + 32768 == channels * 32768);
    }
}

/// Two multiples of `m` that differ are at least `m` apart.
proof fn lemma_multiple_step(a: int, b: int, m: int)
    requires
        m >= 1,
        a % m == 0,
        b % m == 0,
        a < b,
    ensures
        a + m <= b,
{
    vstd::arithmetic::div_mod::lemma_fundamental_div_mod(a, m);
    vstd::arithmetic::div_mod::lemma_fundamental_div_mod(b, m);
    let qa = a / m;
    let qb = b / m;
    vstd::arithmetic::mul::lemma_mul_is_commutative(m, qa);
    vstd::arithmetic::mul::lemma_mul_is_commutative(m, qb);
    assert(qa * m < qb * m);
    vstd::arithmetic::mul::lemma_mul_strict_inequality_converse(qa, qb, m);
    vstd::arithmetic::mul::lemma_mul_inequality(qa + 1, qb, m);
    assert((qa + 1) * m == qa * m + 1 * m) by {
        vstd::arithmetic::mul::lemma_mul_is_distributive_add_other_way(m, qa, 1);
    }
}

/// What the scan returns: either no visited frame was at least as quiet as
/// the starting minimum and the state is unchanged, or the result records
/// the last visited frame that attains the quietest visited loudness.
proof fn lemma_scan_cut_char(data: Seq<i16>, channels: int, offset: int, min_v: int, opt: int)
    requires
        channels >= 1,
        0 <= offset,
    ensures
        ({
            let m = scan_cut(data, channels, offset, min_v, opt).0;
            let c = scan_cut(data, channels, offset, min_v, opt).1;
            ||| {
                &&& m == min_v
                &&& c == opt
                &&& forall|o: int|
                    scanned(data, channels, offset, o) ==> frame_loudness(data, o, channels)
                        > min_v
            }
            ||| exists|co: int|
                {
                    &&& #[trigger] scanned(data, channels, offset, co)
                    &&& m == frame_loudness(data, co, channels)
                    &&& m <= min_v
                    &&& c == co + channels
                    &&& forall|o: int|
                        scanned(data, channels, offset, o) ==> m <= frame_loudness(
                            data,
                            o,
                            channels,
                        )
                    &&& forall|o: int|
                        scanned(data, channels, offset, o) && o > co ==> m < frame_loudness(
                            data,
                            o,
                            channels,
                        )
                }
        }),
    decreases data.len() + channels - offset,
{
    let m = scan_cut(data, channels, offset, min_v, opt).0;
    let c = scan_cut(data, channels, offset, min_v, opt).1;
    if offset >= data.len() {
        assert(forall|o: int| scanned(data, channels, offset, o) ==> o < data.len() && o >= offset);
    } else {
        let t = frame_loudness(data, offset, channels);
        assert(scanned(data, channels, offset, offset)) by {
            vstd::arithmetic::div_mod::lemma_small_mod(0nat, channels as nat);
        }
        assert forall|o: int|
            scanned(data, channels, offset, o) && o != offset implies scanned(
            data,
            channels,
            offset + channels,
            o,
        ) by {
            if o - offset < channels {
                vstd::arithmetic::div_mod::lemma_small_mod((o - offset) as nat, channels as nat);
            }
            vstd::arithmetic::div_mod::lemma_mod_add_multiples_vanish(o - offset - channels, channels);
        }
        assert forall|o: int|
            scanned(data, channels, offset + channels, o) implies scanned(data, channels, offset, o)
            && o >= offset + channels by {
            vstd::arithmetic::div_mod::lemma_mod_add_multiples_vanish(o - offset - channels, channels);
        }
        if t <= min_v {
            lemma_scan_cut_char(data, channels, offset + channels, t, offset + channels);
            let m2 = scan_cut(data, channels, offset + channels, t, offset + channels).0;
            let c2 = scan_cut(data, channels, offset + channels, t, offset + channels).1;
            assert(m == m2 && c == c2);
            if m2 == t && c2 == offset + channels && (forall|o: int|
                scanned(data, channels, offset + channels, o) ==> frame_loudness(data, o, channels)
                    > t)
            {
                let co = offset;
                assert(scanned(data, channels, offset, co));
                assert(m == frame_loudness(data, co, channels));
                assert(forall|o: int|
                    scanned(data, channels, offset, o) ==> m <= frame_loudness(data, o, channels));
                assert(forall|o: int|
                    scanned(data, channels, offset, o) && o > co ==> m < frame_loudness(
                        data,
                        o,
                        channels,
                    ));
            } else {
                let co = choose|co: int|
                    {
                        &&& #[trigger] scanned(data, channels, offset + channels, co)
                        &&& m2 == frame_loudness(data, co, channels)
                        &&& m2 <= t
                        &&& c2 == co + channels
                        &&& forall|o: int|
                            scanned(data, channels, offset + channels, o) ==> m2 <= frame_loudness(
                                data,
                                o,
                                channels,
                            )
                        &&& forall|o: int|
                            scanned(data, channels, offset + channels, o) && o > co ==> m2
                                < frame_loudness(data, o, channels)
                    };
                assert(scanned(data, channels, offset, co));
                assert(forall|o: int|
                    scanned(data, channels, offset, o) ==> m <= frame_loudness(data, o, channels));
                assert forall|o: int|
                    scanned(data, channels, offset, o) && o > co implies m < frame_loudness(
                    data,
                    o,
                    channels,
                ) by {
                    assert(co >= offset + channels);
                    assert(o != offset);
                }
            }
        } else {
            lemma_scan_cut_char(data, channels, offset + channels, min_v, opt);
            let m2 = scan_cut(data, channels, offset + channels, min_v, opt).0;
            let c2 = scan_cut(data, channels, offset + channels, min_v, opt).1;
            assert(m == m2 && c == c2);
            if m2 == min_v && c2 == opt && (forall|o: int|
                scanned(data, channels, offset + channels, o) ==> frame_loudness(data, o, channels)
                    > min_v)
            {
                assert(forall|o: int|
                    scanned(data, channels, offset, o) ==> frame_loudness(data, o, channels)
                        > min_v);
            } else {
                let co = choose|co: int|
                    {
                        &&& #[trigger] scanned(data, channels, offset + channels, co)
                        &&& m2 == frame_loudness(data, co, channels)
                        &&& m2 <= min_v
                        &&& c2 == co + channels
                        &&& forall|o: int|
                            scanned(data, channels, offset + channels, o) ==> m2 <= frame_loudness(
                                data,
                                o,
                                channels,
                            )
                        &&& forall|o: int|
                            scanned(data, channels, offset + channels, o) && o > co ==> m2
                                < frame_loudness(data, o, channels)
                    };
                assert(scanned(data, channels, offset, co));
                assert(forall|o: int|
                    scanned(data, channels, offset, o) ==> m <= frame_loudness(data, o, channels));
                assert forall|o: int|
                    scanned(data, channels, offset, o) && o > co implies m < frame_loudness(
                    data,
                    o,
                    channels,
                ) by {
                    assert(co >= offset + channels);
                    assert(o != offset);
                }
            }
        }
    }
}

/// Where the selector cuts. The cut always falls on a frame boundary, no
/// later than the end of the buffer. When the scan window begins at or past
/// the end of the buffer no cut is chosen. Otherwise the frame just before
/// the cut is one the scan visits, a whole number of frames past the window
/// start; no visited frame is quieter than it, and every visited frame
/// after it is strictly louder: among equally quiet frames the latest wins.
pub proof fn lemma_split_cut_in_window(data: Seq<i16>, channels: int, rate: int)
    requires
        1 <= channels <= u32::MAX,
        0 <= rate,
        data.len() as int % channels == 0,
    ensures
        ({
            let ws = window_start(data.len() as int, channels, rate);
            let cut = split_cut(data, channels, rate);
            &&& 0 <= ws
            &&& ws % channels == 0
            &&& cut % channels == 0
            &&& 0 <= cut <= data.len()
            &&& ws >= data.len() ==> cut == data.len()
            &&& ws < data.len() ==> {
                &&& scanned(data, channels, ws, cut - channels)
                &&& forall|o: int|
                    scanned(data, channels, ws, o) ==> frame_loudness(data, cut - channels, channels)
                        <= frame_loudness(data, o, channels)
                &&& forall|o: int|
                    scanned(data, channels, ws, o) && o > cut - channels ==> frame_loudness(
                        data,
                        cut - channels,
                        channels,
                    ) < frame_loudness(data, o, channels)
            }
        }),
{
    let len = data.len() as int;
    let g = guard_frames(rate);
    let s = len / channels;
    let ws = window_start(len, channels, rate);
    let cut = split_cut(data, channels, rate);
    vstd::arithmetic::mul::lemma_mul_is_commutative(channels, g);
    vstd::arithmetic::mul::lemma_mul_is_commutative(channels, s - g);
    vstd::arithmetic::mul::lemma_mul_nonnegative(g, channels);
    vstd::arithmetic::div_mod::lemma_mod_multiples_basic(g, channels);
    vstd::arithmetic::div_mod::lemma_mod_multiples_basic(s - g, channels);
    assert(0 <= ws);
    assert(ws % channels == 0);
    lemma_scan_cut_char(data, channels, ws, u64::MAX as int, len);
    let m = scan_cut(data, channels, ws, u64::MAX as int, len).0;
    assert(cut == scan_cut(data, channels, ws, u64::MAX as int, len).1);
    if m == u64::MAX as int && cut == len && (forall|o: int|
        scanned(data, channels, ws, o) ==> frame_loudness(data, o, channels) > u64::MAX as int) {
        if ws < len {
            assert(scanned(data, channels, ws, ws)) by {
                vstd::arithmetic::div_mod::lemma_small_mod(0nat, channels as nat);
            }
            lemma_frame_loudness_bounds(data, ws, channels);
            assert(frame_loudness(data, ws, channels) <= channels * 32768);
            assert(channels * 32768 <= 0xffff_ffff * 32768) by {
                vstd::arithmetic::mul::lemma_mul_inequality(channels, 0xffff_ffff, 32768);
                vstd::arithmetic::mul::lemma_mul_is_commutative(channels, 32768);
                vstd::arithmetic::mul::lemma_mul_is_commutative(0xffff_ffff, 32768);
            }
            assert(false);
        }
    } else {
        let co = choose|co: int|
            {
                &&& #[trigger] scanned(data, channels, ws, co)
                &&& m == frame_loudness(data, co, channels)
                &&& m <= u64::MAX as int
                &&& cut == co + channels
                &&& forall|o: int|
                    scanned(data, channels, ws, o) ==> m <= frame_loudness(data, o, channels)
                &&& forall|o: int|
                    scanned(data, channels, ws, o) && o > co ==> m < frame_loudness(
                        data,
                        o,
                        channels,
                    )
            };
        assert(co % channels == 0) by {
            vstd::arithmetic::div_mod::lemma_add_mod_noop(ws, co - ws, channels);
            vstd::arithmetic::div_mod::lemma_small_mod(0nat, channels as nat);
        }
        assert(cut % channels == 0) by {
            vstd::arithmetic::div_mod::lemma_mod_add_multiples_vanish(co, channels);
        }
        lemma_multiple_step(co, len, channels);
        assert(cut <= len);
        assert(ws < len);
    }
}

/// The selector returns either the whole buffer alone, or exactly two
/// pieces that concatenate back to it, the first a whole positive number of
/// frames strictly shorter than the input.
pub proof fn lemma_split_shape(data: Seq<i16>, channels: int, rate: int)
    requires
        1 <= channels <= u32::MAX,
        0 <= rate,
        data.len() as int % channels == 0,
    ensures
        ({
            let parts = split_spec(data, channels, rate);
            ||| (parts.len() == 1 && parts[0] == data)
            ||| {
                &&& parts.len() == 2
                &&& parts[0].len() + parts[1].len() == data.len()
                &&& 0 < parts[0].len() < data.len()
                &&& parts[0].len() as int % channels == 0
                &&& parts[1].len() as int % channels == 0
                &&& parts[0] + parts[1] == data
            }
        }),
{
    let len = data.len() as int;
    let cut = split_cut(data, channels, rate);
    let parts = split_spec(data, channels, rate);
    lemma_split_cut_in_window(data, channels, rate);
    if cut == len {
        assert(parts.len() == 1 && parts[0] == data);
    } else {
        let ws = window_start(len, channels, rate);
        assert(scanned(data, channels, ws, cut - channels));
        assert(0 < cut < len);
        assert((len - cut) % channels == 0) by {
            vstd::arithmetic::div_mod::lemma_sub_mod_noop(len, cut, channels);
            vstd::arithmetic::div_mod::lemma_small_mod(0nat, channels as nat);
        }
        assert(parts[0] + parts[1] =~= data);
    }
}

/// Splitting is lossless: coalescing whatever the selector returns yields
/// the original buffer, with no sample dropped, duplicated or reordered.
pub proof fn lemma_join_split_roundtrip(data: Seq<i16>, channels: int, rate: int)
    requires
        1 <= channels <= u32::MAX,
        0 <= rate,
        data.len() as int % channels == 0,
    ensures
        join_spec(split_spec(data, channels, rate)) == Some(data),
{
    let parts = split_spec(data, channels, rate);
    lemma_split_shape(data, channels, rate);
    if parts.len() == 1 {
        lemma_concat_all_one(parts[0]);
        assert(parts =~= seq![parts[0]]);
        assert(concat_all(parts) == data);
    } else {
        lemma_concat_all_two(parts[0], parts[1]);
        assert(parts =~= seq![parts[0], parts[1]]);
        assert(concat_all(parts) == data);
    }
}

/// Coalescing a single buffer yields that buffer.
proof fn lemma_concat_all_one(b: Seq<i16>)
    ensures
        concat_all(seq![b]) == b,
{
    assert(seq![b].drop_last() =~= Seq::<Seq<i16>>::empty());
    assert(seq![b].last() == b);
    assert(concat_all(Seq::<Seq<i16>>::empty()) == Seq::<i16>::empty());
    assert(Seq::<i16>::empty() + b =~= b);
}

/// Coalescing two buffers yields their concatenation.
proof fn lemma_concat_all_two(a: Seq<i16>, b: Seq<i16>)
    ensures
        concat_all(seq![a, b]) == a + b,
{
    assert(seq![a, b].drop_last() =~= seq![a]);
    assert(seq![a, b].last() == b);
    lemma_concat_all_one(a);
}

/// A buffer with no more than `guard` frames per channel is never split:
/// its scan window begins at or past the end of the buffer.
pub proof fn lemma_short_buffer_unsplit(data: Seq<i16>, channels: int, rate: int)
    requires
        1 <= channels <= u32::MAX,
        0 <= rate,
        data.len() as int % channels == 0,
        data.len() as int / channels <= guard_frames(rate),
    ensures
        split_spec(data, channels, rate) == seq![data],
{
    let len = data.len() as int;
    let g = guard_frames(rate);
    let s = len / channels;
    vstd::arithmetic::div_mod::lemma_fundamental_div_mod(len, channels);
    assert(len == channels * s);
    assert(channels * s <= channels * g) by {
        vstd::arithmetic::mul::lemma_mul_inequality(s, g, channels);
        vstd::arithmetic::mul::lemma_mul_is_commutative(channels, s);
        vstd::arithmetic::mul::lemma_mul_is_commutative(channels, g);
    }
    assert(window_start(len, channels, rate) >= len);
    lemma_split_cut_in_window(data, channels, rate);
}

/// Coalescing buffers that each hold whole frames yields a buffer of whole
/// frames.
pub proof fn lemma_concat_all_frames(bufs: Seq<Seq<i16>>, channels: int)
    requires
        channels >= 1,
        forall|i: int| 0 <= i < bufs.len() ==> (#[trigger] bufs[i]).len() as int % channels == 0,
    ensures
        concat_all(bufs).len() as int % channels == 0,
    decreases bufs.len(),
{
    if bufs.len() == 0 {
        vstd::arithmetic::div_mod::lemma_small_mod(0nat, channels as nat);
    } else {
        lemma_concat_all_frames(bufs.drop_last(), channels);
        let a = concat_all(bufs.drop_last()).len() as int;
        let b = bufs.last().len() as int;
        vstd::arithmetic::div_mod::lemma_add_mod_noop(a, b, channels);
        vstd::arithmetic::div_mod::lemma_small_mod(0nat, channels as nat);
    }
}

/// A sample buffer's deep view is its view.
pub proof fn lemma_vec_deep_view(v: Vec<i16>)
    ensures
        v.deep_view() == v@,
{
    assert(v.deep_view() =~= v@);
}

/// A queued buffer's deep view is its view.
pub proof fn lemma_deque_deep_view_index(q: VecDeque<Vec<i16>>, i: int)
    requires
        0 <= i < q@.len(),
    ensures
        q.deep_view()[i] == q@[i]@,
{
    lemma_vec_deep_view(q@[i]);
}

} // verus!
