//! Decoding binary network payloads into interleaved 16-bit sample buffers.

use crate::StreamError;
use vstd::prelude::*;

verus! {

/// The signed 16-bit sample encoded little-endian by the byte pair
/// `lo`, `hi`.
pub open spec fn sample_of_le(lo: u8, hi: u8) -> i16 {
    let v = lo as int + 256 * (hi as int);
    if v >= 32768 {
        (v - 65536) as i16
    } else {
        v as i16
    }
}

/// Every sample of a little-endian byte stream, in order.
pub open spec fn decoded_samples(bytes: Seq<u8>) -> Seq<i16> {
    Seq::new(bytes.len() / 2, |i: int| sample_of_le(bytes[2 * i], bytes[2 * i + 1]))
}

/// A payload of this byte length decodes cleanly: it is a whole number of
/// configured frames, a whole number of 16-bit samples, and the decoded
/// samples fill a whole number of frames, so a queued buffer's length stays
/// a multiple of the channel count.
pub open spec fn valid_payload_len(len: int, channels: int, bytes_per_sample: int) -> bool {
    &&& len % (channels * bytes_per_sample) == 0
    &&& len % 2 == 0
    &&& (len / 2) % channels == 0
}

/// Decode a binary payload of interleaved little-endian 16-bit samples, or
/// reject it, exactly when its length is not a whole number of frames,
/// before it can reach the pending queue.
pub fn decode_packet(payload: &Vec<u8>, channels: u32, bytes_per_sample: u32) -> (r: Result<
    Vec<i16>,
    StreamError,
>)
    requires
        channels >= 1,
        bytes_per_sample >= 1,
    ensures
        match r {
            Ok(v) => {
                &&& valid_payload_len(
                    payload@.len() as int,
                    channels as int,
                    bytes_per_sample as int,
                )
                &&& v@ == decoded_samples(payload@)
                &&& v@.len() as int % (channels as int) == 0
            },
            Err(e) => {
                &&& e == StreamError::MalformedPacket
                &&& !valid_payload_len(
                    payload@.len() as int,
                    channels as int,
                    bytes_per_sample as int,
                )
            },
        },
{
    let len: usize = payload.len();
    proof {
        assert((channels as int) * (bytes_per_sample as int) <= 0xffff_ffff * 0xffff_ffff && (
        channels as int) * (bytes_per_sample as int) >= 1) by (nonlinear_arith)
            requires
                1 <= channels as int <= 0xffff_ffff,
                1 <= bytes_per_sample as int <= 0xffff_ffff,
        ;
    }
    let frame_bytes: u64 = (channels as u64) * (bytes_per_sample as u64);
    if (len as u64) % frame_bytes != 0 {
        return Err(StreamError::MalformedPacket);
    }
    if len % 2 != 0 {
        return Err(StreamError::MalformedPacket);
    }
    let half: usize = len / 2;
    if half % (channels as usize) != 0 {
        return Err(StreamError::MalformedPacket);
    }
    proof {
        vstd::arithmetic::div_mod::lemma_fundamental_div_mod(len as int, 2);
    }
    let mut out: Vec<i16> = Vec::new();
    let mut i: usize = 0;
    while i < half
        invariant
            i <= half,
            half == payload@.len() / 2,
            2 * half == payload@.len(),
            2 * half <= usize::MAX,
            out@.len() == i,
            forall|k: int|
                0 <= k < i ==> out@[k] == sample_of_le(payload@[2 * k], payload@[2 * k + 1]),
        decreases half - i,
    {
        let lo: u8 = payload[2 * i];
        let hi: u8 = payload[2 * i + 1];
        let v: u16 = lo as u16 + (hi as u16) * 256;
        let s: i16 = if v >= 32768 {
            ((v as i32) - 65536) as i16
        } else {
            v as i16
        };
        proof {
            assert(s == sample_of_le(lo, hi));
        }
        out.push(s);
        i = i + 1;
    }
    proof {
        assert(out@ =~= decoded_samples(payload@));
    }
    Ok(out)
}

} // verus!
