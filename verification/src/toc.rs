//! The table-of-contents byte that opens every packet: which layer coded it,
//! at what bandwidth, in frames of what length, in how many channels.

use vstd::prelude::*;

use crate::config::{Bandwidth, OpusMode};

verus! {

/// The configuration number, the byte's top five bits.
pub open spec fn toc_config(toc: u8) -> int {
    toc as int / 8
}

/// The layer a configuration belongs to.
pub open spec fn config_mode(config: int) -> OpusMode {
    if config < 12 {
        OpusMode::SilkOnly
    } else if config < 16 {
        OpusMode::Hybrid
    } else {
        OpusMode::CeltOnly
    }
}

/// The length of one frame of a configuration, in 48 kHz samples: 10, 20, 40
/// or 60 ms for the speech layer, 10 or 20 ms for the hybrid, and 2.5, 5, 10 or
/// 20 ms for the transform layer.
pub open spec fn config_samples(config: int) -> int {
    if config < 12 {
        if config % 4 == 0 {
            480
        } else if config % 4 == 1 {
            960
        } else if config % 4 == 2 {
            1920
        } else {
            2880
        }
    } else if config < 16 {
        if config % 2 == 0 {
            480
        } else {
            960
        }
    } else {
        if config % 4 == 0 {
            120
        } else if config % 4 == 1 {
            240
        } else if config % 4 == 2 {
            480
        } else {
            960
        }
    }
}

/// The frame rates of the lengths one frame can have, 60 ms truncated to 16,
/// and each one's place in the order from 2.5 ms, 0, to 60 ms, 5.
pub open spec fn is_frame_rate(frame_rate: int) -> bool {
    frame_rate == 400 || frame_rate == 200 || frame_rate == 100 || frame_rate == 50 || frame_rate
        == 25 || frame_rate == 16
}

/// The place of a frame rate in the order from 2.5 ms, 0, to 60 ms, 5.
pub open spec fn frame_period(frame_rate: int) -> int {
    if frame_rate == 400 {
        0
    } else if frame_rate == 200 {
        1
    } else if frame_rate == 100 {
        2
    } else if frame_rate == 50 {
        3
    } else if frame_rate == 25 {
        4
    } else {
        5
    }
}

/// Whether a layer codes frames of that length at that bandwidth.
pub open spec fn toc_expressible(mode: OpusMode, frame_rate: int, bandwidth: Bandwidth) -> bool {
    &&& is_frame_rate(frame_rate)
    &&& match mode {
        OpusMode::SilkOnly => frame_rate <= 100 && bandwidth.rank() <= 2,
        OpusMode::Hybrid => (frame_rate == 100 || frame_rate == 50) && bandwidth.rank() >= 3,
        OpusMode::CeltOnly => frame_rate >= 50,
    }
}

/// The configuration number of a layer, frame length and bandwidth. The
/// transform layer has no mediumband and codes it as narrowband.
pub open spec fn config_number(mode: OpusMode, frame_rate: int, bandwidth: Bandwidth) -> int {
    match mode {
        OpusMode::SilkOnly => 4 * bandwidth.rank() + frame_period(frame_rate) - 2,
        OpusMode::Hybrid => 12 + 2 * (bandwidth.rank() - 3) + frame_period(frame_rate) - 2,
        OpusMode::CeltOnly => 16 + 4 * (if bandwidth.rank() >= 1 {
            bandwidth.rank() - 1
        } else {
            0
        }) + frame_period(frame_rate),
    }
}

/// The byte for one frame of `mode` at `frame_rate` frames a second, with the
/// frame count code left at zero.
pub fn gen_toc(mode: OpusMode, frame_rate: i32, bandwidth: Bandwidth, channels: usize) -> (toc: u8)
    requires
        toc_expressible(mode, frame_rate as int, bandwidth),
    ensures
        toc == 8 * config_number(mode, frame_rate as int, bandwidth) + (if channels == 2 {
            4int
        } else {
            0
        }),
{
    let mut period: u8 = 0;
    let mut rate: i32 = frame_rate;
    while rate < 400
        invariant
            is_frame_rate(frame_rate as int),
            0 < rate <= 512,
            period <= 5,
            rate == 400 ==> period == frame_period(frame_rate as int),
            rate == 200 ==> period == frame_period(frame_rate as int) - 1,
            rate == 100 ==> period == frame_period(frame_rate as int) - 2,
            rate == 50 ==> period == frame_period(frame_rate as int) - 3,
            rate == 25 ==> period == frame_period(frame_rate as int) - 4,
            rate == 512 ==> period == 5 && frame_rate == 16,
            rate == 256 ==> period == 4 && frame_rate == 16,
            rate == 128 ==> period == 3 && frame_rate == 16,
            rate == 64 ==> period == 2 && frame_rate == 16,
            rate == 32 ==> period == 1 && frame_rate == 16,
            rate == 16 ==> period == 0 && frame_rate == 16,
            rate == 400 || rate == 200 || rate == 100 || rate == 50 || rate == 25 || rate == 512
                || rate == 256 || rate == 128 || rate == 64 || rate == 32 || rate == 16,
        decreases 512 - rate,
    {
        rate = rate * 2;
        period = period + 1;
    }
    let band: u8 = match bandwidth {
        Bandwidth::Narrowband => 0,
        Bandwidth::Mediumband => 1,
        Bandwidth::Wideband => 2,
        Bandwidth::Superwideband => 3,
        Bandwidth::Fullband => 4,
    };
    let config: u8 = match mode {
        OpusMode::SilkOnly => 4 * band + (period - 2),
        OpusMode::Hybrid => 12 + 2 * (band - 3) + (period - 2),
        OpusMode::CeltOnly => 16 + 4 * (if band >= 1 {
            band - 1
        } else {
            0
        }) + period,
    };
    8 * config + if channels == 2 {
        4
    } else {
        0
    }
}

/// The rate at which frames of `frame_size` samples come, where that is a
/// length one frame can have; 60 ms, which no rate divides, is truncated.
pub fn frame_rate_from_params(sampling_rate: i32, frame_size: usize) -> (r: Option<i32>)
    requires
        sampling_rate > 0,
    ensures
        r == frame_rate_of(sampling_rate as int, frame_size as int),
{
    if frame_size == 0 || frame_size > 0x7fff_ffff {
        return None;
    }
    let rate: u64 = sampling_rate as u64;
    let size: u64 = frame_size as u64;
    if size * 400 == rate {
        Some(400)
    } else if size * 200 == rate {
        Some(200)
    } else if size * 100 == rate {
        Some(100)
    } else if size * 50 == rate {
        Some(50)
    } else if size * 25 == rate {
        Some(25)
    } else if size * 50 == rate * 3 {
        Some(16)
    } else {
        None
    }
}

/// The frame rate of `frame_size` samples at `rate`, when those are 2.5, 5, 10,
/// 20, 40 or 60 ms.
pub open spec fn frame_rate_of(rate: int, frame_size: int) -> Option<i32> {
    if frame_size <= 0 {
        None
    } else if frame_size * 400 == rate {
        Some(400)
    } else if frame_size * 200 == rate {
        Some(200)
    } else if frame_size * 100 == rate {
        Some(100)
    } else if frame_size * 50 == rate {
        Some(50)
    } else if frame_size * 25 == rate {
        Some(25)
    } else if frame_size * 50 == rate * 3 {
        Some(16)
    } else {
        None
    }
}

/// The layer that coded a packet.
pub fn mode_from_toc(toc: u8) -> (mode: OpusMode)
    ensures
        mode == config_mode(toc_config(toc)),
{
    let config: u8 = toc / 8;
    if config < 12 {
        OpusMode::SilkOnly
    } else if config < 16 {
        OpusMode::Hybrid
    } else {
        OpusMode::CeltOnly
    }
}

/// How many channels a packet codes: two when the byte's third bit is set.
pub open spec fn toc_channels(toc: u8) -> int {
    if (toc as int / 4) % 2 == 1 {
        2
    } else {
        1
    }
}

/// How many channels a packet codes.
pub fn channels_from_toc(toc: u8) -> (channels: usize)
    ensures
        channels == toc_channels(toc),
{
    if (toc / 4) % 2 == 1 {
        2
    } else {
        1
    }
}

/// The length of one of a packet's frames, in 48 kHz samples.
pub fn frame_samples_from_toc(toc: u8) -> (samples: usize)
    ensures
        samples == config_samples(toc_config(toc)),
        120 <= samples <= 2880,
{
    let config: u8 = toc / 8;
    if config < 12 {
        match config % 4 {
            0 => 480,
            1 => 960,
            2 => 1920,
            _ => 2880,
        }
    } else if config < 16 {
        if config % 2 == 0 {
            480
        } else {
            960
        }
    } else {
        match config % 4 {
            0 => 120,
            1 => 240,
            2 => 480,
            _ => 960,
        }
    }
}

/// The length of one of a packet's frames in whole milliseconds.
pub fn frame_duration_ms_from_toc(toc: u8) -> (ms: i32)
    ensures
        ms == config_samples(toc_config(toc)) / 48,
{
    (frame_samples_from_toc(toc) / 48) as i32
}

/// What a generated byte says is what it was generated from: the layer, the
/// channel count, and the frame's length.
pub proof fn law_toc_round_trip(
    mode: OpusMode,
    frame_rate: int,
    bandwidth: Bandwidth,
    channels: int,
    toc: u8,
)
    requires
        toc_expressible(mode, frame_rate, bandwidth),
        channels == 1 || channels == 2,
        toc == 8 * config_number(mode, frame_rate, bandwidth) + (if channels == 2 {
            4int
        } else {
            0
        }),
    ensures
        config_mode(toc_config(toc)) == mode,
        toc_channels(toc) == channels,
        frame_rate != 16 ==> config_samples(toc_config(toc)) * frame_rate == 48_000,
        frame_rate == 16 ==> config_samples(toc_config(toc)) == 2880,
        toc as int % 4 == 0,
{
}

/// The byte tells the bandwidth: the sixteen kinds of frame there are have the
/// numbers that every decoder knows them by. The speech layer's are four of
/// narrowband, four of mediumband and four of wideband; the hybrid's two of
/// superwideband and two of fullband; and the transform layer's four each of
/// narrowband, wideband, superwideband and fullband. The transform layer has no
/// mediumband, and takes it for narrowband.
pub proof fn law_toc_tells_the_bandwidth(
    mode: OpusMode,
    frame_rate: int,
    bandwidth: Bandwidth,
    stereo: bool,
    toc: u8,
)
    requires
        toc_expressible(mode, frame_rate, bandwidth),
        toc == 8 * config_number(mode, frame_rate, bandwidth) + (if stereo {
            4int
        } else {
            0
        }),
    ensures
        mode == OpusMode::SilkOnly ==> toc < 96,
        mode == OpusMode::Hybrid ==> 96 <= toc < 128,
        mode == OpusMode::CeltOnly ==> 128 <= toc,
        match bandwidth {
            Bandwidth::Narrowband => toc < 32 || 128 <= toc < 160,
            Bandwidth::Mediumband => 32 <= toc < 64 || 128 <= toc < 160,
            Bandwidth::Wideband => 64 <= toc < 96 || 160 <= toc < 192,
            Bandwidth::Superwideband => 96 <= toc < 112 || 192 <= toc < 224,
            Bandwidth::Fullband => 112 <= toc < 128 || 224 <= toc,
        },
        stereo <==> (toc as int / 4) % 2 == 1,
{
}

/// The byte tells how long a frame is: within its bandwidth a layer's lengths
/// come in order, the shortest first. For the speech layer these are 10, 20, 40
/// and 60 ms, for the hybrid 10 and 20, and for the transform layer 2.5, 5, 10
/// and 20.
pub proof fn law_toc_tells_the_length(
    mode: OpusMode,
    frame_rate: int,
    bandwidth: Bandwidth,
    toc: u8,
)
    requires
        toc_expressible(mode, frame_rate, bandwidth),
        toc == 8 * config_number(mode, frame_rate, bandwidth),
    ensures
        ({
            let place = (toc as int / 8) % 4;
            match mode {
                OpusMode::SilkOnly => frame_rate == seq![100int, 50, 25, 16][place],
                OpusMode::Hybrid => frame_rate == seq![100int, 50, 100, 50][place],
                OpusMode::CeltOnly => frame_rate == seq![400int, 200, 100, 50][place],
            }
        }),
{
}

/// Every byte there is says one length: the next configuration of a bandwidth
/// lasts twice as long, but for the speech layer's 60 ms after 40, and every
/// bandwidth of a layer has the same lengths.
pub proof fn law_configurations_double(config: int)
    requires
        0 <= config < 32,
    ensures
        config < 16 && config % 2 == 0 && (config >= 12 || config % 4 == 0) ==> config_samples(
            config,
        ) == 480 && config_samples(config + 1) == 960,
        config < 12 && config % 4 == 2 ==> config_samples(config) == 1920 && config_samples(
            config + 1,
        ) == 2880,
        config >= 16 && config % 4 == 0 ==> config_samples(config) == 120,
        config >= 16 && config % 4 != 3 ==> config_samples(config + 1) == 2 * config_samples(
            config,
        ),
        config_mode(config) == OpusMode::SilkOnly <==> config < 12,
        config_mode(config) == OpusMode::CeltOnly <==> config >= 16,
{
}

/// A frame's length has a number where it is 2.5, 5, 10, 20, 40 or 60 ms: how many of
/// them fit into a second.
pub proof fn law_frame_rates_count_frames(rate: int, frame_size: int)
    requires
        0 < rate,
        0 < frame_size,
    ensures
        match frame_rate_of(rate, frame_size) {
            Some(n) => if n == 16 {
                1_000 * frame_size == 60 * rate
            } else {
                (n == 25 || n == 50 || n == 100 || n == 200 || n == 400) && n * frame_size == rate
            },
            None => true,
        },
        10_000 * frame_size == 25 * rate ==> frame_rate_of(rate, frame_size) == Some(400i32),
        1_000 * frame_size == 5 * rate ==> frame_rate_of(rate, frame_size) == Some(200i32),
        1_000 * frame_size == 10 * rate ==> frame_rate_of(rate, frame_size) == Some(100i32),
        1_000 * frame_size == 20 * rate ==> frame_rate_of(rate, frame_size) == Some(50i32),
        1_000 * frame_size == 40 * rate ==> frame_rate_of(rate, frame_size) == Some(25i32),
        1_000 * frame_size == 60 * rate ==> frame_rate_of(rate, frame_size) == Some(16i32),
{
}

/// What a layer can be asked for: speech from 10 ms on and up to wideband, both layers
/// 10 and 20 ms of what is wider, and the transform up to 20 ms of anything.
pub proof fn law_what_a_byte_can_say(mode: OpusMode, frame_rate: int, bandwidth: Bandwidth)
    requires
        frame_rate == 400 || frame_rate == 200 || frame_rate == 100 || frame_rate == 50
            || frame_rate == 25 || frame_rate == 16,
    ensures
        mode is SilkOnly ==> (toc_expressible(mode, frame_rate, bandwidth) <==> frame_rate <= 100
            && !(bandwidth is Superwideband) && !(bandwidth is Fullband)),
        mode is Hybrid ==> (toc_expressible(mode, frame_rate, bandwidth) <==> (frame_rate == 100
            || frame_rate == 50) && (bandwidth is Superwideband || bandwidth is Fullband)),
        mode is CeltOnly ==> (toc_expressible(mode, frame_rate, bandwidth) <==> frame_rate >= 50),
{
}

/// One bit says that there are two channels, and it is the third lowest.
pub proof fn law_one_bit_tells_the_channels(toc: u8)
    ensures
        toc & 4 == 4 ==> toc_channels(toc) == 2,
        toc & 4 == 0 ==> toc_channels(toc) == 1,
        toc & 4 == 4 || toc & 4 == 0,
        toc_config(toc) == (toc >> 3),
{
    assert(toc & 4 == 4 || toc & 4 == 0) by (bit_vector);
    assert(toc & 4 == 4 ==> (toc / 4) % 2 == 1) by (bit_vector);
    assert(toc & 4 == 0 ==> (toc / 4) % 2 == 0) by (bit_vector);
    assert(toc >> 3 == toc / 8) by (bit_vector);
}

} // verus!
