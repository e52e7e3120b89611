//! What a packet says about itself without being decoded.

use vstd::prelude::*;

use crate::error::Error;
use crate::toc::{config_samples, frame_samples_from_toc, toc_config};

verus! {

/// The longest a packet can be, in 48 kHz samples: 120 ms.
pub const MAX_PACKET_SAMPLES: usize = 5760;

/// How many frames a packet holds: one, two, or the count in the low six bits
/// of its second byte, as the low two bits of the first one say. `None` when
/// the byte with the count is missing.
pub open spec fn frame_count(packet: Seq<u8>) -> Option<int> {
    if packet.len() == 0 {
        None
    } else if packet[0] % 4 == 0 {
        Some(1)
    } else if packet[0] % 4 != 3 {
        Some(2)
    } else if packet.len() < 2 {
        None
    } else {
        Some(packet[1] as int % 64)
    }
}

/// What a packet decodes to, in 48 kHz samples, or why it decodes to nothing.
pub open spec fn packet_samples(packet: Seq<u8>) -> Result<int, Error> {
    match frame_count(packet) {
        None => if packet.len() == 0 {
            Err(Error::InvalidPacket("packet is empty"))
        } else {
            Err(Error::InvalidPacket("packet has no frame count byte"))
        },
        Some(frames) => {
            let samples = frames * config_samples(toc_config(packet[0]));
            if frames == 0 {
                Err(Error::InvalidPacket("packet has no frames"))
            } else if samples > MAX_PACKET_SAMPLES {
                Err(Error::InvalidPacket("packet is longer than 120 ms"))
            } else {
                Ok(samples)
            }
        },
    }
}

/// A packet that decodes to anything decodes to between 2.5 and 120 ms.
pub proof fn lemma_packet_samples_range(packet: Seq<u8>)
    ensures
        packet_samples(packet) matches Ok(n) ==> 120 <= n <= MAX_PACKET_SAMPLES,
        packet_samples(packet) is Ok ==> packet.len() > 0,
{
    if let Some(frames) = frame_count(packet) {
        let per = config_samples(toc_config(packet[0]));
        assert(frames >= 1 ==> frames * per >= per) by (nonlinear_arith)
            requires
                per >= 0,
        ;
    }
}

/// What a packet decodes to, in 48 kHz samples.
pub fn samples_48k(packet: &[u8]) -> (r: Result<usize, Error>)
    ensures
        match (r, packet_samples(packet@)) {
            (Ok(n), Ok(samples)) => n == samples,
            (Err(e), Err(expected)) => e == expected,
            _ => false,
        },
        r matches Ok(n) ==> 120 <= n <= MAX_PACKET_SAMPLES,
{
    proof {
        lemma_packet_samples_range(packet@);
    }
    if packet.len() == 0 {
        return Err(Error::InvalidPacket("packet is empty"));
    }
    let code: u8 = packet[0] % 4;
    let frames: usize = if code == 0 {
        1
    } else if code != 3 {
        2
    } else if packet.len() < 2 {
        return Err(Error::InvalidPacket("packet has no frame count byte"));
    } else {
        (packet[1] % 64) as usize
    };
    if frames == 0 {
        return Err(Error::InvalidPacket("packet has no frames"));
    }
    let per: usize = frame_samples_from_toc(packet[0]);
    assert(frames * per <= 63 * 2880) by (nonlinear_arith)
        requires
            frames <= 63,
            per <= 2880,
    ;
    let samples: usize = frames * per;
    if samples > MAX_PACKET_SAMPLES {
        return Err(Error::InvalidPacket("packet is longer than 120 ms"));
    }
    Ok(samples)
}

/// What a packet says of itself without being decoded: one frame, two, or as many as
/// its second byte counts in its lowest six bits, each as long as its first byte
/// says; and nothing where that is none, or more than 120 ms.
pub proof fn law_packets_say_how_long_they_are(packet: Seq<u8>)
    requires
        packet.len() >= 1,
    ensures
        ({
            let each = config_samples(packet[0] as int / 8);
            let code = packet[0] as int % 4;
            &&& code == 0 ==> packet_samples(packet) == Ok::<int, Error>(each)
            &&& code == 1 || code == 2 ==> packet_samples(packet) == Ok::<int, Error>(2 * each)
            &&& code == 3 && packet.len() == 1 ==> packet_samples(packet) is Err
            &&& code == 3 && packet.len() >= 2 ==> {
                let n = packet[1] as int % 64;
                packet_samples(packet) == (if n >= 1 && n * each <= 5_760 {
                    Ok::<int, Error>(n * each)
                } else {
                    packet_samples(packet)
                }) && (packet_samples(packet) is Ok <==> n >= 1 && n * each <= 5_760)
            }
        }),
        packet_samples(Seq::empty()) is Err,
{
}

} // verus!
