//! The hybrid's split of a rate between its layers.

use opus_pure::encoder::rates::compute_silk_rate_for_hybrid;
use opus_pure::Bandwidth;

/// Mono, no FEC: read the table straight off.
fn mono(rate: i32) -> i32 {
    compute_silk_rate_for_hybrid(rate, Bandwidth::Fullband, true, true, false, 1)
}

#[test]
fn test_reference_table_exact_entries() {
    assert_eq!(mono(12000), 10000);
    assert_eq!(mono(16000), 13500);
    assert_eq!(mono(20000), 16000);
    assert_eq!(mono(24000), 18000);
    assert_eq!(mono(32000), 22000);
    assert_eq!(mono(64000), 38000);
}

#[test]
fn test_32kbps_gives_22kbps_silk() {
    assert_eq!(mono(32000), 22000);
}

#[test]
fn test_interpolation_between_table_entries() {
    assert_eq!(mono(18000), 14750);
}

#[test]
fn test_above_table_max_gives_half_extra() {
    assert_eq!(mono(72000), 38000 + (72000 - 64000) / 2);
}

/// FEC costs SILK real bits, so it is given a wider share at the
/// same total rate rather than letting the redundant copy squeeze the frame.
#[test]
fn fec_widens_the_silk_share() {
    for rate in [12000, 16000, 20000, 24000, 32000, 64000] {
        let no_fec =
            compute_silk_rate_for_hybrid(rate, Bandwidth::Fullband, true, false, false, 1);
        let fec = compute_silk_rate_for_hybrid(rate, Bandwidth::Fullband, true, false, true, 1);
        assert!(
            fec > no_fec,
            "{rate}: FEC should widen SILK's share, got {fec} against {no_fec}"
        );
    }
    // Two table rows.
    assert_eq!(
        compute_silk_rate_for_hybrid(20000, Bandwidth::Fullband, true, true, true, 1),
        18000
    );
    assert_eq!(
        compute_silk_rate_for_hybrid(64000, Bandwidth::Fullband, true, true, true, 1),
        50000
    );
}

/// The allocation is per channel: the total is divided down, the table is
/// read at the single-channel rate, and the result scaled back up. Reading
/// the table at the *total* rate lands in a higher row and hands SILK far
/// more than its share.
#[test]
fn stereo_allocates_per_channel() {
    // 32 kb/s stereo is 16 kb/s per channel: 13500 each, less the 1000 that
    // stereo is trimmed by above 12 kb/s per channel.
    assert_eq!(
        compute_silk_rate_for_hybrid(32000, Bandwidth::Fullband, true, true, false, 2),
        13500 * 2 - 1000
    );
    // Below the trim threshold there is no trim: 20 kb/s stereo is 10 kb/s
    // per channel, under the 12 kb/s it starts at.
    let per_channel =
        compute_silk_rate_for_hybrid(10000, Bandwidth::Fullband, true, true, false, 1);
    assert_eq!(
        compute_silk_rate_for_hybrid(20000, Bandwidth::Fullband, true, true, false, 2),
        per_channel * 2
    );
    // And a stereo packet never gets the mono answer for the same total.
    assert_ne!(
        compute_silk_rate_for_hybrid(32000, Bandwidth::Fullband, true, true, false, 2),
        compute_silk_rate_for_hybrid(32000, Bandwidth::Fullband, true, true, false, 1)
    );
}

/// Superwideband hybrid gives SILK a little more, because CELT starts at the
/// same band either way but covers less spectrum above it.
#[test]
fn superwideband_adds_to_the_silk_share() {
    assert_eq!(
        compute_silk_rate_for_hybrid(20000, Bandwidth::Superwideband, true, true, false, 1),
        16000 + 300
    );
    // Per channel first, then scaled: the bonus is per channel too.
    assert_eq!(
        compute_silk_rate_for_hybrid(40000, Bandwidth::Superwideband, true, true, false, 2),
        (16000 + 300) * 2 - 1000
    );
}

/// CBR gets a small boost.
#[test]
fn cbr_boosts_the_silk_share() {
    assert_eq!(
        compute_silk_rate_for_hybrid(20000, Bandwidth::Fullband, true, false, false, 1),
        16000 + 100
    );
}
