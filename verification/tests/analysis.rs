//! The ring of verdicts that the signal analysis fills.

use opus_pure::analysis::{tonality_get_info, TonalityAnalysisState, DETECT_SIZE};

/// Analyse `n` frames of 20 ms at 48 kHz, each with a bandwidth of its own.
fn filled(n: i32) -> TonalityAnalysisState {
    let mut s = TonalityAnalysisState::new(48_000);
    for i in 0..n {
        let step = s.step(960, 0);
        assert_eq!(step.slot, Some(i as usize % DETECT_SIZE));
        s.record_window(step.slot.unwrap(), i % 18 + 1, false);
    }
    s
}

#[test]
fn steps_fill_the_buffer() {
    let mut s = TonalityAnalysisState::new(48_000);
    assert!(!s.initialized());
    // 10 ms at a time: the buffer starts with 240 of 720 samples.
    let a = s.step(480, 0);
    assert!(s.initialized());
    assert_eq!((a.at, a.fill, a.offset, a.slot), (240, 240, 0, None));
    let b = s.step(480, 480);
    assert_eq!((b.at, b.fill, b.offset, b.slot, b.remaining), (480, 240, 240, Some(0), 0));
    let c = s.step(960, 0);
    assert_eq!((c.at, c.fill, c.slot, c.remaining), (240, 480, Some(1), 0));
    let mut s = TonalityAnalysisState::new(16_000);
    let a = s.step(200, 100);
    assert_eq!((a.fill, a.offset), (300, 150));
    let b = s.step(320, 0);
    assert_eq!((b.at, b.fill, b.slot, b.remaining), (540, 180, Some(0), 300));
    s.reset();
    assert!(!s.initialized());
}

#[test]
fn pieces_cover_a_packet() {
    let mut s = TonalityAnalysisState::new(48_000);
    assert_eq!(
        s.begin_packet(2880, 2880),
        [(960, 0), (960, 960), (960, 1920)]
    );
    assert_eq!(s.begin_packet(1201, 960), [(960, 0), (240, 960)]);
    // What was analysed with the packet before is not analysed again.
    assert_eq!(s.begin_packet(960, 960), [(720, 240)]);
}

#[test]
fn reading_walks_around_the_ring() {
    let mut s = filled(3);
    // Nothing is read past what is written.
    let plan = tonality_get_info(&mut s, 960).unwrap();
    assert_eq!((plan.pos, plan.lookahead), (0, 3));
    assert_eq!(plan.ahead, [1, 2]);
    // The first three windows count as full.
    assert_eq!(plan.bandwidth, 20);
    assert_eq!(plan.first, (0, 0));
    assert_eq!(plan.walk, [(1, 1), (2, 2)]);
    assert_eq!(plan.past, [99, 98]);
    let plan = tonality_get_info(&mut s, 960).unwrap();
    assert_eq!((plan.pos, plan.lookahead), (1, 2));
    // At the end the last window is read again.
    tonality_get_info(&mut s, 960);
    let plan = tonality_get_info(&mut s, 960).unwrap();
    assert_eq!(plan.pos, 2);
}

#[test]
fn long_lookahead_makes_up_for_the_delay() {
    let mut s = filled(30);
    let plan = tonality_get_info(&mut s, 960).unwrap();
    assert_eq!(plan.first, (5, 1));
    assert_eq!(plan.walk.len(), 24);
    assert_eq!(plan.walk[0], (6, 2));
    assert!(plan.past.is_empty());
    // A long frame looks at the second window.
    let plan = tonality_get_info(&mut s, 1920).unwrap();
    assert_eq!(plan.pos, 2);
    // Three windows ahead and three behind: the widest of 0 to 5.
    assert_eq!(plan.bandwidth, 20);
    let mut s = filled(30);
    for _ in 0..10 {
        tonality_get_info(&mut s, 960);
    }
    // Windows 7 to 13 hold 8 to 14.
    assert_eq!(tonality_get_info(&mut s, 960).unwrap().bandwidth, 14);
}

#[test]
fn snapshots_take_reading_back() {
    let mut s = filled(30);
    let at = s.read_position();
    let first = tonality_get_info(&mut s, 480).unwrap().pos;
    tonality_get_info(&mut s, 2880);
    assert_eq!(tonality_get_info(&mut s, 480).unwrap().pos, 3);
    s.set_read_position(at);
    assert_eq!(tonality_get_info(&mut s, 480).unwrap().pos, first);
}

#[test]
fn windows_without_a_verdict_say_nothing() {
    let mut s = TonalityAnalysisState::new(48_000);
    assert!(tonality_get_info(&mut s, 960).is_none());
    let mut s = filled(5);
    s.reject_window(0);
    assert!(tonality_get_info(&mut s, 960).is_none());
    // A silent window repeats the one before.
    s.repeat_verdict(2);
    tonality_get_info(&mut s, 960);
    assert!(tonality_get_info(&mut s, 960).is_some());
}

#[test]
fn masked_bands_are_left_out() {
    let mut s = filled(3);
    let slot = s.step(960, 0).slot.unwrap();
    assert_eq!(slot, 3);
    s.record_window(slot, 20, true);
    let slot = s.step(960, 0).slot.unwrap();
    s.record_window(slot, 12, true);
    for _ in 0..60 {
        let slot = s.step(960, 0).slot.unwrap();
        s.record_window(slot, 5, false);
    }
    for _ in 0..7 {
        tonality_get_info(&mut s, 960);
    }
    // Three windows ahead and three back: only the last full ones are wider.
    assert_eq!(tonality_get_info(&mut s, 960).unwrap().bandwidth, 11);
}

#[test]
fn the_first_windows_count_as_full() {
    let mut s = TonalityAnalysisState::new(48_000);
    assert_eq!((s.count(), s.e_count(), s.prev_bandwidth()), (0, 0, 0));
    for i in 0..3 {
        let slot = loop {
            if let Some(slot) = s.step(960, 0).slot {
                break slot;
            }
        };
        s.record_window(slot, 7, false);
        assert_eq!((s.count(), s.prev_bandwidth()), (i + 1, 20));
    }
    for (found, masked, settled) in [(20, true, 18), (12, true, 11), (12, false, 12), (0, true, 0)] {
        let slot = s.step(960, 0).slot.unwrap();
        s.record_window(slot, found, masked);
        assert_eq!(s.prev_bandwidth(), settled);
    }
    // The energies of eight windows are kept.
    assert_eq!((s.count(), s.e_count()), (7, 7));
    let slot = s.step(960, 0).slot.unwrap();
    s.record_window(slot, 3, false);
    assert_eq!((s.count(), s.e_count()), (8, 0));
}

#[test]
fn reading_again_says_the_same() {
    for len in [120, 480, 960, 1920, 2880, 5760] {
        let mut s = filled(30);
        let at = s.read_position();
        let a = tonality_get_info(&mut s, len).unwrap();
        s.set_read_position(at);
        let b = tonality_get_info(&mut s, len).unwrap();
        assert_eq!((a.pos, a.bandwidth, a.first), (b.pos, b.bandwidth, b.first));
        assert_eq!((a.ahead, a.walk, a.past), (b.ahead, b.walk, b.past));
        assert_eq!(a.lookahead, b.lookahead);
    }
}
