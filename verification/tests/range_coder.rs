//! The range coder: what goes in comes out.

use opus_pure::range_coder::alphabet::Alphabet;
use opus_pure::range_coder::decoder::RangeDecoder;
use opus_pure::range_coder::encoder::RangeEncoder;

/// Deterministic pseudo-random numbers.
fn next(s: &mut u32) -> u32 {
    *s = s.wrapping_mul(1_664_525).wrapping_add(1_013_904_223);
    *s >> 8
}

fn alphabet(kind: u32, s: &mut u32) -> (Alphabet, u32) {
    match kind % 5 {
        0 => {
            let logp = 1 + next(s) % 15;
            (Alphabet::Bit { logp }, 2)
        }
        1 => {
            let count = 2 + next(s) % 255;
            (Alphabet::Uniform { count }, count)
        }
        2 => (Alphabet::Tapset, 3),
        3 => (Alphabet::Spread, 4),
        _ => (Alphabet::Trim, 11),
    }
}

#[test]
fn symbols_and_raw_bits_come_back() {
    for seed in 0..40u32 {
        let mut s = seed.wrapping_mul(2_654_435_761).wrapping_add(7);
        let mut e = RangeEncoder::new_encoder(2000);
        let mut written = Vec::new();
        for _ in 0..400 {
            let kind = next(&mut s);
            if kind % 7 == 6 {
                let n = next(&mut s) % 12;
                let v = next(&mut s) % (1 << n);
                e.enc_bits(v, n);
                written.push((None, v, n, e.tell(), e.tell_frac()));
            } else {
                let (a, count) = alphabet(kind, &mut s);
                let v = next(&mut s) % count;
                e.encode(a, v);
                written.push((Some(a), v, 0, e.tell(), e.tell_frac()));
            }
        }
        let range = e.range();
        let bytes = e.done().unwrap();
        assert_eq!(bytes.len(), 2000);
        let mut d = RangeDecoder::new_decoder(&bytes);
        for (i, &(a, v, n, tell, tell_frac)) in written.iter().enumerate() {
            let got = match a {
                Some(a) => d.decode(a),
                None => d.dec_bits(n),
            };
            assert_eq!(got, v, "seed {seed}, symbol {i}");
            assert_eq!(d.tell(), tell);
            assert_eq!(d.tell_frac(), tell_frac);
        }
        assert_eq!(d.range(), range);
    }
}

/// The bytes of a silent frame.
#[test]
fn one_rare_flag_has_the_bytes_of_silence() {
    let mut e = RangeEncoder::new_encoder(2);
    assert_eq!(e.tell(), 1);
    assert_eq!(e.tell_frac(), 8);
    e.encode(Alphabet::Bit { logp: 15 }, 1);
    assert_eq!(e.tell(), 16);
    assert_eq!(e.done().unwrap(), vec![0xff, 0xfe]);
}

#[test]
fn nothing_coded_is_all_zeros() {
    let e = RangeEncoder::new_encoder(3);
    assert_eq!(e.done().unwrap(), vec![0, 0, 0]);
}

/// A carry runs back through digits that have already been moved out.
#[test]
fn carries_reach_back() {
    let mut e = RangeEncoder::new_encoder(40);
    let mut values = Vec::new();
    // The highest value each time keeps every digit at its most; the last symbol
    // may push it over.
    for i in 0..30 {
        let v = if i == 0 { 0 } else { 255 };
        e.encode(Alphabet::Uniform { count: 256 }, v);
        values.push(v);
    }
    let bytes = e.done().unwrap();
    let mut d = RangeDecoder::new_decoder(&bytes);
    for v in values {
        assert_eq!(d.decode(Alphabet::Uniform { count: 256 }), v);
    }
}

#[test]
fn too_few_bytes_are_refused() {
    let mut e = RangeEncoder::new_encoder(2);
    for _ in 0..10 {
        e.encode(Alphabet::Uniform { count: 200 }, 3);
    }
    assert!(e.done().is_none());

    let mut e = RangeEncoder::new_encoder(1);
    e.enc_bits(0x1ff, 9);
    assert!(e.done().is_none());
}

/// The last raw bits may share a byte with the range coder's last.
#[test]
fn raw_bits_share_the_last_byte() {
    let mut e = RangeEncoder::new_encoder(1);
    e.encode(Alphabet::Bit { logp: 1 }, 1);
    e.enc_bits(5, 3);
    let bytes = e.done().unwrap();
    assert_eq!(bytes.len(), 1);
    let mut d = RangeDecoder::new_decoder(&bytes);
    assert_eq!(d.decode(Alphabet::Bit { logp: 1 }), 1);
    assert_eq!(d.dec_bits(3), 5);
}

#[test]
fn bits_are_eighths_rounded_up() {
    let mut e = RangeEncoder::new_encoder(100);
    let mut s = 3;
    for _ in 0..100 {
        let kind = next(&mut s);
        let (a, count) = alphabet(kind, &mut s);
        let v = next(&mut s) % count;
        e.encode(a, v);
        let whole = e.tell();
        let frac = e.tell_frac();
        assert!(8 * (whole - 1) < frac && frac <= 8 * whole);
    }
}

/// Bits that are declared used are used on both sides.
#[test]
fn skipping_ends_a_frame() {
    let mut e = RangeEncoder::new_encoder(10);
    e.encode(Alphabet::Spread, 2);
    e.skip_to(80);
    assert_eq!(e.tell(), 80);
    let bytes = e.done().unwrap();
    let mut d = RangeDecoder::new_decoder(&bytes);
    assert_eq!(d.decode(Alphabet::Spread), 2);
    d.skip_to(80);
    assert_eq!(d.tell(), 80);
}

#[test]
fn past_the_end_there_are_zeros() {
    let mut d = RangeDecoder::new_decoder(&[]);
    assert_eq!(d.storage(), 0);
    assert_eq!(d.dec_bits(8), 0);
    assert_eq!(d.decode(Alphabet::Bit { logp: 3 }), 0);
}
