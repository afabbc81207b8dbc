//! The bit-level arithmetic against the machine's own binary32 operations.

use audio_combiner::binary32::{add, clamp_unit, from_percent, mul, to_i16, NAN, ONE, PCM_SCALE};

/// A small deterministic generator of 32-bit words.
struct Words(u64);

impl Words {
    fn next(&mut self) -> u32 {
        self.0 = self.0.wrapping_mul(6364136223846793005).wrapping_add(1442695040888963407);
        (self.0 >> 32) as u32
    }
}

fn same(ours: u32, theirs: f32) -> bool {
    if theirs.is_nan() {
        ours == NAN
    } else {
        ours == theirs.to_bits()
    }
}

const EDGES: [u32; 24] = [
    0x0000_0000, 0x8000_0000, 0x0000_0001, 0x8000_0001, 0x007f_ffff, 0x0080_0000, 0x0080_0001,
    0x00ff_ffff, 0x3f80_0000, 0xbf80_0000, 0x3f7f_ffff, 0x3f80_0001, 0x4000_0000, 0x7f7f_ffff,
    0xff7f_ffff, 0x7f80_0000, 0xff80_0000, 0x7fc0_0000, 0x7f80_0001, 0x3f00_0000, 0x46ff_fe00,
    0x3400_0000, 0x3380_0000, 0x4b80_0000,
];

#[test]
fn mul_matches_hardware_on_edges() {
    for &a in EDGES.iter() {
        for &b in EDGES.iter() {
            let want = f32::from_bits(a) * f32::from_bits(b);
            assert!(same(mul(a, b), want), "{:08x} * {:08x}", a, b);
        }
    }
}

#[test]
fn add_matches_hardware_on_edges() {
    for &a in EDGES.iter() {
        for &b in EDGES.iter() {
            let want = f32::from_bits(a) + f32::from_bits(b);
            assert!(same(add(a, b), want), "{:08x} + {:08x}", a, b);
        }
    }
}

#[test]
fn mul_matches_hardware_on_random_words() {
    let mut words = Words(1);
    for _ in 0..200_000 {
        let a = words.next();
        let b = words.next();
        let want = f32::from_bits(a) * f32::from_bits(b);
        assert!(same(mul(a, b), want), "{:08x} * {:08x}", a, b);
    }
}

#[test]
fn mul_matches_hardware_near_the_subnormal_range() {
    let mut words = Words(2);
    for _ in 0..200_000 {
        // exponents chosen so that the product's exponent is near -126
        let a = (words.next() & 0x807f_ffff) | (((words.next() % 60) + 20) << 23);
        let b = (words.next() & 0x807f_ffff) | (((words.next() % 60) + 20) << 23);
        let want = f32::from_bits(a) * f32::from_bits(b);
        assert!(same(mul(a, b), want), "{:08x} * {:08x}", a, b);
    }
}

#[test]
fn add_matches_hardware_on_random_words() {
    let mut words = Words(3);
    for _ in 0..200_000 {
        let a = words.next();
        let b = words.next();
        let want = f32::from_bits(a) + f32::from_bits(b);
        assert!(same(add(a, b), want), "{:08x} + {:08x}", a, b);
    }
}

#[test]
fn add_matches_hardware_on_close_exponents() {
    let mut words = Words(4);
    for _ in 0..300_000 {
        let a = words.next();
        let exp_a = (a >> 23) & 0xff;
        let shift = words.next() % 45;
        let exp_b = exp_a.saturating_sub(shift);
        let b = (words.next() & 0x807f_ffff) | (exp_b << 23);
        let want = f32::from_bits(a) + f32::from_bits(b);
        assert!(same(add(a, b), want), "{:08x} + {:08x}", a, b);
        let want = f32::from_bits(b) + f32::from_bits(a);
        assert!(same(add(b, a), want), "{:08x} + {:08x}", b, a);
    }
}

#[test]
fn add_matches_hardware_on_round_significands() {
    // powers of two and their neighbours, against operands far below
    let mut words = Words(5);
    for exp in 1u32..255 {
        for frac in [0u32, 1, 0x7f_ffff, 0x40_0000] {
            for sign in [0u32, 0x8000_0000] {
                let a = sign | (exp << 23) | frac;
                for _ in 0..40 {
                    let b = words.next();
                    let want = f32::from_bits(a) + f32::from_bits(b);
                    assert!(same(add(a, b), want), "{:08x} + {:08x}", a, b);
                }
            }
        }
    }
}

#[test]
fn add_of_opposites_is_positive_zero() {
    assert_eq!(add(ONE, 0xbf80_0000), 0);
    assert_eq!(add(0x8000_0000, 0x8000_0000), 0x8000_0000);
    assert_eq!(add(0x8000_0000, 0), 0);
}

#[test]
fn from_percent_matches_hardware_for_every_percentage() {
    for p in 0u8..=255 {
        let want = p as f32 / 100.0;
        assert_eq!(from_percent(p), want.to_bits(), "{}", p);
    }
}

#[test]
fn from_percent_of_full_volume_is_one() {
    assert_eq!(from_percent(100), ONE);
    assert_eq!(from_percent(50), 0x3f00_0000);
    assert_eq!(from_percent(200), 0x4000_0000);
    assert_eq!(from_percent(0), 0);
}

#[test]
fn to_i16_matches_hardware() {
    let mut words = Words(6);
    for _ in 0..200_000 {
        let w = words.next();
        assert_eq!(to_i16(w), f32::from_bits(w) as i16, "{:08x}", w);
    }
    for &w in EDGES.iter() {
        assert_eq!(to_i16(w), f32::from_bits(w) as i16, "{:08x}", w);
    }
    let mut x = -40000.0f32;
    while x < 40000.0 {
        assert_eq!(to_i16(x.to_bits()), x as i16, "{}", x);
        x += 0.37;
    }
}

#[test]
fn clamp_unit_matches_hardware() {
    let mut words = Words(7);
    for _ in 0..200_000 {
        let w = words.next();
        let x = f32::from_bits(w);
        if x.is_nan() {
            assert_eq!(clamp_unit(w), w);
        } else {
            assert_eq!(clamp_unit(w), x.clamp(-1.0, 1.0).to_bits(), "{:08x}", w);
        }
    }
}

#[test]
fn pcm_scale_is_the_largest_sample_magnitude() {
    assert_eq!(PCM_SCALE, 32767.0f32.to_bits());
    assert_eq!(ONE, 1.0f32.to_bits());
}

#[test]
fn doubling_is_inexact_between_the_smallest_values() {
    // three of the smallest units at half volume: one and a half units,
    // which is rounded to two; at full volume the three units stay three
    let sample = 0x0000_0003;
    assert_eq!(mul(sample, from_percent(50)), 2);
    assert_eq!(mul(sample, from_percent(100)), 3);
    assert_eq!(mul(sample, from_percent(50)), (f32::from_bits(sample) * 0.5).to_bits());
}

#[test]
fn operations_do_not_depend_on_operand_order() {
    let mut words = Words(8);
    for _ in 0..50_000 {
        let a = words.next();
        let b = words.next();
        assert_eq!(mul(a, b), mul(b, a));
        assert_eq!(add(a, b), add(b, a));
    }
}
