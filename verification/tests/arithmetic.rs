use matter_backlight::binary32::Binary32;
use matter_backlight::float::Float;
use matter_backlight::ratio::{Ratio, ONE_BITS};

/// A spread of nonnegative finite patterns up to the given one.
fn patterns(top: u32) -> Vec<u32> {
    let mut all: Vec<u32> = vec![
        0,
        1,
        2,
        3,
        0x7f_ffff,
        0x80_0000,
        0x80_0001,
        0xff_ffff,
        0x100_0000,
        0x3e4c_cccd,
        0x3f4c_cccd,
        0x3f7f_ffff,
        0x3f80_0000,
        0x3f80_0001,
        0x437f_0000,
        0x4b7f_ffff,
        0x4b80_0000,
        0x4f80_0000,
    ];
    let mut seed: u64 = 12345;
    for _ in 0..120 {
        seed = seed
            .wrapping_mul(6364136223846793005)
            .wrapping_add(1442695040888963407);
        all.push((seed >> 33) as u32);
    }
    all.retain(|bits| *bits <= top);
    all
}

#[test]
fn integers_convert_as_the_hardware_does() {
    let mut inputs: Vec<u32> = (0..2000).collect();
    inputs.extend([
        0xff_ffff,
        0x100_0000,
        0x100_0001,
        0x100_0002,
        0x100_0003,
        0x1ff_ffff,
        0x8000_0080,
        0x8000_0180,
        u32::MAX - 128,
        u32::MAX - 127,
        u32::MAX,
    ]);
    for n in inputs {
        assert_eq!(Binary32::from_u32(n).to_bits(), (n as f32).to_bits());
    }
    assert_eq!(Binary32::from_u32(5).to_bits(), 0x40a0_0000);
}

#[test]
fn products_round_as_the_hardware_does() {
    for a in patterns(0x5f00_0000) {
        for b in patterns(0x5000_0000) {
            let product = Binary32::from_bits(a).times(Binary32::from_bits(b));
            let expected = f32::from_bits(a) * f32::from_bits(b);
            assert_eq!(product.to_bits(), expected.to_bits());
        }
    }
    let product = Binary32::from_bits(0x3f80_0001).times(Binary32::from_bits(0x3f80_0001));
    assert_eq!(product.to_bits(), 0x3f80_0002);
}

#[test]
fn products_below_the_normal_range_round_as_the_hardware_does() {
    let mut soft = Binary32::from_u32(1);
    let mut hard = 1.0_f32;
    for _ in 0..700 {
        soft = soft.times(Binary32::from_bits(0x3f4c_cccd));
        hard *= 0.8;
        assert_eq!(soft.to_bits(), hard.to_bits());
    }
    assert_eq!(soft.to_bits(), 2);
}

#[test]
fn quotients_round_as_the_hardware_does() {
    for a in patterns(0x5f00_0000) {
        for b in patterns(0x5f00_0000) {
            if b < 0x2f00_0000 {
                continue;
            }
            let quotient = Binary32::from_bits(a).divided_by(Binary32::from_bits(b));
            let expected = f32::from_bits(a) / f32::from_bits(b);
            assert_eq!(quotient.to_bits(), expected.to_bits());
        }
    }
    let third = Binary32::from_u32(1).divided_by(Binary32::from_u32(3));
    assert_eq!(third.to_bits(), 0x3eaa_aaab);
}

#[test]
fn sums_round_as_the_hardware_does() {
    for a in patterns(0x7000_0000) {
        for b in patterns(0x7000_0000) {
            let sum = Binary32::from_bits(a).plus(Binary32::from_bits(b));
            let expected = f32::from_bits(a) + f32::from_bits(b);
            assert_eq!(sum.to_bits(), expected.to_bits());
        }
    }
    let sum = Binary32::from_u32(0x100_0000).plus(Binary32::from_u32(1));
    assert_eq!(sum.to_bits(), 0x4b80_0000);
}

#[test]
fn numbers_truncate_as_the_hardware_does() {
    for a in patterns(0x7f7f_ffff) {
        let number = Binary32::from_bits(a);
        assert_eq!(number.to_u32(), f32::from_bits(a) as u32);
        assert_eq!(number.to_u8(), f32::from_bits(a) as u8);
    }
    assert_eq!(Binary32::from_bits((5.999_f32).to_bits()).to_u32(), 5);
    assert_eq!(Binary32::from_bits((300.5_f32).to_bits()).to_u8(), 255);
    assert_eq!(Binary32::from_bits((5e9_f32).to_bits()).to_u32(), u32::MAX);
    assert_eq!(Binary32::zero().to_u32(), 0);
}

#[test]
fn numbers_compare_as_the_hardware_does() {
    for a in patterns(0x7f7f_ffff) {
        for b in patterns(0x7f7f_ffff) {
            let less = Binary32::from_bits(a).less_than(Binary32::from_bits(b));
            assert_eq!(less, f32::from_bits(a) < f32::from_bits(b));
        }
    }
}

#[test]
fn level_becomes_its_share_of_255() {
    for level in 0..=255_u8 {
        let ratio = Ratio::of_level(level);
        assert_eq!(ratio.number().to_bits(), (level as f32 / 255.0).to_bits());
    }
    assert_eq!(Ratio::of_level(255).number().to_bits(), ONE_BITS);
}

#[test]
fn level_survives_its_ratio() {
    for level in 0..=255_u8 {
        let ratio = Ratio::of_level(level);
        assert_eq!(ratio.to_level(), level);
        assert_eq!(ratio.is_zero(), level == 0);
    }
}

#[test]
fn ratio_of_a_large_number_is_one() {
    let half = Binary32::from_u32(1).divided_by(Binary32::from_u32(2));
    assert_eq!(Ratio::capped(half).number().to_bits(), 0x3f00_0000);
    assert_eq!(Ratio::capped(half).to_level(), 127);
    assert_eq!(Ratio::capped(Binary32::from_u32(7)).number().to_bits(), ONE_BITS);
    assert_eq!(Ratio::full().number().to_bits(), ONE_BITS);
    assert_eq!(Ratio::full().to_level(), 255);
}

#[test]
fn products_of_any_kind_are_those_of_the_hardware() {
    let mut all = patterns(0x7f80_0000);
    all.extend([0x7f7f_ffff, 0x7f80_0000, 0x7f80_0001, 0x7fc0_0000, 0x5f80_0000, 0x5f7f_ffff]);
    for a in all.clone() {
        for b in all.clone() {
            for (a, b) in [(a, b), (a | 0x8000_0000, b), (a | 0x8000_0000, b | 0x8000_0000)] {
                let product = Float::from_bits(a).times(Float::from_bits(b));
                let expected = f32::from_bits(a) * f32::from_bits(b);
                if expected.is_nan() {
                    assert!(product.is_nan());
                } else {
                    assert_eq!(product.to_bits(), expected.to_bits());
                }
            }
        }
    }
    let largest = Float::from_bits(0x7f7f_ffff);
    assert_eq!(largest.times(Float::from_bits(0x3f80_0001)).to_bits(), 0x7f80_0000);
    assert_eq!(largest.times(Float::from_bits(0xbf80_0000)).to_bits(), 0xff7f_ffff);
}

#[test]
fn integer_parts_of_any_kind_are_those_of_the_hardware() {
    let mut all = patterns(0x7f80_0000);
    all.extend([0x4f7f_ffff, 0x4f80_0000, 0x7f7f_ffff, 0x7f80_0000, 0x7fc0_0000]);
    for a in all {
        for bits in [a, a | 0x8000_0000] {
            assert_eq!(Float::from_bits(bits).to_u32(), f32::from_bits(bits) as u32);
            assert_eq!(Float::from_bits(bits).is_at_most_zero(), f32::from_bits(bits) <= 0.0);
        }
    }
}
