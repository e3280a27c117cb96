use sin_gen::args::{Args, ConfigurationError, DataType, SaveMode, SineWaves};
use sin_gen::samples::count;
use sin_gen::single::Single;

fn single(value: f32) -> Single {
    Single::from_bits(value.to_bits())
}

fn rounded_product(rate: f32, time: f32) -> usize {
    (rate * time).round() as usize
}

fn check_pair(rate: u32, time: u32) {
    let want = rounded_product(f32::from_bits(rate), f32::from_bits(time));
    let got = count(Single::from_bits(rate), Single::from_bits(time));
    assert_eq!(got, want, "rate {:#010x}, time {:#010x}", rate, time);
}

fn args(rate: f32, points: Option<usize>, time: Option<f32>) -> Args {
    Args {
        sampling_rate: single(rate),
        signals: SineWaves::from_str("f1").unwrap(),
        sampling_time: time.map(single),
        sample_points: points,
        out_file: String::from("out.txt"),
        data_type: DataType::Float,
        save_mode: SaveMode::Raw,
    }
}

#[test]
fn a_time_holds_rate_times_time_samples() {
    assert_eq!(count(single(8.0), single(1.0)), 8);
    assert_eq!(count(single(44100.0), single(2.0)), 88200);
    assert_eq!(count(single(0.5), single(3.0)), 2);
    assert_eq!(count(single(10.0), single(0.1)), 1);
    assert_eq!(count(single(1000.0), single(0.0)), 0);
}

#[test]
fn halves_are_rounded_upward_and_less_downward() {
    assert_eq!(count(single(1.0), single(0.5)), 1);
    assert_eq!(count(single(1.0), single(0.49999997)), 0);
    assert_eq!(count(single(1.0), single(1.5)), 2);
    assert_eq!(count(single(1.0), single(2.5)), 3);
    assert_eq!(count(single(3.0), single(0.4)), 1);
    assert_eq!(count(single(8.0), single(0.3)), 2);
    assert_eq!(count(single(8.0), single(0.31)), 2);
    assert_eq!(count(single(8.0), single(0.32)), 3);
}

#[test]
fn a_product_below_zero_or_of_no_number_holds_no_sample() {
    assert_eq!(count(single(8.0), single(-1.0)), 0);
    assert_eq!(count(single(-8.0), single(1.0)), 0);
    assert_eq!(count(single(f32::NAN), single(1.0)), 0);
    assert_eq!(count(single(8.0), single(f32::NAN)), 0);
    assert_eq!(count(single(f32::INFINITY), single(0.0)), 0);
    assert_eq!(count(single(f32::INFINITY), single(-1.0)), 0);
}

#[test]
fn a_product_beyond_all_counts_is_the_greatest_count() {
    assert_eq!(count(single(f32::INFINITY), single(1.0)), usize::MAX);
    assert_eq!(count(single(f32::MAX), single(f32::MAX)), usize::MAX);
    assert_eq!(count(single(1e20), single(1.0)), usize::MAX);
    assert_eq!(count(single(-1e20), single(-1.0)), usize::MAX);
    assert_eq!(count(single(1e10), single(1.0)), 10_000_000_000);
}

#[test]
fn counts_agree_with_single_precision_on_scattered_pairs() {
    let mut bits: u32 = 0x2545_f491;
    for _ in 0..200_000 {
        bits = bits.wrapping_mul(1_664_525).wrapping_add(1_013_904_223);
        let rate = bits;
        bits = bits.wrapping_mul(1_664_525).wrapping_add(1_013_904_223);
        check_pair(rate, bits);
    }
}

#[test]
fn counts_agree_with_single_precision_on_moderate_pairs() {
    let mut bits: u32 = 0x0bad_cafe;
    for _ in 0..300_000 {
        bits = bits.wrapping_mul(1_664_525).wrapping_add(1_013_904_223);
        let rate = (100 + (bits >> 9) % 60) << 23 | (bits & 0x7f_ffff);
        bits = bits.wrapping_mul(1_664_525).wrapping_add(1_013_904_223);
        let time = (100 + (bits >> 9) % 60) << 23 | (bits & 0x7f_ffff);
        check_pair(rate, time);
    }
}

#[test]
fn counts_agree_with_single_precision_near_halves() {
    for whole in 0..2000u32 {
        let half = whole as f32 + 0.5;
        for rate in [1.0f32, 2.0, 3.0, 0.25, 7.0, 1.1] {
            let time = half / rate;
            for nudge in 0..5u32 {
                check_pair(rate.to_bits(), time.to_bits() + nudge - 2);
            }
        }
    }
}

#[test]
fn counts_agree_with_single_precision_on_every_pair_of_exponents() {
    let fractions: [u32; 5] = [0, 1, 0x40_0000, 0x55_5555, 0x7f_ffff];
    for re in 0..256u32 {
        for te in 0..256u32 {
            for rf in fractions {
                for tf in fractions {
                    check_pair(re << 23 | rf, te << 23 | tf);
                }
            }
        }
    }
}

#[test]
fn the_points_of_a_run_come_from_its_one_length() {
    assert_eq!(args(8.0, Some(8), None).points(), Ok(8));
    assert_eq!(args(8.0, None, Some(1.0)).points(), Ok(8));
    assert_eq!(args(44100.0, None, Some(0.5)).points(), Ok(22050));
    assert_eq!(args(8.0, None, Some(0.3)).points(), Ok(2));
    assert_eq!(args(8.0, None, None).points(), Err(ConfigurationError::NoLength));
    assert_eq!(args(8.0, Some(8), Some(1.0)).points(), Err(ConfigurationError::TwoLengths));
}
