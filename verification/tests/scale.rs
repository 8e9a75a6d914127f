use voicemeeter_osd::scale::{
    amplitude_to_meter, ease_out_cubic, format_db, gain_fraction, gain_to_percent, WheelSteps,
    HUNDRED, SILENCE, TWENTY, WHEEL_DELTA,
};
use voicemeeter_osd::single::{Single, ONE};

fn single(x: f32) -> Single {
    Single::from_bits(x.to_bits())
}

fn float(x: Single) -> f32 {
    f32::from_bits(x.bits)
}

fn percent(gain: f32, min: f32, max: f32) -> i32 {
    gain_to_percent(single(gain), single(min), single(max))
}

fn meter(amplitude: f32, floor: f32) -> f32 {
    float(amplitude_to_meter(
        single(amplitude),
        single(amplitude.log10()),
        single(floor),
    ))
}

#[test]
fn percent_spans_the_configured_range() {
    assert_eq!(percent(-60.0, -60.0, 12.0), 0);
    assert_eq!(percent(12.0, -60.0, 12.0), 100);
    // Unity sits high on a -60..+12 fader, which surprises people.
    assert_eq!(percent(0.0, -60.0, 12.0), 83);
}

#[test]
fn percent_clamps_outside_the_range() {
    assert_eq!(percent(-90.0, -60.0, 12.0), 0);
    assert_eq!(percent(40.0, -60.0, 12.0), 100);
}

#[test]
fn percent_survives_a_degenerate_range() {
    // max <= min would divide by zero without the guard.
    let p = percent(0.0, 0.0, 0.0);
    assert!((0..=100).contains(&p));
}

#[test]
fn fraction_matches_percent() {
    let f = float(gain_fraction(single(-24.0), single(-60.0), single(12.0)));
    assert!((f - 0.5).abs() < 0.01);
}

#[test]
fn silence_reads_as_empty_meter() {
    assert_eq!(meter(0.0, -60.0), 0.0);
}

#[test]
fn unity_amplitude_fills_the_meter() {
    assert!((meter(1.0, -60.0) - 1.0).abs() < 0.001);
}

#[test]
fn half_amplitude_is_about_minus_six_db() {
    // -6 dB of -60 dB floor => 90% of the way up.
    let m = meter(0.5, -60.0);
    assert!((m - 0.9).abs() < 0.01, "got {m}");
}

#[test]
fn easing_is_bounded_and_monotonic() {
    let ease = |t: f32| float(ease_out_cubic(single(t)));
    assert_eq!(ease(0.0), 0.0);
    assert_eq!(ease(1.0), 1.0);
    let mut previous = 0.0;
    for step in 0..=10 {
        let value = ease(step as f32 / 10.0);
        assert!(value >= previous);
        previous = value;
    }
}

#[test]
fn whole_notches_step_immediately() {
    let mut wheel = WheelSteps::default();
    assert_eq!(wheel.feed(120), 1);
    assert_eq!(wheel.feed(-240), -2);
}

#[test]
fn fractional_deltas_add_up() {
    let mut wheel = WheelSteps::default();
    let steps: i32 = (0..6).map(|_| wheel.feed(40)).sum();
    assert_eq!(steps, 2);
}

#[test]
fn reversing_discards_the_partial_notch() {
    let mut wheel = WheelSteps::default();
    assert_eq!(wheel.feed(100), 0);
    assert_eq!(wheel.feed(-120), -1);
}

#[test]
fn db_formatting_has_one_decimal() {
    assert_eq!(format_db(Some(single(-26.0))), "-26.0 dB");
    assert_eq!(format_db(None), "");
}

#[test]
fn scale_constants_are_what_they_say() {
    assert_eq!(f32::from_bits(ONE), 1.0);
    assert_eq!(f32::from_bits(HUNDRED), 100.0);
    assert_eq!(f32::from_bits(TWENTY), 20.0);
    assert_eq!(SILENCE, 0.000_015f32.to_bits());
    assert_eq!(WHEEL_DELTA, 120);
}

#[test]
fn percentages_match_single_precision_arithmetic() {
    let reference = |gain: f32, min: f32, max: f32| {
        let range = (max - min).max(1.0);
        let pct = ((gain - min) / range * 100.0).round();
        pct.clamp(0.0, 100.0) as i32
    };
    let fraction = |gain: f32, min: f32, max: f32| {
        let range = (max - min).max(1.0);
        ((gain - min) / range).clamp(0.0, 1.0)
    };
    let mut gain = -65.0f32;
    while gain < 15.0 {
        for (min, max) in [(-60.0, 12.0), (-48.3, 6.1), (0.0, 0.5), (3.0, -3.0)] {
            assert_eq!(percent(gain, min, max), reference(gain, min, max), "{gain}");
            let f = gain_fraction(single(gain), single(min), single(max));
            assert_eq!(f.bits, fraction(gain, min, max).to_bits(), "{gain}");
        }
        gain += 0.037;
    }
    for odd in [f32::NAN, f32::INFINITY, f32::NEG_INFINITY, f32::MAX] {
        assert_eq!(percent(odd, -60.0, 12.0), reference(odd, -60.0, 12.0));
        assert_eq!(percent(0.0, -60.0, odd), reference(0.0, -60.0, odd));
        assert_eq!(percent(0.0, odd, 12.0), reference(0.0, odd, 12.0));
    }
}

#[test]
fn moving_up_never_lowers_the_percentage() {
    let mut last = 0;
    let mut gain = -61.0f32;
    while gain < 13.0 {
        let p = percent(gain, -60.0, 12.0);
        assert!(p >= last);
        last = p;
        gain += 0.01;
    }
    assert_eq!(last, 100);
}

#[test]
fn easing_matches_single_precision_arithmetic() {
    for i in -10..=1010 {
        let t = i as f32 / 1000.0;
        let inv = 1.0 - t.clamp(0.0, 1.0);
        let expected = 1.0 - inv * inv * inv;
        assert_eq!(ease_out_cubic(single(t)).bits, expected.to_bits(), "{t}");
    }
}

#[test]
fn meters_match_single_precision_arithmetic() {
    for i in 0..2000 {
        let a = i as f32 * 0.000_7;
        let expected = if a <= 0.000_015 {
            0.0
        } else {
            let db = 20.0 * a.log10();
            ((db - -60.0) / 60.0).clamp(0.0, 1.0)
        };
        assert_eq!(meter(a, -60.0).to_bits(), expected.to_bits(), "{a}");
    }
}

#[test]
fn decibels_print_like_floats_with_one_decimal() {
    let mut values = vec![
        0.0f32, -0.0, 0.04, 0.05, 0.06, -0.04, -0.05, -0.06, 0.25, 0.75, 1.25, 2.35, 9.95, 99.95,
        -59.97, 1e-20, 1e-45, 16_777_216.0, 1e10, 3.4e38, f32::NAN, f32::INFINITY,
        f32::NEG_INFINITY, f32::MAX, f32::MIN_POSITIVE,
    ];
    let mut x = -70.0f32;
    while x < 20.0 {
        values.push(x);
        x += 0.013;
    }
    for v in values {
        assert_eq!(format_db(Some(single(v))), format!("{v:.1} dB"));
    }
}

#[test]
fn wheel_remainders_never_reach_a_notch() {
    let mut wheel = WheelSteps::default();
    // 7 * 37 = 259 = 2 * 120 + 19
    let mut total = 0;
    for _ in 0..7 {
        total += wheel.feed(37);
    }
    assert_eq!(total, 2);
    assert_eq!(wheel.feed(101), 1);
    // The last step used the remainder up: 19 + 101 = 120.
    assert_eq!(wheel.feed(119), 0);
    assert_eq!(wheel.feed(-1), 0);
    assert_eq!(wheel.feed(-119), -1);
    assert_eq!(wheel.feed(0), 0);
}

#[test]
fn louder_signals_never_show_as_less() {
    let mut before = 0.0f32;
    let mut amplitude = 1e-6f32;
    while amplitude < 4.0 {
        let position = meter(amplitude, -60.0);
        assert!(before <= position && position <= 1.0);
        before = position;
        amplitude *= 1.07;
    }
    assert_eq!(before, 1.0);
}
