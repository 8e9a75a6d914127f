use voicemeeter_osd::decimal::parse_single;
use voicemeeter_osd::draw::{half_points_of, hundredths_of, points_of};
use voicemeeter_osd::shortest::single_string;
use voicemeeter_osd::single::Single;

fn single(x: f32) -> Single {
    Single::from_bits(x.to_bits())
}

fn float(x: Single) -> f32 {
    f32::from_bits(x.bits)
}

/// A small generator of bit patterns, good enough to reach all binades.
struct Bits(u64);

impl Bits {
    fn next(&mut self) -> u32 {
        self.0 = self
            .0
            .wrapping_mul(6_364_136_223_846_793_005)
            .wrapping_add(1_442_695_040_888_963_407);
        (self.0 >> 32) as u32
    }
}

const ODD: [u32; 20] = [
    0x0000_0000, 0x8000_0000, 0x0000_0001, 0x8000_0001, 0x007F_FFFF, 0x0080_0000, 0x0080_0001,
    0x3F7F_FFFF, 0x3F80_0000, 0x3F80_0001, 0x4B00_0000, 0x4B7F_FFFF, 0x7F7F_FFFF, 0xFF7F_FFFF,
    0x7F80_0000, 0xFF80_0000, 0x7FC0_0000, 0x3DCC_CCCD, 0xC270_0000, 0x4140_0000,
];

fn same(a: f32, b: f32) -> bool {
    a.to_bits() == b.to_bits() || (a.is_nan() && b.is_nan())
}

fn compare(a: f32, b: f32) {
    let (x, y) = (single(a), single(b));
    assert!(same(float(x.plus(y)), a + b), "{a:e} + {b:e}");
    assert!(same(float(x.minus(y)), a - b), "{a:e} - {b:e}");
    assert!(same(float(x.times(y)), a * b), "{a:e} * {b:e}");
    assert!(same(float(x.over(y)), a / b), "{a:e} / {b:e}");
    assert_eq!(x.below(y), a < b);
    assert_eq!(x.at_most(y), a <= b);
    assert_eq!(x.equals(y), a == b);
    if a != b {
        assert!(same(float(x.larger_of(y)), a.max(b)), "{a:e} max {b:e}");
        assert!(same(float(x.smaller_of(y)), a.min(b)), "{a:e} min {b:e}");
    }
}

#[test]
fn arithmetic_is_that_of_the_hardware_at_the_edges() {
    for a in ODD {
        for b in ODD {
            compare(f32::from_bits(a), f32::from_bits(b));
        }
    }
}

#[test]
fn arithmetic_is_that_of_the_hardware_everywhere() {
    let mut bits = Bits(42);
    for _ in 0..40_000 {
        compare(f32::from_bits(bits.next()), f32::from_bits(bits.next()));
    }
}

#[test]
fn arithmetic_is_that_of_the_hardware_for_similar_sizes() {
    let mut bits = Bits(7);
    for _ in 0..40_000 {
        let a = bits.next();
        // The same sign and a close exponent, or the opposite sign.
        let b = (a ^ (bits.next() & 0x80FF_FFFF)).wrapping_add(bits.next() % 0x0400_0000);
        compare(f32::from_bits(a), f32::from_bits(b));
    }
}

#[test]
fn conversions_are_those_of_the_hardware() {
    let mut bits = Bits(3);
    for _ in 0..40_000 {
        let n = bits.next() as i32;
        assert_eq!(float(Single::from_i32(n)).to_bits(), (n as f32).to_bits());
        let wide = (n as i64) * (bits.next() % 100_000) as i64;
        assert_eq!(float(Single::from_i64(wide)).to_bits(), (wide as f32).to_bits());
        let x = f32::from_bits(bits.next());
        assert_eq!(single(x).to_i32(true), x.round() as i32, "{x:e}");
        assert_eq!(single(x).to_i32(false), x as i32, "{x:e}");
    }
    for x in [0.4, 0.5, 0.6, 1.5, 2.5, -0.5, -1.5, 8_388_607.5, 1e9, -1e9, 3e9, -3e9] {
        assert_eq!(single(x).to_i32(true), x.round() as i32, "{x}");
        assert_eq!(single(x).to_i32(false), x as i32, "{x}");
    }
}

#[test]
fn signs_and_classes() {
    for b in ODD {
        let x = f32::from_bits(b);
        assert_eq!(single(x).is_nan_value(), x.is_nan());
        assert_eq!(single(x).is_finite_value(), x.is_finite());
        assert_eq!(float(single(x).negate()).to_bits(), (-x).to_bits());
        if !x.is_nan() {
            let c = single(x).clamp_between(single(-60.0), single(12.0));
            assert_eq!(float(c).to_bits(), x.clamp(-60.0, 12.0).to_bits());
        }
    }
}

fn read(s: &str) -> Option<f32> {
    let chars: Vec<char> = s.chars().collect();
    parse_single(&chars).map(float)
}

fn check_text(s: &str) {
    match (read(s), s.parse::<f32>()) {
        (Some(a), Ok(b)) => assert!(same(a, b), "{s}: {a:e} {b:e}"),
        (None, Err(_)) => {}
        (a, b) => panic!("{s}: {a:?} {b:?}"),
    }
}

#[test]
fn decimals_read_as_the_standard_library_reads_them() {
    for s in [
        "", "+", "-", ".", "e", "e1", "1e", "1e+", "+1", "-1", "1.", ".1", "1.5", "-.5", "+.5e1",
        "0", "-0", "00.00", "1e0", "1E5", "1e-5", "1.5e+3", "1e38", "3.4e38", "3.5e38", "1e39",
        "1e-45", "7e-46", "7.1e-46", "1e-46", "1e400", "-1e400", "1e-400", "-1e-400",
        "1e99999999999999999999", "1e-99999999999999999999", "0e99999999999999999999", "inf",
        "-inf", "+Infinity", "INFINITY", "nan", "NaN", "-nan", "infin", "1 ", " 1", "1x", "0x10",
        "1_0", "1,5", "--1", "+-1", "1e1.5", "1.2.3", "١", "16777217", "16777219", "33554435",
        "0.1", "0.3", "2.5", "-60", "12", "340282356779733661637539395458142568447",
        "340282356779733661637539395458142568448", "1.17549435e-38", "1.4e-45",
        "123456789012345678901234567890123456789012345678901234567890e-50",
        "0.000000000000000000000000000000000000000000000000000000000000000001e66",
    ] {
        check_text(s);
    }
}

#[test]
fn halfway_decimals_round_to_even() {
    for b in [0x3F80_0000u32, 0x3F80_0001, 0x4270_0000, 0x0000_0001, 0x0080_0000, 0x007F_FFFF] {
        let (a, c) = (f32::from_bits(b) as f64, f32::from_bits(b + 1) as f64);
        check_text(&format!("{:.200}", (a + c) / 2.0));
        check_text(&format!("{:.200}1", (a + c) / 2.0));
    }
}

#[test]
fn numbers_print_as_the_standard_library_prints_them() {
    let mut bits = Bits(11);
    for b in ODD {
        assert_eq!(single_string(Single::from_bits(b)), format!("{}", f32::from_bits(b)));
    }
    for _ in 0..1_500 {
        let b = bits.next();
        assert_eq!(single_string(Single::from_bits(b)), format!("{}", f32::from_bits(b)));
    }
}

#[test]
fn fader_values_print_and_read_back() {
    let mut x = -60.0f32;
    while x < 12.0 {
        let text = single_string(single(x));
        assert_eq!(text, format!("{x}"));
        assert_eq!(read(&text), Some(x));
        x += 0.0937;
    }
}

#[test]
fn lengths_and_parts_are_exact_quotients() {
    for n in [-18, 2, 6, 10, 13, 14, 16, 18, 22, 24, 25, 26, 28, 30, 40, 42, 44, 50, 78, 88, 96] {
        let expected: f32 = format!("{}", n as f64 / 100.0).parse().unwrap();
        assert_eq!(float(hundredths_of(n)).to_bits(), expected.to_bits());
    }
    for dpi in [96, 120, 144, 168, 192] {
        assert_eq!(float(points_of(24, dpi)), 24.0 * dpi as f32 / 96.0);
        assert_eq!(float(half_points_of(21, dpi)), 10.5 * dpi as f32 / 96.0);
    }
}
