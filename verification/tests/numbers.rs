use rmf_prototype::double::Double;
use rmf_prototype::single::Single;

fn single(x: f32) -> Single {
    Single { bits: x.to_bits() }
}

fn samples() -> Vec<f32> {
    let mut out = vec![
        0.0,
        -0.0,
        1.0,
        -1.0,
        0.5,
        1.5,
        2.5,
        -2.5,
        0.1,
        0.2,
        0.3,
        1.0e-3,
        3.4e38,
        -3.4e38,
        f32::MAX,
        f32::MIN,
        f32::MIN_POSITIVE,
        f32::from_bits(1),
        f32::from_bits(3),
        f32::from_bits(0x007f_ffff),
        f32::INFINITY,
        f32::NEG_INFINITY,
        f32::NAN,
        16_777_216.0,
        16_777_217.0,
        8_388_607.5,
        4_294_967_295.0,
        1.8446744e19,
    ];
    let mut state: u32 = 12345;
    for _ in 0..200 {
        state = state.wrapping_mul(1664525).wrapping_add(1013904223);
        out.push(f32::from_bits(state));
        out.push(((state >> 8) as f32) / 997.0 - 5000.0);
    }
    out
}

fn agrees(ours: Single, theirs: f32) -> bool {
    if theirs.is_nan() {
        ours.is_nan()
    } else {
        ours.bits == theirs.to_bits()
    }
}

#[test]
fn arithmetic_matches_the_machine() {
    for a in samples() {
        for b in samples() {
            assert!(agrees(single(a).plus(single(b)), a + b), "{a:e} + {b:e}");
            assert!(agrees(single(a).minus(single(b)), a - b), "{a:e} - {b:e}");
            assert!(agrees(single(a).times(single(b)), a * b), "{a:e} * {b:e}");
            assert!(agrees(single(a).over(single(b)), a / b), "{a:e} / {b:e}");
            assert_eq!(single(a).less_than(single(b)), a < b);
        }
    }
}

#[test]
fn extremes_match_the_machine() {
    for a in samples() {
        for b in samples() {
            let low = f32::from_bits(single(a).min(single(b)).bits);
            let high = f32::from_bits(single(a).max(single(b)).bits);
            assert!(low == a.min(b) || (low.is_nan() && a.min(b).is_nan()));
            assert!(high == a.max(b) || (high.is_nan() && a.max(b).is_nan()));
        }
    }
}

#[test]
fn conversions_match_the_machine() {
    for a in samples() {
        assert_eq!(single(a).floor_to_usize(), a.floor() as usize);
        assert_eq!(single(a).ceil_to_usize(), a.ceil() as usize);
        assert_eq!(single(a).ceil_to_u32(), a.ceil() as u32);
        assert!(agrees(single(a).negate(), -a));
        let wide = Double::from_single(single(a));
        assert!((a as f64).to_bits() == wide.bits || a.is_nan());
        assert!(agrees(wide.to_single(), a));
    }
    for n in [0u32, 1, 2, 20, 16_777_217, 16_777_219, u32::MAX, u32::MAX - 128] {
        assert!(agrees(Single::from_integer(n), n as f32));
    }
}

#[test]
fn doubles_match_the_machine() {
    let mut state: u64 = 99;
    let mut values = vec![
        0.0f64, -0.0, 0.5, 1.5, 2.5, -0.5, 0.49999999999999994, 1.0e300, 1.0e-300, 1.0e-45, 7.0e-46,
        f64::NAN, f64::INFINITY, f64::NEG_INFINITY, 3.4028235677973366e38, 3.4028235677973365e38,
        1.8446744073709552e19, 1.8e19, 0.1, 4503599627370497.5,
    ];
    for _ in 0..2000 {
        state = state.wrapping_mul(6364136223846793005).wrapping_add(1442695040888963407);
        values.push(f64::from_bits(state));
        values.push(((state >> 20) as f64) / 1.0e6);
    }
    for d in values {
        let ours = Double { bits: d.to_bits() };
        assert!(agrees(ours.to_single(), d as f32), "{d:e}");
        assert_eq!(ours.round_to_usize(), d.round() as usize, "{d:e}");
    }
}

#[test]
fn rounding_keeps_order_and_exact_values() {
    let mut sorted: Vec<f32> = samples().into_iter().filter(|x| *x >= 0.0).collect();
    sorted.sort_by(|a, b| a.total_cmp(b));
    for d in [0.1f32, 0.5, 3.0, 1.0e-40] {
        for pair in sorted.windows(2) {
            let low = f32::from_bits(single(pair[0]).over(single(d)).bits);
            let high = f32::from_bits(single(pair[1]).over(single(d)).bits);
            assert!(low <= high);
        }
    }
    for a in samples() {
        if !a.is_nan() {
            assert_eq!(single(a).over(single(1.0)).bits, a.to_bits());
            assert_eq!(single(a).times(single(1.0)).bits, a.to_bits());
            assert_eq!(Double::from_single(single(a)).to_single().bits, a.to_bits());
        }
    }
}

#[test]
fn equality_matches_the_machine() {
    for a in samples() {
        for b in samples() {
            assert_eq!(single(a) == single(b), a == b);
            let (x, y) = (a as f64, b as f64);
            let wide = |v: f64| Double { bits: v.to_bits() };
            assert_eq!(wide(x) == wide(y), x == y);
        }
    }
}
