use pumpkin::coord::Coord;

fn c(value: f64) -> Coord {
    Coord::from_bits(value.to_bits())
}

fn samples() -> Vec<f64> {
    let mut values = vec![
        0.0,
        -0.0,
        1.0,
        -1.0,
        0.1,
        0.25,
        -0.25,
        0.5,
        2.0,
        3.5,
        -7.75,
        16.0,
        1.0e-300,
        -2.5e-308,
        5.0e-324,
        1.5e-323,
        2.2250738585072014e-308,
        2.225073858507201e-308,
        9007199254740991.0,
        9007199254740992.0,
        9007199254740993.0,
        4503599627370497.5,
        2147483647.0,
        2147483646.5,
        -2147483648.5,
        1.0e18,
        1.0e300,
        -1.7976931348623157e308,
        1.7976931348623157e308,
        f64::INFINITY,
        f64::NEG_INFINITY,
        f64::NAN,
    ];
    let mut bits: u64 = 0x9e37_79b9_7f4a_7c15;
    for _ in 0..200 {
        bits = bits.wrapping_mul(6364136223846793005).wrapping_add(1442695040888963407);
        values.push(f64::from_bits(bits ^ (bits >> 29)));
        values.push(((bits >> 11) as f64 / 9007199254740992.0 - 0.5) * 4096.0);
    }
    values
}

fn same(a: Coord, b: f64) -> bool {
    if b.is_nan() {
        a.is_not_number()
    } else {
        a.to_bits() == b.to_bits()
    }
}

#[test]
fn comparisons_are_those_of_binary64() {
    for a in samples() {
        for b in samples() {
            assert_eq!(c(a).le(c(b)), a <= b, "{} <= {}", a, b);
            assert_eq!(c(a).lt(c(b)), a < b, "{} < {}", a, b);
        }
    }
}

#[test]
fn sums_and_differences_are_those_of_binary64() {
    for a in samples() {
        for b in samples() {
            assert!(same(c(a).plus(c(b)), a + b), "{} + {}", a, b);
            assert!(same(c(a).minus(c(b)), a - b), "{} - {}", a, b);
        }
    }
}

#[test]
fn products_are_those_of_binary64() {
    for a in samples() {
        for b in samples() {
            assert!(same(c(a).times(c(b)), a * b), "{} * {}", a, b);
        }
    }
}

#[test]
fn ties_round_to_even() {
    assert_eq!(c(9007199254740992.0).plus(c(1.0)), c(9007199254740992.0));
    assert_eq!(c(9007199254740994.0).plus(c(1.0)), c(9007199254740996.0));
    assert_eq!(c(5.0e-324).times(c(0.5)), c(0.0));
    assert_eq!(c(1.5e-323).times(c(0.5)), c(1.0e-323));
}

#[test]
fn blocks_are_rounded_and_clamped() {
    for a in samples() {
        assert_eq!(c(a).floor_to_block(), a.floor() as i32, "{}", a);
        assert_eq!(c(a).ceil_to_block(), a.ceil() as i32, "{}", a);
    }
    assert_eq!(c(-0.5).floor_to_block(), -1);
    assert_eq!(c(-0.5).ceil_to_block(), 0);
    assert_eq!(c(f64::NAN).floor_to_block(), 0);
    assert_eq!(c(1.0e18).floor_to_block(), i32::MAX);
}

#[test]
fn signs_turn_and_drop() {
    for a in samples() {
        assert_eq!(c(a).negated().to_bits(), (-a).to_bits());
        assert_eq!(c(a).abs().to_bits(), a.abs().to_bits());
    }
}

#[test]
fn equality_is_that_of_numbers() {
    for a in samples() {
        for b in samples() {
            assert_eq!(c(a) == c(b), a == b);
        }
    }
    assert!(c(0.0) == c(-0.0));
    assert!(c(f64::NAN) != c(f64::NAN));
    assert!(c(f64::INFINITY) == c(f64::INFINITY));
}
