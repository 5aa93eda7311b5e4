use baking_formula::decimal::{Decimal, MAX_MAGNITUDE, MAX_SCALE};

fn parts(d: &Decimal) -> (bool, u128, u32) {
    (d.is_sign_negative(), d.magnitude(), d.scale())
}

fn outside(d: &Decimal) -> rust_decimal::Decimal {
    let mut x = rust_decimal::Decimal::from_i128_with_scale(d.magnitude() as i128, d.scale());
    x.set_sign_negative(d.is_sign_negative());
    x
}

#[test]
fn a_decimal_holds_sign_magnitude_and_scale() {
    assert_eq!(parts(&Decimal::new(1234567, 7)), (false, 1234567, 7));
    assert_eq!(parts(&Decimal::new(-5, 1)), (true, 5, 1));
    assert_eq!(parts(&Decimal::new(0, 0)), (false, 0, 0));
    assert_eq!(parts(&Decimal::new(i64::MIN, 28)), (true, 9223372036854775808, 28));
    assert!(Decimal::new(0, 3).is_zero());
    assert!(!Decimal::new(1, 3).is_zero());
}

#[test]
fn parts_out_of_range_make_no_decimal() {
    assert!(Decimal::from_parts(false, MAX_MAGNITUDE, MAX_SCALE).is_some());
    assert!(Decimal::from_parts(true, MAX_MAGNITUDE + 1, 0).is_none());
    assert!(Decimal::from_parts(false, 1, MAX_SCALE + 1).is_none());
    let zero = Decimal::from_parts(true, 0, 2).unwrap();
    assert_eq!(parts(&zero), (true, 0, 2));
    assert_eq!(zero.to_string(), "-0.00");
}

#[test]
fn rounding_goes_half_to_even() {
    assert_eq!(parts(&Decimal::new(123456700, 7).round_dp(3)), (false, 12346, 3));
    assert_eq!(parts(&Decimal::new(65, 1).round_dp(0)), (false, 6, 0));
    assert_eq!(parts(&Decimal::new(75, 1).round_dp(0)), (false, 8, 0));
    assert_eq!(parts(&Decimal::new(-75, 1).round_dp(0)), (true, 8, 0));
    assert_eq!(parts(&Decimal::new(74999, 4).round_dp(0)), (false, 7, 0));
    assert_eq!(parts(&Decimal::new(75001, 4).round_dp(0)), (false, 8, 0));
    // no more digits than asked for: unchanged
    assert_eq!(parts(&Decimal::new(251, 2).round_dp(3)), (false, 251, 2));
    assert_eq!(parts(&Decimal::new(251, 2).round_dp(2)), (false, 251, 2));
    // zero keeps its sign, what rounds to zero loses it
    assert_eq!(parts(&Decimal::from_parts(true, 0, 5).unwrap().round_dp(2)), (true, 0, 2));
    assert_eq!(parts(&Decimal::new(-4, 4).round_dp(3)), (false, 0, 3));
    let widest = Decimal::from_parts(false, MAX_MAGNITUDE, MAX_SCALE).unwrap();
    assert_eq!(parts(&widest.round_dp(0)), (false, 8, 0));
    assert_eq!(parts(&widest.round_dp(27)), (false, 7922816251426433759354395034, 27));
}

#[test]
fn rounding_is_that_of_the_decimal_crate() {
    let samples: [(i64, u32); 12] = [
        (0, 0),
        (5, 1),
        (15, 1),
        (25, 1),
        (-25, 1),
        (1234565, 6),
        (1234575, 6),
        (999999, 4),
        (-999995, 4),
        (1, 28),
        (i64::MAX, 10),
        (i64::MIN, 19),
    ];
    for (num, scale) in samples {
        let d = Decimal::new(num, scale);
        for places in 0..6 {
            let rounded = d.round_dp(places);
            let expected = outside(&d).round_dp(places);
            assert_eq!(outside(&rounded), expected);
            assert_eq!(rounded.scale(), expected.scale());
            assert_eq!(rounded.is_sign_negative(), expected.is_sign_negative());
            assert_eq!(rounded.to_string(), expected.to_string());
        }
    }
}

#[test]
fn text_shows_every_digit_of_the_scale() {
    assert_eq!(Decimal::new(3, 0).to_string(), "3");
    assert_eq!(Decimal::new(3141, 3).to_string(), "3.141");
    assert_eq!(Decimal::new(-5, 1).to_string(), "-0.5");
    assert_eq!(Decimal::new(5, 3).to_string(), "0.005");
    assert_eq!(Decimal::new(1200, 2).to_string(), "12.00");
    assert_eq!(Decimal::new(0, 0).to_string(), "0");
    assert_eq!(
        Decimal::from_parts(false, MAX_MAGNITUDE, 0).unwrap().to_string(),
        "79228162514264337593543950335"
    );
}

#[test]
fn products_keep_the_digits_of_both() {
    let hundred = Decimal::new(100, 0);
    assert_eq!(parts(&Decimal::new(5, 1).checked_mul(&hundred).unwrap()), (false, 500, 1));
    assert_eq!(
        parts(&Decimal::new(1234567, 7).checked_mul(&hundred).unwrap()),
        (false, 123456700, 7)
    );
    assert_eq!(parts(&Decimal::new(-3, 2).checked_mul(&Decimal::new(2, 1)).unwrap()), (true, 6, 3));
    let largest = Decimal::from_parts(false, MAX_MAGNITUDE, 0).unwrap();
    assert!(largest.checked_mul(&hundred).is_none());
}

#[test]
fn sums_bring_both_to_one_scale() {
    let sum = Decimal::new(15, 1).checked_add(&Decimal::new(25, 2)).unwrap();
    assert_eq!(parts(&sum), (false, 175, 2));
    assert_eq!(parts(&Decimal::new(0, 0).checked_add(&Decimal::new(1000, 0)).unwrap()), (false, 1000, 0));
    let largest = Decimal::from_parts(false, MAX_MAGNITUDE, 0).unwrap();
    assert!(largest.checked_add(&Decimal::new(1, 0)).is_none());
    assert_eq!(parts(&largest.checked_add(&Decimal::new(-1, 0)).unwrap()), (false, MAX_MAGNITUDE - 1, 0));
}

#[test]
fn quotients_fail_on_zero() {
    assert_eq!(parts(&Decimal::new(650, 0).checked_div(&Decimal::new(1000, 0)).unwrap()), (false, 65, 2));
    assert_eq!(parts(&Decimal::new(1, 0).checked_div(&Decimal::new(-8, 0)).unwrap()), (true, 125, 3));
    assert!(Decimal::new(1, 0).checked_div(&Decimal::new(0, 0)).is_none());
    assert!(Decimal::new(1, 0).checked_div(&Decimal::new(0, 5)).is_none());
    let third = Decimal::new(1, 0).checked_div(&Decimal::new(3, 0)).unwrap();
    assert_eq!(third.to_string(), "0.3333333333333333333333333333");
}

/// The rule of rounding, written out: half to even, the scale cut to the
/// places asked for, the sign of what becomes zero dropped.
fn rule(negative: bool, magnitude: u128, scale: u32, places: u32) -> (bool, u128, u32) {
    if scale <= places {
        return (negative, magnitude, scale);
    }
    if magnitude == 0 {
        return (negative, 0, places);
    }
    let unit = 10u128.pow(scale - places);
    let kept = magnitude / unit;
    let rest = magnitude % unit;
    let up = 2 * rest > unit || (2 * rest == unit && kept % 2 == 1);
    let rounded = if up { kept + 1 } else { kept };
    (negative && rounded != 0, rounded, places)
}

#[test]
fn rounding_follows_the_rule() {
    let mut seed: u64 = 0x2545F4914F6CDD1D;
    let mut next = move || {
        seed ^= seed << 13;
        seed ^= seed >> 7;
        seed ^= seed << 17;
        seed
    };
    for round in 0..20000u32 {
        let wide = ((next() as u128) << 64 | next() as u128) & MAX_MAGNITUDE;
        let magnitude = wide >> (next() % 97);
        let scale = (next() % 29) as u32;
        let places = (next() % 31) as u32;
        let negative = next() % 2 == 0;
        // every so often a tie, or a zero
        let magnitude = match round % 7 {
            0 if scale > places && scale - places <= 20 => {
                let unit = 10u128.pow(scale - places);
                (magnitude % 1000) * unit + unit / 2
            }
            1 => 0,
            _ => magnitude,
        };
        let d = Decimal::from_parts(negative, magnitude, scale).unwrap();
        assert_eq!(parts(&d.round_dp(places)), rule(negative, magnitude, scale, places));
    }
}

/// The product where it can be held digit for digit.
fn exact(a: (bool, u128, u32), b: (bool, u128, u32)) -> Option<(bool, u128, u32)> {
    if a.1 == 0 || b.1 == 0 {
        return Some((false, 0, 0));
    }
    match a.1.checked_mul(b.1) {
        Some(m) if m <= MAX_MAGNITUDE && a.2 + b.2 <= MAX_SCALE => Some((a.0 != b.0, m, a.2 + b.2)),
        _ => None,
    }
}

#[test]
fn products_are_exact_where_they_can_be_held() {
    let mut seed: u64 = 0x853C49E6748FEA9B;
    let mut next = move || {
        seed ^= seed << 13;
        seed ^= seed >> 7;
        seed ^= seed << 17;
        seed
    };
    let mut held = 0;
    for _ in 0..20000 {
        let mut draw = || {
            let wide = ((next() as u128) << 64 | next() as u128) & MAX_MAGNITUDE;
            let magnitude = if next() % 9 == 0 { 0 } else { wide >> (next() % 97) };
            (next() % 2 == 0, magnitude, (next() % 29) as u32)
        };
        let a = draw();
        let b = draw();
        if let Some(product) = exact(a, b) {
            held += 1;
            let x = Decimal::from_parts(a.0, a.1, a.2).unwrap();
            let y = Decimal::from_parts(b.0, b.1, b.2).unwrap();
            assert_eq!(x.checked_mul(&y).map(|p| parts(&p)), Some(product));
        }
    }
    assert!(held > 2000);
    // a ratio as a percentage: the same digits behind the point, a hundred times the magnitude
    let hundred = Decimal::new(100, 0);
    for (num, scale) in [(1i64, 0u32), (5, 1), (1234567, 7), (-25, 2), (1, 28), (i64::MAX, 3)] {
        let x = Decimal::new(num, scale);
        let expected = (num < 0, num.unsigned_abs() as u128 * 100, scale);
        assert_eq!(parts(&x.checked_mul(&hundred).unwrap()), expected);
    }
    assert_eq!(parts(&Decimal::new(0, 5).checked_mul(&hundred).unwrap()), (false, 0, 0));
    assert_eq!(
        parts(&Decimal::from_parts(true, 0, 3).unwrap().checked_mul(&hundred).unwrap()),
        (false, 0, 0)
    );
}

/// A decimal written out: the sign, the whole part, and behind a point as
/// many digits as the scale says.
fn notation(negative: bool, magnitude: u128, scale: u32) -> String {
    let unit = 10u128.pow(scale);
    let mut text = String::new();
    if negative {
        text.push('-');
    }
    text.push_str(&(magnitude / unit).to_string());
    if scale > 0 {
        text.push('.');
        text.push_str(&format!("{:0width$}", magnitude % unit, width = scale as usize));
    }
    text
}

#[test]
fn text_writes_the_decimal_out() {
    let mut seed: u64 = 0xC2B2AE3D27D4EB4F;
    let mut next = move || {
        seed ^= seed << 13;
        seed ^= seed >> 7;
        seed ^= seed << 17;
        seed
    };
    for round in 0..20000u32 {
        let wide = ((next() as u128) << 64 | next() as u128) & MAX_MAGNITUDE;
        let magnitude = match round % 5 {
            0 => 0,
            1 => 10u128.pow((next() % 29) as u32),
            _ => wide >> (next() % 97),
        };
        let scale = (next() % 29) as u32;
        let negative = next() % 2 == 0;
        let d = Decimal::from_parts(negative, magnitude, scale).unwrap();
        assert_eq!(d.to_string(), notation(negative, magnitude, scale));
    }
    for scale in 0..=MAX_SCALE {
        for negative in [false, true] {
            for magnitude in [0, 1, 9, 10, MAX_MAGNITUDE - 1, MAX_MAGNITUDE] {
                let d = Decimal::from_parts(negative, magnitude, scale).unwrap();
                assert_eq!(d.to_string(), notation(negative, magnitude, scale));
            }
        }
    }
    assert_eq!(Decimal::from_parts(true, 0, 0).unwrap().to_string(), "-0");
    assert_eq!(Decimal::from_parts(false, 1, 28).unwrap().to_string(), "0.0000000000000000000000000001");
    assert_eq!(
        Decimal::from_parts(true, MAX_MAGNITUDE, 28).unwrap().to_string(),
        "-7.9228162514264337593543950335"
    );
}
