use hypothesis_fast::floats::{
    clamp, decode_exponent, encode_exponent, float_clamp, float_to_lex, ieee_next_up_at_width,
    is_simple, le, lex_to_float, lt, max_finite_for_width, negate, next_down, next_down_strict,
    next_up, next_up_strict, permitted_float, reverse_bits, sign_aware_lte, two_to,
    update_mantissa, FloatBounds,
};
use hypothesis_fast::integer::Int;
use hypothesis_fast::ordering::{
    clamp_shrink_towards, collection_index_from_orders, collection_value_to_orders, index_to_size,
    int_from_index, int_to_index, size_to_index, zigzag_index, zigzag_value,
};

fn num(v: i64) -> Int {
    Int::of(v)
}

fn big(digits: &str) -> Int {
    let mut r = num(0);
    let ten = num(10);
    for c in digits.chars() {
        r = r.times(&ten).plus(&num(c.to_digit(10).unwrap() as i64));
    }
    r
}

fn small(v: &Int) -> i64 {
    v.to_i64().unwrap()
}

#[test]
fn integers_add_and_subtract() {
    assert_eq!(small(&num(40).plus(&num(2))), 42);
    assert_eq!(small(&num(40).minus(&num(42))), -2);
    let wide = big("340282366920938463463374607431768211456");
    assert_eq!(wide.plus(&num(1)).to_decimal(), "340282366920938463463374607431768211457");
    assert_eq!(wide.minus(&wide).to_decimal(), "0");
}

#[test]
fn integers_multiply() {
    assert_eq!(small(&num(-6).times(&num(7))), -42);
    let wide = big("18446744073709551616");
    assert_eq!(wide.times(&wide).to_decimal(), "340282366920938463463374607431768211456");
}

#[test]
fn integers_divide_towards_zero_and_downwards() {
    assert_eq!(small(&num(-7).over(&num(2))), -3);
    assert_eq!(small(&num(-7).rest(&num(2))), -1);
    assert_eq!(small(&num(-7).div_floor(&num(2))), -4);
    assert_eq!(small(&num(-7).mod_floor(&num(2))), 1);
    assert_eq!(small(&num(7).div_floor(&num(-2))), -4);
    assert_eq!(small(&num(7).mod_floor(&num(-2))), -1);
}

#[test]
fn integers_are_raised_to_powers() {
    assert_eq!(num(2).power(100).to_decimal(), "1267650600228229401496703205376");
    assert_eq!(small(&num(5).power(0)), 1);
    assert_eq!(small(&num(-3).power(3)), -27);
}

#[test]
fn integers_are_compared() {
    assert!(num(-5).less(&num(3)));
    assert!(!num(3).less(&num(3)));
    assert!(num(3).same(&num(3)));
    assert!(!num(3).same(&num(-3)));
    assert!(num(0).is_zero());
    assert!(num(-1).is_negative());
    assert!(big("99999999999999999999").same(&big("99999999999999999999")));
}

#[test]
fn integers_know_their_size() {
    assert_eq!(num(0).bits(), 0);
    assert_eq!(num(255).bits(), 8);
    assert_eq!(num(-256).bits(), 9);
    assert_eq!(small(&num(-5).abs()), 5);
    assert_eq!(small(&num(5).negated()), -5);
}

#[test]
fn integers_are_converted() {
    assert_eq!(num(i64::MIN).to_i64(), Some(i64::MIN));
    assert_eq!(num(i64::MAX).plus(&num(1)).to_i64(), None);
    assert_eq!(Int::of_unsigned(u64::MAX).to_u64(), Some(u64::MAX));
    assert_eq!(num(-1).to_u64(), None);
    assert_eq!(num(-1234).to_decimal(), "-1234");
    assert_eq!(Int::of_unsigned(u64::MAX).to_decimal(), "18446744073709551615");
}

#[test]
fn zigzag_alternates_around_the_target() {
    let target = num(10);
    for (i, v) in [10, 11, 9, 12, 8].iter().enumerate() {
        assert_eq!(small(&zigzag_index(&num(*v), &target)), i as i64);
        assert_eq!(small(&zigzag_value(&num(i as i64), &target)), *v);
    }
}

#[test]
fn integer_indices_respect_the_bounds() {
    let lo = Some(num(0));
    let hi = Some(num(5));
    let target = num(3);
    let order = [3, 4, 2, 5, 1, 0];
    for (i, v) in order.iter().enumerate() {
        assert_eq!(small(&int_to_index(&num(*v), &lo, &hi, &target)), i as i64);
        assert_eq!(small(&int_from_index(&num(i as i64), &lo, &hi, &target)), *v);
    }
    assert_eq!(small(&clamp_shrink_towards(&num(-4), &lo, &hi)), 0);
    assert_eq!(small(&clamp_shrink_towards(&num(9), &lo, &hi)), 5);
}

#[test]
fn half_open_integers_survive_their_index() {
    let lo = Some(num(-3));
    for v in -3..40i64 {
        let i = int_to_index(&num(v), &lo, &None, &num(0));
        assert_eq!(small(&int_from_index(&i, &lo, &None, &num(0))), v);
    }
    let far = big("123456789012345678901234567890");
    let i = int_to_index(&far, &None, &None, &num(0));
    assert!(int_from_index(&i, &None, &None, &num(0)).same(&far));
}

#[test]
fn sizes_are_counted() {
    assert_eq!(small(&size_to_index(0, 26)), 0);
    assert_eq!(small(&size_to_index(3, 10)), 111);
    assert_eq!(small(&size_to_index(7, 1)), 7);
    assert_eq!(index_to_size(&num(110), 10), 2);
    assert_eq!(index_to_size(&num(111), 10), 3);
    assert_eq!(index_to_size(&num(5), 1), 5);
    assert_eq!(index_to_size(&num(5), 0), 0);
}

#[test]
fn collections_survive_their_index() {
    let orders = vec![num(3), num(0), num(9)];
    let index = collection_index_from_orders(&orders, 0, 10);
    assert_eq!(small(&index), 111 + 309);
    let back = collection_value_to_orders(&index, 0, 10).unwrap();
    let back: Vec<i64> = back.iter().map(small).collect();
    assert_eq!(back, vec![3, 0, 9]);
}

#[test]
fn collections_that_are_too_large_are_refused() {
    assert!(collection_value_to_orders(&num(8191), 0, 1).is_ok());
    assert!(collection_value_to_orders(&num(8192), 0, 1).is_err());
    assert!(collection_value_to_orders(&num(-1), 0, 1).is_err());
}

#[test]
fn exponents_are_ranked() {
    assert_eq!(encode_exponent(1023), 0);
    assert_eq!(encode_exponent(1024), 1);
    assert_eq!(encode_exponent(1022), 1024);
    assert_eq!(encode_exponent(2047), 2047);
    for e in 0..2048u64 {
        assert_eq!(decode_exponent(encode_exponent(e)), e);
    }
}

#[test]
fn bits_are_reversed() {
    assert_eq!(reverse_bits(0b1011, 4), 0b1101);
    assert_eq!(reverse_bits(1, 8), 128);
    assert_eq!(reverse_bits(5, 0), 0);
    assert_eq!(two_to(10), 1024);
}

#[test]
fn mantissas_reshuffle_back() {
    for (e, m) in [(1023u64, 12345u64), (1000, 1), (1060, 99), (1080, 7), (1075, 4503599627370495)] {
        assert_eq!(update_mantissa(e, update_mantissa(e, m)), m);
    }
}

#[test]
fn simple_floats_encode_themselves() {
    for n in [0u64, 1, 2, 1000, 1 << 40] {
        let bits = (n as f64).to_bits();
        assert!(is_simple(bits));
        assert_eq!(float_to_lex(bits), n);
        assert_eq!(lex_to_float(n), bits);
    }
    assert!(!is_simple((0.5f64).to_bits()));
    assert!(is_simple((-1.0f64).to_bits()));
    assert_eq!(float_to_lex((-1.0f64).to_bits()), 0);
    assert!(!is_simple(f64::INFINITY.to_bits()));
}

#[test]
fn floats_survive_their_encoding() {
    for f in [0.5f64, 1.5, 0.1, 1e300, 5e-324, f64::MAX, f64::INFINITY, 2.0f64.powi(60)] {
        assert_eq!(lex_to_float(float_to_lex(f.to_bits())), f.to_bits());
    }
    assert!(float_to_lex((0.5f64).to_bits()) > float_to_lex((1e6f64).to_bits()));
}

#[test]
fn floats_are_ordered_with_signs() {
    let zero = 0.0f64.to_bits();
    let minus = (-0.0f64).to_bits();
    assert!(sign_aware_lte(minus, zero));
    assert!(!sign_aware_lte(zero, minus));
    assert!(le(zero, minus));
    assert!(!lt(minus, zero));
    assert!(!le(f64::NAN.to_bits(), zero));
    assert_eq!(clamp(zero, minus, 1.0f64.to_bits()), zero);
    assert_eq!(negate(zero), minus);
}

#[test]
fn floats_are_clamped_into_bounds() {
    let b = FloatBounds {
        min_value: 1.0f64.to_bits(),
        max_value: 2.0f64.to_bits(),
        allow_nan: false,
        smallest_nonzero_magnitude: 1,
    };
    assert!(permitted_float(1.5f64.to_bits(), &b));
    assert!(!permitted_float(2.5f64.to_bits(), &b));
    assert!(!permitted_float(f64::NAN.to_bits(), &b));
    assert_eq!(float_clamp(1.5f64.to_bits(), 1.25f64.to_bits(), &b), 1.5f64.to_bits());
    assert_eq!(float_clamp(9.0f64.to_bits(), 1.25f64.to_bits(), &b), 1.25f64.to_bits());
}

#[test]
fn floats_step_to_their_neighbours() {
    assert_eq!(next_up(1.0f64.to_bits()), (1.0f64 + f64::EPSILON).to_bits());
    assert_eq!(next_down(0.0f64.to_bits()), (-0.0f64).to_bits());
    assert_eq!(next_down_strict(0.0f64.to_bits()), (-5e-324f64).to_bits());
    assert_eq!(next_up_strict((-0.0f64).to_bits()), 5e-324f64.to_bits());
    assert_eq!(next_up(f64::INFINITY.to_bits()), f64::INFINITY.to_bits());
    assert_eq!(next_up(f64::MAX.to_bits()), f64::INFINITY.to_bits());
}

#[test]
fn narrow_floats_step_to_their_neighbours() {
    assert_eq!(ieee_next_up_at_width(0, 16), 1);
    assert_eq!(ieee_next_up_at_width(0x8000, 16), 1);
    assert_eq!(ieee_next_up_at_width(0x8001, 16), 0x8000);
    assert_eq!(ieee_next_up_at_width(1.0f32.to_bits(), 32), (1.0f32 + f32::EPSILON).to_bits());
    assert_eq!(max_finite_for_width(16), 65504.0f64.to_bits());
    assert_eq!(max_finite_for_width(32), (f32::MAX as f64).to_bits());
    assert_eq!(max_finite_for_width(64), f64::MAX.to_bits());
}
