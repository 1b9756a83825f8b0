use big_complex::{BigInt, Sign};

#[test]
fn test_big_int_creation() {
    let a = BigInt::new(42);
    assert_eq!(a.to_string(), "42");

    let b = BigInt::from_string("12345678901234567890").unwrap();
    assert_eq!(b.to_string(), "12345678901234567890");

    let c = BigInt::from_string("-987654321").unwrap();
    assert_eq!(c.to_string(), "-987654321");
}

#[test]
fn test_big_int_arithmetic() {
    let a = BigInt::new(15);
    let b = BigInt::new(25);

    assert_eq!(a.add(&b).to_string(), "40");
    assert_eq!(b.sub(&a).to_string(), "10");
    assert_eq!(a.mul(&b).to_string(), "375");
    assert_eq!(b.div(&a).to_string(), "1");
}

#[test]
fn test_big_int_pow() {
    let a = BigInt::new(3);
    assert_eq!(a.pow(4).to_string(), "81");

    let b = BigInt::new(2);
    assert_eq!(b.pow(10).to_string(), "1024");
}

#[test]
fn test_big_int_sqrt() {
    let a = BigInt::new(144);
    assert_eq!(a.sqrt().unwrap().to_string(), "12");

    let b = BigInt::new(145);
    assert_eq!(b.sqrt().unwrap().to_string(), "12");

    let c = BigInt::new(-4);
    assert_eq!(c.sqrt(), None);
}

#[test]
fn test_big_int_gcd_lcm() {
    let a = BigInt::new(12);
    let b = BigInt::new(18);
    assert_eq!(a.gcd(&b).to_string(), "6");
    assert_eq!(a.lcm(&b).to_string(), "36");
}

#[test]
fn test_big_int_modular() {
    let a = BigInt::new(7);
    let b = BigInt::new(3);
    let m = BigInt::new(11);

    let result = a.mod_pow(&b, &m);
    assert_eq!(result.to_string(), "2");

    let inv = BigInt::new(3).mod_inv(&BigInt::new(11));
    assert_eq!(inv.unwrap().to_string(), "4");
}

#[test]
fn test_big_int_comparison() {
    let a = BigInt::new(100);
    let b = BigInt::new(200);

    assert!(a < b);
    assert!(b > a);
    assert!(a == a);
}

#[test]
fn test_big_int_factorial() {
    let zero = BigInt::new(0);
    assert_eq!(zero.factorial().unwrap().to_string(), "1");

    let one = BigInt::new(1);
    assert_eq!(one.factorial().unwrap().to_string(), "1");

    let five = BigInt::new(5);
    assert_eq!(five.factorial().unwrap().to_string(), "120");

    let ten = BigInt::new(10);
    assert_eq!(ten.factorial().unwrap().to_string(), "3628800");

    let negative = BigInt::new(-5);
    assert_eq!(negative.factorial(), None);

    let twenty = BigInt::new(20);
    let result = twenty.factorial().unwrap();
    assert_eq!(result.to_string(), "2432902008176640000");
}

#[test]
fn test_big_int_prime() {
    assert!(!BigInt::new(0).is_prime());
    assert!(!BigInt::new(1).is_prime());
    assert!(BigInt::new(2).is_prime());
    assert!(BigInt::new(3).is_prime());
    assert!(!BigInt::new(4).is_prime());
    assert!(BigInt::new(5).is_prime());
    assert!(!BigInt::new(6).is_prime());
    assert!(BigInt::new(7).is_prime());
    assert!(!BigInt::new(8).is_prime());
    assert!(!BigInt::new(9).is_prime());
    assert!(!BigInt::new(10).is_prime());
    assert!(BigInt::new(11).is_prime());

    assert!(BigInt::new(97).is_prime());
    assert!(BigInt::new(101).is_prime());
    assert!(!BigInt::new(100).is_prime());
    assert!(!BigInt::new(121).is_prime());

    assert!(!BigInt::new(-7).is_prime());
}

#[test]
fn test_big_int_next_prime() {
    assert_eq!(BigInt::new(0).next_prime().to_string(), "2");
    assert_eq!(BigInt::new(1).next_prime().to_string(), "2");
    assert_eq!(BigInt::new(2).next_prime().to_string(), "2");
    assert_eq!(BigInt::new(3).next_prime().to_string(), "5");
    assert_eq!(BigInt::new(4).next_prime().to_string(), "5");
    assert_eq!(BigInt::new(10).next_prime().to_string(), "11");
    assert_eq!(BigInt::new(14).next_prime().to_string(), "17");
    assert_eq!(BigInt::new(97).next_prime().to_string(), "101");
}

#[test]
fn test_big_int_binary_operations() {
    assert_eq!(BigInt::new(0).bit_length(), 0);
    assert_eq!(BigInt::new(1).bit_length(), 1);
    assert_eq!(BigInt::new(2).bit_length(), 2);
    assert_eq!(BigInt::new(7).bit_length(), 3);
    assert_eq!(BigInt::new(8).bit_length(), 4);
    assert_eq!(BigInt::new(255).bit_length(), 8);

    assert_eq!(BigInt::new(0).count_ones(), 0);
    assert_eq!(BigInt::new(1).count_ones(), 1);
    assert_eq!(BigInt::new(3).count_ones(), 2);
    assert_eq!(BigInt::new(7).count_ones(), 3);
    assert_eq!(BigInt::new(15).count_ones(), 4);
    assert_eq!(BigInt::new(-5).count_ones(), 0);

    assert_eq!(BigInt::new(0).trailing_zeros(), None);
    assert_eq!(BigInt::new(1).trailing_zeros(), Some(0));
    assert_eq!(BigInt::new(2).trailing_zeros(), Some(1));
    assert_eq!(BigInt::new(4).trailing_zeros(), Some(2));
    assert_eq!(BigInt::new(8).trailing_zeros(), Some(3));
    assert_eq!(BigInt::new(12).trailing_zeros(), Some(2));

    assert!(!BigInt::new(0).is_power_of_two());
    assert!(BigInt::new(1).is_power_of_two());
    assert!(BigInt::new(2).is_power_of_two());
    assert!(!BigInt::new(3).is_power_of_two());
    assert!(BigInt::new(4).is_power_of_two());
    assert!(!BigInt::new(5).is_power_of_two());
    assert!(BigInt::new(8).is_power_of_two());
    assert!(BigInt::new(16).is_power_of_two());
    assert!(!BigInt::new(-4).is_power_of_two());

    assert_eq!(BigInt::new(0).next_power_of_two().to_string(), "1");
    assert_eq!(BigInt::new(1).next_power_of_two().to_string(), "1");
    assert_eq!(BigInt::new(2).next_power_of_two().to_string(), "2");
    assert_eq!(BigInt::new(3).next_power_of_two().to_string(), "4");
    assert_eq!(BigInt::new(5).next_power_of_two().to_string(), "8");
    assert_eq!(BigInt::new(9).next_power_of_two().to_string(), "16");
}

// Further cases of the integer engine.

#[test]
fn parse_rejects_malformed_text() {
    assert_eq!(BigInt::from_string(""), None);
    assert_eq!(BigInt::from_string("-"), None);
    assert_eq!(BigInt::from_string("+5"), None);
    assert_eq!(BigInt::from_string("1_000"), None);
    assert_eq!(BigInt::from_string("12a"), None);
    assert_eq!(BigInt::from_string(" 1"), None);
    assert_eq!(BigInt::from_string("--1"), None);
    assert_eq!(BigInt::from_string("\u{661}\u{662}"), None);
}

#[test]
fn parse_and_format_round_trip() {
    for text in ["0", "7", "-7", "4294967296", "-18446744073709551616", "340282366920938463463374607431768211457"] {
        assert_eq!(BigInt::from_string(text).unwrap().to_string(), text);
    }
    assert_eq!(BigInt::from_string("-0").unwrap().to_string(), "0");
    assert_eq!(BigInt::from_string("007").unwrap().to_string(), "7");
    assert_eq!(BigInt::from_string("-0").unwrap().sign(), Sign::NoSign);
}

#[test]
fn large_sum_formats_exactly() {
    let a = BigInt::from_string("123456789012345678901234567890").unwrap();
    let b = BigInt::from_string("987654321").unwrap();
    assert_eq!(a.add(&b).to_string(), "123456789012345678902222222211");
}

#[test]
fn native_extremes_convert_exactly() {
    assert_eq!(BigInt::new(i64::MIN).to_string(), "-9223372036854775808");
    assert_eq!(BigInt::new(i64::MAX).to_string(), "9223372036854775807");
    assert_eq!(BigInt::new(-1).to_string(), "-1");
    assert_eq!(BigInt::new(0).to_string(), "0");
}

#[test]
fn truncating_division_and_remainder() {
    let cases: [(i64, i64, i64, i64); 6] = [
        (7, 2, 3, 1),
        (-7, 2, -3, -1),
        (7, -2, -3, 1),
        (-7, -2, 3, -1),
        (6, 3, 2, 0),
        (0, 5, 0, 0),
    ];
    for (a, b, q, r) in cases {
        let (x, y) = (BigInt::new(a), BigInt::new(b));
        assert_eq!(x.div(&y), BigInt::new(q));
        assert_eq!(x.rem(&y), BigInt::new(r));
        assert_eq!(y.mul(&x.div(&y)).add(&x.rem(&y)), x);
    }
}

#[test]
fn ring_identities_on_values() {
    let a = BigInt::from_string("-98765432109876543210").unwrap();
    let b = BigInt::from_string("12345678901234567890123").unwrap();
    assert_eq!(a.add(&b).sub(&b), a);
    assert_eq!(a.mul(&BigInt::one()), a);
    assert_eq!(a.add(&a.neg()), BigInt::zero());
    assert_eq!(BigInt::zero().neg(), BigInt::zero());
}

#[test]
fn gcd_lcm_law_on_values() {
    let pairs: [(i64, i64); 5] = [(12, 18), (-12, 18), (7, -13), (-100, -75), (1, 1)];
    for (a, b) in pairs {
        let (x, y) = (BigInt::new(a), BigInt::new(b));
        let g = x.gcd(&y);
        assert!(!g.is_negative());
        assert_eq!(g.mul(&x.lcm(&y)), x.mul(&y).abs());
    }
    assert_eq!(BigInt::new(0).gcd(&BigInt::new(-9)), BigInt::new(9));
    assert_eq!(BigInt::new(0).gcd(&BigInt::new(0)), BigInt::new(0));
    assert_eq!(BigInt::new(0).lcm(&BigInt::new(5)), BigInt::new(0));
}

#[test]
fn square_root_brackets_the_value() {
    for n in [0i64, 1, 2, 3, 4, 15, 16, 17, 99, 100, 1_000_000_007] {
        let x = BigInt::new(n);
        let s = x.sqrt().unwrap();
        let next = s.add(&BigInt::one());
        assert!(s.mul(&s) <= x);
        assert!(x < next.mul(&next));
    }
    let big = BigInt::from_string("152415787532388367504942236884722755800955129").unwrap();
    assert_eq!(big.sqrt().unwrap().to_string(), "12345678901234567890123");
    assert_eq!(BigInt::new(-1).sqrt(), None);
}

#[test]
fn primality_matches_trial_division() {
    for n in 0i64..=10000 {
        let mut expected = n >= 2;
        let mut d = 2;
        while d < n {
            if n % d == 0 {
                expected = false;
                break;
            }
            d += 1;
        }
        assert_eq!(BigInt::new(n).is_prime(), expected, "n = {}", n);
    }
}

#[test]
fn mod_pow_matches_repeated_multiplication() {
    let moduli: [i64; 4] = [11, 12, -7, 1];
    for a in [-5i64, -1, 0, 2, 7] {
        for m in moduli {
            let mut acc: i64 = 1;
            for e in 0u32..8 {
                let expected = acc.rem_euclid(m.abs());
                let expected = if m < 0 && expected != 0 { expected + m } else { expected };
                let got = BigInt::new(a).mod_pow(&BigInt::new(e as i64), &BigInt::new(m));
                assert_eq!(got, BigInt::new(expected), "a = {}, e = {}, m = {}", a, e, m);
                acc *= a;
            }
        }
    }
}

#[test]
fn modular_inverse_cases() {
    assert_eq!(BigInt::new(4).mod_inv(&BigInt::new(8)), None);
    assert_eq!(BigInt::new(0).mod_inv(&BigInt::new(7)), None);
    assert_eq!(BigInt::new(-3).mod_inv(&BigInt::new(11)), Some(BigInt::new(7)));
    assert_eq!(BigInt::new(3).mod_inv(&BigInt::new(-11)), Some(BigInt::new(-7)));
    assert_eq!(BigInt::new(-3).mod_inv(&BigInt::new(-11)), Some(BigInt::new(-4)));
    assert_eq!(BigInt::new(5).mod_inv(&BigInt::new(1)), Some(BigInt::new(0)));
    assert_eq!(BigInt::new(-5).mod_inv(&BigInt::new(1)), Some(BigInt::new(0)));
}

#[test]
fn factorial_step_law_on_values() {
    for n in 1i64..25 {
        let f = BigInt::new(n).factorial().unwrap();
        let g = BigInt::new(n - 1).factorial().unwrap();
        assert_eq!(f, BigInt::new(n).mul(&g));
    }
}

#[test]
fn byte_buffer_round_trip() {
    let x = BigInt::from_bytes_be(Sign::Minus, &[1, 0, 255]);
    assert_eq!(x, BigInt::new(-65791));
    assert_eq!(x.to_bytes_be(), (Sign::Minus, vec![1, 0, 255]));
    assert_eq!(BigInt::zero().to_bytes_be(), (Sign::NoSign, vec![]));
    assert_eq!(BigInt::from_bytes_be(Sign::NoSign, &[9]), BigInt::zero());
    assert_eq!(BigInt::from_bytes_be(Sign::Plus, &[0, 0, 1]), BigInt::one());
    assert_eq!(BigInt::from_bytes_be(Sign::Plus, &[]).sign(), Sign::NoSign);
    let big = BigInt::from_string("-123456789012345678901234567890").unwrap();
    let (sign, bytes) = big.to_bytes_be();
    assert_eq!(BigInt::from_bytes_be(sign, &bytes), big);
}

#[test]
fn signs_and_absolute_values() {
    assert_eq!(BigInt::new(-3).sign(), Sign::Minus);
    assert_eq!(BigInt::new(0).sign(), Sign::NoSign);
    assert_eq!(BigInt::new(3).sign(), Sign::Plus);
    assert_eq!(BigInt::new(-3).abs(), BigInt::new(3));
    assert!(BigInt::new(-3).is_negative() && !BigInt::new(-3).is_positive());
    assert!(BigInt::new(0).is_zero());
    assert_eq!(BigInt::new(-2).pow(3), BigInt::new(-8));
    assert_eq!(BigInt::new(-2).pow(4), BigInt::new(16));
    assert_eq!(BigInt::new(0).pow(0), BigInt::one());
}

#[test]
fn bits_of_larger_values() {
    let x = BigInt::from_string("340282366920938463463374607431768211456").unwrap();
    assert_eq!(x.bit_length(), 129);
    assert_eq!(x.count_ones(), 1);
    assert_eq!(x.trailing_zeros(), Some(128));
    assert!(x.is_power_of_two());
    assert_eq!(x.next_power_of_two(), x);
    let y = x.add(&BigInt::one());
    assert_eq!(y.count_ones(), 2);
    assert_eq!(y.trailing_zeros(), Some(0));
    assert_eq!(y.next_power_of_two(), x.mul(&BigInt::new(2)));
    assert_eq!(BigInt::new(-12).trailing_zeros(), Some(2));
    assert_eq!(BigInt::new(-255).bit_length(), 8);
    assert_eq!(BigInt::new(-7).next_power_of_two(), BigInt::one());
}

#[test]
fn scenario_255_bits() {
    let x = BigInt::new(255);
    assert_eq!(x.bit_length(), 8);
    assert_eq!(x.count_ones(), 8);
    assert!(!x.is_power_of_two());
    assert_eq!(x.next_power_of_two(), BigInt::new(256));
}

#[test]
fn scenario_primes_and_factorial() {
    assert_eq!(BigInt::new(10).factorial(), Some(BigInt::new(3628800)));
    assert!(BigInt::new(97).is_prime());
    assert_eq!(BigInt::new(97).next_prime(), BigInt::new(101));
    assert_eq!(BigInt::new(-50).next_prime(), BigInt::new(2));
    assert_eq!(BigInt::new(24).next_prime(), BigInt::new(29));
}
