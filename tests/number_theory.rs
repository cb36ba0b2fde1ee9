use number_theory::{
    crt_pair, extended_gcd, gcd, is_probable_prime_u64, mod_add, mod_inv, mod_mul, mod_pow,
    mod_sub, phi, prime_candidate, prime_from_draw, try_generate_prime,
};

#[test]
fn add_sub_mul_basic() {
    assert_eq!(mod_add(42, 17, 101), 59);
    assert_eq!(mod_sub(42, 17, 101), 25);
    assert_eq!(mod_sub(17, 42, 101), 76);
    assert_eq!(mod_mul(42, 17, 101), 7);
}

#[test]
fn residues_of_negative_operands_are_non_negative() {
    assert_eq!(mod_add(-5, 3, 7), 5);
    assert_eq!(mod_sub(-5, 3, 7), 6);
    assert_eq!(mod_mul(-5, 3, 7), 6);
}

#[test]
fn wide_operands_do_not_overflow() {
    let m = i64::MAX;
    assert_eq!(mod_add(i64::MAX - 1, i64::MAX - 1, m), i64::MAX - 2);
    assert_eq!(mod_mul(i64::MAX - 1, i64::MAX - 1, m), 1);
    assert_eq!(mod_sub(i64::MIN, i64::MAX, m), m - 1);
}

#[test]
fn adding_the_negation_gives_zero() {
    for &m in &[1i64, 2, 7, 101, 1_000_000_007] {
        for &a in &[0i64, 1, -1, 42, -42, 123_456_789, i64::MAX] {
            assert_eq!(mod_add(a, -a, m), 0);
        }
    }
}

#[test]
fn identity_operations_keep_normalized_residues() {
    for r in 0..13i64 {
        assert_eq!(mod_add(r, 0, 13), r);
        assert_eq!(mod_sub(r, 0, 13), r);
        assert_eq!(mod_mul(r, 1, 13), r);
        assert_eq!(mod_pow(r as u64, 1, 13), r as u64);
    }
}

#[test]
fn pow_values() {
    assert_eq!(mod_pow(42, 17, 101), 86);
    assert_eq!(mod_pow(2, 10, 1000), 24);
    assert_eq!(mod_pow(5, 0, 7), 1);
    assert_eq!(mod_pow(0, 0, 7), 1);
    assert_eq!(mod_pow(u64::MAX, u64::MAX, u64::MAX), 0);
}

#[test]
fn pow_with_unit_modulus_is_zero() {
    assert_eq!(mod_pow(5, 0, 1), 0);
    assert_eq!(mod_pow(12345, 678, 1), 0);
}

#[test]
fn fermat_little_theorem_examples() {
    assert_eq!(mod_pow(7, 16, 17), 1);
    for &p in &[2u64, 3, 5, 101, 65_537, 1_000_000_007] {
        for &a in &[1u64, 2, 3, 10, 12_345] {
            if a % p != 0 {
                assert_eq!(mod_pow(a, p - 1, p), 1);
            }
        }
    }
}

#[test]
fn gcd_values() {
    assert_eq!(gcd(48, 18), 6);
    assert_eq!(gcd(0, 5), 5);
    assert_eq!(gcd(5, 0), 5);
    assert_eq!(gcd(0, 0), 0);
    assert_eq!(gcd(17, 5), 1);
}

#[test]
fn extended_gcd_gives_bezout_coefficients() {
    for &(a, b, g) in &[(240i128, 46i128, 2i128), (-4, 6, 2), (17, 5, 1), (0, 9, 9), (9, 0, 9), (-12, -18, 6)] {
        let (r, x, y) = extended_gcd(a, b);
        assert_eq!(r, g);
        assert_eq!(a * x + b * y, g);
    }
    assert_eq!(extended_gcd(0, 0).0, 0);
}

#[test]
fn inverse_values() {
    assert_eq!(mod_inv(42, 101), Some(89));
    assert_eq!(mod_inv(-3, 7), Some(2));
    assert_eq!(mod_inv(3, 1), Some(0));
    assert_eq!((42 * 89) % 101, 1);
}

#[test]
fn inverse_of_coprime_values() {
    for m in 2..60i128 {
        for a in -60..60i128 {
            let (g, _, _) = extended_gcd(a, m);
            match mod_inv(a, m) {
                Some(v) => {
                    assert_eq!(g, 1);
                    assert!(0 <= v && v < m);
                    assert_eq!((a * v).rem_euclid(m), 1);
                }
                None => assert!(g > 1),
            }
        }
    }
}

#[test]
fn inverse_absent_when_not_coprime() {
    assert_eq!(mod_inv(6, 9), None);
    assert_eq!(mod_inv(0, 9), None);
    assert_eq!(mod_inv(-10, 4), None);
}

#[test]
fn totient_values() {
    assert_eq!(phi(40), 16);
    assert_eq!(phi(1), 1);
    assert_eq!(phi(0), 0);
    assert_eq!(phi(97), 96);
    assert_eq!(phi(36), 12);
    assert_eq!(phi(1000), 400);
}

#[test]
fn crt_two_congruences() {
    assert_eq!(crt_pair(2, 3, 3, 5), Some((8, 15)));
    assert_eq!(8 % 3, 2);
    assert_eq!(8 % 5, 3);
    assert_eq!(crt_pair(-1, 3, -1, 5), Some((14, 15)));
}

#[test]
fn crt_non_coprime_moduli() {
    assert_eq!(crt_pair(1, 4, 1, 6), None);
}

#[test]
fn crt_non_positive_moduli() {
    assert_eq!(crt_pair(1, 0, 1, 5), None);
    assert_eq!(crt_pair(1, 3, 1, -5), None);
}

#[test]
fn crt_product_overflow() {
    assert_eq!(crt_pair(0, 3_037_000_500, 0, 3_037_000_501), None);
    let (x, l) = crt_pair(1, 3_037_000_499, 0, 2).unwrap();
    assert_eq!(l, 6_074_000_998);
    assert_eq!(x % 3_037_000_499, 1);
    assert_eq!(x % 2, 0);
}

#[test]
fn primality_examples() {
    assert!(is_probable_prime_u64(1_000_000_007));
    assert!(!is_probable_prime_u64(1_000_000_008));
    assert!(!is_probable_prime_u64(1));
    assert!(is_probable_prime_u64(2));
    assert!(!is_probable_prime_u64(0));
    assert!(is_probable_prime_u64(37));
    assert!(is_probable_prime_u64(41));
    assert!(!is_probable_prime_u64(561));
    assert!(!is_probable_prime_u64(41 * 43));
    assert!(is_probable_prime_u64(18_446_744_073_709_551_557));
}

#[test]
fn primality_agrees_with_trial_division_below_ten_thousand() {
    for n in 0..10_000u64 {
        let mut prime = n >= 2;
        let mut d = 2;
        while d * d <= n {
            if n % d == 0 {
                prime = false;
            }
            d += 1;
        }
        assert_eq!(is_probable_prime_u64(n), prime, "n = {}", n);
    }
}

#[test]
fn candidates_are_odd_and_at_least_three() {
    assert_eq!(prime_candidate(0), 3);
    assert_eq!(prime_candidate(1), 3);
    assert_eq!(prime_candidate(2), 3);
    assert_eq!(prime_candidate(4), 5);
    assert_eq!(prime_candidate(7), 7);
    assert_eq!(prime_candidate(u64::MAX), u64::MAX);
}

#[test]
fn generated_primes_lie_in_range() {
    for _ in 0..20 {
        let v = loop {
            if let Some(v) = try_generate_prime(100_000, 200_000) {
                break v;
            }
        };
        assert!((100_000..=200_000).contains(&v));
        assert!(is_probable_prime_u64(v));
    }
}

#[test]
fn generation_in_a_small_range() {
    for _ in 0..20 {
        if let Some(v) = try_generate_prime(0, 2) {
            assert_eq!(v, 3);
        }
    }
}

#[test]
fn generation_draws_vary() {
    let mut seen = Vec::new();
    let mut attempts = 0;
    while seen.len() < 30 && attempts < 100_000 {
        attempts += 1;
        if let Some(v) = try_generate_prime(1_000, 1_000_000) {
            seen.push(v);
        }
    }
    assert_eq!(seen.len(), 30);
    assert!(seen.iter().any(|&v| v != seen[0]));
    assert!(seen.iter().all(|&v| (1_000..=1_000_000).contains(&v) && v % 2 == 1));
}

#[test]
fn outcome_of_each_draw() {
    assert_eq!(prime_from_draw(0), Some(3));
    assert_eq!(prime_from_draw(4), Some(5));
    assert_eq!(prime_from_draw(8), None);
    assert_eq!(prime_from_draw(100_000), None);
    assert_eq!(prime_from_draw(100_002), Some(100_003));
    assert_eq!(prime_from_draw(u64::MAX - 58), Some(18_446_744_073_709_551_557));
}
