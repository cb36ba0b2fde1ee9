use crate::euclid::{abs_int, spec_gcd};
use vstd::arithmetic::div_mod::{
    lemma_add_mod_noop, lemma_fundamental_div_mod, lemma_mod_equivalence, lemma_mod_multiples_basic,
    lemma_mod_self_0, lemma_mul_mod_noop_left, lemma_small_mod,
};
use vstd::arithmetic::power::{lemma0_pow, lemma_pow0, lemma_pow_positive, pow};
use vstd::prelude::*;

verus! {

/// `p` is prime: at least 2, with no divisor strictly between 1 and `p`.
pub open spec fn is_prime(p: nat) -> bool {
    p >= 2 && forall|d: nat| 2 <= d < p ==> #[trigger] (p % d) != 0
}

/// Binomial coefficient `n choose k`, by Pascal's rule.
pub open spec fn binom(n: nat, k: nat) -> nat
    decreases n,
{
    if k == 0 {
        1
    } else if n == 0 {
        0
    } else {
        binom((n - 1) as nat, (k - 1) as nat) + binom((n - 1) as nat, k)
    }
}

/// `sum_{j <= k} binom(n, j) * x^j`.
pub open spec fn binom_sum(x: int, n: nat, k: nat) -> int
    decreases k,
{
    if k == 0 {
        1
    } else {
        binom_sum(x, n, (k - 1) as nat) + binom(n, k) * pow(x, k)
    }
}

/// Bezout's identity for the recursive gcd.
proof fn lemma_bezout(a: nat, b: nat) -> (c: (int, int))
    ensures
        a * c.0 + b * c.1 == spec_gcd(a, b),
    decreases b,
{
    if b == 0 {
        (1, 0)
    } else {
        let q = a / b;
        let r = a % b;
        let (x1, y1) = lemma_bezout(b, r);
        lemma_fundamental_div_mod(a as int, b as int);
        let g = spec_gcd(a, b);
        assert(a * y1 + b * (x1 - q * y1) == g) by (nonlinear_arith)
            requires
                a == b * q + r,
                b * x1 + r * y1 == g,
        ;
        (y1, x1 - q * y1)
    }
}

/// A common divisor of `x` and `y` divides `x * s + y * t`.
pub proof fn lemma_divides_combination(x: int, y: int, s: int, t: int, d: int)
    requires
        d > 0,
        x % d == 0,
        y % d == 0,
    ensures
        (x * s + y * t) % d == 0,
{
    lemma_fundamental_div_mod(x, d);
    lemma_fundamental_div_mod(y, d);
    let k = x / d * s + y / d * t;
    assert(x * s + y * t == k * d) by (nonlinear_arith)
        requires
            x == d * (x / d) + x % d,
            y == d * (y / d) + y % d,
            x % d == 0,
            y % d == 0,
            k == x / d * s + y / d * t,
    ;
    lemma_mod_multiples_basic(k, d);
}

/// The recursive gcd divides both arguments.
pub proof fn lemma_gcd_divides(a: nat, b: nat)
    requires
        a > 0 || b > 0,
    ensures
        spec_gcd(a, b) > 0,
        a % spec_gcd(a, b) == 0,
        b % spec_gcd(a, b) == 0,
    decreases b,
{
    if b == 0 {
        lemma_mod_self_0(a as int);
        lemma_small_mod(0, a);
    } else {
        let r = a % b;
        lemma_gcd_divides(b, r);
        lemma_fundamental_div_mod(a as int, b as int);
        lemma_divides_combination(b as int, r as int, (a / b) as int, 1, spec_gcd(b, r) as int);
        assert(b * (a / b) + r * 1 == a);
    }
}

/// A prime is coprime to every value it does not divide.
proof fn lemma_prime_coprime(a: nat, p: nat)
    requires
        is_prime(p),
        a % p != 0,
    ensures
        spec_gcd(a, p) == 1,
{
    lemma_gcd_divides(a, p);
    let g = spec_gcd(a, p);
    lemma_fundamental_div_mod(p as int, g as int);
    assert(g <= p) by (nonlinear_arith)
        requires
            p == g * (p / g) + p % g,
            p % g == 0,
            p > 0,
            g > 0,
    ;
    if g != 1 {
        if g < p {
            assert(p % g != 0);
        }
    }
}

/// Euclid's lemma: a prime dividing a product divides one of the factors.
pub proof fn lemma_euclid(a: nat, b: nat, p: nat)
    requires
        is_prime(p),
        ((a * b) as int) % (p as int) == 0,
        a % p != 0,
    ensures
        b % p == 0,
{
    lemma_prime_coprime(a, p);
    let (x, y) = lemma_bezout(a, p);
    assert(b == (a * b) * x + p * (b * y)) by (nonlinear_arith)
        requires
            a * x + p * y == 1,
    ;
    lemma_mod_self_0(p as int);
    lemma_divides_combination((a * b) as int, p as int, x, b * y, p as int);
}

proof fn lemma_binom_zero_above(n: nat, k: nat)
    requires
        k > n,
    ensures
        binom(n, k) == 0,
    decreases n,
{
    if n > 0 {
        lemma_binom_zero_above((n - 1) as nat, (k - 1) as nat);
        lemma_binom_zero_above((n - 1) as nat, k);
    }
}

proof fn lemma_binom_diag(n: nat)
    ensures
        binom(n, n) == 1,
    decreases n,
{
    if n > 0 {
        lemma_binom_diag((n - 1) as nat);
        lemma_binom_zero_above((n - 1) as nat, n);
    }
}

proof fn lemma_binom_one(n: nat)
    ensures
        binom(n, 1) == n,
    decreases n,
{
    if n > 0 {
        lemma_binom_one((n - 1) as nat);
        assert(binom((n - 1) as nat, 0) == 1);
    }
}

/// Absorption: `k * binom(n, k) == n * binom(n - 1, k - 1)`.
proof fn lemma_binom_absorb(n: nat, k: nat)
    requires
        n > 0,
        k > 0,
    ensures
        k * binom(n, k) == n * binom((n - 1) as nat, (k - 1) as nat),
    decreases n,
{
    if k == 1 {
        lemma_binom_one(n);
        assert(binom((n - 1) as nat, (k - 1) as nat) == 1);
        assert(k * binom(n, k) == n * binom((n - 1) as nat, (k - 1) as nat)) by (nonlinear_arith)
            requires
                k == 1,
                binom(n, k) == n,
                binom((n - 1) as nat, (k - 1) as nat) == 1,
        ;
    } else if n == 1 {
        lemma_binom_zero_above(1, k);
        lemma_binom_zero_above(0, (k - 1) as nat);
        assert(k * binom(n, k) == 0) by (nonlinear_arith)
            requires
                binom(n, k) == 0,
        ;
        assert(n * binom((n - 1) as nat, (k - 1) as nat) == 0);
    } else {
        let n1 = (n - 1) as nat;
        let k1 = (k - 1) as nat;
        lemma_binom_absorb(n1, k);
        lemma_binom_absorb(n1, k1);
        let a = binom(n1, k1);
        let b = binom(n1, k);
        let c = binom((n1 - 1) as nat, (k1 - 1) as nat);
        let d = binom((n1 - 1) as nat, k1);
        assert(binom(n, k) == a + b);
        assert(a == c + d);
        assert(k * (a + b) == n * a) by (nonlinear_arith)
            requires
                k * b == n1 * d,
                k1 * a == n1 * c,
                a == c + d,
                n1 == n - 1,
                k1 == k - 1,
        ;
    }
}

/// Every inner binomial coefficient of a prime is a multiple of it.
proof fn lemma_prime_divides_binom(p: nat, k: nat)
    requires
        is_prime(p),
        0 < k < p,
    ensures
        binom(p, k) % p == 0,
{
    lemma_binom_absorb(p, k);
    let c = binom((p - 1) as nat, (k - 1) as nat);
    lemma_mod_multiples_basic(c as int, p as int);
    assert(k * binom(p, k) == c * p) by (nonlinear_arith)
        requires
            k * binom(p, k) == p * c,
    ;
    lemma_small_mod(k, p);
    lemma_euclid(k, binom(p, k), p);
}

/// One row of Pascal's rule applied to the partial sums.
proof fn lemma_binom_sum_pascal(x: int, n: nat, k: nat)
    requires
        n > 0,
    ensures
        binom_sum(x, n, k) == binom_sum(x, (n - 1) as nat, k) + if k == 0 {
            0
        } else {
            x * binom_sum(x, (n - 1) as nat, (k - 1) as nat)
        },
    decreases k,
{
    if k > 0 {
        let n1 = (n - 1) as nat;
        let k1 = (k - 1) as nat;
        lemma_binom_sum_pascal(x, n, k1);
        reveal_with_fuel(pow, 2);
        assert(pow(x, k) == x * pow(x, k1));
        let a = binom(n1, k1);
        let b = binom(n1, k);
        assert(binom(n, k) == a + b);
        assert(binom(n, k) * pow(x, k) == b * pow(x, k) + x * (a * pow(x, k1))) by (nonlinear_arith)
            requires
                binom(n, k) == a + b,
                pow(x, k) == x * pow(x, k1),
        ;
        if k1 > 0 {
            assert(x * binom_sum(x, n1, k1) == x * binom_sum(x, n1, (k1 - 1) as nat) + x * (a
                * pow(x, k1))) by (nonlinear_arith)
                requires
                    binom_sum(x, n1, k1) == binom_sum(x, n1, (k1 - 1) as nat) + a * pow(x, k1),
            ;
        } else {
            lemma_pow0(x);
        }
    }
}

/// The binomial theorem: `(x + 1)^n == sum_{j <= n} binom(n, j) * x^j`.
proof fn lemma_binomial_theorem(x: int, n: nat)
    ensures
        pow(x + 1, n) == binom_sum(x, n, n),
    decreases n,
{
    reveal_with_fuel(pow, 2);
    if n > 0 {
        let n1 = (n - 1) as nat;
        lemma_binomial_theorem(x, n1);
        lemma_binom_sum_pascal(x, n, n);
        lemma_binom_zero_above(n1, n);
        assert(binom_sum(x, n1, n) == binom_sum(x, n1, n1));
        let s = binom_sum(x, n1, n1);
        assert(s + x * s == (x + 1) * s) by (nonlinear_arith);
    }
}

/// The partial sums of row `p` below `p` are 1 modulo `p`.
proof fn lemma_binom_sum_mod_prime(x: nat, p: nat, k: nat)
    requires
        is_prime(p),
        k < p,
    ensures
        binom_sum(x as int, p, k) % (p as int) == 1,
    decreases k,
{
    if k == 0 {
        lemma_small_mod(1, p);
    } else {
        let k1 = (k - 1) as nat;
        lemma_binom_sum_mod_prime(x, p, k1);
        lemma_prime_divides_binom(p, k);
        let t = binom(p, k) * pow(x as int, k);
        lemma_mul_mod_noop_left(binom(p, k) as int, pow(x as int, k), p as int);
        lemma_small_mod(0, p);
        lemma_add_mod_noop(binom_sum(x as int, p, k1), t, p as int);
        lemma_small_mod(1, p);
    }
}

/// The freshman's dream: `a^p == a (mod p)` for prime `p`.
proof fn lemma_pow_prime_fixes(a: nat, p: nat)
    requires
        is_prime(p),
    ensures
        pow(a as int, p) % (p as int) == (a as int) % (p as int),
    decreases a,
{
    if a == 0 {
        lemma0_pow(p);
    } else {
        let a1 = (a - 1) as nat;
        lemma_pow_prime_fixes(a1, p);
        lemma_binomial_theorem(a1 as int, p);
        lemma_binom_diag(p);
        lemma_binom_sum_mod_prime(a1, p, (p - 1) as nat);
        let s = binom_sum(a1 as int, p, (p - 1) as nat);
        assert(pow(a as int, p) == s + pow(a1 as int, p));
        lemma_add_mod_noop(s, pow(a1 as int, p), p as int);
        lemma_add_mod_noop(1, a1 as int, p as int);
        lemma_small_mod(1, p);
    }
}

/// Fermat's little theorem: for a prime `p` and `a` not divisible by `p`,
/// `a^(p - 1) == 1 (mod p)`; so `mod_pow(a, p - 1, p) == 1`.
pub proof fn lemma_fermat_little(a: nat, p: nat)
    requires
        is_prime(p),
        a % p != 0,
    ensures
        pow(a as int, (p - 1) as nat) % (p as int) == 1,
{
    let e = (p - 1) as nat;
    lemma_pow_prime_fixes(a, p);
    reveal_with_fuel(pow, 2);
    assert(pow(a as int, p) == a * pow(a as int, e));
    lemma_small_mod(0, p);
    assert(a > 0);
    lemma_pow_positive(a as int, e);
    let b = (pow(a as int, e) - 1) as nat;
    assert(a * b == a * pow(a as int, e) - a) by (nonlinear_arith)
        requires
            b == pow(a as int, e) - 1,
    ;
    lemma_mod_equivalence(a * pow(a as int, e), a as int, p as int);
    lemma_euclid(a, b, p);
    lemma_add_mod_noop(b as int, 1, p as int);
    lemma_small_mod(1, p);
    lemma_small_mod(0, p);
}

/// A positive multiple of a positive `d` is at least `d`.
proof fn lemma_divisor_le(d: nat, n: nat)
    requires
        d > 0,
        n > 0,
        n % d == 0,
    ensures
        d <= n,
{
    lemma_fundamental_div_mod(n as int, d as int);
    assert(d <= n) by (nonlinear_arith)
        requires
            n == d * (n / d) + n % d,
            n % d == 0,
            n > 0,
            d > 0,
    ;
}

/// The gcd with a positive `m` depends only on the residue modulo `m`, and
/// ignores sign: `gcd(a mod m, m) == gcd(|a|, m)`.
pub proof fn lemma_gcd_of_any_residue(a: int, m: nat)
    requires
        m > 0,
    ensures
        spec_gcd((a % (m as int)) as nat, m) == spec_gcd(abs_int(a), m),
{
    let mi = m as int;
    let r = (a % mi) as nat;
    let b = abs_int(a);
    let q = a / mi;
    lemma_fundamental_div_mod(a, mi);
    let sign: int = if a < 0 { -1 } else { 1 };
    assert(b == sign * r + mi * (sign * q)) by (nonlinear_arith)
        requires
            a == mi * q + r,
            b == if a < 0 { -a } else { a },
            sign == if a < 0 { -1int } else { 1int },
    ;
    assert(r == sign * b + mi * (-q)) by (nonlinear_arith)
        requires
            a == mi * q + r,
            b == if a < 0 { -a } else { a },
            sign == if a < 0 { -1int } else { 1int },
    ;
    lemma_gcd_divides(r, m);
    lemma_gcd_divides(b, m);
    let g1 = spec_gcd(r, m);
    let g2 = spec_gcd(b, m);
    lemma_divides_combination(r as int, mi, sign, sign * q, g1 as int);
    lemma_divides_combination(b as int, mi, sign, -q, g2 as int);
    let (x1, y1) = lemma_bezout(r, m);
    let (x2, y2) = lemma_bezout(b, m);
    lemma_divides_combination(b as int, mi, x2, y2, g1 as int);
    lemma_divides_combination(r as int, mi, x1, y1, g2 as int);
    lemma_divisor_le(g1, g2);
    lemma_divisor_le(g2, g1);
}

} // verus!
