use crate::fermat::{is_prime, lemma_divides_combination, lemma_euclid};
use vstd::arithmetic::div_mod::{
    lemma_div_decreases, lemma_div_pos_is_pos, lemma_fundamental_div_mod, lemma_mod_multiples_basic,
    lemma_mod_self_0, lemma_small_mod,
};
use vstd::prelude::*;

verus! {

/// The product formula taken over the primes below `k`: starting from `n`,
/// each prime `p < k` that divides `n`, in increasing order, scales the
/// value by `(p - 1) / p` (as `v / p * (p - 1)`, which is exact).
pub open spec fn euler_product(n: nat, k: nat) -> nat
    decreases k,
{
    if k <= 2 {
        n
    } else {
        let p = (k - 1) as nat;
        let prev = euler_product(n, p);
        if is_prime(p) && n % p == 0 {
            prev / p * (p - 1) as nat
        } else {
            prev
        }
    }
}

/// Euler's totient by the product formula `n * prod (1 - 1/p)` over the
/// prime divisors `p` of `n`; zero for `n == 0`.
pub open spec fn totient(n: nat) -> nat {
    euler_product(n, n + 1)
}

/// Divisibility is transitive.
proof fn lemma_divides_trans(a: nat, b: nat, c: nat)
    requires
        b > 0,
        c > 0,
        a % b == 0,
        b % c == 0,
    ensures
        a % c == 0,
{
    lemma_fundamental_div_mod(a as int, b as int);
    lemma_divides_combination(b as int, b as int, (a / b) as int, 0, c as int);
    assert(b * (a / b) + b * 0 == a) by (nonlinear_arith)
        requires
            a == b * (a / b) + a % b,
            a % b == 0,
    ;
}

/// A value above 1 with no divisor in `[2, p)` and below `p * p` is prime.
proof fn lemma_prime_without_small_divisor(m: nat, p: nat)
    requires
        m >= 2,
        m < p * p,
        forall|d: nat| 2 <= d < p ==> #[trigger] (m % d) != 0,
    ensures
        is_prime(m),
{
    assert forall|d: nat| 2 <= d < m implies #[trigger] (m % d) != 0 by {
        if m % d == 0 {
            let e = m / d;
            lemma_fundamental_div_mod(m as int, d as int);
            assert(m == e * d);
            assert(e >= 2) by (nonlinear_arith)
                requires
                    m == e * d,
                    d < m,
                    e >= 0,
            ;
            lemma_mod_multiples_basic(e as int, d as int);
            lemma_mod_multiples_basic(d as int, e as int);
            assert(m == d * e) by (nonlinear_arith)
                requires
                    m == e * d,
            ;
            assert(d >= p);
            assert(e >= p);
            assert(false) by (nonlinear_arith)
                requires
                    d >= p,
                    e >= p,
                    m == d * e,
                    m < p * p,
                    p >= 0,
            ;
        }
    }
}

/// A prime other than `p` divides `m` exactly when it divides `m / p`.
proof fn lemma_other_prime_divides_quotient(m: nat, p: nat, q: nat)
    requires
        is_prime(p),
        is_prime(q),
        q != p,
        m % p == 0,
    ensures
        (m % q == 0) <==> ((m / p) % q == 0),
{
    lemma_fundamental_div_mod(m as int, p as int);
    assert(m == p * (m / p));
    if p < q {
        lemma_small_mod(p, q);
    } else {
        assert(p % q != 0);
    }
    if m % q == 0 {
        lemma_euclid(p, m / p, q);
    }
    if (m / p) % q == 0 {
        if m / p > 0 {
            lemma_mod_multiples_basic(p as int, (m / p) as int);
            assert(m % (m / p) == 0);
            lemma_divides_trans(m, m / p, q);
        } else {
            assert(m == 0) by (nonlinear_arith)
                requires
                    m == p * (m / p),
                    m / p == 0,
            ;
            lemma_small_mod(0, q);
        }
    }
}

/// Past the last candidate, only the remaining factor `m` (if above 1)
/// still scales the product.
proof fn lemma_euler_tail(n: nat, p: nat, k: nat, m: nat)
    requires
        2 <= p <= k,
        forall|q: nat| p <= q < k && #[trigger] is_prime(q) && n % q == 0 ==> q == m,
        m >= 2 ==> is_prime(m) && n % m == 0 && m >= p,
    ensures
        euler_product(n, k) == if 2 <= m < k {
            euler_product(n, p) / m * (m - 1) as nat
        } else {
            euler_product(n, p)
        },
    decreases k - p,
{
    if k > p {
        lemma_euler_tail(n, p, (k - 1) as nat, m);
    }
}

/// Euler's totient by trial factorisation, in time proportional to the
/// square root of `n`.
pub fn phi(n: u64) -> (r: u64)
    ensures
        r == totient(n as nat),
{
    if n == 0 {
        return 0;
    }
    let mut m: u64 = n;
    let mut result: u64 = n;
    let mut p: u64 = 2;
    while p <= m / p
        invariant
            2 <= p <= n + 1,
            p <= 0x1_0000_0000,
            1 <= m <= n,
            n % m == 0,
            result <= n,
            result == euler_product(n as nat, p as nat),
            forall|d: nat| 2 <= d < p ==> #[trigger] ((m as nat) % d) != 0,
            forall|q: nat| p <= q && #[trigger] is_prime(q) ==> ((n as nat) % q == 0 <==> (m as nat) % q == 0),
        decreases m, m - p,
    {
        proof {
            lemma_fundamental_div_mod(m as int, p as int);
        }
        assert(p * p <= m && p < m && p < 0x1_0000_0000) by (nonlinear_arith)
            requires
                p >= 2,
                p <= m / p,
                m == p * (m / p) + m % p,
                m % p >= 0,
                m <= u64::MAX,
        ;
        if m % p == 0 {
            assert(is_prime(p as nat)) by {
                assert forall|d: nat| 2 <= d < p implies #[trigger] ((p as nat) % d) != 0 by {
                    if (p as nat) % d == 0 {
                        lemma_divides_trans(m as nat, p as nat, d);
                    }
                }
            }
            let ghost m0 = m as nat;
            while m % p == 0
                invariant
                    is_prime(p as nat),
                    1 <= m <= m0,
                    m0 % (m as nat) == 0,
                    forall|q: nat| #[trigger] is_prime(q) && q != p ==> (m0 % q == 0 <==> (m as nat) % q == 0),
                decreases m,
            {
                proof {
                    lemma_fundamental_div_mod(m as int, p as int);
                    lemma_div_decreases(m as int, p as int);
                    lemma_div_pos_is_pos(m as int, p as int);
                    assert(m / p > 0) by (nonlinear_arith)
                        requires
                            m % p == 0,
                            m >= 1,
                            p >= 2,
                            m == p * (m / p) + m % p,
                    ;
                    lemma_mod_multiples_basic((m / p) as int, p as int);
                    assert((m / p) * p == m) by (nonlinear_arith)
                        requires
                            m == p * (m / p) + m % p,
                            m % p == 0,
                    ;
                    assert((m as nat) % ((m / p) as nat) == 0) by {
                        lemma_mod_multiples_basic(p as int, (m / p) as int);
                        assert(p * (m / p) == m) by (nonlinear_arith)
                            requires
                                m == p * (m / p) + m % p,
                                m % p == 0,
                        ;
                    }
                    lemma_divides_trans(m0, m as nat, (m / p) as nat);
                    assert forall|q: nat| #[trigger] is_prime(q) && q != p implies (m0 % q == 0 <==> ((m
                        / p) as nat) % q == 0) by {
                        lemma_other_prime_divides_quotient(m as nat, p as nat, q);
                    }
                }
                m = m / p;
            }
            proof {
                lemma_divides_trans(n as nat, m0, m as nat);
                assert forall|d: nat| 2 <= d < p + 1 implies #[trigger] ((m as nat) % d) != 0 by {
                    if d < p && (m as nat) % d == 0 {
                        lemma_divides_trans(m0, m as nat, d);
                    }
                }
            }
            proof {
                lemma_fundamental_div_mod(result as int, p as int);
            }
            assert(result / p * (p - 1) <= result) by (nonlinear_arith)
                requires
                    p >= 2,
                    result == p * (result / p) + result % p,
                    result % p >= 0,
                    result / p >= 0,
            ;
            result = result / p * (p - 1);
        }
        p = p + 1;
    }
    proof {
        lemma_fundamental_div_mod(m as int, p as int);
    }
    assert(p * p > m) by (nonlinear_arith)
        requires
            p >= 2,
            p > m / p,
            m == p * (m / p) + m % p,
            m % p < p,
    ;
    proof {
        lemma_mod_self_0(m as int);
        if m >= 2 {
            lemma_prime_without_small_divisor(m as nat, p as nat);
            assert(m >= p);
        }
        assert forall|q: nat| p <= q < n + 1 && #[trigger] is_prime(q) && (n as nat) % q == 0 implies q == m by {
            assert((m as nat) % q == 0);
            if q > m {
                lemma_small_mod(m as nat, q);
            } else if q < m {
                assert((m as nat) % q != 0);
            }
        }
        lemma_euler_tail(n as nat, p as nat, (n + 1) as nat, m as nat);
    }
    if m > 1 {
        proof {
            lemma_fundamental_div_mod(result as int, m as int);
        }
        assert(result / m * (m - 1) <= result) by (nonlinear_arith)
            requires
                m >= 2,
                result == m * (result / m) + result % m,
                result % m >= 0,
                result / m >= 0,
        ;
        result = result / m * (m - 1);
    }
    result
}

} // verus!
