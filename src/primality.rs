use crate::fermat::{is_prime, lemma_euclid, lemma_fermat_little};
use crate::modular::mod_pow;
use vstd::arithmetic::div_mod::{lemma_mod_bound, lemma_mod_equivalence, lemma_mul_mod_noop_general, lemma_small_mod};
use vstd::arithmetic::power::{lemma_pow1, lemma_pow_adds, lemma_pow_multiplies, lemma_pow_positive, lemma_square_is_pow2, pow};
use vstd::prelude::*;

verus! {

/// Number of primes in the screening table.
pub const SMALL_PRIME_COUNT: usize = 12;

/// Number of Miller-Rabin witnesses.
pub const WITNESS_COUNT: usize = 7;

/// The primes below 40, in increasing order, indexed from 0.
pub open spec fn small_prime(j: int) -> nat {
    if j == 0 { 2 }
    else if j == 1 { 3 }
    else if j == 2 { 5 }
    else if j == 3 { 7 }
    else if j == 4 { 11 }
    else if j == 5 { 13 }
    else if j == 6 { 17 }
    else if j == 7 { 19 }
    else if j == 8 { 23 }
    else if j == 9 { 29 }
    else if j == 10 { 31 }
    else { 37 }
}

/// The fixed witness set `{2, 3, 5, 7, 11, 13, 17}`, in this order.
pub open spec fn witness(j: int) -> nat {
    small_prime(j)
}

/// The odd part `d` of `k > 0`, where `k == d * 2^s` with `d` odd.
pub open spec fn odd_part(k: nat) -> nat
    decreases k,
{
    if k > 0 && k % 2 == 0 {
        odd_part(k / 2)
    } else {
        k
    }
}

/// The exponent `s` of two in `k > 0`, where `k == d * 2^s` with `d` odd.
pub open spec fn two_exponent(k: nat) -> nat
    decreases k,
{
    if k > 0 && k % 2 == 0 {
        1 + two_exponent(k / 2)
    } else {
        0
    }
}

/// `a^(d * 2^i) mod n`: the `i`-th term of the Miller-Rabin squaring chain.
pub open spec fn chain_term(a: nat, d: nat, i: nat, n: nat) -> int {
    pow(a as int, (d * pow(2, i)) as nat) % (n as int)
}

/// `n` is a strong probable prime to base `a`: with `n - 1 == d * 2^s` and
/// `d` odd, either `a^d == 1 (mod n)` or `a^(d * 2^i) == -1 (mod n)` for
/// some `i < s`.
pub open spec fn strong_probable_prime(n: nat, a: nat) -> bool {
    let d = odd_part((n - 1) as nat);
    let s = two_exponent((n - 1) as nat);
    chain_term(a, d, 0, n) == 1 || exists|i: nat| i < s && #[trigger] chain_term(a, d, i, n) == n - 1
}

/// `n` has a divisor in the small-prime table other than itself.
pub open spec fn has_small_factor(n: nat) -> bool {
    exists|j: int| 0 <= j < SMALL_PRIME_COUNT && n % #[trigger] small_prime(j) == 0 && n != small_prime(j)
}

/// `n` is one of the primes of the small-prime table.
pub open spec fn is_small_prime(n: nat) -> bool {
    exists|j: int| 0 <= j < SMALL_PRIME_COUNT && n == #[trigger] small_prime(j)
}

/// The verdict of deterministic Miller-Rabin: values below 2 are rejected,
/// the table's primes accepted and their other multiples rejected; any other
/// `n` is accepted when it is a strong probable prime to every witness
/// below `n`.
pub open spec fn miller_rabin(n: nat) -> bool {
    if n < 2 {
        false
    } else if has_small_factor(n) {
        false
    } else if is_small_prime(n) {
        true
    } else {
        forall|j: int| 0 <= j < WITNESS_COUNT && #[trigger] witness(j) < n ==> strong_probable_prime(n, witness(j))
    }
}

fn small_prime_at(j: usize) -> (p: u64)
    requires
        j < SMALL_PRIME_COUNT,
    ensures
        p == small_prime(j as int),
{
    match j {
        0 => 2,
        1 => 3,
        2 => 5,
        3 => 7,
        4 => 11,
        5 => 13,
        6 => 17,
        7 => 19,
        8 => 23,
        9 => 29,
        10 => 31,
        _ => 37,
    }
}

/// No entry of the table divides another.
proof fn lemma_small_primes_coprime()
    ensures
        forall|i: int, j: int|
            0 <= i < SMALL_PRIME_COUNT && 0 <= j < SMALL_PRIME_COUNT && i != j ==> #[trigger] small_prime(i) % #[trigger] small_prime(j) != 0,
{
}

/// One squaring step of the chain: `term(i)^2 mod n == term(i + 1)`.
proof fn lemma_chain_step(a: nat, d: nat, i: nat, n: nat)
    requires
        n > 0,
    ensures
        (chain_term(a, d, i, n) * chain_term(a, d, i, n)) % (n as int) == chain_term(a, d, i + 1, n),
{
    let k = pow(2, i);
    lemma_pow_positive(2, i);
    lemma_pow_adds(2, i, 1);
    lemma_pow1(2);
    assert(d * pow(2, i + 1) == (d * k) * 2) by (nonlinear_arith)
        requires
            pow(2, i + 1) == k * 2,
    ;
    assert(d * k >= 0) by (nonlinear_arith)
        requires
            k > 0,
    ;
    let y = pow(a as int, (d * k) as nat);
    lemma_square_is_pow2(y);
    lemma_pow_multiplies(a as int, (d * k) as nat, 2);
    lemma_mul_mod_noop_general(y, y, n as int);
}

/// Decomposes `k > 0` as `d * 2^s` with `d` odd; returns `(d, s)`.
fn split_two_power(k: u64) -> (r: (u64, u64))
    requires
        k > 0,
    ensures
        r.0 == odd_part(k as nat),
        r.1 == two_exponent(k as nat),
        r.0 > 0,
{
    let mut d: u64 = k;
    let mut s: u64 = 0;
    while d % 2 == 0
        invariant
            d > 0,
            odd_part(d as nat) == odd_part(k as nat),
            s + two_exponent(d as nat) == two_exponent(k as nat),
            s + d <= k,
        decreases d,
    {
        d = d / 2;
        s = s + 1;
    }
    (d, s)
}

/// Whether `n` (odd, at least 3, with `n - 1 == d * 2^s`) is a strong
/// probable prime to base `a`.
fn passes_witness(n: u64, d: u64, s: u64, a: u64) -> (r: bool)
    requires
        n >= 3,
        d == odd_part((n - 1) as nat),
        s == two_exponent((n - 1) as nat),
        s >= 1,
    ensures
        r == strong_probable_prime(n as nat, a as nat),
{
    let ghost nn = n as nat;
    let mut x: u64 = mod_pow(a, d, n);
    proof {
        lemma_pow_positive(2, 0);
        vstd::arithmetic::power::lemma_pow0(2);
        assert(x == chain_term(a as nat, d as nat, 0, nn));
    }
    if x == 1 || x == n - 1 {
        return true;
    }
    let mut i: u64 = 1;
    while i < s
        invariant
            n >= 3,
            1 <= i <= s,
            d == odd_part((n - 1) as nat),
            s == two_exponent((n - 1) as nat),
            x == chain_term(a as nat, d as nat, (i - 1) as nat, n as nat),
            chain_term(a as nat, d as nat, 0, n as nat) != 1,
            forall|k: nat| k < i ==> #[trigger] chain_term(a as nat, d as nat, k, n as nat) != n - 1,
        decreases s - i,
    {
        proof {
            lemma_chain_step(a as nat, d as nat, (i - 1) as nat, n as nat);
        }
        assert(x * x < 0x1_0000_0000_0000_0000u128 * 0x1_0000_0000_0000_0000u128) by (nonlinear_arith)
            requires
                x < n,
        ;
        x = ((x as u128 * x as u128) % (n as u128)) as u64;
        if x == n - 1 {
            assert(chain_term(a as nat, d as nat, i as nat, n as nat) == n - 1);
            return true;
        }
        i = i + 1;
    }
    false
}

/// Deterministic Miller-Rabin for 64-bit inputs: screens against the primes
/// below 40, then tests `n` against each witness of `{2, 3, 5, 7, 11, 13, 17}`
/// that is below `n`.
pub fn is_probable_prime_u64(n: u64) -> (r: bool)
    ensures
        r == miller_rabin(n as nat),
        is_prime(n as nat) ==> r,
{
    proof {
        lemma_primes_pass(n as nat);
    }
    if n < 2 {
        return false;
    }
    proof {
        lemma_small_primes_coprime();
    }
    let mut j: usize = 0;
    while j < SMALL_PRIME_COUNT
        invariant
            n >= 2,
            j <= SMALL_PRIME_COUNT,
            forall|k: int| 0 <= k < j ==> n != #[trigger] small_prime(k) && (n as nat) % small_prime(k) != 0,
        decreases SMALL_PRIME_COUNT - j,
    {
        let p = small_prime_at(j);
        if n == p {
            assert(is_small_prime(n as nat));
            assert forall|k: int| 0 <= k < SMALL_PRIME_COUNT && (n as nat) % #[trigger] small_prime(k) == 0
                implies n == small_prime(k) by {
                if k != j as int {
                    assert(small_prime(j as int) % small_prime(k) != 0);
                }
            }
            return true;
        }
        if n % p == 0 {
            assert(has_small_factor(n as nat));
            return false;
        }
        j = j + 1;
    }
    assert(!has_small_factor(n as nat));
    assert(!is_small_prime(n as nat));
    assert(n % 2 == 1) by {
        assert((n as nat) % small_prime(0) != 0);
    }
    let (d, s) = split_two_power(n - 1);
    assert(s >= 1) by {
        reveal_with_fuel(two_exponent, 2);
    }
    let mut w: usize = 0;
    while w < WITNESS_COUNT
        invariant
            n >= 3,
            n % 2 == 1,
            w <= WITNESS_COUNT,
            d == odd_part((n - 1) as nat),
            s == two_exponent((n - 1) as nat),
            s >= 1,
            !has_small_factor(n as nat),
            !is_small_prime(n as nat),
            is_prime(n as nat) ==> miller_rabin(n as nat),
            forall|k: int| 0 <= k < w && #[trigger] witness(k) < n ==> strong_probable_prime(n as nat, witness(k)),
        decreases WITNESS_COUNT - w,
    {
        let a = small_prime_at(w);
        if a < n && !passes_witness(n, d, s, a) {
            assert(witness(w as int) < n);
            return false;
        }
        w = w + 1;
    }
    true
}

/// `k == odd_part(k) * 2^two_exponent(k)` for `k > 0`.
proof fn lemma_split_two_power(k: nat)
    requires
        k > 0,
    ensures
        odd_part(k) * pow(2, two_exponent(k)) == k,
    decreases k,
{
    if k % 2 == 0 {
        lemma_split_two_power(k / 2);
        let e = two_exponent(k / 2);
        lemma_pow_adds(2, e, 1);
        lemma_pow1(2);
        assert(odd_part(k / 2) * pow(2, e + 1) == (odd_part(k / 2) * pow(2, e)) * 2) by (nonlinear_arith)
            requires
                pow(2, e + 1) == pow(2, e) * 2,
        ;
    } else {
        vstd::arithmetic::power::lemma_pow0(2);
    }
}

/// Modulo a prime, the only square roots of 1 are 1 and -1.
proof fn lemma_square_root_of_one(t: nat, n: nat)
    requires
        is_prime(n),
        t < n,
        ((t * t) as int) % (n as int) == 1,
    ensures
        t == 1 || t == n - 1,
{
    lemma_small_mod(0, n);
    lemma_small_mod(1, n);
    if t == 0 {
        assert(t * t == 0);
    } else {
        let lo = (t - 1) as nat;
        let hi = t + 1;
        assert(lo * hi == t * t - 1) by (nonlinear_arith)
            requires
                lo == t - 1,
                hi == t + 1,
        ;
        lemma_mod_equivalence((t * t) as int, 1, n as int);
        if hi % n != 0 {
            assert((hi * lo) as int == (lo * hi) as int) by (nonlinear_arith);
            lemma_euclid(hi, lo, n);
            lemma_small_mod(lo, n);
        } else {
            assert(hi == n) by {
                if hi < n {
                    lemma_small_mod(hi, n);
                }
            }
        }
    }
}

/// If the chain reaches 1 at step `i` without starting at 1, an earlier
/// step was `n - 1`.
proof fn lemma_chain_hits_minus_one(a: nat, d: nat, i: nat, n: nat)
    requires
        is_prime(n),
        chain_term(a, d, i, n) == 1,
        chain_term(a, d, 0, n) != 1,
    ensures
        exists|j: nat| j < i && #[trigger] chain_term(a, d, j, n) == n - 1,
    decreases i,
{
    if i > 0 {
        let j = (i - 1) as nat;
        let t = chain_term(a, d, j, n);
        lemma_chain_step(a, d, j, n);
        lemma_mod_bound(pow(a as int, (d * pow(2, j)) as nat), n as int);
        lemma_square_root_of_one(t as nat, n);
        if t == 1 {
            lemma_chain_hits_minus_one(a, d, j, n);
        } else {
            assert(chain_term(a, d, j, n) == n - 1);
        }
    }
}

/// Primes are never rejected: every prime is a strong probable prime to
/// every base below it, and has no smaller factor in the table.
pub proof fn lemma_primes_pass(n: nat)
    ensures
        is_prime(n) ==> miller_rabin(n),
{
    if is_prime(n) {
        assert(!has_small_factor(n)) by {
            if has_small_factor(n) {
                let j = choose|j: int| 0 <= j < SMALL_PRIME_COUNT && n % #[trigger] small_prime(j) == 0 && n != small_prime(j);
                let q = small_prime(j);
                if q > n {
                    lemma_small_mod(n, q);
                }
                assert(2 <= q < n);
            }
        }
        if !is_small_prime(n) {
            assert(n % 2 == 1) by {
                assert(small_prime(0) == 2);
            }
            let k = (n - 1) as nat;
            let d = odd_part(k);
            let s = two_exponent(k);
            lemma_split_two_power(k);
            assert forall|j: int| 0 <= j < WITNESS_COUNT && #[trigger] witness(j) < n
                implies strong_probable_prime(n, witness(j)) by {
                let a = witness(j);
                lemma_small_mod(a, n);
                lemma_fermat_little(a, n);
                assert(chain_term(a, d, s, n) == 1);
                if chain_term(a, d, 0, n) != 1 {
                    lemma_chain_hits_minus_one(a, d, s, n);
                }
            }
        }
    }
}

} // verus!
