use vstd::arithmetic::div_mod::{
    lemma_add_mod_noop, lemma_mod_bound, lemma_mul_mod_noop_general, lemma_sub_mod_noop,
};
use vstd::arithmetic::power::{
    lemma_pow0, lemma_pow1, lemma_pow_adds, lemma_pow_mod_noop, lemma_pow_multiplies,
    lemma_square_is_pow2, pow,
};
use vstd::prelude::*;

verus! {

/// The canonical residue of `a` modulo a positive `m`, in `[0, m)`.
pub(crate) fn residue(a: i128, m: i128) -> (r: i128)
    requires
        m > 0,
    ensures
        r == a % m,
        0 <= r < m,
{
    proof {
        lemma_mod_bound(a as int, m as int);
    }
    match a.checked_rem_euclid(m) {
        Some(r) => r,
        None => 0,
    }
}

/// `(a + b) mod m`, in `[0, m)`.
pub fn mod_add(a: i64, b: i64, m: i64) -> (r: i64)
    requires
        m > 0,
    ensures
        r == (a + b) % (m as int),
        0 <= r < m,
{
    let ra = residue(a as i128, m as i128);
    let rb = residue(b as i128, m as i128);
    let r = residue(ra + rb, m as i128);
    proof {
        lemma_add_mod_noop(a as int, b as int, m as int);
    }
    r as i64
}

/// `(a - b) mod m`, in `[0, m)`.
pub fn mod_sub(a: i64, b: i64, m: i64) -> (r: i64)
    requires
        m > 0,
    ensures
        r == (a - b) % (m as int),
        0 <= r < m,
{
    let ra = residue(a as i128, m as i128);
    let rb = residue(b as i128, m as i128);
    let r = residue(ra - rb, m as i128);
    proof {
        lemma_sub_mod_noop(a as int, b as int, m as int);
    }
    r as i64
}

/// `(a * b) mod m`, in `[0, m)`; the product is formed at double width.
pub fn mod_mul(a: i64, b: i64, m: i64) -> (r: i64)
    requires
        m > 0,
    ensures
        r == (a * b) % (m as int),
        0 <= r < m,
{
    let ra = residue(a as i128, m as i128);
    let rb = residue(b as i128, m as i128);
    assert(0 <= ra * rb < m * m) by (nonlinear_arith)
        requires
            0 <= ra < m,
            0 <= rb < m,
    ;
    assert(m * m <= 0x4000_0000_0000_0000_0000_0000_0000_0000) by (nonlinear_arith)
        requires
            0 < m <= i64::MAX,
    ;
    let r = residue(ra * rb, m as i128);
    proof {
        lemma_mul_mod_noop_general(a as int, b as int, m as int);
    }
    r as i64
}

/// One step of square-and-multiply: `b^e == (b*b)^(e/2) * b^(e%2)`.
proof fn lemma_pow_halve(b: int, e: nat)
    ensures
        pow(b, e) == pow(b * b, e / 2) * pow(b, e % 2),
{
    lemma_square_is_pow2(b);
    lemma_pow_multiplies(b, 2, e / 2);
    lemma_pow_adds(b, 2 * (e / 2), e % 2);
    assert(2 * (e / 2) + e % 2 == e);
}

/// Modular exponentiation by repeated squaring: `base^exp mod m`, in
/// `[0, m)`. With `m == 1` every result is `0`.
pub fn mod_pow(base: u64, exp: u64, m: u64) -> (r: u64)
    requires
        m > 0,
    ensures
        r == pow(base as int, exp as nat) % (m as int),
        r < m,
{
    if m == 1 {
        return 0;
    }
    let mm = m as u128;
    let mut b: u128 = (base as u128) % mm;
    let mut e: u64 = exp;
    let mut res: u128 = 1;
    proof {
        lemma_pow_mod_noop(base as int, exp as nat, m as int);
        lemma_pow0(b as int);
        lemma_pow1(b as int);
    }
    while e > 0
        invariant
            mm == m,
            m > 1,
            b < mm,
            res < mm,
            (res * pow(b as int, e as nat)) % (m as int) == pow(base as int, exp as nat) % (m as int),
        decreases e,
    {
        let ghost old_b = b as int;
        let ghost old_e = e as nat;
        let ghost old_res = res as int;
        assert(b * b < mm * mm && mm * mm <= u64::MAX * u64::MAX) by (nonlinear_arith)
            requires
                b < mm,
                mm <= u64::MAX,
        ;
        assert(res * b < mm * mm) by (nonlinear_arith)
            requires
                b < mm,
                res < mm,
        ;
        if e % 2 == 1 {
            res = (res * b) % mm;
        }
        b = (b * b) % mm;
        e = e / 2;
        proof {
            let mi = m as int;
            let half = pow(old_b * old_b, e as nat);
            let bit = pow(old_b, old_e % 2);
            lemma_pow_halve(old_b, old_e);
            lemma_pow_mod_noop(old_b * old_b, e as nat, mi);
            lemma_pow0(old_b);
            lemma_pow1(old_b);
            vstd::arithmetic::div_mod::lemma_small_mod(old_res as nat, m as nat);
            assert(res == (old_res * bit) % mi);
            // res' * pow(b', e') == (old_res * bit) * half  (mod m)
            lemma_mul_mod_noop_general(old_res * bit, half, mi);
            lemma_mul_mod_noop_general(res as int, half, mi);
            lemma_mul_mod_noop_general(res as int, pow(b as int, e as nat), mi);
            assert((res * pow(b as int, e as nat)) % mi == (res * half) % mi);
            assert((old_res * bit) * half == old_res * pow(old_b, old_e)) by (nonlinear_arith)
                requires
                    pow(old_b, old_e) == half * bit,
            ;
        }
    }
    proof {
        lemma_pow0(b as int);
        vstd::arithmetic::div_mod::lemma_small_mod(res as nat, m as nat);
    }
    res as u64
}

/// Adding the negation of `a` gives residue zero under every positive
/// modulus: `mod_add(a, -a, m) == 0`.
pub proof fn lemma_add_negation_is_zero(a: i64, m: i64)
    requires
        m > 0,
        a > i64::MIN,
    ensures
        (a + (-a) as i64) % (m as int) == 0,
{
    assert(a + (-a) as i64 == 0);
    vstd::arithmetic::div_mod::lemma_small_mod(0, m as nat);
}

/// A residue already in `[0, m)` is left unchanged by the identity
/// operations: adding or subtracting 0, multiplying by 1, raising to 1.
pub proof fn lemma_normalized_residue_fixed(r: int, m: int)
    requires
        0 <= r < m,
    ensures
        (r + 0) % m == r,
        (r - 0) % m == r,
        (r * 1) % m == r,
        pow(r, 1) % m == r,
{
    lemma_pow1(r);
    vstd::arithmetic::div_mod::lemma_small_mod(r as nat, m as nat);
}

} // verus!
