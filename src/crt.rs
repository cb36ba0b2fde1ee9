use crate::euclid::{gcd, spec_gcd};
use crate::inverse::{lemma_gcd_of_residue, mod_inv};
use crate::modular::residue;
use vstd::arithmetic::div_mod::{
    lemma_add_mod_noop_right, lemma_mod_mod, lemma_mod_multiples_vanish, lemma_mul_mod_noop_general,
    lemma_small_mod,
};
use vstd::prelude::*;

verus! {

/// `x = a + m * t` with `t == (b - a) * inv (mod n)` and
/// `m * inv == 1 (mod n)` satisfies `x == b (mod n)`.
proof fn lemma_lift_meets_second(a: int, m: int, b: int, n: int, inv: int, t: int)
    requires
        n > 0,
        ((m % n) * inv) % n == 1int % n,
        t == (((b - a) % n) * inv) % n,
    ensures
        (a + m * t) % n == b % n,
{
    let rhs = (b - a) % n;
    lemma_mul_mod_noop_general(m, rhs * inv, n);
    lemma_mul_mod_noop_general(m, inv, n);
    lemma_mul_mod_noop_general(rhs, m * inv, n);
    assert(m * (rhs * inv) == rhs * (m * inv)) by (nonlinear_arith);
    // (m * t) % n == (rhs * (m * inv)) % n == (rhs * 1) % n
    assert((m * t) % n == (rhs * ((m * inv) % n)) % n);
    lemma_mul_mod_noop_general(rhs, 1, n);
    assert((m * t) % n == rhs % n);
    lemma_small_mod(rhs as nat, n as nat);
    lemma_add_mod_noop_right(a, m * t, n);
    lemma_add_mod_noop_right(a, b - a, n);
}

/// Solves `x == a (mod m)`, `x == b (mod n)` for coprime positive moduli.
/// Returns `(x, m * n)` with `x` the unique solution in `[0, m * n)`, or
/// `None` when a modulus is not positive, the moduli share a factor, or
/// `m * n` does not fit in an `i64`.
pub fn crt_pair(a: i64, m: i64, b: i64, n: i64) -> (r: Option<(i64, i64)>)
    ensures
        r is Some <==> (m > 0 && n > 0 && spec_gcd(m as nat, n as nat) == 1 && m * n
            <= i64::MAX),
        r matches Some((x, l)) ==> l == m * n && 0 <= x < l && (x as int) % (m as int) == (a as int)
            % (m as int) && (x as int) % (n as int) == (b as int) % (n as int),
{
    if m <= 0 || n <= 0 {
        return None;
    }
    if gcd(m as u128, n as u128) != 1 {
        return None;
    }
    let mm = m as i128;
    let nn = n as i128;
    let rhs = residue(b as i128 - a as i128, nn);
    let m_res = residue(mm, nn);
    proof {
        lemma_gcd_of_residue(m as nat, n as nat);
    }
    let inv = match mod_inv(m_res, nn) {
        Some(v) => v,
        None => return None,
    };
    assert(0 <= rhs * inv < nn * nn && nn * nn < 0x4000_0000_0000_0000_0000_0000_0000_0000)
        by (nonlinear_arith)
        requires
            0 <= rhs < nn,
            0 <= inv < nn,
            nn <= i64::MAX,
    ;
    let t = residue(rhs * inv, nn);
    assert(0 < mm * nn < 0x4000_0000_0000_0000_0000_0000_0000_0000) by (nonlinear_arith)
        requires
            0 < mm <= i64::MAX,
            0 < nn <= i64::MAX,
    ;
    let l = mm * nn;
    if l > i64::MAX as i128 {
        return None;
    }
    assert(0 <= mm * t < l) by (nonlinear_arith)
        requires
            0 <= t < nn,
            mm > 0,
            l == mm * nn,
    ;
    let x = residue(a as i128 + mm * t, l);
    proof {
        let xs = a + mm * t;
        lemma_lift_meets_second(a as int, m as int, b as int, n as int, inv as int, t as int);
        lemma_mod_mod(xs, m as int, n as int);
        lemma_mod_multiples_vanish(t as int, a as int, m as int);
        assert(l == n * m) by (nonlinear_arith)
            requires
                l == mm * nn,
                mm == m,
                nn == n,
        ;
        lemma_mod_mod(xs, n as int, m as int);
    }
    Some((x as i64, l as i64))
}

} // verus!
