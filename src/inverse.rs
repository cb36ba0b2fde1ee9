use crate::euclid::{abs_int, extended_gcd, spec_gcd};
use crate::fermat::lemma_gcd_of_any_residue;
use crate::modular::residue;
use vstd::arithmetic::div_mod::{lemma_mod_multiples_vanish, lemma_mod_twice, lemma_mul_mod_noop_general};
use vstd::prelude::*;

verus! {

/// Reducing the first argument modulo the second leaves the gcd unchanged.
pub proof fn lemma_gcd_of_residue(a: nat, m: nat)
    requires
        m > 0,
    ensures
        spec_gcd(a % m, m) == spec_gcd(a, m),
{
    lemma_mod_twice(a as int, m as int);
    assert(spec_gcd(a % m, m) == spec_gcd(m, (a % m) % m));
    assert(spec_gcd(a, m) == spec_gcd(m, a % m));
}

/// The inverse of `a` modulo `m`: the `v` in `[0, m)` with
/// `a * v == 1 (mod m)`. It exists exactly when the residue of `a` is
/// coprime to `m`, that is when `a` is; otherwise the result is `None`.
pub fn mod_inv(a: i128, m: i128) -> (r: Option<i128>)
    requires
        m > 0,
    ensures
        r is Some <==> spec_gcd((a % m) as nat, m as nat) == 1,
        r is Some <==> spec_gcd(abs_int(a as int), m as nat) == 1,
        r matches Some(v) ==> 0 <= v < m && (a * v) % (m as int) == 1int % (m as int),
{
    let a_norm = residue(a, m);
    let (g, x, y) = extended_gcd(a_norm, m);
    proof {
        lemma_gcd_of_any_residue(a as int, m as nat);
        assert(abs_int(a_norm as int) == a_norm);
        assert(abs_int(m as int) == m);
    }
    if g != 1 {
        None
    } else {
        let v = residue(x, m);
        proof {
            let mi = m as int;
            lemma_mul_mod_noop_general(a as int, x as int, mi);
            lemma_mul_mod_noop_general(a as int, v as int, mi);
            lemma_mod_twice(x as int, mi);
            // (a * v) % m == (a_norm * x) % m == (1 - m * y) % m == 1 % m
            assert((a * v) % mi == (a_norm * x) % mi);
            assert(a_norm * x == mi * (-y) + 1) by (nonlinear_arith)
                requires
                    a_norm * x + mi * y == 1,
            ;
            lemma_mod_multiples_vanish(-y as int, 1, mi);
        }
        Some(v)
    }
}

} // verus!
