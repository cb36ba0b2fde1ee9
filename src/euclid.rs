use vstd::arithmetic::div_mod::lemma_fundamental_div_mod;
use vstd::prelude::*;

verus! {

/// The absolute value of an integer.
pub open spec fn abs_int(x: int) -> nat {
    if x < 0 { (-x) as nat } else { x as nat }
}

/// Greatest common divisor of two naturals, following Euclid's recursion
/// `gcd(a, 0) = a`, `gcd(a, b) = gcd(b, a mod b)`.
pub open spec fn spec_gcd(a: nat, b: nat) -> nat
    decreases b,
{
    if b == 0 {
        a
    } else {
        spec_gcd(b, a % b)
    }
}

/// Euclid's algorithm on unsigned integers.
pub fn gcd(a: u128, b: u128) -> (r: u128)
    ensures
        r == spec_gcd(a as nat, b as nat),
{
    let mut x: u128 = a;
    let mut y: u128 = b;
    while y != 0
        invariant
            spec_gcd(x as nat, y as nat) == spec_gcd(a as nat, b as nat),
        decreases y,
    {
        let r = x % y;
        x = y;
        y = r;
    }
    x
}

/// Extended Euclid on non-negative inputs. Besides Bezout's identity it
/// bounds the coefficients, which keeps every intermediate value in range.
fn extended_gcd_nonneg(a: i128, b: i128) -> (r: (i128, i128, i128))
    requires
        a >= 0,
        b >= 0,
    ensures
        r.0 == spec_gcd(a as nat, b as nat),
        a * r.1 + b * r.2 == r.0,
        abs_int(r.1 as int) <= if b == 0 { 1 } else { b as int },
        abs_int(r.2 as int) <= if a == 0 { 1 } else { a as int },
        b == 0 ==> r.1 == 1 && r.2 == 0,
    decreases b,
{
    if b == 0 {
        (a, 1, 0)
    } else {
        let q = a / b;
        let rem = a % b;
        let (g, x1, y1) = extended_gcd_nonneg(b, rem);
        proof {
            lemma_fundamental_div_mod(a as int, b as int);
        }
        assert(a == q * b + rem) by (nonlinear_arith)
            requires
                a == b * q + rem,
        ;
        assert(q >= 0);
        assert(abs_int(q * y1) <= q * b) by (nonlinear_arith)
            requires
                q >= 0,
                abs_int(y1 as int) <= b,
        ;
        assert(q * b <= a) by (nonlinear_arith)
            requires
                a == q * b + rem,
                rem >= 0,
        ;
        let y = x1 - q * y1;
        assert(a * y1 + b * y == g) by (nonlinear_arith)
            requires
                a == q * b + rem,
                b * x1 + rem * y1 == g,
                y == x1 - q * y1,
        ;
        (g, y1, y)
    }
}

/// Extended Euclidean algorithm: returns `(g, x, y)` with `g` the greatest
/// common divisor of `|a|` and `|b|` and `a * x + b * y == g`.
pub fn extended_gcd(a: i128, b: i128) -> (r: (i128, i128, i128))
    requires
        a > i128::MIN,
        b > i128::MIN,
    ensures
        r.0 == spec_gcd(abs_int(a as int), abs_int(b as int)),
        a * r.1 + b * r.2 == r.0,
{
    let ua: i128 = if a < 0 { -a } else { a };
    let ub: i128 = if b < 0 { -b } else { b };
    let (g, x, y) = extended_gcd_nonneg(ua, ub);
    let sx: i128 = if a < 0 { -x } else { x };
    let sy: i128 = if b < 0 { -y } else { y };
    assert(a * sx == ua * x) by (nonlinear_arith)
        requires
            sx == if a < 0 { -x } else { x as int },
            ua == if a < 0 { -a } else { a as int },
    ;
    assert(b * sy == ub * y) by (nonlinear_arith)
        requires
            sy == if b < 0 { -y } else { y as int },
            ub == if b < 0 { -b } else { b as int },
    ;
    (g, sx, sy)
}

} // verus!
