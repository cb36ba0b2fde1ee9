use crate::primality::{is_probable_prime_u64, miller_rabin};
use rand::Rng;
use vstd::prelude::*;

verus! {

/// The candidate derived from a draw: the draw with its lowest bit set,
/// raised to 3 when smaller.
pub open spec fn candidate_of(draw: nat) -> nat {
    let odd = if draw % 2 == 0 { draw + 1 } else { draw };
    if odd < 3 {
        3
    } else {
        odd
    }
}

/// Relies on rand's `thread_rng().gen_range(lo..hi)`, which returns a value
/// of `[lo, hi)` and panics on an empty range.
#[verifier::external_body]
fn draw_in_range(lo: u64, hi: u64) -> (r: u64)
    requires
        lo < hi,
    ensures
        lo <= r < hi,
{
    rand::thread_rng().gen_range(lo..hi)
}

/// The candidate for a draw: odd, and at least 3.
pub fn prime_candidate(draw: u64) -> (r: u64)
    ensures
        r == candidate_of(draw as nat),
        r % 2 == 1,
        r >= 3,
{
    let k = draw | 1;
    assert(k == if draw % 2 == 0 { (draw + 1) as u64 } else { draw }) by (bit_vector)
        requires
            k == draw | 1,
    ;
    if k < 3 {
        3
    } else {
        k
    }
}

/// A candidate drawn from `[lo, hi)` lies in `[lo, hi]`, or is 3.
pub proof fn lemma_candidate_in_range(draw: nat, lo: nat, hi: nat)
    requires
        lo <= draw < hi,
    ensures
        (lo <= candidate_of(draw) <= hi) || candidate_of(draw) == 3,
        candidate_of(draw) % 2 == 1,
{
}

/// What an attempt yields for a given draw: its candidate when that passes
/// the Miller-Rabin test, and nothing otherwise.
pub open spec fn attempt_outcome(draw: u64) -> Option<u64> {
    let c = candidate_of(draw as nat);
    if miller_rabin(c) {
        Some(c as u64)
    } else {
        None
    }
}

/// Forms the candidate for `draw` and keeps it when it passes the test.
pub fn prime_from_draw(draw: u64) -> (r: Option<u64>)
    ensures
        r == attempt_outcome(draw),
{
    let k = prime_candidate(draw);
    if is_probable_prime_u64(k) {
        Some(k)
    } else {
        None
    }
}

/// One attempt at a random prime: draws from `[lo, hi)` and returns the
/// outcome for that draw. A prime returned lies in `[lo, hi]`, or is 3.
pub fn try_generate_prime(lo: u64, hi: u64) -> (r: Option<u64>)
    requires
        lo < hi,
    ensures
        exists|d: u64| lo <= d < hi && r == attempt_outcome(d),
        r matches Some(v) ==> miller_rabin(v as nat) && ((lo <= v <= hi) || v == 3),
{
    let draw = draw_in_range(lo, hi);
    proof {
        lemma_candidate_in_range(draw as nat, lo as nat, hi as nat);
    }
    prime_from_draw(draw)
}

} // verus!
