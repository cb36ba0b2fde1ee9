//! Modular arithmetic and elementary number theory on native integers:
//! residue arithmetic, Euclid's algorithm, modular inverses, Euler's
//! totient, two-modulus Chinese remaindering, deterministic Miller-Rabin
//! primality testing and random prime search.

pub mod crt;
pub mod euclid;
pub mod fermat;
pub mod generator;
pub mod inverse;
pub mod modular;
pub mod primality;
pub mod totient;

pub use crt::crt_pair;
pub use euclid::{extended_gcd, gcd};
pub use generator::{prime_candidate, prime_from_draw, try_generate_prime};
pub use inverse::mod_inv;
pub use modular::{mod_add, mod_mul, mod_pow, mod_sub};
pub use primality::is_probable_prime_u64;
pub use totient::phi;
