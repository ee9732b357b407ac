//! Exact-arithmetic number theory on 64-bit unsigned integers: greatest common
//! divisors (binary method), Bezout coefficients (extended Euclid) and least
//! common multiples, each proved against a mathematical definition.

pub mod divisibility;
pub mod gcd;
pub mod lcm;
pub mod map;

pub use gcd::{extended_gcd, gcd, gcd_many};
pub use lcm::{lcm, lcm_many};
pub use map::OrderedMap;

