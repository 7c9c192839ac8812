//! Maximal multiplicative order modulo m.
//!
//! For a modulus `m >= 2`, [`ModularRing`] factors `m`, derives the exponent
//! of its unit group (the Carmichael function of `m`), tests arbitrary
//! integers for maximal multiplicative order, and searches outward from an
//! anchor for the nearest integer of maximal order.

pub mod arith;
pub mod factor;
pub mod ring;
pub mod search;

pub use arith::pow_nat;
pub use arith::spec_gcd;
pub use arith::spec_lcm;
pub use ring::ModularRing;
pub use ring::RingError;
pub use search::SEARCH_LIMIT;
