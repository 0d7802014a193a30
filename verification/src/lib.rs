//! Exact arithmetic modulo a fixed modulus, with a table of binomial
//! coefficients on top of it, a Fenwick tree and a token scanner.

pub mod data_structures;
pub mod math;
pub mod modint;
pub mod scan;
