//! Second-preimage search against a 32-bit multiplicative rolling hash.
//!
//! Given a fixed prefix, a fixed suffix and a target value, the crate finds
//! every short string over a restricted alphabet that, placed between the two,
//! makes the hash of the whole equal the target.
//!
//! - [`hash`]: the hash, the inverse modulo 2^32, and what is known of a
//!   suffix before the search starts.
//! - [`alphabet`]: the symbols, their ranges and their lane groups.
//! - [`search`]: the depth-first walk that finds the strings.
//! - [`grid`]: the same search as one short search per lane, for a parallel
//!   machine, and the sizes of what such a machine is handed.
//! - [`device`]: which devices can run the grid, and which is preferred.
//! - [`matching`], [`const_vec`], [`modular`]: the string that is found, a
//!   vector of fixed capacity, and congruence modulo 2^32.

pub mod alphabet;
pub mod const_vec;
pub mod device;
pub mod grid;
pub mod hash;
pub mod matching;
pub mod modular;
pub mod search;
