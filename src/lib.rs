//! Poseidon2 hashing over the Mersenne-31 prime field: the permutation, a
//! sponge over it and chained hashing of fixed-size messages.

pub mod field;
pub mod poseidon2;
pub mod sponge;
