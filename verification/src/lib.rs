//! SHAKE128: the Keccak-f[1600] permutation and the sponge built on it.

pub mod keccak;
pub mod sponge;
pub mod text;

pub use keccak::State;
pub use sponge::shake128;
